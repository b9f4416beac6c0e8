//! License acceptance: which downloadable kinds need an `eula.txt` written for
//! them because their launch cannot take an acceptance flag.

use vstd::prelude::*;
use crate::plan::{Entry, WriteOp};

verus! {

/// Where the server jar comes from. Only the variant matters to the
/// acceptance policy; the fields say how the jar is fetched.
pub enum Downloadable {
    Url { url: String },
    Vanilla {},
    PaperMC { project: String, build: String },
    Purpur { build: String },
    BuildTools { args: Vec<String> },
    Fabric { loader: String, installer: String },
    Quilt { loader: String, installer: String },
    Modrinth { id: String, version: String },
    Jenkins { url: String, job: String, build: String, artifact: String },
}

impl Downloadable {
    /// The kind's own launch takes an acceptance flag. Vanilla, Fabric and
    /// Quilt launch through mechanisms that do not.
    pub open spec fn spec_supports_acceptance_flag(&self) -> bool {
        match self {
            Downloadable::Vanilla { .. } => false,
            Downloadable::Fabric { .. } => false,
            Downloadable::Quilt { .. } => false,
            Downloadable::Url { .. } => true,
            Downloadable::PaperMC { .. } => true,
            Downloadable::Purpur { .. } => true,
            Downloadable::BuildTools { .. } => true,
            Downloadable::Modrinth { .. } => true,
            Downloadable::Jenkins { .. } => true,
        }
    }

    pub fn supports_acceptance_flag(&self) -> (r: bool)
        ensures
            r == self.spec_supports_acceptance_flag(),
    {
        match self {
            Downloadable::Vanilla { .. } => false,
            Downloadable::Fabric { .. } => false,
            Downloadable::Quilt { .. } => false,
            Downloadable::Url { .. } => true,
            Downloadable::PaperMC { .. } => true,
            Downloadable::Purpur { .. } => true,
            Downloadable::BuildTools { .. } => true,
            Downloadable::Modrinth { .. } => true,
            Downloadable::Jenkins { .. } => true,
        }
    }
}

/// How the server is launched.
pub struct ServerLauncher {
    /// The user asked for the license to be accepted automatically.
    pub eula_args: bool,
}

/// The acceptance file must be synthesized: acceptance was asked for and the
/// kind's launch cannot take the flag.
pub open spec fn needs_acceptance_file(kind: Downloadable, launcher: ServerLauncher) -> bool {
    launcher.eula_args && !kind.spec_supports_acceptance_flag()
}

pub open spec fn acceptance_path() -> Seq<char> {
    "eula.txt"@
}

/// The single line `eula=true`.
pub open spec fn acceptance_contents() -> Seq<u8> {
    seq![0x65u8, 0x75, 0x6c, 0x61, 0x3d, 0x74, 0x72, 0x75, 0x65, 0x0a]
}

pub open spec fn acceptance_entry() -> Entry {
    (acceptance_path(), Some(acceptance_contents()))
}

/// The write of the acceptance file, when the policy asks for one.
pub fn acceptance_write(kind: &Downloadable, launcher: &ServerLauncher) -> (r: Option<WriteOp>)
    ensures
        r.is_some() == needs_acceptance_file(*kind, *launcher),
        r matches Some(op) ==> op@ == acceptance_entry(),
{
    if launcher.eula_args && !kind.supports_acceptance_flag() {
        let contents: Vec<u8> = vec![0x65u8, 0x75, 0x6c, 0x61, 0x3d, 0x74, 0x72, 0x75, 0x65, 0x0a];
        let op = WriteOp::WriteFile { path: "eula.txt".to_owned(), contents };
        assert(op@.1 == Some(acceptance_contents())) by {
            assert(contents@ =~= acceptance_contents());
        }
        Some(op)
    } else {
        None
    }
}

} // verus!
