//! The build step that bootstraps a server's configuration directory: resolve
//! the variables, render the template tree, and add the acceptance file where
//! the policy asks for it.

use vstd::prelude::*;
use crate::eula::{acceptance_entry, acceptance_path, acceptance_write, needs_acceptance_file, Downloadable, ServerLauncher};
use crate::plan::{
    apply_ops, bootstrap, lemma_apply_dom, lemma_apply_idempotent, nodes_view, ops_view, paths_unique,
    plan_of, BootstrapContext, BootstrapError, Entry, TemplateNode, Tree, WriteOp,
};
use crate::vars::{pairs_view, resolve, resolved};

verus! {

/// The parts of a server's configuration that bootstrapping reads.
pub struct Server {
    pub name: String,
    pub mc_version: String,
    /// Variables declared in the configuration, in declaration order.
    pub variables: Vec<(String, String)>,
    pub launcher: ServerLauncher,
    pub jar: Downloadable,
}

pub struct BuildContext {
    pub server: Server,
    pub output_dir: String,
}

/// The variables a build renders with.
pub open spec fn build_vars(ctx: BuildContext, env: Seq<(Seq<char>, Seq<char>)>) -> Map<
    Seq<char>,
    Seq<char>,
> {
    resolved(pairs_view(ctx.server.variables@), env, ctx.server.name@, ctx.server.mc_version@)
}

/// The writes of a whole bootstrap: the rendered template tree, then the
/// acceptance file where the policy asks for it.
pub open spec fn bootstrap_plan(
    ctx: BuildContext,
    env: Seq<(Seq<char>, Seq<char>)>,
    nodes: Seq<Entry>,
) -> Seq<Entry> {
    let ops = plan_of(nodes, build_vars(ctx, env));
    if needs_acceptance_file(ctx.server.jar, ctx.server.launcher) {
        ops.push(acceptance_entry())
    } else {
        ops
    }
}

impl BuildContext {
    /// The writes that bootstrap the output directory from the template tree,
    /// given the process environment as (name, value) pairs.
    pub fn bootstrap_files(&self, env: &Vec<(String, String)>, templates: &Vec<TemplateNode>) -> (r:
        Result<Vec<WriteOp>, BootstrapError>)
        ensures
            match r {
                Ok(ops) => paths_unique(nodes_view(templates@)) && ops_view(ops@) == bootstrap_plan(
                    *self,
                    pairs_view(env@),
                    nodes_view(templates@),
                ),
                Err(BootstrapError::DuplicatePath { path }) => !paths_unique(nodes_view(templates@))
                    && exists|i: int, j: int|
                    0 <= i < j < templates@.len() && nodes_view(templates@)[i].0 == path@
                        && nodes_view(templates@)[j].0 == path@,
            },
    {
        let vars = resolve(&self.server.variables, env, &self.server.name, &self.server.mc_version);
        let ctx = BootstrapContext { vars, output_dir: self.output_dir.clone() };
        let mut ops = match bootstrap(&ctx, templates) {
            Ok(ops) => ops,
            Err(e) => {
                return Err(e);
            },
        };
        let ghost rendered = ops@;
        match acceptance_write(&self.server.jar, &self.server.launcher) {
            Some(op) => {
                ops.push(op);
                assert(ops_view(ops@) =~= ops_view(rendered).push(acceptance_entry()));
            },
            None => {},
        }
        Ok(ops)
    }
}

/// Running the same bootstrap twice leaves the output tree as one run left it.
pub proof fn rerun_is_idempotent(
    t: Tree,
    ctx: BuildContext,
    env: Seq<(Seq<char>, Seq<char>)>,
    nodes: Seq<Entry>,
)
    ensures
        apply_ops(apply_ops(t, bootstrap_plan(ctx, env, nodes)), bootstrap_plan(ctx, env, nodes))
            == apply_ops(t, bootstrap_plan(ctx, env, nodes)),
{
    lemma_apply_idempotent(t, bootstrap_plan(ctx, env, nodes));
}

/// After a bootstrap the output tree holds every template path, keeps what it
/// held, and gains no path but those and the acceptance file, if written.
pub proof fn output_mirrors_templates(
    t: Tree,
    ctx: BuildContext,
    env: Seq<(Seq<char>, Seq<char>)>,
    nodes: Seq<Entry>,
)
    ensures
        apply_ops(t, bootstrap_plan(ctx, env, nodes)).dom() == t.dom().union(
            nodes.map_values(|e: Entry| e.0).to_set(),
        ).union(
            if needs_acceptance_file(ctx.server.jar, ctx.server.launcher) {
                set![acceptance_path()]
            } else {
                Set::empty()
            },
        ),
{
    let plan = bootstrap_plan(ctx, env, nodes);
    let rendered = plan_of(nodes, build_vars(ctx, env));
    lemma_apply_dom(t, plan);
    let paths = nodes.map_values(|e: Entry| e.0);
    assert(rendered.map_values(|e: Entry| e.0) =~= paths);
    if needs_acceptance_file(ctx.server.jar, ctx.server.launcher) {
        assert(plan.map_values(|e: Entry| e.0) =~= paths.push(acceptance_path()));
        assert(paths.push(acceptance_path()).to_set() =~= paths.to_set().insert(acceptance_path())) by {
            assert forall|k: Seq<char>|
                paths.push(acceptance_path()).to_set().contains(k) implies paths.to_set().insert(
                    acceptance_path(),
                ).contains(k) by {
                let i = choose|i: int|
                    0 <= i < paths.push(acceptance_path()).len() && paths.push(acceptance_path())[i]
                        == k;
                if i < paths.len() {
                    assert(paths[i] == k);
                }
            }
            assert forall|k: Seq<char>|
                paths.to_set().insert(acceptance_path()).contains(k) implies paths.push(
                    acceptance_path(),
                ).to_set().contains(k) by {
                if k == acceptance_path() {
                    assert(paths.push(acceptance_path())[paths.len() as int] == k);
                } else {
                    let i = choose|i: int| 0 <= i < paths.len() && paths[i] == k;
                    assert(paths.push(acceptance_path())[i] == k);
                }
            }
        }
    }
    assert(apply_ops(t, plan).dom() =~= t.dom().union(paths.to_set()).union(
        if needs_acceptance_file(ctx.server.jar, ctx.server.launcher) {
            set![acceptance_path()]
        } else {
            Set::empty()
        },
    ));
}

/// When acceptance was not asked for, or the jar's launch takes the flag
/// itself, a bootstrap writes the rendered templates and nothing else.
pub proof fn no_acceptance_file_unless_needed(
    ctx: BuildContext,
    env: Seq<(Seq<char>, Seq<char>)>,
    nodes: Seq<Entry>,
)
    requires
        !ctx.server.launcher.eula_args || ctx.server.jar.spec_supports_acceptance_flag(),
    ensures
        bootstrap_plan(ctx, env, nodes) == plan_of(nodes, build_vars(ctx, env)),
{
}

} // verus!
