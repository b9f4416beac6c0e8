//! The template tree as handed over by a walk of the source directory, the
//! writes that rendering it produces, and a model of what those writes do to
//! the output tree.

use vstd::prelude::*;
use crate::template::{render_contents, render_file};
use crate::vars::VarMap;

verus! {

/// One entry of the template tree, identified by its path relative to the
/// template root.
pub enum TemplateNode {
    Directory { path: String },
    File { path: String, contents: Vec<u8> },
}

/// A relative path with the file contents at it; `None` for a directory.
pub type Entry = (Seq<char>, Option<Seq<u8>>);

impl View for TemplateNode {
    type V = Entry;

    open spec fn view(&self) -> Entry {
        match self {
            TemplateNode::Directory { path } => (path@, None),
            TemplateNode::File { path, contents } => (path@, Some(contents@)),
        }
    }
}

/// One change to the output tree, at a path relative to its root.
pub enum WriteOp {
    /// Create the directory and any missing parents.
    CreateDir { path: String },
    /// Create any missing parents, then write the file, replacing what was there.
    WriteFile { path: String, contents: Vec<u8> },
}

impl View for WriteOp {
    type V = Entry;

    open spec fn view(&self) -> Entry {
        match self {
            WriteOp::CreateDir { path } => (path@, None),
            WriteOp::WriteFile { path, contents } => (path@, Some(contents@)),
        }
    }
}

pub enum BootstrapError {
    /// Two template entries share this relative path.
    DuplicatePath { path: String },
}

/// What a bootstrap renders with: the resolved variables and the output root.
pub struct BootstrapContext {
    pub vars: VarMap,
    pub output_dir: String,
}

pub open spec fn nodes_view(v: Seq<TemplateNode>) -> Seq<Entry> {
    v.map_values(|n: TemplateNode| n@)
}

pub open spec fn ops_view(v: Seq<WriteOp>) -> Seq<Entry> {
    v.map_values(|o: WriteOp| o@)
}

pub open spec fn paths_unique(s: Seq<Entry>) -> bool {
    forall|i: int, j: int|
        0 <= i < s.len() && 0 <= j < s.len() && #[trigger] s[i].0 == #[trigger] s[j].0 ==> i == j
}

/// The write that one template entry becomes.
pub open spec fn plan_entry(e: Entry, vars: Map<Seq<char>, Seq<char>>) -> Entry {
    match e.1 {
        Some(c) => (e.0, Some(render_file(c, vars))),
        None => (e.0, None),
    }
}

/// The writes that a template tree becomes, one per entry, in order.
pub open spec fn plan_of(nodes: Seq<Entry>, vars: Map<Seq<char>, Seq<char>>) -> Seq<Entry> {
    nodes.map_values(|e: Entry| plan_entry(e, vars))
}

/// The output tree: relative path to file contents, `None` for a directory.
pub type Tree = Map<Seq<char>, Option<Seq<u8>>>;

/// The output tree after the writes, in order; each overwrites its path and
/// nothing is ever removed.
pub open spec fn apply_ops(t: Tree, ops: Seq<Entry>) -> Tree
    decreases ops.len(),
{
    if ops.len() == 0 {
        t
    } else {
        apply_ops(t, ops.drop_last()).insert(ops.last().0, ops.last().1)
    }
}

pub open spec fn touches(ops: Seq<Entry>, k: Seq<char>) -> bool {
    exists|i: int| 0 <= i < ops.len() && ops[i].0 == k
}

/// A path that no write touches keeps what it had.
pub proof fn lemma_apply_untouched(t: Tree, ops: Seq<Entry>, k: Seq<char>)
    requires
        !touches(ops, k),
    ensures
        apply_ops(t, ops).contains_key(k) == t.contains_key(k),
        apply_ops(t, ops)[k] == t[k],
    decreases ops.len(),
{
    if ops.len() > 0 {
        assert(ops[ops.len() - 1].0 != k);
        assert(!touches(ops.drop_last(), k)) by {
            if touches(ops.drop_last(), k) {
                let i = choose|i: int| 0 <= i < ops.drop_last().len() && ops.drop_last()[i].0 == k;
                assert(ops[i].0 == k);
            }
        }
        lemma_apply_untouched(t, ops.drop_last(), k);
    }
}

/// A path that some write touches is present afterwards, and what it holds
/// does not depend on the tree the writes started from.
pub proof fn lemma_apply_touched(t1: Tree, t2: Tree, ops: Seq<Entry>, k: Seq<char>)
    requires
        touches(ops, k),
    ensures
        apply_ops(t1, ops).contains_key(k),
        apply_ops(t2, ops).contains_key(k),
        apply_ops(t1, ops)[k] == apply_ops(t2, ops)[k],
    decreases ops.len(),
{
    if ops.last().0 != k {
        let i = choose|i: int| 0 <= i < ops.len() && ops[i].0 == k;
        assert(ops.drop_last()[i].0 == k);
        lemma_apply_touched(t1, t2, ops.drop_last(), k);
    }
}

/// Applying the same writes a second time changes nothing.
pub proof fn lemma_apply_idempotent(t: Tree, ops: Seq<Entry>)
    ensures
        apply_ops(apply_ops(t, ops), ops) == apply_ops(t, ops),
{
    let once = apply_ops(t, ops);
    let twice = apply_ops(once, ops);
    assert forall|k: Seq<char>| #[trigger] twice.contains_key(k) == once.contains_key(k) by {
        if touches(ops, k) {
            lemma_apply_touched(once, t, ops, k);
        } else {
            lemma_apply_untouched(once, ops, k);
        }
    }
    assert forall|k: Seq<char>| twice.contains_key(k) implies #[trigger] twice[k] == once[k] by {
        if touches(ops, k) {
            lemma_apply_touched(once, t, ops, k);
        } else {
            lemma_apply_untouched(once, ops, k);
        }
    }
    assert(twice =~= once);
}

/// The paths present after the writes are those present before and those
/// written, and no others.
pub proof fn lemma_apply_dom(t: Tree, ops: Seq<Entry>)
    ensures
        apply_ops(t, ops).dom() == t.dom().union(ops.map_values(|e: Entry| e.0).to_set()),
{
    let paths = ops.map_values(|e: Entry| e.0);
    assert forall|k: Seq<char>|
        #[trigger] apply_ops(t, ops).dom().contains(k) == t.dom().union(paths.to_set()).contains(k) by {
        if touches(ops, k) {
            lemma_apply_touched(t, t, ops, k);
            let i = choose|i: int| 0 <= i < ops.len() && ops[i].0 == k;
            assert(paths[i] == k);
        } else {
            lemma_apply_untouched(t, ops, k);
            if paths.to_set().contains(k) {
                let i = choose|i: int| 0 <= i < paths.len() && paths[i] == k;
                assert(ops[i].0 == k);
            }
        }
    }
    assert(apply_ops(t, ops).dom() =~= t.dom().union(paths.to_set()));
}

/// Renders the template tree into the writes that materialize it under the
/// output root: directories are created, files rendered with the context's
/// variables. Fails, before any write, when two entries share a path.
pub fn bootstrap(ctx: &BootstrapContext, templates: &Vec<TemplateNode>) -> (r: Result<
    Vec<WriteOp>,
    BootstrapError,
>)
    ensures
        match r {
            Ok(ops) => paths_unique(nodes_view(templates@)) && ops_view(ops@) == plan_of(
                nodes_view(templates@),
                ctx.vars@,
            ),
            Err(BootstrapError::DuplicatePath { path }) => !paths_unique(nodes_view(templates@))
                && exists|i: int, j: int|
                0 <= i < j < templates@.len() && nodes_view(templates@)[i].0 == path@
                    && nodes_view(templates@)[j].0 == path@,
        },
{
    let ghost nv = nodes_view(templates@);
    let n = templates.len();
    let mut i: usize = 0;
    while i < n
        invariant
            n == templates@.len(),
            nv == nodes_view(templates@),
            i <= n,
            forall|a: int, b: int| 0 <= a < i && a < b < n ==> #[trigger] nv[a].0 != #[trigger] nv[b].0,
        decreases n - i,
    {
        let p = node_path(&templates[i]);
        let mut j: usize = i + 1;
        while j < n
            invariant
                n == templates@.len(),
                nv == nodes_view(templates@),
                i < n,
                i < j <= n,
                p@ == nv[i as int].0,
                forall|a: int, b: int|
                    0 <= a < i && a < b < n ==> #[trigger] nv[a].0 != #[trigger] nv[b].0,
                forall|b: int| i < b < j ==> nv[i as int].0 != #[trigger] nv[b].0,
            decreases n - j,
        {
            let q = node_path(&templates[j]);
            if *p == *q {
                proof {
                    assert(nv[i as int].0 == nv[j as int].0);
                }
                return Err(BootstrapError::DuplicatePath { path: p.clone() });
            }
            j = j + 1;
        }
        i = i + 1;
    }
    assert(paths_unique(nv)) by {
        assert forall|a: int, b: int|
            0 <= a < nv.len() && 0 <= b < nv.len() && #[trigger] nv[a].0 == #[trigger] nv[b].0 implies a
            == b by {
            if a < b {
                assert(nv[a].0 != nv[b].0);
            } else if b < a {
                assert(nv[b].0 != nv[a].0);
            }
        }
    }
    let mut ops: Vec<WriteOp> = Vec::new();
    let mut k: usize = 0;
    while k < n
        invariant
            n == templates@.len(),
            nv == nodes_view(templates@),
            k <= n,
            ops_view(ops@) == plan_of(nv.take(k as int), ctx.vars@),
        decreases n - k,
    {
        let op = match &templates[k] {
            TemplateNode::Directory { path } => WriteOp::CreateDir { path: path.clone() },
            TemplateNode::File { path, contents } => WriteOp::WriteFile {
                path: path.clone(),
                contents: render_contents(contents.as_slice(), &ctx.vars),
            },
        };
        proof {
            assert(nv[k as int] == templates@[k as int]@);
            assert(op@ == plan_entry(nv[k as int], ctx.vars@));
        }
        let ghost prev = ops@;
        let ghost opv = op@;
        ops.push(op);
        proof {
            assert(ops_view(ops@) =~= ops_view(prev).push(opv));
            assert(plan_of(nv.take(k + 1), ctx.vars@) =~= plan_of(nv.take(k as int), ctx.vars@).push(
                plan_entry(nv[k as int], ctx.vars@),
            ));
            assert(ops_view(ops@) =~= plan_of(nv.take(k + 1), ctx.vars@));
        }
        k = k + 1;
    }
    assert(nv.take(n as int) =~= nv);
    Ok(ops)
}

fn node_path(n: &TemplateNode) -> (r: &String)
    ensures
        r@ == n@.0,
{
    match n {
        TemplateNode::Directory { path } => path,
        TemplateNode::File { path, .. } => path,
    }
}

} // verus!
