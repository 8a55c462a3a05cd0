//! The workspace view, assembled from a partition.

use vstd::prelude::*;
use crate::graph::RevisionGraph;
use crate::partition::{chains, detached_working_copy, first_immutable, opt_int, parents_first,
    partition, plan_in_range, plan_seq, shared_candidates, stack_list, tips, Partition, StackPlan};
use crate::revision::{copy_files, copy_strings, same_except_files, same_revision, FileChange,
    RevisionInfo, Stack, WorkspaceState};

verus! {

/// `r` is revision `src` as shown in a stack: the working copy carries the
/// uncommitted files, any other revision its own.
pub open spec fn stacked_copy(src: RevisionInfo, r: RevisionInfo, uncommitted: Seq<FileChange>) -> bool {
    &&& same_except_files(src, r)
    &&& r.files@ == (if src.is_working_copy { uncommitted } else { src.files@ })
}

/// `v` holds copies of the revisions of `g` at positions `idx`.
pub open spec fn copies_of(v: Seq<RevisionInfo>, g: Seq<RevisionInfo>, idx: Seq<int>) -> bool {
    &&& v.len() == idx.len()
    &&& forall|j: int| 0 <= j < v.len() ==> same_revision(g[idx[j]], #[trigger] v[j])
}

pub open spec fn opt_copy_of(o: Option<RevisionInfo>, g: Seq<RevisionInfo>, i: Option<int>) -> bool {
    match i {
        Some(x) => o is Some && same_revision(g[x], o->0),
        None => o is None,
    }
}

/// `st` is the stack of tip `tip` over positions `idx`.
pub open spec fn stack_of(
    st: Stack,
    g: Seq<RevisionInfo>,
    tip: int,
    idx: Seq<int>,
    uncommitted: Seq<FileChange>,
) -> bool {
    &&& st.bookmarks@ == g[tip].bookmarks@
    &&& st.revisions@.len() == idx.len()
    &&& forall|j: int| 0 <= j < idx.len() ==> stacked_copy(g[idx[j]], #[trigger] st.revisions@[j], uncommitted)
}

/// `s` is the workspace view of graph `g` with working copy `wc`.
pub open spec fn view_of(s: WorkspaceState, g: Seq<RevisionInfo>, wc: Seq<char>, uncommitted: Seq<FileChange>) -> bool {
    let cs = chains(g, wc);
    let sl = stack_list(tips(g, wc), cs, cs.len() as int);
    &&& opt_copy_of(s.trunk, g, first_immutable(g, 0))
    &&& s.stacks@.len() == sl.len()
    &&& forall|k: int| 0 <= k < sl.len() ==> stack_of(#[trigger] s.stacks@[k], g, sl[k].0, sl[k].1, uncommitted)
    &&& copies_of(s.shared_base@, g, parents_first(g, shared_candidates(g, cs, g.len() as int)))
    &&& opt_copy_of(s.working_copy, g, detached_working_copy(g, wc))
    &&& s.uncommitted_files@ == uncommitted
}

fn copy_at(g: &RevisionGraph, idx: &Vec<usize>) -> (r: Vec<RevisionInfo>)
    requires
        forall|j: int| 0 <= j < idx@.len() ==> (#[trigger] idx@[j]) < g.revisions@.len(),
    ensures
        copies_of(r@, g.revisions@, idx@.map_values(|x: usize| x as int)),
{
    let mut r: Vec<RevisionInfo> = Vec::new();
    let mut j: usize = 0;
    while j < idx.len()
        invariant
            j <= idx@.len(),
            r@.len() == j,
            forall|j2: int| 0 <= j2 < idx@.len() ==> (#[trigger] idx@[j2]) < g.revisions@.len(),
            forall|j2: int| 0 <= j2 < j ==> same_revision(g.revisions@[idx@[j2] as int], #[trigger] r@[j2]),
        decreases idx@.len() - j,
    {
        r.push(g.revisions[idx[j]].duplicate());
        j = j + 1;
    }
    r
}

fn copy_opt(g: &RevisionGraph, i: Option<usize>) -> (r: Option<RevisionInfo>)
    requires
        i is Some ==> i->0 < g.revisions@.len(),
    ensures
        opt_copy_of(r, g.revisions@, opt_int(i)),
{
    match i {
        Some(x) => Some(g.revisions[x].duplicate()),
        None => None,
    }
}

fn materialize_stack(g: &RevisionGraph, plan: &StackPlan, uncommitted: &Vec<FileChange>) -> (st: Stack)
    requires
        plan.tip < g.revisions@.len(),
        forall|j: int| 0 <= j < plan.revisions@.len() ==> (#[trigger] plan.revisions@[j]) < g.revisions@.len(),
    ensures
        stack_of(st, g.revisions@, plan.tip as int, plan.revisions@.map_values(|x: usize| x as int), uncommitted@),
{
    let mut revisions: Vec<RevisionInfo> = Vec::new();
    let mut j: usize = 0;
    while j < plan.revisions.len()
        invariant
            j <= plan.revisions@.len(),
            revisions@.len() == j,
            forall|j2: int| 0 <= j2 < plan.revisions@.len() ==> (#[trigger] plan.revisions@[j2]) < g.revisions@.len(),
            forall|j2: int| 0 <= j2 < j ==> stacked_copy(
                g.revisions@[plan.revisions@[j2] as int],
                #[trigger] revisions@[j2],
                uncommitted@,
            ),
        decreases plan.revisions@.len() - j,
    {
        let src = &g.revisions[plan.revisions[j]];
        let mut r = src.duplicate();
        if src.is_working_copy {
            r.files = copy_files(uncommitted);
        }
        revisions.push(r);
        j = j + 1;
    }
    Stack { bookmarks: copy_strings(&g.revisions[plan.tip].bookmarks), revisions }
}

/// The workspace view of `g`: trunk, stacks, shared base and detached
/// working copy. A working-copy revision inside a stack carries
/// `uncommitted_files`.
pub fn workspace_state(g: &RevisionGraph, uncommitted_files: Vec<FileChange>) -> (s: WorkspaceState)
    requires
        g.wf(),
    ensures
        view_of(s, g.revisions@, g.working_copy_id@, uncommitted_files@),
{
    let p = partition(g);
    let ghost sl = plan_seq(p.stacks@);
    let mut stacks: Vec<Stack> = Vec::new();
    let mut k: usize = 0;
    while k < p.stacks.len()
        invariant
            k <= p.stacks@.len(),
            stacks@.len() == k,
            sl == plan_seq(p.stacks@),
            p.in_range(g.revisions@.len()),
            forall|k2: int| 0 <= k2 < k ==> stack_of(#[trigger] stacks@[k2], g.revisions@, sl[k2].0, sl[k2].1, uncommitted_files@),
        decreases p.stacks@.len() - k,
    {
        assert(plan_in_range(p.stacks@[k as int], g.revisions@.len()));
        let st = materialize_stack(g, &p.stacks[k], &uncommitted_files);
        stacks.push(st);
        k = k + 1;
    }
    let shared_base = copy_at(g, &p.shared_base);
    let trunk = copy_opt(g, p.trunk);
    let working_copy = copy_opt(g, p.working_copy);
    WorkspaceState { trunk, stacks, shared_base, working_copy, uncommitted_files }
}

} // verus!
