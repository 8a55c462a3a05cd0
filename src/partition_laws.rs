//! What every partition satisfies: each revision has exactly one place,
//! the shared base lists parents first, the working copy is never lost,
//! and the result depends on the records alone.

use vstd::prelude::*;
use crate::graph::{find_id, holds_id, is_last_with_id, kept_record, lemma_sorted_unique, sorted_by_id, with_wc_flag, RevisionGraph};
use crate::order::{id_lt, lemma_id_lt_asymmetric, lemma_id_lt_irreflexive};
use vstd::set_lib::{lemma_int_range, lemma_len_subset, set_int_range};
use crate::partition::{bookmark_tips, lemma_first_ready_bounds, lemma_tips_in_range, chain, chains, detached_working_copy, first_ready, lists_parent,
    occurrences, parents_first, private_part, ready, shared_candidates, stack_list, tips, usage, walk,
    consumed, opt_int, plan_seq, Partition};
use crate::revision::RevisionInfo;

verus! {

/// How often `x` occurs over the revisions of all stacks in `sl`.
pub open spec fn stack_occurrences(sl: Seq<(int, Seq<int>)>, x: int) -> nat
    decreases sl.len(),
{
    if sl.len() == 0 {
        0
    } else {
        stack_occurrences(sl.drop_last(), x) + occurrences(sl.last().1, x)
    }
}

/// How many places position `x` takes in the partition of `g`: occurrences
/// in stacks, in the shared base, and as the detached working copy.
pub open spec fn placements(g: Seq<RevisionInfo>, wc: Seq<char>, x: int) -> nat {
    let cs = chains(g, wc);
    stack_occurrences(stack_list(tips(g, wc), cs, cs.len() as int), x)
        + occurrences(parents_first(g, shared_candidates(g, cs, g.len() as int)), x)
        + (if detached_working_copy(g, wc) == Some(x) { 1nat } else { 0nat })
}

/// Some chain walks through `x`.
pub open spec fn on_some_chain(cs: Seq<Seq<int>>, x: int) -> bool {
    exists|c: int, j: int| 0 <= c < cs.len() && 0 <= j < cs[c].len() && #[trigger] cs[c][j] == x
}

/// `rank` decreases from every revision to each of its parents: the graph
/// has no cycle.
pub open spec fn ranked(g: Seq<RevisionInfo>, rank: spec_fn(int) -> nat) -> bool {
    forall|x: int, y: int|
        0 <= x < g.len() && 0 <= y < g.len() && #[trigger] lists_parent(g[x], #[trigger] g[y].change_id@)
            ==> rank(y) < rank(x)
}

proof fn lemma_occurrences_filter(s: Seq<int>, p: spec_fn(int) -> bool, x: int)
    ensures
        occurrences(s.filter(p), x) == (if p(x) { occurrences(s, x) } else { 0 }),
    decreases s.len(),
{
    reveal(Seq::filter);
    if s.len() > 0 {
        lemma_occurrences_filter(s.drop_last(), p, x);
        let sub = s.drop_last().filter(p);
        if p(s.last()) {
            assert(s.filter(p) == sub.push(s.last()));
            assert(sub.push(s.last()).drop_last() =~= sub);
        }
    }
}

proof fn lemma_occurrences_positive(s: Seq<int>, j: int)
    requires
        0 <= j < s.len(),
    ensures
        occurrences(s, s[j]) >= 1,
    decreases s.len(),
{
    if j < s.len() - 1 {
        lemma_occurrences_positive(s.drop_last(), j);
    }
}

proof fn lemma_usage_positive(cs: Seq<Seq<int>>, c: int, j: int)
    requires
        0 <= c < cs.len(),
        0 <= j < cs[c].len(),
    ensures
        usage(cs, cs[c][j]) >= 1,
    decreases cs.len(),
{
    if c < cs.len() - 1 {
        lemma_usage_positive(cs.drop_last(), c, j);
    } else {
        lemma_occurrences_positive(cs[c], j);
    }
}

proof fn lemma_stack_occurrences(tp: Seq<int>, cs: Seq<Seq<int>>, m: int, x: int)
    requires
        0 <= m <= cs.len(),
    ensures
        stack_occurrences(stack_list(tp, cs, m), x) == (if usage(cs, x) == 1 {
            usage(cs.subrange(0, m), x)
        } else {
            0
        }),
    decreases m,
{
    let p = |y: int| usage(cs, y) == 1;
    if m > 0 {
        lemma_stack_occurrences(tp, cs, m - 1, x);
        lemma_occurrences_filter(cs[m - 1], p, x);
        assert(cs.subrange(0, m).drop_last() =~= cs.subrange(0, m - 1));
        let sl = stack_list(tp, cs, m - 1);
        if private_part(cs, m - 1).len() > 0 {
            assert(sl.push((tp[m - 1], private_part(cs, m - 1))).drop_last() =~= sl);
        } else if usage(cs, x) == 1 {
            if occurrences(cs[m - 1], x) > 0 {
                lemma_occurrences_in(cs[m - 1], x);
                let j = choose|j: int| 0 <= j < cs[m - 1].len() && #[trigger] cs[m - 1][j] == x;
                broadcast use vstd::seq_lib::group_filter_ensures;
                assert(private_part(cs, m - 1).contains(x));
            }
        }
    } else {
        assert(cs.subrange(0, 0).len() == 0);
    }
}

proof fn lemma_occurrences_in(s: Seq<int>, x: int)
    requires
        occurrences(s, x) > 0,
    ensures
        exists|j: int| 0 <= j < s.len() && #[trigger] s[j] == x,
    decreases s.len(),
{
    if s.last() != x {
        lemma_occurrences_in(s.drop_last(), x);
        let j = choose|j: int| 0 <= j < s.drop_last().len() && #[trigger] s.drop_last()[j] == x;
        assert(s[j] == x);
    }
}

proof fn lemma_occurrences_remove(s: Seq<int>, k: int, x: int)
    requires
        0 <= k < s.len(),
    ensures
        occurrences(s, x) == occurrences(s.remove(k), x) + (if s[k] == x { 1nat } else { 0nat }),
    decreases s.len(),
{
    if k < s.len() - 1 {
        lemma_occurrences_remove(s.drop_last(), k, x);
        assert(s.remove(k).drop_last() =~= s.drop_last().remove(k));
        assert(s.remove(k).last() == s.last());
    } else {
        assert(s.remove(k) =~= s.drop_last());
    }
}

proof fn lemma_occurrences_concat(a: Seq<int>, b: Seq<int>, x: int)
    ensures
        occurrences(a + b, x) == occurrences(a, x) + occurrences(b, x),
    decreases b.len(),
{
    if b.len() == 0 {
        assert(a + b =~= a);
    } else {
        lemma_occurrences_concat(a, b.drop_last(), x);
        assert((a + b).drop_last() =~= a + b.drop_last());
    }
}

proof fn lemma_parents_first_occurrences(g: Seq<RevisionInfo>, rem: Seq<int>, x: int)
    ensures
        occurrences(parents_first(g, rem), x) == occurrences(rem, x),
    decreases rem.len(),
{
    if rem.len() > 0 {
        lemma_first_ready_bounds(g, rem, 0);
        let k = first_ready(g, rem, 0);
        lemma_parents_first_occurrences(g, rem.remove(k), x);
        assert(parents_first(g, rem) == seq![rem[k]] + parents_first(g, rem.remove(k)));
        lemma_occurrences_concat(seq![rem[k]], parents_first(g, rem.remove(k)), x);
        assert(seq![rem[k]].drop_last() =~= Seq::<int>::empty());
        assert(occurrences(Seq::<int>::empty(), x) == 0);
        assert(occurrences(seq![rem[k]], x) == (if rem[k] == x { 1nat } else { 0nat }));
        lemma_occurrences_remove(rem, k, x);
    } else {
        assert(parents_first(g, rem) == Seq::<int>::empty());
    }
}

proof fn lemma_shared_candidates_occurrences(g: Seq<RevisionInfo>, cs: Seq<Seq<int>>, m: int, x: int)
    requires
        0 <= m <= g.len(),
    ensures
        occurrences(shared_candidates(g, cs, m), x) == (if 0 <= x < m && usage(cs, x) > 1 && !g[x].is_immutable {
            1nat
        } else {
            0nat
        }),
    decreases m,
{
    if m > 0 {
        lemma_shared_candidates_occurrences(g, cs, m - 1, x);
        let sc = shared_candidates(g, cs, m - 1);
        if usage(cs, m - 1) > 1 && !g[m - 1].is_immutable {
            assert(sc.push(m - 1).drop_last() =~= sc);
        }
    }
}

/// Every mutable revision takes at most one place in the partition: in one
/// stack once, in the shared base once, or as the detached working copy.
/// Each one that a chain walks through, and the working copy, takes exactly
/// one.
pub proof fn lemma_partition_complete(g: RevisionGraph, x: int)
    requires
        g.wf(),
        0 <= x < g.revisions@.len(),
        !g.revisions@[x].is_immutable,
    ensures
        placements(g.revisions@, g.working_copy_id@, x) <= 1,
        on_some_chain(chains(g.revisions@, g.working_copy_id@), x)
            || find_id(g.revisions@, g.working_copy_id@) == Some(x)
            ==> placements(g.revisions@, g.working_copy_id@, x) == 1,
{
    let revs = g.revisions@;
    let wc = g.working_copy_id@;
    let cs = chains(revs, wc);
    lemma_stack_occurrences(tips(revs, wc), cs, cs.len() as int, x);
    assert(cs.subrange(0, cs.len() as int) =~= cs);
    lemma_parents_first_occurrences(revs, shared_candidates(revs, cs, revs.len() as int), x);
    lemma_shared_candidates_occurrences(revs, cs, revs.len() as int, x);
    if on_some_chain(cs, x) {
        let (c, j) = choose|c: int, j: int| 0 <= c < cs.len() && 0 <= j < cs[c].len() && #[trigger] cs[c][j] == x;
        lemma_usage_positive(cs, c, j);
    }
}

proof fn lemma_first_ready_is_ready(g: Seq<RevisionInfo>, rem: Seq<int>, k: int, j: int)
    requires
        0 <= k <= j < rem.len(),
        ready(g, rem, rem[j]),
    ensures
        ready(g, rem, rem[first_ready(g, rem, k)]),
    decreases rem.len() - k,
{
    if !ready(g, rem, rem[k]) {
        lemma_first_ready_is_ready(g, rem, k + 1, j);
    }
}

proof fn lemma_min_rank(rem: Seq<int>, rank: spec_fn(int) -> nat) -> (j: int)
    requires
        rem.len() > 0,
    ensures
        0 <= j < rem.len(),
        forall|i: int| 0 <= i < rem.len() ==> rank(rem[j]) <= rank(#[trigger] rem[i]),
    decreases rem.len(),
{
    if rem.len() == 1 {
        0
    } else {
        let j0 = lemma_min_rank(rem.drop_last(), rank);
        assert(forall|i: int| 0 <= i < rem.len() - 1 ==> rem.drop_last()[i] == rem[i]);
        if rank(rem.last()) < rank(rem[j0]) {
            (rem.len() - 1) as int
        } else {
            j0
        }
    }
}

proof fn lemma_parents_first_members(g: Seq<RevisionInfo>, rem: Seq<int>, i: int)
    requires
        0 <= i < parents_first(g, rem).len(),
    ensures
        exists|j: int| 0 <= j < rem.len() && #[trigger] rem[j] == parents_first(g, rem)[i],
    decreases rem.len(),
{
    let x = parents_first(g, rem)[i];
    lemma_occurrences_positive(parents_first(g, rem), i);
    lemma_parents_first_occurrences(g, rem, x);
    lemma_occurrences_in(rem, x);
}

/// Within `s` no revision comes before one of its parents.
pub open spec fn parents_precede(g: Seq<RevisionInfo>, s: Seq<int>) -> bool {
    forall|i: int, j: int|
        0 <= i < j < s.len() ==> !lists_parent(g[#[trigger] s[i]], g[#[trigger] s[j]].change_id@)
}

proof fn lemma_parents_first_ordered(g: Seq<RevisionInfo>, rem: Seq<int>, rank: spec_fn(int) -> nat)
    requires
        ranked(g, rank),
        forall|j: int| 0 <= j < rem.len() ==> 0 <= #[trigger] rem[j] < g.len(),
    ensures
        parents_precede(g, parents_first(g, rem)),
    decreases rem.len(),
{
    if rem.len() > 0 {
        lemma_first_ready_bounds(g, rem, 0);
        let k = first_ready(g, rem, 0);
        let rest = rem.remove(k);
        assert forall|j: int| 0 <= j < rest.len() implies 0 <= #[trigger] rest[j] < g.len() by {
            if j < k {
                assert(rest[j] == rem[j]);
            } else {
                assert(rest[j] == rem[j + 1]);
            }
        }
        lemma_parents_first_ordered(g, rest, rank);
        let m = lemma_min_rank(rem, rank);
        assert(ready(g, rem, rem[m])) by {
            assert forall|j: int| 0 <= j < rem.len() implies !lists_parent(g[rem[m]], g[#[trigger] rem[j]].change_id@) by {
                if lists_parent(g[rem[m]], g[rem[j]].change_id@) {
                    assert(rank(rem[j]) < rank(rem[m]));
                }
            }
        }
        lemma_first_ready_is_ready(g, rem, 0, m);
        let s = parents_first(g, rem);
        let tail = parents_first(g, rest);
        assert(s == seq![rem[k]] + tail);
        assert forall|i: int, j: int| 0 <= i < j < s.len() implies !lists_parent(
            g[#[trigger] s[i]],
            g[#[trigger] s[j]].change_id@,
        ) by {
            if i == 0 {
                assert(s[j] == tail[j - 1]);
                lemma_parents_first_members(g, rest, j - 1);
                let r = choose|r: int| 0 <= r < rest.len() && #[trigger] rest[r] == tail[j - 1];
                if r < k {
                    assert(rest[r] == rem[r]);
                } else {
                    assert(rest[r] == rem[r + 1]);
                }
            } else {
                assert(s[i] == tail[i - 1] && s[j] == tail[j - 1]);
            }
        }
    }
}

/// In an acyclic graph no shared-base revision comes before one of its
/// parents.
pub proof fn lemma_shared_base_parents_first(g: RevisionGraph, rank: spec_fn(int) -> nat)
    requires
        g.wf(),
        ranked(g.revisions@, rank),
    ensures
        parents_precede(
            g.revisions@,
            parents_first(g.revisions@, shared_candidates(g.revisions@, chains(g.revisions@, g.working_copy_id@), g.revisions@.len() as int)),
        ),
{
    let revs = g.revisions@;
    let cs = chains(revs, g.working_copy_id@);
    let sc = shared_candidates(revs, cs, revs.len() as int);
    assert forall|j: int| 0 <= j < sc.len() implies 0 <= #[trigger] sc[j] < revs.len() by {
        lemma_occurrences_positive(sc, j);
        lemma_shared_candidates_occurrences(revs, cs, revs.len() as int, sc[j]);
    }
    lemma_parents_first_ordered(revs, sc, rank);
}

/// Once the working copy stands in a stack it is not also shown detached.
pub proof fn lemma_stacked_working_copy_not_detached(g: RevisionGraph, w: int)
    requires
        g.wf(),
        find_id(g.revisions@, g.working_copy_id@) == Some(w),
        stack_occurrences(
            stack_list(
                tips(g.revisions@, g.working_copy_id@),
                chains(g.revisions@, g.working_copy_id@),
                chains(g.revisions@, g.working_copy_id@).len() as int,
            ),
            w,
        ) >= 1,
    ensures
        detached_working_copy(g.revisions@, g.working_copy_id@) is None,
{
    let cs = chains(g.revisions@, g.working_copy_id@);
    lemma_stack_occurrences(tips(g.revisions@, g.working_copy_id@), cs, cs.len() as int, w);
}

proof fn lemma_walk_ranks(g: Seq<RevisionInfo>, i: int, fuel: nat, rank: spec_fn(int) -> nat)
    requires
        ranked(g, rank),
    ensures
        forall|j: int| 1 <= j < walk(g, i, fuel).len() ==> rank(#[trigger] walk(g, i, fuel)[j]) < rank(i),
        walk(g, i, fuel).len() > 0 ==> walk(g, i, fuel)[0] == i,
    decreases fuel,
{
    if fuel == 0 || !(0 <= i < g.len()) || g[i].is_immutable {
    } else if g[i].parent_change_ids@.len() == 0 {
    } else {
        match find_id(g, g[i].parent_change_ids@[0]@) {
            Some(p) => {
                lemma_walk_ranks(g, p, (fuel - 1) as nat, rank);
                let rest = walk(g, p, (fuel - 1) as nat);
                assert(0 <= p < g.len() && g[p].change_id@ == g[i].parent_change_ids@[0]@);
                assert(lists_parent(g[i], g[p].change_id@));
                assert(rank(p) < rank(i));
                assert forall|j: int| 1 <= j < walk(g, i, fuel).len() implies rank(#[trigger] walk(g, i, fuel)[j]) < rank(i) by {
                    assert(walk(g, i, fuel)[j] == rest[j - 1]);
                    if j - 1 >= 1 {
                    }
                }
            },
            None => {},
        }
    }
}

proof fn lemma_occurrences_absent(s: Seq<int>, x: int)
    requires
        forall|j: int| 0 <= j < s.len() ==> s[j] != x,
    ensures
        occurrences(s, x) == 0,
{
    if occurrences(s, x) > 0 {
        lemma_occurrences_in(s, x);
    }
}

/// With no bookmark anywhere, a mutable working copy of an acyclic graph
/// forms the one stack, whose tip it is, and is not shown detached.
pub proof fn lemma_working_copy_fallback(g: RevisionGraph, w: int, rank: spec_fn(int) -> nat)
    requires
        g.wf(),
        ranked(g.revisions@, rank),
        bookmark_tips(g.revisions@, g.revisions@.len() as int).len() == 0,
        find_id(g.revisions@, g.working_copy_id@) == Some(w),
        !g.revisions@[w].is_immutable,
    ensures
        ({
            let cs = chains(g.revisions@, g.working_copy_id@);
            let sl = stack_list(tips(g.revisions@, g.working_copy_id@), cs, cs.len() as int);
            &&& sl.len() == 1
            &&& sl[0].0 == w
            &&& sl[0].1.len() > 0
            &&& sl[0].1.last() == w
        }),
        detached_working_copy(g.revisions@, g.working_copy_id@) is None,
{
    let revs = g.revisions@;
    let wc = g.working_copy_id@;
    let n = revs.len();
    assert(0 <= w < n);
    let tp = tips(revs, wc);
    assert(tp == seq![w]);
    let cs = chains(revs, wc);
    let wk = walk(revs, w, n as nat);
    lemma_walk_ranks(revs, w, n as nat, rank);
    assert(wk.len() > 0);
    let tail = wk.subrange(1, wk.len() as int);
    assert(wk =~= seq![w] + tail);
    let ch = chain(revs, w);
    assert(ch =~= tail.reverse().push(w));
    assert forall|j: int| 0 <= j < tail.reverse().len() implies tail.reverse()[j] != w by {
        assert(tail.reverse()[j] == wk[wk.len() - 1 - j]);
        assert(rank(wk[wk.len() - 1 - j]) < rank(w));
    }
    lemma_occurrences_absent(tail.reverse(), w);
    assert(cs.len() == 1 && cs[0] == ch);
    assert(tail.reverse().push(w).drop_last() =~= tail.reverse());
    assert(occurrences(ch, w) == 1);
    assert(cs.drop_last() =~= Seq::<Seq<int>>::empty());
    assert(usage(Seq::<Seq<int>>::empty(), w) == 0);
    assert(cs.last() == ch);
    assert(usage(cs, w) == usage(cs.drop_last(), w) + occurrences(ch, w));
    assert(usage(cs, w) == 1);
    let p = |y: int| usage(cs, y) == 1;
    let pp = private_part(cs, 0);
    reveal(Seq::filter);
    assert(ch.drop_last() =~= tail.reverse());
    assert(pp == tail.reverse().filter(p).push(w));
    assert(stack_list(tp, cs, 0) =~= Seq::<(int, Seq<int>)>::empty());
}

proof fn lemma_sorted_same_ids(s1: Seq<RevisionInfo>, s2: Seq<RevisionInfo>)
    requires
        sorted_by_id(s1),
        sorted_by_id(s2),
        forall|i: int| 0 <= i < s1.len() ==> holds_id(s2, (#[trigger] s1[i]).change_id@),
        forall|i: int| 0 <= i < s2.len() ==> holds_id(s1, (#[trigger] s2[i]).change_id@),
    ensures
        s1.len() == s2.len(),
        forall|i: int| 0 <= i < s1.len() ==> (#[trigger] s1[i]).change_id@ == s2[i].change_id@,
    decreases s1.len() + s2.len(),
{
    if s1.len() == 0 {
        if s2.len() > 0 {
            assert(holds_id(s1, s2[0].change_id@));
        }
    } else if s2.len() == 0 {
        assert(holds_id(s2, s1[0].change_id@));
    } else {
        assert(holds_id(s2, s1[0].change_id@));
        assert(holds_id(s1, s2[0].change_id@));
        let i2 = choose|i: int| 0 <= i < s2.len() && (#[trigger] s2[i]).change_id@ == s1[0].change_id@;
        let i1 = choose|i: int| 0 <= i < s1.len() && (#[trigger] s1[i]).change_id@ == s2[0].change_id@;
        if i1 > 0 && i2 > 0 {
            assert(id_lt(s1[0].change_id@, s1[i1].change_id@));
            assert(id_lt(s2[0].change_id@, s2[i2].change_id@));
            lemma_id_lt_asymmetric(s1[0].change_id@, s2[0].change_id@);
        } else if i1 == 0 {
        } else {
        }
        assert(s1[0].change_id@ == s2[0].change_id@);
        let t1 = s1.drop_first();
        let t2 = s2.drop_first();
        assert forall|i: int| 0 <= i < t1.len() implies holds_id(t2, (#[trigger] t1[i]).change_id@) by {
            assert(t1[i] == s1[i + 1]);
            assert(holds_id(s2, s1[i + 1].change_id@));
            let k = choose|k: int| 0 <= k < s2.len() && (#[trigger] s2[k]).change_id@ == s1[i + 1].change_id@;
            if k == 0 {
                lemma_sorted_unique(s1, 0, i + 1);
            } else {
                assert(t2[k - 1] == s2[k]);
            }
        }
        assert forall|i: int| 0 <= i < t2.len() implies holds_id(t1, (#[trigger] t2[i]).change_id@) by {
            assert(t2[i] == s2[i + 1]);
            assert(holds_id(s1, s2[i + 1].change_id@));
            let k = choose|k: int| 0 <= k < s1.len() && (#[trigger] s1[k]).change_id@ == s2[i + 1].change_id@;
            if k == 0 {
                lemma_sorted_unique(s2, 0, i + 1);
            } else {
                assert(t1[k - 1] == s1[k]);
            }
        }
        assert(sorted_by_id(t1)) by {
            assert forall|a: int, b: int| 0 <= a < b < t1.len() implies id_lt(#[trigger] t1[a].change_id@, #[trigger] t1[b].change_id@) by {
                assert(t1[a] == s1[a + 1] && t1[b] == s1[b + 1]);
            }
        }
        assert(sorted_by_id(t2)) by {
            assert forall|a: int, b: int| 0 <= a < b < t2.len() implies id_lt(#[trigger] t2[a].change_id@, #[trigger] t2[b].change_id@) by {
                assert(t2[a] == s2[a + 1] && t2[b] == s2[b + 1]);
            }
        }
        lemma_sorted_same_ids(t1, t2);
        assert forall|i: int| 0 <= i < s1.len() implies (#[trigger] s1[i]).change_id@ == s2[i].change_id@ by {
            if i > 0 {
                assert(t1[i - 1] == s1[i] && t2[i - 1] == s2[i]);
            }
        }
    }
}

/// Building a graph from the same records twice gives the same graph.
pub proof fn lemma_build_deterministic(records: Seq<RevisionInfo>, wc: Seq<char>, g1: RevisionGraph, g2: RevisionGraph)
    requires
        g1.built_from(records, wc),
        g2.built_from(records, wc),
    ensures
        g1.revisions@ == g2.revisions@,
        g1.working_copy_id@ == g2.working_copy_id@,
{
    let s1 = g1.revisions@;
    let s2 = g2.revisions@;
    assert forall|i: int| 0 <= i < s1.len() implies holds_id(s2, (#[trigger] s1[i]).change_id@) by {
        assert(kept_record(records, wc, 0, s1[i]));
        let j = choose|j: int| 0 <= j < records.len() && is_last_with_id(records, j) && s1[i] == with_wc_flag(#[trigger] records[j], wc);
        assert(holds_id(s2, records[j].change_id@));
    }
    assert forall|i: int| 0 <= i < s2.len() implies holds_id(s1, (#[trigger] s2[i]).change_id@) by {
        assert(kept_record(records, wc, 0, s2[i]));
        let j = choose|j: int| 0 <= j < records.len() && is_last_with_id(records, j) && s2[i] == with_wc_flag(#[trigger] records[j], wc);
        assert(holds_id(s1, records[j].change_id@));
    }
    lemma_sorted_same_ids(s1, s2);
    assert forall|i: int| 0 <= i < s1.len() implies s1[i] == s2[i] by {
        assert(kept_record(records, wc, 0, s1[i]));
        assert(kept_record(records, wc, 0, s2[i]));
        let j1 = choose|j: int| 0 <= j < records.len() && is_last_with_id(records, j) && s1[i] == with_wc_flag(#[trigger] records[j], wc);
        let j2 = choose|j: int| 0 <= j < records.len() && is_last_with_id(records, j) && s2[i] == with_wc_flag(#[trigger] records[j], wc);
        assert(s1[i].change_id@ == s2[i].change_id@);
        if j1 < j2 {
            assert(records[j2].change_id@ != records[j1].change_id@);
        } else if j2 < j1 {
            assert(records[j1].change_id@ != records[j2].change_id@);
        }
    }
    assert(s1 =~= s2);
}

/// Two runs over the same records give the same stacks, shared base,
/// detached working copy and trunk.
pub proof fn lemma_partition_idempotent(
    records: Seq<RevisionInfo>,
    wc: Seq<char>,
    g1: RevisionGraph,
    g2: RevisionGraph,
    first: Partition,
    second: Partition,
)
    requires
        g1.built_from(records, wc),
        g2.built_from(records, wc),
        first.describes(g1.revisions@, g1.working_copy_id@),
        second.describes(g2.revisions@, g2.working_copy_id@),
    ensures
        plan_seq(first.stacks@) == plan_seq(second.stacks@),
        first.shared_base@ == second.shared_base@,
        first.working_copy == second.working_copy,
        first.trunk == second.trunk,
{
    lemma_build_deterministic(records, wc, g1, g2);
    let a = first.shared_base@;
    let b = second.shared_base@;
    assert(a.map_values(|y: usize| y as int) == b.map_values(|y: usize| y as int));
    assert(a.map_values(|y: usize| y as int).len() == a.len());
    assert(b.map_values(|y: usize| y as int).len() == b.len());
    assert forall|i: int| 0 <= i < a.len() implies a[i] == b[i] by {
        assert(a.map_values(|y: usize| y as int)[i] == b.map_values(|y: usize| y as int)[i]);
        assert(a.map_values(|y: usize| y as int)[i] == a[i] as int);
        assert(b.map_values(|y: usize| y as int)[i] == b[i] as int);
    }
    assert(a =~= b);
    assert(opt_int(first.working_copy) == opt_int(second.working_copy));
    assert(opt_int(first.trunk) == opt_int(second.trunk));
}

/// Revision `y` has revision `x` as its primary parent.
pub open spec fn primary_parent_is(g: Seq<RevisionInfo>, y: int, x: int) -> bool {
    g[y].parent_change_ids@.len() > 0 && g[y].parent_change_ids@[0]@ == g[x].change_id@
}

proof fn lemma_walk_head(g: Seq<RevisionInfo>, i: int, fuel: nat)
    ensures
        walk(g, i, fuel).len() > 0 <==> (fuel > 0 && 0 <= i < g.len() && !g[i].is_immutable),
        walk(g, i, fuel).len() > 0 ==> walk(g, i, fuel)[0] == i,
{
}

proof fn lemma_walk_len(g: Seq<RevisionInfo>, i: int, fuel: nat)
    ensures
        walk(g, i, fuel).len() <= fuel,
        forall|j: int| 0 <= j < walk(g, i, fuel).len() ==> 0 <= #[trigger] walk(g, i, fuel)[j] < g.len()
            && !g[walk(g, i, fuel)[j]].is_immutable,
    decreases fuel,
{
    if fuel == 0 || !(0 <= i < g.len()) || g[i].is_immutable {
    } else if g[i].parent_change_ids@.len() == 0 {
    } else {
        match find_id(g, g[i].parent_change_ids@[0]@) {
            Some(p) => {
                lemma_walk_len(g, p, (fuel - 1) as nat);
                let w = walk(g, i, fuel);
                let rest = walk(g, p, (fuel - 1) as nat);
                assert forall|j: int| 0 <= j < w.len() implies 0 <= #[trigger] w[j] < g.len() && !g[w[j]].is_immutable by {
                    if j > 0 {
                        assert(w[j] == rest[j - 1]);
                    }
                }
            },
            None => {},
        }
    }
}

/// The walk from a position on is the walk from the revision there, with
/// the fuel that is left; each step goes to the primary parent.
proof fn lemma_walk_suffix(g: Seq<RevisionInfo>, i: int, fuel: nat, a: int)
    requires
        0 <= a < walk(g, i, fuel).len(),
    ensures
        a <= fuel,
        walk(g, i, fuel).subrange(a, walk(g, i, fuel).len() as int) == walk(g, walk(g, i, fuel)[a], (fuel - a) as nat),
        a + 1 < walk(g, i, fuel).len() ==> primary_parent_is(g, walk(g, i, fuel)[a], walk(g, i, fuel)[a + 1]),
    decreases a,
{
    let w = walk(g, i, fuel);
    lemma_walk_len(g, i, fuel);
    if a == 0 {
        assert(w.subrange(0, w.len() as int) =~= w);
        lemma_walk_head(g, i, fuel);
        if 1 < w.len() {
            let p = find_id(g, g[i].parent_change_ids@[0]@).unwrap();
            assert(w == seq![i] + walk(g, p, (fuel - 1) as nat));
            lemma_walk_head(g, p, (fuel - 1) as nat);
            assert(w[1] == p);
        }
    } else {
        let p = find_id(g, g[i].parent_change_ids@[0]@).unwrap();
        let rest = walk(g, p, (fuel - 1) as nat);
        assert(w == seq![i] + rest);
        lemma_walk_suffix(g, p, (fuel - 1) as nat, a - 1);
        assert(w.subrange(a, w.len() as int) =~= rest.subrange(a - 1, rest.len() as int));
        assert(w[a] == rest[a - 1]);
        if a + 1 < w.len() {
            assert(w[a + 1] == rest[a]);
        }
    }
}

/// Along a walk in an acyclic graph the rank strictly falls.
proof fn lemma_walk_decreasing(g: Seq<RevisionInfo>, i: int, fuel: nat, rank: spec_fn(int) -> nat, a: int, b: int)
    requires
        ranked(g, rank),
        0 <= a < b < walk(g, i, fuel).len(),
    ensures
        rank(walk(g, i, fuel)[b]) < rank(walk(g, i, fuel)[a]),
{
    let w = walk(g, i, fuel);
    lemma_walk_suffix(g, i, fuel, a);
    let x = w[a];
    let sub = walk(g, x, (fuel - a) as nat);
    assert(sub == w.subrange(a, w.len() as int));
    lemma_walk_ranks(g, x, (fuel - a) as nat, rank);
    assert(sub[b - a] == w[b]);
}

proof fn lemma_distinct_in_range(s: Seq<int>, n: int)
    requires
        0 <= n,
        s.no_duplicates(),
        forall|j: int| 0 <= j < s.len() ==> 0 <= #[trigger] s[j] < n,
    ensures
        s.len() <= n,
{
    broadcast use vstd::seq_lib::group_seq_properties;
    s.unique_seq_to_set();
    lemma_int_range(0, n);
    assert forall|x: int| s.to_set().contains(x) implies set_int_range(0, n).contains(x) by {
        let j = choose|j: int| 0 <= j < s.len() && s[j] == x;
        assert(0 <= s[j] < n);
    }
    lemma_len_subset(s.to_set(), set_int_range(0, n));
}

/// A walk from a tip with as much fuel as there are revisions is never cut
/// short: where revision `x` on it has a mutable primary parent `p`, `p`
/// comes next.
proof fn lemma_walk_continues(g: Seq<RevisionInfo>, t: int, rank: spec_fn(int) -> nat, a: int, p: int)
    requires
        sorted_by_id(g),
        ranked(g, rank),
        0 <= a < walk(g, t, g.len() as nat).len(),
        0 <= p < g.len(),
        !g[p].is_immutable,
        primary_parent_is(g, walk(g, t, g.len() as nat)[a], p),
    ensures
        a + 1 < walk(g, t, g.len() as nat).len(),
        walk(g, t, g.len() as nat)[a + 1] == p,
{
    let n = g.len() as nat;
    let w = walk(g, t, n);
    let x = w[a];
    lemma_walk_suffix(g, t, n, a);
    lemma_walk_len(g, t, n);
    let f = (n - a) as nat;
    let sub = walk(g, x, f);
    assert(sub == w.subrange(a, w.len() as int));
    assert(g[p].change_id@ == g[x].parent_change_ids@[0]@);
    crate::graph::lemma_find_id(g, g[x].parent_change_ids@[0]@, p);
    assert(lists_parent(g[x], g[p].change_id@));
    assert(rank(p) < rank(x));
    lemma_walk_head(g, x, f);
    if f >= 2 {
        assert(sub == seq![x] + walk(g, p, (f - 1) as nat));
        lemma_walk_head(g, p, (f - 1) as nat);
        assert(sub[1] == p);
        assert(sub[1] == w[a + 1]);
    } else {
        // `a` is the last of `n` positions: `p` would be one position too many
        assert(w.len() == n);
        let s = w.push(p);
        assert forall|j: int| 0 <= j < s.len() implies 0 <= #[trigger] s[j] < n by {
            if j < w.len() {
                assert(s[j] == w[j]);
            }
        }
        assert forall|i: int, j: int| 0 <= i < s.len() && 0 <= j < s.len() && i != j implies s[i] != s[j] by {
            if i < w.len() && j < w.len() {
                if i < j {
                    lemma_walk_decreasing(g, t, n, rank, i, j);
                } else {
                    lemma_walk_decreasing(g, t, n, rank, j, i);
                }
            } else if i < w.len() {
                assert(s[j] == p && s[i] == w[i]);
                if i < a {
                    lemma_walk_decreasing(g, t, n, rank, i, a);
                }
            } else {
                assert(s[i] == p && s[j] == w[j]);
                if j < a {
                    lemma_walk_decreasing(g, t, n, rank, j, a);
                }
            }
        }
        lemma_distinct_in_range(s, n as int);
    }
}

proof fn lemma_usage_alone(cs: Seq<Seq<int>>, c: int, x: int)
    requires
        0 <= c < cs.len(),
        forall|c2: int, j: int| 0 <= c2 < cs.len() && c2 != c && 0 <= j < cs[c2].len() ==> #[trigger] cs[c2][j] != x,
    ensures
        usage(cs, x) == occurrences(cs[c], x),
    decreases cs.len(),
{
    let last = cs.len() - 1;
    if c < last {
        assert forall|j: int| 0 <= j < cs[last].len() implies cs[last][j] != x by {
            assert(cs[last][j] != x);
        }
        lemma_occurrences_absent(cs[last], x);
        let d = cs.drop_last();
        assert forall|c2: int, j: int| 0 <= c2 < d.len() && c2 != c && 0 <= j < d[c2].len() implies #[trigger] d[c2][j] != x by {
            assert(d[c2] == cs[c2]);
        }
        lemma_usage_alone(d, c, x);
    } else {
        let d = cs.drop_last();
        assert forall|c2: int| 0 <= c2 < d.len() implies occurrences(#[trigger] d[c2], x) == 0 by {
            assert(d[c2] == cs[c2]);
            assert forall|j: int| 0 <= j < d[c2].len() implies d[c2][j] != x by {
                assert(cs[c2][j] != x);
            }
            lemma_occurrences_absent(d[c2], x);
        }
        lemma_usage_zero(d, x);
    }
}

proof fn lemma_usage_zero(cs: Seq<Seq<int>>, x: int)
    requires
        forall|c: int| 0 <= c < cs.len() ==> occurrences(#[trigger] cs[c], x) == 0,
    ensures
        usage(cs, x) == 0,
    decreases cs.len(),
{
    if cs.len() > 0 {
        let d = cs.drop_last();
        assert forall|c: int| 0 <= c < d.len() implies occurrences(#[trigger] d[c], x) == 0 by {
            assert(d[c] == cs[c]);
        }
        lemma_usage_zero(d, x);
        assert(occurrences(cs[cs.len() - 1], x) == 0);
    }
}

proof fn lemma_usage_two_chains(cs: Seq<Seq<int>>, c1: int, j1: int, c2: int, j2: int)
    requires
        0 <= c1 < cs.len(),
        0 <= c2 < cs.len(),
        c1 != c2,
        0 <= j1 < cs[c1].len(),
        0 <= j2 < cs[c2].len(),
        cs[c1][j1] == cs[c2][j2],
    ensures
        usage(cs, cs[c1][j1]) >= 2,
    decreases cs.len(),
{
    let x = cs[c1][j1];
    let last = cs.len() - 1;
    let d = cs.drop_last();
    if c1 < last && c2 < last {
        assert(d[c1] == cs[c1] && d[c2] == cs[c2]);
        lemma_usage_two_chains(d, c1, j1, c2, j2);
    } else if c1 == last {
        assert(d[c2] == cs[c2]);
        lemma_usage_positive(d, c2, j2);
        lemma_occurrences_positive(cs[c1], j1);
    } else {
        assert(d[c1] == cs[c1]);
        lemma_usage_positive(d, c1, j1);
        lemma_occurrences_positive(cs[c2], j2);
    }
}

proof fn lemma_occurrences_distinct(s: Seq<int>, x: int)
    requires
        s.no_duplicates(),
    ensures
        occurrences(s, x) <= 1,
    decreases s.len(),
{
    if s.len() > 0 {
        let d = s.drop_last();
        assert(d.no_duplicates()) by {
            assert forall|i: int, j: int| 0 <= i < d.len() && 0 <= j < d.len() && i != j implies d[i] != d[j] by {
                assert(d[i] == s[i] && d[j] == s[j]);
            }
        }
        lemma_occurrences_distinct(d, x);
        if s.last() == x {
            assert forall|j: int| 0 <= j < d.len() implies d[j] != x by {
                assert(d[j] == s[j]);
            }
            lemma_occurrences_absent(d, x);
        }
    }
}

/// In an acyclic graph a revision used by two chains has its primary
/// parent, when its chain goes on, used by two chains as well.
proof fn lemma_shared_goes_down(g: Seq<RevisionInfo>, wc: Seq<char>, rank: spec_fn(int) -> nat, c: int, i: int)
    requires
        sorted_by_id(g),
        ranked(g, rank),
        0 <= c < tips(g, wc).len(),
        0 <= i,
        i + 1 < walk(g, tips(g, wc)[c], g.len() as nat).len(),
        usage(chains(g, wc), walk(g, tips(g, wc)[c], g.len() as nat)[i]) >= 2,
    ensures
        usage(chains(g, wc), walk(g, tips(g, wc)[c], g.len() as nat)[i + 1]) >= 2,
{
    let n = g.len() as nat;
    let tp = tips(g, wc);
    let cs = chains(g, wc);
    let w = walk(g, tp[c], n);
    let x = w[i];
    let p = w[i + 1];
    let len = w.len() as int;
    assert(cs[c] == w.reverse());
    lemma_walk_suffix(g, tp[c], n, i);
    lemma_walk_len(g, tp[c], n);
    // `x` occurs once in its own chain
    assert(cs[c].no_duplicates()) by {
        assert forall|a: int, b: int| 0 <= a < cs[c].len() && 0 <= b < cs[c].len() && a != b implies cs[c][a] != cs[c][b] by {
            let ia = len - 1 - a;
            let ib = len - 1 - b;
            if ia < ib {
                lemma_walk_decreasing(g, tp[c], n, rank, ia, ib);
            } else {
                lemma_walk_decreasing(g, tp[c], n, rank, ib, ia);
            }
        }
    }
    lemma_occurrences_distinct(cs[c], x);
    // so another chain uses it
    if forall|c2: int, j: int| 0 <= c2 < cs.len() && c2 != c && 0 <= j < cs[c2].len() ==> #[trigger] cs[c2][j] != x {
        lemma_usage_alone(cs, c, x);
    }
    let (c2, j) = choose|c2: int, j: int| 0 <= c2 < cs.len() && c2 != c && 0 <= j < cs[c2].len() && #[trigger] cs[c2][j] == x;
    lemma_tips_in_range(g, wc);
    let w2 = walk(g, tp[c2], n);
    assert(cs[c2] == w2.reverse());
    let a2 = w2.len() - 1 - j;
    assert(w2[a2] == x);
    lemma_walk_continues(g, tp[c2], rank, a2, p);
    assert(cs[c2][j - 1] == p);
    assert(cs[c][len - 2 - i] == p);
    lemma_usage_two_chains(cs, c, len - 2 - i, c2, j - 1);
}

proof fn lemma_filter_none(s: Seq<int>, pred: spec_fn(int) -> bool)
    requires
        forall|k: int| 0 <= k < s.len() ==> !pred(#[trigger] s[k]),
    ensures
        s.filter(pred).len() == 0,
    decreases s.len(),
{
    reveal(Seq::filter);
    if s.len() > 0 {
        let d = s.drop_last();
        assert forall|k: int| 0 <= k < d.len() implies !pred(#[trigger] d[k]) by {
            assert(d[k] == s[k]);
        }
        lemma_filter_none(d, pred);
        assert(!pred(s[s.len() - 1]));
    }
}

/// Where `pred`, once it holds along `s`, keeps holding, filtering keeps a
/// suffix of `s`.
proof fn lemma_filter_suffix(s: Seq<int>, pred: spec_fn(int) -> bool) -> (m: int)
    requires
        forall|a: int, b: int| 0 <= a < b < s.len() && pred(#[trigger] s[a]) ==> pred(#[trigger] s[b]),
    ensures
        0 <= m <= s.len(),
        s.filter(pred) == s.subrange(m, s.len() as int),
    decreases s.len(),
{
    reveal(Seq::filter);
    if s.len() == 0 {
        0
    } else if pred(s.last()) {
        let d = s.drop_last();
        assert forall|a: int, b: int| 0 <= a < b < d.len() && pred(#[trigger] d[a]) implies pred(#[trigger] d[b]) by {
            assert(d[a] == s[a] && d[b] == s[b]);
        }
        let m = lemma_filter_suffix(d, pred);
        assert(s.filter(pred) == d.filter(pred).push(s.last()));
        assert(d.subrange(m, d.len() as int).push(s.last()) =~= s.subrange(m, s.len() as int));
        m
    } else {
        assert forall|k: int| 0 <= k < s.len() implies !pred(#[trigger] s[k]) by {
            if k < s.len() - 1 && pred(s[k]) {
                assert(pred(s[s.len() - 1]));
            }
        }
        lemma_filter_none(s, pred);
        assert(s.subrange(s.len() as int, s.len() as int) =~= s.filter(pred));
        s.len() as int
    }
}

proof fn lemma_stack_source(tp: Seq<int>, cs: Seq<Seq<int>>, m: int, k: int) -> (c: int)
    requires
        0 <= m <= cs.len(),
        m <= tp.len(),
        0 <= k < stack_list(tp, cs, m).len(),
    ensures
        0 <= c < m,
        stack_list(tp, cs, m)[k] == (tp[c], private_part(cs, c)),
    decreases m,
{
    let prev = stack_list(tp, cs, m - 1);
    if private_part(cs, m - 1).len() > 0 && k == prev.len() {
        m - 1
    } else {
        lemma_stack_source(tp, cs, m - 1, k)
    }
}

/// Along a chain, once a revision is private to it, every later one (nearer
/// the tip) is too.
proof fn lemma_private_upward(g: Seq<RevisionInfo>, wc: Seq<char>, rank: spec_fn(int) -> nat, c: int, a: int, b: int)
    requires
        sorted_by_id(g),
        ranked(g, rank),
        0 <= c < tips(g, wc).len(),
        0 <= a < b < chains(g, wc)[c].len(),
        usage(chains(g, wc), chains(g, wc)[c][a]) == 1,
    ensures
        usage(chains(g, wc), chains(g, wc)[c][b]) == 1,
    decreases b - a,
{
    let cs = chains(g, wc);
    let tp = tips(g, wc);
    let w = walk(g, tp[c], g.len() as nat);
    let len = w.len() as int;
    assert(cs[c] == w.reverse());
    lemma_usage_positive(cs, c, a + 1);
    if usage(cs, cs[c][a + 1]) != 1 {
        // the one below `a + 1` toward the base is `a`
        let i = len - 1 - (a + 1);
        assert(w[i] == cs[c][a + 1]);
        assert(w[i + 1] == cs[c][a]);
        lemma_shared_goes_down(g, wc, rank, c, i);
    }
    if a + 1 < b {
        lemma_private_upward(g, wc, rank, c, a + 1, b);
    }
}

/// In an acyclic graph each stack is a primary-parent chain: every revision
/// of a stack after the first has the one before it as its primary parent.
pub proof fn lemma_stacks_follow_primary_parents(g: RevisionGraph, rank: spec_fn(int) -> nat, k: int, j: int)
    requires
        g.wf(),
        ranked(g.revisions@, rank),
        0 <= k < stack_list(
            tips(g.revisions@, g.working_copy_id@),
            chains(g.revisions@, g.working_copy_id@),
            chains(g.revisions@, g.working_copy_id@).len() as int,
        ).len(),
        0 <= j,
        j + 1 < stack_list(
            tips(g.revisions@, g.working_copy_id@),
            chains(g.revisions@, g.working_copy_id@),
            chains(g.revisions@, g.working_copy_id@).len() as int,
        )[k].1.len(),
    ensures
        ({
            let st = stack_list(
                tips(g.revisions@, g.working_copy_id@),
                chains(g.revisions@, g.working_copy_id@),
                chains(g.revisions@, g.working_copy_id@).len() as int,
            )[k].1;
            primary_parent_is(g.revisions@, st[j + 1], st[j])
        }),
{
    let revs = g.revisions@;
    let wc = g.working_copy_id@;
    let tp = tips(revs, wc);
    let cs = chains(revs, wc);
    let c = lemma_stack_source(tp, cs, cs.len() as int, k);
    let ch = cs[c];
    let pred = |x: int| usage(cs, x) == 1;
    assert forall|a: int, b: int| 0 <= a < b < ch.len() && pred(#[trigger] ch[a]) implies pred(#[trigger] ch[b]) by {
        lemma_private_upward(revs, wc, rank, c, a, b);
    }
    let m = lemma_filter_suffix(ch, pred);
    let st = private_part(cs, c);
    assert(st == ch.subrange(m, ch.len() as int));
    let w = walk(revs, tp[c], revs.len() as nat);
    let len = w.len() as int;
    assert(ch == w.reverse());
    let i = len - 1 - (m + j + 1);
    assert(st[j + 1] == w[i]);
    assert(st[j] == w[i + 1]);
    lemma_walk_suffix(revs, tp[c], revs.len() as nat, i);
}

} // verus!
