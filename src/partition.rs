//! Partition of a revision graph into stacks, a shared base and a detached
//! working copy.

use vstd::prelude::*;
use crate::graph::{find_id, lemma_find_id, sorted_by_id, RevisionGraph};
use crate::revision::RevisionInfo;
use crate::short_id::views;

verus! {

/// A revision that starts a stack of its own: mutable and bookmarked.
pub open spec fn is_bookmark_tip(r: RevisionInfo) -> bool {
    !r.is_immutable && r.bookmarks@.len() > 0
}

/// Positions below `n` that are bookmark tips, in increasing order.
pub open spec fn bookmark_tips(g: Seq<RevisionInfo>, n: int) -> Seq<int>
    decreases n,
{
    if n <= 0 {
        Seq::empty()
    } else if is_bookmark_tip(g[n - 1]) {
        bookmark_tips(g, n - 1).push(n - 1)
    } else {
        bookmark_tips(g, n - 1)
    }
}

/// The stack tips: every bookmark tip; failing those, the working copy when
/// it is present and mutable; failing that, none.
pub open spec fn tips(g: Seq<RevisionInfo>, wc: Seq<char>) -> Seq<int> {
    let b = bookmark_tips(g, g.len() as int);
    if b.len() > 0 {
        b
    } else {
        match find_id(g, wc) {
            Some(w) => if !g[w].is_immutable { seq![w] } else { Seq::empty() },
            None => Seq::empty(),
        }
    }
}

/// Walk from position `i` along primary parents, tip first, stopping at an
/// immutable revision, at a missing parent, at a root, or after `fuel` steps.
pub open spec fn walk(g: Seq<RevisionInfo>, i: int, fuel: nat) -> Seq<int>
    decreases fuel,
{
    if fuel == 0 || !(0 <= i < g.len()) || g[i].is_immutable {
        Seq::empty()
    } else if g[i].parent_change_ids@.len() == 0 {
        seq![i]
    } else {
        match find_id(g, g[i].parent_change_ids@[0]@) {
            Some(p) => seq![i] + walk(g, p, (fuel - 1) as nat),
            None => seq![i],
        }
    }
}

/// The chain of tip `t`, from base to tip. At most one step per revision
/// is taken, so a chain never runs longer than the graph.
pub open spec fn chain(g: Seq<RevisionInfo>, t: int) -> Seq<int> {
    walk(g, t, g.len() as nat).reverse()
}

/// The chains of all tips, in tip order.
pub open spec fn chains(g: Seq<RevisionInfo>, wc: Seq<char>) -> Seq<Seq<int>> {
    tips(g, wc).map_values(|t: int| chain(g, t))
}

/// How a stack tip set was chosen.
pub enum TipChoice {
    /// The mutable bookmarked revisions, by position in the graph.
    Bookmarked(Vec<usize>),
    /// No bookmark anywhere: the working copy stands as the only tip.
    WorkingCopy(usize),
    /// Nothing qualifies.
    NoTips,
}

impl TipChoice {
    pub open spec fn tip_seq(&self) -> Seq<int> {
        match self {
            TipChoice::Bookmarked(v) => v@.map_values(|t: usize| t as int),
            TipChoice::WorkingCopy(w) => seq![*w as int],
            TipChoice::NoTips => Seq::empty(),
        }
    }
}

/// Position of the revision with change id `id`.
pub fn find_index(g: &RevisionGraph, id: &String) -> (r: Option<usize>)
    requires
        g.wf(),
    ensures
        r.is_some() == find_id(g.revisions@, id@).is_some(),
        r.is_some() ==> r.unwrap() as int == find_id(g.revisions@, id@).unwrap(),
{
    let mut i: usize = 0;
    while i < g.revisions.len()
        invariant
            g.wf(),
            i <= g.revisions@.len(),
            forall|k: int| 0 <= k < i ==> (#[trigger] g.revisions@[k]).change_id@ != id@,
        decreases g.revisions@.len() - i,
    {
        if g.revisions[i].change_id == *id {
            proof {
                lemma_find_id(g.revisions@, id@, i as int);
            }
            return Some(i);
        }
        i = i + 1;
    }
    None
}

/// Choose the stack tips: the bookmarked mutable revisions, or else the
/// working copy on its own.
pub fn select_tips(g: &RevisionGraph) -> (c: TipChoice)
    requires
        g.wf(),
    ensures
        c.tip_seq() == tips(g.revisions@, g.working_copy_id@),
        c is Bookmarked ==> c.tip_seq().len() > 0,
{
    let ghost revs = g.revisions@;
    let mut b: Vec<usize> = Vec::new();
    let mut i: usize = 0;
    while i < g.revisions.len()
        invariant
            revs == g.revisions@,
            i <= revs.len(),
            b@.map_values(|t: usize| t as int) == bookmark_tips(revs, i as int),
        decreases revs.len() - i,
    {
        let r = &g.revisions[i];
        if !r.is_immutable && r.bookmarks.len() > 0 {
            b.push(i);
            assert(b@.map_values(|t: usize| t as int) =~= bookmark_tips(revs, i as int + 1));
        }
        i = i + 1;
    }
    if b.len() > 0 {
        TipChoice::Bookmarked(b)
    } else {
        match find_index(g, &g.working_copy_id) {
            Some(w) => {
                if !g.revisions[w].is_immutable {
                    let c = TipChoice::WorkingCopy(w);
                    assert(c.tip_seq() =~= tips(revs, g.working_copy_id@));
                    c
                } else {
                    let c = TipChoice::NoTips;
                    assert(c.tip_seq() =~= tips(revs, g.working_copy_id@));
                    c
                }
            },
            None => {
                let c = TipChoice::NoTips;
                assert(c.tip_seq() =~= tips(revs, g.working_copy_id@));
                c
            },
        }
    }
}

/// The chain of tip `t`: its primary-parent ancestry down to trunk, from
/// base to tip.
pub fn walk_chain(g: &RevisionGraph, t: usize) -> (r: Vec<usize>)
    requires
        g.wf(),
        t < g.revisions@.len(),
    ensures
        r@.map_values(|x: usize| x as int) == chain(g.revisions@, t as int),
        forall|k: int| 0 <= k < r@.len() ==> (#[trigger] r@[k]) < g.revisions@.len(),
{
    let ghost revs = g.revisions@;
    let n = g.revisions.len();
    let mut out: Vec<usize> = Vec::new();
    let mut cur: usize = t;
    let mut fuel: usize = n;
    let mut done = false;
    while !done
        invariant
            g.wf(),
            revs == g.revisions@,
            n == revs.len(),
            cur < n,
            fuel <= n,
            done ==> out@.map_values(|x: usize| x as int) == walk(revs, t as int, n as nat),
            !done ==> out@.map_values(|x: usize| x as int) + walk(revs, cur as int, fuel as nat)
                == walk(revs, t as int, n as nat),
            forall|k: int| 0 <= k < out@.len() ==> (#[trigger] out@[k]) < n,
        decreases fuel + (if done { 0int } else { 1int }),
    {
        let ghost before = out@.map_values(|x: usize| x as int);
        if fuel == 0 || g.revisions[cur].is_immutable {
            done = true;
            assert(before + walk(revs, cur as int, fuel as nat) =~= before);
        } else {
            out.push(cur);
            assert(out@.map_values(|x: usize| x as int) =~= before.push(cur as int));
            let r = &g.revisions[cur];
            if r.parent_change_ids.len() == 0 {
                done = true;
                assert(before + walk(revs, cur as int, fuel as nat) =~= before.push(cur as int));
            } else {
                match find_index(g, &r.parent_change_ids[0]) {
                    Some(p) => {
                        assert(before + walk(revs, cur as int, fuel as nat) =~= before.push(cur as int)
                            + walk(revs, p as int, (fuel - 1) as nat));
                        cur = p;
                        fuel = fuel - 1;
                    },
                    None => {
                        done = true;
                        assert(before + walk(revs, cur as int, fuel as nat) =~= before.push(cur as int));
                    },
                }
            }
        }
    }
    let ghost fwd = out@.map_values(|x: usize| x as int);
    let mut r: Vec<usize> = Vec::new();
    let mut k: usize = out.len();
    while k > 0
        invariant
            k <= out@.len(),
            r@.map_values(|x: usize| x as int) == fwd.subrange(k as int, fwd.len() as int).reverse(),
            forall|j: int| 0 <= j < out@.len() ==> (#[trigger] out@[j]) < n,
            forall|j: int| 0 <= j < r@.len() ==> (#[trigger] r@[j]) < n,
            fwd == out@.map_values(|x: usize| x as int),
        decreases k,
    {
        k = k - 1;
        let ghost prev = r@.map_values(|x: usize| x as int);
        r.push(out[k]);
        assert(r@.map_values(|x: usize| x as int) =~= prev.push(fwd[k as int]));
        assert(fwd.subrange(k as int, fwd.len() as int).reverse() =~= fwd.subrange(
            k as int + 1,
            fwd.len() as int,
        ).reverse().push(fwd[k as int]));
    }
    assert(fwd.subrange(0, fwd.len() as int) =~= fwd);
    r
}

/// How often `x` occurs in `s`.
pub open spec fn occurrences(s: Seq<int>, x: int) -> nat
    decreases s.len(),
{
    if s.len() == 0 {
        0
    } else {
        occurrences(s.drop_last(), x) + (if s.last() == x { 1nat } else { 0nat })
    }
}

/// How often `x` occurs over all of `cs`: the number of chains that use it.
pub open spec fn usage(cs: Seq<Seq<int>>, x: int) -> nat
    decreases cs.len(),
{
    if cs.len() == 0 {
        0
    } else {
        usage(cs.drop_last(), x) + occurrences(cs.last(), x)
    }
}

/// `u`, with every value from 2 up counted as 2.
pub open spec fn capped(u: nat) -> nat {
    if u >= 2 { 2 } else { u }
}

/// Index lists as integer sequences.
pub open spec fn int_seqs(v: Seq<Vec<usize>>) -> Seq<Seq<int>> {
    v.map_values(|c: Vec<usize>| c@.map_values(|x: usize| x as int))
}

/// The members of chain `c` that no other chain uses (and that occur once).
pub open spec fn private_part(cs: Seq<Seq<int>>, c: int) -> Seq<int> {
    cs[c].filter(|x: int| usage(cs, x) == 1)
}

/// The stacks of chains `0..m`: for each chain with a nonempty private part,
/// its tip and that part.
pub open spec fn stack_list(tp: Seq<int>, cs: Seq<Seq<int>>, m: int) -> Seq<(int, Seq<int>)>
    decreases m,
{
    if m <= 0 {
        Seq::empty()
    } else if private_part(cs, m - 1).len() > 0 {
        stack_list(tp, cs, m - 1).push((tp[m - 1], private_part(cs, m - 1)))
    } else {
        stack_list(tp, cs, m - 1)
    }
}

proof fn lemma_occurrences_push(s: Seq<int>, y: int, x: int)
    ensures
        occurrences(s.push(y), x) == occurrences(s, x) + (if y == x { 1nat } else { 0nat }),
{
    assert(s.push(y).drop_last() =~= s);
}

proof fn lemma_usage_push(cs: Seq<Seq<int>>, c: Seq<int>, x: int)
    ensures
        usage(cs.push(c), x) == usage(cs, x) + occurrences(c, x),
{
    assert(cs.push(c).drop_last() =~= cs);
}

/// For every position `x < n`, how many chains use it, counting 2 for two or more.
fn count_usage(chain_vecs: &Vec<Vec<usize>>, n: usize) -> (counts: Vec<usize>)
    requires
        forall|c: int, k: int|
            0 <= c < chain_vecs@.len() && 0 <= k < chain_vecs@[c]@.len() ==> (#[trigger] chain_vecs@[c]@[k]) < n,
    ensures
        counts@.len() == n,
        forall|x: int| 0 <= x < n ==> (#[trigger] counts@[x]) as nat == capped(usage(int_seqs(chain_vecs@), x)),
{
    let ghost cs = int_seqs(chain_vecs@);
    let mut counts: Vec<usize> = Vec::new();
    let mut i: usize = 0;
    while i < n
        invariant
            i <= n,
            counts@.len() == i,
            forall|x: int| 0 <= x < i ==> (#[trigger] counts@[x]) == 0,
        decreases n - i,
    {
        counts.push(0);
        i = i + 1;
    }
    let mut c: usize = 0;
    while c < chain_vecs.len()
        invariant
            cs == int_seqs(chain_vecs@),
            c <= chain_vecs@.len(),
            counts@.len() == n,
            forall|c2: int, k: int|
                0 <= c2 < chain_vecs@.len() && 0 <= k < chain_vecs@[c2]@.len() ==> (#[trigger] chain_vecs@[c2]@[k]) < n,
            forall|x: int| 0 <= x < n ==> (#[trigger] counts@[x]) as nat == capped(usage(cs.subrange(0, c as int), x)),
        decreases chain_vecs@.len() - c,
    {
        let ch = &chain_vecs[c];
        let ghost cc = cs[c as int];
        assert(cc == ch@.map_values(|x: usize| x as int));
        let mut k: usize = 0;
        while k < ch.len()
            invariant
                cs == int_seqs(chain_vecs@),
                c < chain_vecs@.len(),
                ch == chain_vecs@[c as int],
                cc == ch@.map_values(|x: usize| x as int),
                k <= ch@.len(),
                counts@.len() == n,
                forall|k2: int| 0 <= k2 < ch@.len() ==> (#[trigger] ch@[k2]) < n,
                forall|x: int| 0 <= x < n ==> (#[trigger] counts@[x]) as nat == capped(
                    usage(cs.subrange(0, c as int), x) + occurrences(cc.subrange(0, k as int), x),
                ),
            decreases ch@.len() - k,
        {
            let y = ch[k];
            assert(y < n);
            if counts[y] < 2 {
                counts.set(y, counts[y] + 1);
            }
            proof {
                assert(cc.subrange(0, k as int + 1) =~= cc.subrange(0, k as int).push(y as int));
                assert forall|x: int| 0 <= x < n implies (#[trigger] counts@[x]) as nat == capped(
                    usage(cs.subrange(0, c as int), x) + occurrences(cc.subrange(0, k as int + 1), x),
                ) by {
                    lemma_occurrences_push(cc.subrange(0, k as int), y as int, x);
                }
            }
            k = k + 1;
        }
        proof {
            assert(cc.subrange(0, ch@.len() as int) =~= cc);
            assert(cs.subrange(0, c as int + 1) =~= cs.subrange(0, c as int).push(cc));
            assert forall|x: int| 0 <= x < n implies (#[trigger] counts@[x]) as nat == capped(
                usage(cs.subrange(0, c as int + 1), x),
            ) by {
                lemma_usage_push(cs.subrange(0, c as int), cc, x);
            }
        }
        c = c + 1;
    }
    assert(cs.subrange(0, chain_vecs@.len() as int) =~= cs);
    counts
}

/// A stack by positions in the graph: its tip and its revisions, base first.
pub struct StackPlan {
    pub tip: usize,
    pub revisions: Vec<usize>,
}

/// The tip and every revision of `p` lie below `n`.
pub open spec fn plan_in_range(p: StackPlan, n: nat) -> bool {
    &&& p.tip < n
    &&& forall|j: int| 0 <= j < p.revisions@.len() ==> (#[trigger] p.revisions@[j]) < n
}

pub open spec fn plan_seq(v: Seq<StackPlan>) -> Seq<(int, Seq<int>)> {
    v.map_values(|p: StackPlan| (p.tip as int, p.revisions@.map_values(|x: usize| x as int)))
}

/// The members of chain `ch` whose count is 1.
fn private_members(ch: &Vec<usize>, counts: &Vec<usize>) -> (r: Vec<usize>)
    requires
        forall|k: int| 0 <= k < ch@.len() ==> (#[trigger] ch@[k]) < counts@.len(),
    ensures
        r@.map_values(|x: usize| x as int) == ch@.map_values(|x: usize| x as int).filter(
            |x: int| counts@[x] == 1,
        ),
        forall|k: int| 0 <= k < r@.len() ==> (#[trigger] r@[k]) < counts@.len(),
{
    let ghost cc = ch@.map_values(|x: usize| x as int);
    let ghost pred = |x: int| counts@[x] == 1;
    let mut r: Vec<usize> = Vec::new();
    let mut k: usize = 0;
    while k < ch.len()
        invariant
            k <= ch@.len(),
            cc == ch@.map_values(|x: usize| x as int),
            pred == (|x: int| counts@[x] == 1),
            forall|k2: int| 0 <= k2 < ch@.len() ==> (#[trigger] ch@[k2]) < counts@.len(),
            r@.map_values(|x: usize| x as int) == cc.subrange(0, k as int).filter(pred),
            forall|k2: int| 0 <= k2 < r@.len() ==> (#[trigger] r@[k2]) < counts@.len(),
        decreases ch@.len() - k,
    {
        let y = ch[k];
        proof {
            assert(cc.subrange(0, k as int + 1) =~= cc.subrange(0, k as int).push(y as int));
            cc.subrange(0, k as int).lemma_filter_push(y as int, pred);
        }
        if counts[y] == 1 {
            r.push(y);
            assert(r@.map_values(|x: usize| x as int) =~= cc.subrange(0, k as int).filter(pred).push(y as int));
        }
        k = k + 1;
    }
    assert(cc.subrange(0, ch@.len() as int) =~= cc);
    r
}

/// Each chain's private part, as a stack of its tip, for the chains where
/// that part is not empty.
fn build_stacks(tip_vec: &Vec<usize>, chain_vecs: &Vec<Vec<usize>>, counts: &Vec<usize>) -> (r: Vec<StackPlan>)
    requires
        tip_vec@.len() == chain_vecs@.len(),
        forall|c: int, k: int|
            0 <= c < chain_vecs@.len() && 0 <= k < chain_vecs@[c]@.len() ==> (#[trigger] chain_vecs@[c]@[k])
                < counts@.len(),
        forall|x: int| 0 <= x < counts@.len() ==> (#[trigger] counts@[x]) as nat == capped(usage(int_seqs(chain_vecs@), x)),
        forall|k: int| 0 <= k < tip_vec@.len() ==> (#[trigger] tip_vec@[k]) < counts@.len(),
    ensures
        plan_seq(r@) == stack_list(tip_vec@.map_values(|t: usize| t as int), int_seqs(chain_vecs@), chain_vecs@.len() as int),
        forall|k: int| 0 <= k < r@.len() ==> plan_in_range(#[trigger] r@[k], counts@.len()),
{
    let ghost cs = int_seqs(chain_vecs@);
    let ghost tp = tip_vec@.map_values(|t: usize| t as int);
    let mut r: Vec<StackPlan> = Vec::new();
    let mut c: usize = 0;
    while c < chain_vecs.len()
        invariant
            cs == int_seqs(chain_vecs@),
            tp == tip_vec@.map_values(|t: usize| t as int),
            tip_vec@.len() == chain_vecs@.len(),
            c <= chain_vecs@.len(),
            forall|c2: int, k: int|
                0 <= c2 < chain_vecs@.len() && 0 <= k < chain_vecs@[c2]@.len() ==> (#[trigger] chain_vecs@[c2]@[k])
                    < counts@.len(),
            forall|x: int| 0 <= x < counts@.len() ==> (#[trigger] counts@[x]) as nat == capped(usage(cs, x)),
            plan_seq(r@) == stack_list(tp, cs, c as int),
            forall|k: int| 0 <= k < tip_vec@.len() ==> (#[trigger] tip_vec@[k]) < counts@.len(),
            forall|k: int| 0 <= k < r@.len() ==> plan_in_range(#[trigger] r@[k], counts@.len()),
        decreases chain_vecs@.len() - c,
    {
        let ch = &chain_vecs[c];
        let members = private_members(ch, counts);
        proof {
            let cc = ch@.map_values(|x: usize| x as int);
            assert(cs[c as int] == cc);
            let by_count = |x: int| counts@[x] == 1;
            let by_usage = |x: int| usage(cs, x) == 1;
            assert forall|k: int| 0 <= k < cc.len() implies by_count(cc[k]) == by_usage(cc[k]) by {
                assert(ch@[k] < counts@.len());
                assert(counts@[cc[k]] as nat == capped(usage(cs, cc[k])));
            }
            lemma_filter_agree(cc, by_count, by_usage);
        }
        if members.len() > 0 {
            let ghost before = plan_seq(r@);
            let t = tip_vec[c];
            r.push(StackPlan { tip: t, revisions: members });
            assert(plan_seq(r@) =~= before.push((tp[c as int], private_part(cs, c as int))));
        }
        c = c + 1;
    }
    r
}

proof fn lemma_filter_agree(s: Seq<int>, by_count: spec_fn(int) -> bool, by_usage: spec_fn(int) -> bool)
    requires
        forall|k: int| 0 <= k < s.len() ==> by_count(#[trigger] s[k]) == by_usage(s[k]),
    ensures
        s.filter(by_count) == s.filter(by_usage),
    decreases s.len(),
{
    reveal(Seq::filter);
    if s.len() > 0 {
        lemma_filter_agree(s.drop_last(), by_count, by_usage);
        assert(by_count(s[s.len() - 1]) == by_usage(s[s.len() - 1]));
    }
}

/// `r` lists `id` among its parents.
pub open spec fn lists_parent(r: RevisionInfo, id: Seq<char>) -> bool {
    exists|k: int| 0 <= k < r.parent_change_ids@.len() && (#[trigger] r.parent_change_ids@[k])@ == id
}

/// Positions below `m` used by two or more chains and not immutable, in
/// increasing order (which is change id order).
pub open spec fn shared_candidates(g: Seq<RevisionInfo>, cs: Seq<Seq<int>>, m: int) -> Seq<int>
    decreases m,
{
    if m <= 0 {
        Seq::empty()
    } else if usage(cs, m - 1) > 1 && !g[m - 1].is_immutable {
        shared_candidates(g, cs, m - 1).push(m - 1)
    } else {
        shared_candidates(g, cs, m - 1)
    }
}

/// No member of `rem` is a parent of revision `x`.
pub open spec fn ready(g: Seq<RevisionInfo>, rem: Seq<int>, x: int) -> bool {
    forall|j: int| 0 <= j < rem.len() ==> !lists_parent(g[x], g[#[trigger] rem[j]].change_id@)
}

/// Index in `rem` of the first ready member at or after `k`; 0 when none is.
pub open spec fn first_ready(g: Seq<RevisionInfo>, rem: Seq<int>, k: int) -> int
    decreases rem.len() - k,
{
    if k < 0 || k >= rem.len() {
        0
    } else if ready(g, rem, rem[k]) {
        k
    } else {
        first_ready(g, rem, k + 1)
    }
}

/// `rem` ordered parents first: repeatedly take the first member none of
/// whose parents remains. Where every member has a parent left (a cycle,
/// which a revision graph does not have) the first member is taken.
pub open spec fn parents_first(g: Seq<RevisionInfo>, rem: Seq<int>) -> Seq<int>
    decreases rem.len(),
{
    let k = first_ready(g, rem, 0);
    if 0 <= k < rem.len() {
        seq![rem[k]] + parents_first(g, rem.remove(k))
    } else {
        Seq::empty()
    }
}

pub proof fn lemma_first_ready_bounds(g: Seq<RevisionInfo>, rem: Seq<int>, k: int)
    requires
        rem.len() > 0,
    ensures
        0 <= first_ready(g, rem, k) < rem.len(),
    decreases rem.len() - k,
{
    if k >= 0 && k < rem.len() && !ready(g, rem, rem[k]) {
        lemma_first_ready_bounds(g, rem, k + 1);
    }
}

/// Revision `x` lists revision `y` as a parent.
fn has_parent(g: &RevisionGraph, x: usize, y: usize) -> (r: bool)
    requires
        x < g.revisions@.len(),
        y < g.revisions@.len(),
    ensures
        r == lists_parent(g.revisions@[x as int], g.revisions@[y as int].change_id@),
{
    let ps = &g.revisions[x].parent_change_ids;
    let id = &g.revisions[y].change_id;
    let mut k: usize = 0;
    while k < ps.len()
        invariant
            k <= ps@.len(),
            ps == g.revisions@[x as int].parent_change_ids,
            id == g.revisions@[y as int].change_id,
            forall|k2: int| 0 <= k2 < k ==> (#[trigger] ps@[k2])@ != id@,
        decreases ps@.len() - k,
    {
        if ps[k] == *id {
            return true;
        }
        k = k + 1;
    }
    false
}

fn is_ready(g: &RevisionGraph, rem: &Vec<usize>, x: usize) -> (r: bool)
    requires
        x < g.revisions@.len(),
        forall|j: int| 0 <= j < rem@.len() ==> (#[trigger] rem@[j]) < g.revisions@.len(),
    ensures
        r == ready(g.revisions@, rem@.map_values(|y: usize| y as int), x as int),
{
    let ghost rs = rem@.map_values(|y: usize| y as int);
    let mut j: usize = 0;
    while j < rem.len()
        invariant
            j <= rem@.len(),
            rs == rem@.map_values(|y: usize| y as int),
            x < g.revisions@.len(),
            forall|j2: int| 0 <= j2 < rem@.len() ==> (#[trigger] rem@[j2]) < g.revisions@.len(),
            forall|j2: int| 0 <= j2 < j ==> !lists_parent(g.revisions@[x as int], g.revisions@[#[trigger] rs[j2]].change_id@),
        decreases rem@.len() - j,
    {
        if has_parent(g, x, rem[j]) {
            assert(rs[j as int] == rem@[j as int] as int);
            return false;
        }
        j = j + 1;
    }
    true
}

/// Order positions parents first, ties by position.
fn order_parents_first(g: &RevisionGraph, cands: Vec<usize>) -> (r: Vec<usize>)
    requires
        forall|j: int| 0 <= j < cands@.len() ==> (#[trigger] cands@[j]) < g.revisions@.len(),
    ensures
        r@.map_values(|y: usize| y as int) == parents_first(g.revisions@, cands@.map_values(|y: usize| y as int)),
        forall|j: int| 0 <= j < r@.len() ==> (#[trigger] r@[j]) < g.revisions@.len(),
{
    let ghost whole = parents_first(g.revisions@, cands@.map_values(|y: usize| y as int));
    let mut rem = cands;
    let mut out: Vec<usize> = Vec::new();
    while rem.len() > 0
        invariant
            forall|j: int| 0 <= j < rem@.len() ==> (#[trigger] rem@[j]) < g.revisions@.len(),
            out@.map_values(|y: usize| y as int) + parents_first(g.revisions@, rem@.map_values(|y: usize| y as int))
                == whole,
            forall|j: int| 0 <= j < out@.len() ==> (#[trigger] out@[j]) < g.revisions@.len(),
        decreases rem@.len(),
    {
        let ghost rs = rem@.map_values(|y: usize| y as int);
        let mut k: usize = 0;
        let mut found = false;
        while k < rem.len() && !found
            invariant
                rs == rem@.map_values(|y: usize| y as int),
                rem@.len() > 0,
                k <= rem@.len(),
                forall|j: int| 0 <= j < rem@.len() ==> (#[trigger] rem@[j]) < g.revisions@.len(),
                found ==> k < rem@.len() && first_ready(g.revisions@, rs, 0) == k,
                !found ==> first_ready(g.revisions@, rs, 0) == first_ready(g.revisions@, rs, k as int),
            decreases rem@.len() - k + (if found { 0int } else { 1int }),
        {
            if is_ready(g, &rem, rem[k]) {
                found = true;
            } else {
                k = k + 1;
            }
        }
        if !found {
            k = 0;
        }
        proof {
            lemma_first_ready_bounds(g.revisions@, rs, 0);
        }
        assert(first_ready(g.revisions@, rs, 0) == k);
        let ghost before = out@.map_values(|y: usize| y as int);
        let x = rem.remove(k);
        out.push(x);
        proof {
            assert(rem@.map_values(|y: usize| y as int) =~= rs.remove(k as int));
            assert(out@.map_values(|y: usize| y as int) =~= before.push(x as int));
            assert(parents_first(g.revisions@, rs) == seq![rs[k as int]] + parents_first(g.revisions@, rs.remove(k as int)));
            assert(before.push(x as int) + parents_first(g.revisions@, rs.remove(k as int)) =~= before + (
                seq![rs[k as int]] + parents_first(g.revisions@, rs.remove(k as int))));
        }
    }
    assert(out@.map_values(|y: usize| y as int) + parents_first(g.revisions@, rem@.map_values(|y: usize| y as int))
        =~= out@.map_values(|y: usize| y as int));
    out
}

/// Positions used by two or more chains, not immutable, in increasing order.
fn collect_shared(g: &RevisionGraph, counts: &Vec<usize>, Ghost(cs): Ghost<Seq<Seq<int>>>) -> (r: Vec<usize>)
    requires
        counts@.len() == g.revisions@.len(),
        forall|x: int| 0 <= x < counts@.len() ==> (#[trigger] counts@[x]) as nat == capped(usage(cs, x)),
    ensures
        r@.map_values(|y: usize| y as int) == shared_candidates(g.revisions@, cs, g.revisions@.len() as int),
        forall|j: int| 0 <= j < r@.len() ==> (#[trigger] r@[j]) < g.revisions@.len(),
{
    let mut r: Vec<usize> = Vec::new();
    let mut i: usize = 0;
    while i < counts.len()
        invariant
            i <= counts@.len(),
            counts@.len() == g.revisions@.len(),
            forall|x: int| 0 <= x < counts@.len() ==> (#[trigger] counts@[x]) as nat == capped(usage(cs, x)),
            r@.map_values(|y: usize| y as int) == shared_candidates(g.revisions@, cs, i as int),
            forall|j: int| 0 <= j < r@.len() ==> (#[trigger] r@[j]) < i,
        decreases counts@.len() - i,
    {
        assert(counts@[i as int] as nat == capped(usage(cs, i as int)));
        if counts[i] > 1 && !g.revisions[i].is_immutable {
            let ghost before = r@.map_values(|y: usize| y as int);
            r.push(i);
            assert(r@.map_values(|y: usize| y as int) =~= before.push(i as int));
        }
        i = i + 1;
    }
    r
}

/// First immutable position at or after `i`.
pub open spec fn first_immutable(g: Seq<RevisionInfo>, i: int) -> Option<int>
    decreases g.len() - i,
{
    if i < 0 || i >= g.len() {
        None
    } else if g[i].is_immutable {
        Some(i)
    } else {
        first_immutable(g, i + 1)
    }
}

/// A revision is taken into a stack (used by exactly one chain) or into the
/// shared base (used by several, and mutable).
pub open spec fn consumed(g: Seq<RevisionInfo>, cs: Seq<Seq<int>>, x: int) -> bool {
    usage(cs, x) == 1 || (usage(cs, x) > 1 && !g[x].is_immutable)
}

/// The working copy, when present and in neither a stack nor the shared base.
pub open spec fn detached_working_copy(g: Seq<RevisionInfo>, wc: Seq<char>) -> Option<int> {
    match find_id(g, wc) {
        Some(w) => if consumed(g, chains(g, wc), w) { None } else { Some(w) },
        None => None,
    }
}

/// The partition of a graph, by positions.
pub struct Partition {
    pub trunk: Option<usize>,
    pub stacks: Vec<StackPlan>,
    pub shared_base: Vec<usize>,
    pub working_copy: Option<usize>,
}

pub open spec fn opt_int(o: Option<usize>) -> Option<int> {
    match o {
        Some(x) => Some(x as int),
        None => None,
    }
}

impl Partition {
    /// Every position the partition names lies below `n`.
    pub open spec fn in_range(&self, n: nat) -> bool {
        &&& (self.trunk is Some ==> self.trunk->0 < n)
        &&& (self.working_copy is Some ==> self.working_copy->0 < n)
        &&& forall|k: int| 0 <= k < self.stacks@.len() ==> plan_in_range(#[trigger] self.stacks@[k], n)
        &&& forall|j: int| 0 <= j < self.shared_base@.len() ==> (#[trigger] self.shared_base@[j]) < n
    }

    /// What the partition of `g` is.
    pub open spec fn describes(&self, g: Seq<RevisionInfo>, wc: Seq<char>) -> bool {
        let cs = chains(g, wc);
        &&& opt_int(self.trunk) == first_immutable(g, 0)
        &&& plan_seq(self.stacks@) == stack_list(tips(g, wc), cs, cs.len() as int)
        &&& self.shared_base@.map_values(|y: usize| y as int) == parents_first(
            g,
            shared_candidates(g, cs, g.len() as int),
        )
        &&& opt_int(self.working_copy) == detached_working_copy(g, wc)
    }
}

/// Split the graph into stacks, a shared base and a detached working copy.
pub fn partition(g: &RevisionGraph) -> (p: Partition)
    requires
        g.wf(),
    ensures
        p.describes(g.revisions@, g.working_copy_id@),
        p.in_range(g.revisions@.len()),
{
    let ghost revs = g.revisions@;
    let ghost wc = g.working_copy_id@;
    let n = g.revisions.len();
    let choice = select_tips(g);
    let tip_vec: Vec<usize> = match choice {
        TipChoice::Bookmarked(v) => v,
        TipChoice::WorkingCopy(w) => {
            let mut v: Vec<usize> = Vec::new();
            v.push(w);
            v
        },
        TipChoice::NoTips => Vec::new(),
    };
    let ghost tp = tips(revs, wc);
    assert(tip_vec@.map_values(|t: usize| t as int) =~= tp);
    proof {
        lemma_tips_in_range(revs, wc);
    }
    let mut chain_vecs: Vec<Vec<usize>> = Vec::new();
    let mut c: usize = 0;
    while c < tip_vec.len()
        invariant
            g.wf(),
            revs == g.revisions@,
            n == revs.len(),
            tip_vec@.map_values(|t: usize| t as int) == tp,
            forall|k: int| 0 <= k < tp.len() ==> 0 <= #[trigger] tp[k] < revs.len(),
            c <= tip_vec@.len(),
            chain_vecs@.len() == c,
            int_seqs(chain_vecs@) == tp.subrange(0, c as int).map_values(|t: int| chain(revs, t)),
            forall|c2: int, k: int|
                0 <= c2 < chain_vecs@.len() && 0 <= k < chain_vecs@[c2]@.len() ==> (#[trigger] chain_vecs@[c2]@[k]) < n,
        decreases tip_vec@.len() - c,
    {
        assert(tp[c as int] == tip_vec@[c as int] as int);
        let ch = walk_chain(g, tip_vec[c]);
        let ghost before = chain_vecs@;
        let ghost chv = ch@.map_values(|x: usize| x as int);
        chain_vecs.push(ch);
        assert(int_seqs(chain_vecs@) =~= int_seqs(before).push(chv));
        assert(tp.subrange(0, c as int + 1).map_values(|t: int| chain(revs, t)) =~= tp.subrange(0, c as int).map_values(
            |t: int| chain(revs, t),
        ).push(chain(revs, tp[c as int])));
        assert forall|c2: int, k: int|
            0 <= c2 < chain_vecs@.len() && 0 <= k < chain_vecs@[c2]@.len() implies (#[trigger] chain_vecs@[c2]@[k]) < n by {
            if c2 < c {
                assert(chain_vecs@[c2] == before[c2]);
            }
        }
        c = c + 1;
    }
    let ghost cs = chains(revs, wc);
    assert(tp.subrange(0, tp.len() as int) =~= tp);
    assert(int_seqs(chain_vecs@) =~= cs);
    let counts = count_usage(&chain_vecs, n);
    assert forall|k: int| 0 <= k < tip_vec@.len() implies (#[trigger] tip_vec@[k]) < counts@.len() by {
        assert(tp[k] == tip_vec@[k] as int);
    }
    let stacks = build_stacks(&tip_vec, &chain_vecs, &counts);
    let cands = collect_shared(g, &counts, Ghost(cs));
    let shared_base = order_parents_first(g, cands);
    let working_copy = match find_index(g, &g.working_copy_id) {
        Some(w) => {
            assert(counts@[w as int] as nat == capped(usage(cs, w as int)));
            if counts[w] == 1 || (counts[w] > 1 && !g.revisions[w].is_immutable) {
                None
            } else {
                Some(w)
            }
        },
        None => None,
    };
    let mut trunk: Option<usize> = None;
    let mut i: usize = n;
    while i > 0
        invariant
            n == revs.len(),
            revs == g.revisions@,
            i <= n,
            opt_int(trunk) == first_immutable(revs, i as int),
            trunk is Some ==> trunk->0 < n,
        decreases i,
    {
        i = i - 1;
        if g.revisions[i].is_immutable {
            trunk = Some(i);
        }
    }
    Partition { trunk, stacks, shared_base, working_copy }
}

proof fn lemma_bookmark_tips_in_range(g: Seq<RevisionInfo>, m: int)
    requires
        0 <= m <= g.len(),
    ensures
        forall|k: int| 0 <= k < bookmark_tips(g, m).len() ==> 0 <= #[trigger] bookmark_tips(g, m)[k] < m,
    decreases m,
{
    if m > 0 {
        lemma_bookmark_tips_in_range(g, m - 1);
        let b = bookmark_tips(g, m - 1);
        assert forall|k: int| 0 <= k < bookmark_tips(g, m).len() implies 0 <= #[trigger] bookmark_tips(g, m)[k] < m by {
            if k < b.len() {
                assert(bookmark_tips(g, m)[k] == b[k]);
            }
        }
    }
}

pub proof fn lemma_tips_in_range(g: Seq<RevisionInfo>, wc: Seq<char>)
    ensures
        forall|k: int| 0 <= k < tips(g, wc).len() ==> 0 <= #[trigger] tips(g, wc)[k] < g.len(),
{
    lemma_bookmark_tips_in_range(g, g.len() as int);
    if let Some(w) = find_id(g, wc) {
        assert(0 <= w < g.len());
    }
}

/// Change ids of the revisions among the first `m` that list `id` as a
/// parent, in graph order.
pub open spec fn children_upto(g: Seq<RevisionInfo>, id: Seq<char>, m: int) -> Seq<Seq<char>>
    decreases m,
{
    if m <= 0 {
        Seq::empty()
    } else if lists_parent(g[m - 1], id) {
        children_upto(g, id, m - 1).push(g[m - 1].change_id@)
    } else {
        children_upto(g, id, m - 1)
    }
}

/// The children of `id`: every revision that lists it as a parent, primary
/// or not, in change id order.
pub fn children_of(g: &RevisionGraph, id: &String) -> (r: Vec<String>)
    ensures
        views(r@) == children_upto(g.revisions@, id@, g.revisions@.len() as int),
{
    let mut r: Vec<String> = Vec::new();
    let mut i: usize = 0;
    while i < g.revisions.len()
        invariant
            i <= g.revisions@.len(),
            views(r@) == children_upto(g.revisions@, id@, i as int),
        decreases g.revisions@.len() - i,
    {
        let ps = &g.revisions[i].parent_change_ids;
        let mut k: usize = 0;
        let mut found = false;
        while k < ps.len() && !found
            invariant
                k <= ps@.len(),
                ps == g.revisions@[i as int].parent_change_ids,
                found ==> lists_parent(g.revisions@[i as int], id@),
                !found ==> forall|k2: int| 0 <= k2 < k ==> (#[trigger] ps@[k2])@ != id@,
            decreases ps@.len() - k + (if found { 0int } else { 1int }),
        {
            if ps[k] == *id {
                found = true;
            } else {
                k = k + 1;
            }
        }
        if found {
            let ghost before = views(r@);
            r.push(g.revisions[i].change_id.clone());
            assert(views(r@) =~= before.push(g.revisions@[i as int].change_id@));
        }
        i = i + 1;
    }
    r
}

} // verus!
