//! Indexed view of a flat revision list: one record per change id, sorted
//! by change id, with the working copy marked.

use vstd::prelude::*;
use crate::order::{id_less, id_lt, lemma_id_lt_asymmetric, lemma_id_lt_irreflexive,
    lemma_id_lt_total, lemma_id_lt_transitive};
use crate::revision::RevisionInfo;

verus! {

/// Revisions keyed by change id, in increasing change id order.
pub struct RevisionGraph {
    pub revisions: Vec<RevisionInfo>,
    pub working_copy_id: String,
}

/// Change ids strictly increase along `revs`.
pub open spec fn sorted_by_id(revs: Seq<RevisionInfo>) -> bool {
    forall|i: int, j: int|
        0 <= i < j < revs.len() ==> id_lt(#[trigger] revs[i].change_id@, #[trigger] revs[j].change_id@)
}

/// `r` with its working-copy flag set from `wc`.
pub open spec fn with_wc_flag(r: RevisionInfo, wc: Seq<char>) -> RevisionInfo {
    RevisionInfo { is_working_copy: r.change_id@ == wc, ..r }
}

/// No record after position `j` has the change id of record `j`.
pub open spec fn is_last_with_id(recs: Seq<RevisionInfo>, j: int) -> bool {
    forall|k: int| j < k < recs.len() ==> (#[trigger] recs[k]).change_id@ != recs[j].change_id@
}

/// Position of the record with change id `id`, if any.
pub open spec fn find_id(revs: Seq<RevisionInfo>, id: Seq<char>) -> Option<int> {
    if exists|i: int| 0 <= i < revs.len() && (#[trigger] revs[i]).change_id@ == id {
        Some(choose|i: int| 0 <= i < revs.len() && (#[trigger] revs[i]).change_id@ == id)
    } else {
        None
    }
}

pub proof fn lemma_sorted_unique(revs: Seq<RevisionInfo>, i: int, j: int)
    requires
        sorted_by_id(revs),
        0 <= i < revs.len(),
        0 <= j < revs.len(),
        revs[i].change_id@ == revs[j].change_id@,
    ensures
        i == j,
{
    if i < j {
        assert(id_lt(revs[i].change_id@, revs[j].change_id@));
        lemma_id_lt_irreflexive(revs[i].change_id@);
    } else if j < i {
        assert(id_lt(revs[j].change_id@, revs[i].change_id@));
        lemma_id_lt_irreflexive(revs[i].change_id@);
    }
}

pub proof fn lemma_find_id(revs: Seq<RevisionInfo>, id: Seq<char>, i: int)
    requires
        sorted_by_id(revs),
        0 <= i < revs.len(),
        revs[i].change_id@ == id,
    ensures
        find_id(revs, id) == Some(i),
{
    let k = find_id(revs, id).unwrap();
    lemma_sorted_unique(revs, i, k);
}

/// Insert `rec` at its place in `out`, unless a record with its change id is
/// already there.
fn insert_sorted(out: &mut Vec<RevisionInfo>, rec: RevisionInfo) -> (inserted: bool)
    requires
        sorted_by_id(old(out)@),
    ensures
        sorted_by_id(final(out)@),
        inserted == !holds_id(old(out)@, rec.change_id@),
        inserted ==> exists|p: int| 0 <= p <= old(out)@.len() && final(out)@ == old(out)@.insert(p, rec),
        !inserted ==> final(out)@ == old(out)@,
{
    let mut p: usize = 0;
    while p < out.len() && id_less(out[p].change_id.as_str(), rec.change_id.as_str())
        invariant
            p <= out@.len(),
            forall|k: int| 0 <= k < p ==> id_lt((#[trigger] out@[k]).change_id@, rec.change_id@),
        decreases out@.len() - p,
    {
        p = p + 1;
    }
    if p < out.len() && out[p].change_id == rec.change_id {
        return false;
    }
    proof {
        if p < out@.len() {
            lemma_id_lt_total(out@[p as int].change_id@, rec.change_id@);
        }
        assert forall|i: int| 0 <= i < out@.len() implies (#[trigger] out@[i]).change_id@
            != rec.change_id@ by {
            if i < p {
                lemma_id_lt_irreflexive(rec.change_id@);
            } else if i > p {
                assert(id_lt(out@[p as int].change_id@, out@[i].change_id@));
                if out@[i].change_id@ == rec.change_id@ {
                    lemma_id_lt_asymmetric(out@[p as int].change_id@, rec.change_id@);
                }
            }
        }
    }
    let ghost old_out = out@;
    out.insert(p, rec);
    proof {
        assert(out@ == old_out.insert(p as int, rec));
        assert forall|a: int, b: int|
            0 <= a < b < out@.len() implies id_lt(
                #[trigger] out@[a].change_id@,
                #[trigger] out@[b].change_id@,
            ) by {
            if b < p {
                assert(out@[a] == old_out[a] && out@[b] == old_out[b]);
            } else if b == p {
                assert(out@[a] == old_out[a]);
            } else if a < p {
                assert(out@[a] == old_out[a] && out@[b] == old_out[b - 1]);
                assert(id_lt(rec.change_id@, old_out[p as int].change_id@));
                lemma_id_lt_transitive(old_out[a].change_id@, rec.change_id@, old_out[p as int].change_id@);
                if b - 1 > p {
                    assert(id_lt(old_out[p as int].change_id@, old_out[b - 1].change_id@));
                    lemma_id_lt_transitive(old_out[a].change_id@, old_out[p as int].change_id@, old_out[b - 1].change_id@);
                }
            } else if a == p {
                assert(out@[b] == old_out[b - 1]);
                if b - 1 > p {
                    assert(id_lt(old_out[p as int].change_id@, old_out[b - 1].change_id@));
                    lemma_id_lt_transitive(rec.change_id@, old_out[p as int].change_id@, old_out[b - 1].change_id@);
                }
            } else {
                assert(out@[a] == old_out[a - 1] && out@[b] == old_out[b - 1]);
            }
        }
    }
    true
}

/// Some record of `revs` has change id `id`.
pub open spec fn holds_id(revs: Seq<RevisionInfo>, id: Seq<char>) -> bool {
    exists|i: int| 0 <= i < revs.len() && (#[trigger] revs[i]).change_id@ == id
}

/// `r` is record `j` of `recs`, for some `j >= from` that is the last one
/// with its change id, with its working-copy flag set from `wc`.
pub open spec fn kept_record(recs: Seq<RevisionInfo>, wc: Seq<char>, from: int, r: RevisionInfo) -> bool {
    exists|j: int|
        from <= j < recs.len() && is_last_with_id(recs, j) && r == with_wc_flag(#[trigger] recs[j], wc)
}

/// One step of `RevisionGraph::build`: record `n` has been offered to `out`.
proof fn lemma_build_step(
    recs: Seq<RevisionInfo>,
    wc: Seq<char>,
    n: int,
    old_out: Seq<RevisionInfo>,
    out: Seq<RevisionInfo>,
    rec: RevisionInfo,
    inserted: bool,
)
    requires
        0 <= n < recs.len(),
        rec == with_wc_flag(recs[n], wc),
        forall|i: int| 0 <= i < old_out.len() ==> kept_record(recs, wc, n + 1, #[trigger] old_out[i]),
        forall|j: int| n + 1 <= j < recs.len() ==> holds_id(old_out, (#[trigger] recs[j]).change_id@),
        inserted == !holds_id(old_out, rec.change_id@),
        inserted ==> exists|p: int| 0 <= p <= old_out.len() && out == old_out.insert(p, rec),
        !inserted ==> out == old_out,
    ensures
        forall|i: int| 0 <= i < out.len() ==> kept_record(recs, wc, n, #[trigger] out[i]),
        forall|j: int| n <= j < recs.len() ==> holds_id(out, (#[trigger] recs[j]).change_id@),
{
    if inserted {
        let p = choose|p: int| 0 <= p <= old_out.len() && out == old_out.insert(p, rec);
        assert forall|k: int| n < k < recs.len() implies (#[trigger] recs[k]).change_id@
            != recs[n].change_id@ by {
            if recs[k].change_id@ == recs[n].change_id@ {
                assert(holds_id(old_out, recs[k].change_id@));
            }
        }
        assert(is_last_with_id(recs, n));
        assert forall|i: int| 0 <= i < out.len() implies kept_record(recs, wc, n, #[trigger] out[i]) by {
            if i < p {
                assert(out[i] == old_out[i]);
                assert(kept_record(recs, wc, n + 1, old_out[i]));
            } else if i == p {
                assert(out[i] == with_wc_flag(recs[n], wc));
            } else {
                assert(out[i] == old_out[i - 1]);
                assert(kept_record(recs, wc, n + 1, old_out[i - 1]));
            }
        }
        assert forall|j: int| n <= j < recs.len() implies holds_id(out, (#[trigger] recs[j]).change_id@) by {
            if j == n {
                assert(out[p].change_id@ == recs[j].change_id@);
            } else {
                assert(holds_id(old_out, recs[j].change_id@));
                let i = choose|i: int| 0 <= i < old_out.len() && (#[trigger] old_out[i]).change_id@
                    == recs[j].change_id@;
                if i < p {
                    assert(out[i] == old_out[i]);
                } else {
                    assert(out[i + 1] == old_out[i]);
                }
            }
        }
    } else {
        assert forall|i: int| 0 <= i < out.len() implies kept_record(recs, wc, n, #[trigger] out[i]) by {
            assert(kept_record(recs, wc, n + 1, old_out[i]));
        }
        assert forall|j: int| n <= j < recs.len() implies holds_id(out, (#[trigger] recs[j]).change_id@) by {
            if j > n {
                assert(holds_id(old_out, recs[j].change_id@));
            }
        }
    }
}

impl RevisionGraph {
    /// Records sorted and unique by change id; each flag `is_working_copy`
    /// agrees with `working_copy_id`.
    pub open spec fn wf(&self) -> bool {
        &&& sorted_by_id(self.revisions@)
        &&& forall|i: int|
            0 <= i < self.revisions@.len() ==> (#[trigger] self.revisions@[i]).is_working_copy
                == (self.revisions@[i].change_id@ == self.working_copy_id@)
    }

    /// Index a flat list of records. For a change id that occurs more than
    /// once the last record wins; the record whose change id is
    /// `working_copy_id` is marked as the working copy.
    /// This graph indexes `records` with working copy `wc`: sorted by change
    /// id, holding every change id of `records`, each by the last record that
    /// has it.
    pub open spec fn built_from(&self, records: Seq<RevisionInfo>, wc: Seq<char>) -> bool {
        &&& self.wf()
        &&& self.working_copy_id@ == wc
        &&& forall|i: int|
            0 <= i < self.revisions@.len() ==> kept_record(records, wc, 0, #[trigger] self.revisions@[i])
        &&& forall|j: int| 0 <= j < records.len() ==> holds_id(self.revisions@, (#[trigger] records[j]).change_id@)
    }

    pub fn build(records: Vec<RevisionInfo>, working_copy_id: &str) -> (g: RevisionGraph)
        ensures
            g.built_from(records@, working_copy_id@),
    {
        let ghost recs = records@;
        let ghost wc = working_copy_id@;
        let wc_id = String::from_str(working_copy_id);
        let mut rest = records;
        let mut out: Vec<RevisionInfo> = Vec::new();
        assert(recs.subrange(0, recs.len() as int) =~= recs);
        while rest.len() > 0
            invariant
                rest@.len() <= recs.len(),
                rest@ == recs.subrange(0, rest@.len() as int),
                wc_id@ == wc,
                sorted_by_id(out@),
                forall|i: int|
                    0 <= i < out@.len() ==> kept_record(recs, wc, rest@.len() as int, #[trigger] out@[i]),
                forall|j: int|
                    rest@.len() <= j < recs.len() ==> holds_id(out@, (#[trigger] recs[j]).change_id@),
            decreases rest@.len(),
        {
            let ghost before = rest@;
            let mut rec = rest.pop().unwrap();
            let ghost n = rest@.len() as int;
            assert(before == recs.subrange(0, n + 1));
            assert(before[n] == recs[n]);
            assert(rest@ =~= recs.subrange(0, n));
            rec.is_working_copy = rec.change_id == wc_id;
            let ghost old_out = out@;
            let inserted = insert_sorted(&mut out, rec);
            proof {
                lemma_build_step(recs, wc, n, old_out, out@, rec, inserted);
            }
        }
        assert(rest@.len() == 0);
        let g = RevisionGraph { revisions: out, working_copy_id: wc_id };
        proof {
            assert forall|i: int|
                0 <= i < g.revisions@.len() implies (#[trigger] g.revisions@[i]).is_working_copy
                    == (g.revisions@[i].change_id@ == g.working_copy_id@) by {
                assert(kept_record(recs, wc, 0, out@[i]));
            }
        }
        g
    }
}

} // verus!
