//! A two-way map between identifiers and their short forms, for resolving
//! what a user typed.

use vstd::prelude::*;
use crate::short_id::{has_prefix, lemma_unique_len_bounds, min_len, prefix_count, shortest_unique,
    shortest_unique_prefix, starts_with, unique_len, views, MIN_ID_LEN};

verus! {

/// `s` without repeats, each element where it first occurs.
pub open spec fn dedup(s: Seq<Seq<char>>) -> Seq<Seq<char>>
    decreases s.len(),
{
    if s.len() == 0 {
        s
    } else {
        let d = dedup(s.drop_last());
        if d.contains(s.last()) { d } else { d.push(s.last()) }
    }
}

/// Short and full identifiers, one pair per distinct identifier.
pub struct IdMap {
    pub entries: Vec<(String, String)>,
}

pub open spec fn pairs(e: Seq<(String, String)>) -> Seq<(Seq<char>, Seq<char>)> {
    e.map_values(|p: (String, String)| (p.0@, p.1@))
}

/// Position of the first pair from `k` on whose short form is `q`.
pub open spec fn find_short(e: Seq<(Seq<char>, Seq<char>)>, q: Seq<char>, k: int) -> Option<int>
    decreases e.len() - k,
{
    if k < 0 || k >= e.len() {
        None
    } else if e[k].0 == q {
        Some(k)
    } else {
        find_short(e, q, k + 1)
    }
}

/// Position of the first pair from `k` on whose full form is `f`.
pub open spec fn find_full(e: Seq<(Seq<char>, Seq<char>)>, f: Seq<char>, k: int) -> Option<int>
    decreases e.len() - k,
{
    if k < 0 || k >= e.len() {
        None
    } else if e[k].1 == f {
        Some(k)
    } else {
        find_full(e, f, k + 1)
    }
}

/// A pair matches `q` when its short or its full form starts with `q`.
pub open spec fn matches_prefix(p: (Seq<char>, Seq<char>), q: Seq<char>) -> bool {
    has_prefix(p.0, q) || has_prefix(p.1, q)
}

/// How many pairs match `q`.
pub open spec fn match_count(e: Seq<(Seq<char>, Seq<char>)>, q: Seq<char>) -> nat
    decreases e.len(),
{
    if e.len() == 0 {
        0
    } else {
        match_count(e.drop_last(), q) + (if matches_prefix(e.last(), q) { 1nat } else { 0nat })
    }
}

/// Position of the last pair that matches `q`.
pub open spec fn last_match(e: Seq<(Seq<char>, Seq<char>)>, q: Seq<char>) -> int
    decreases e.len(),
{
    if e.len() == 0 {
        -1
    } else if matches_prefix(e.last(), q) {
        e.len() - 1
    } else {
        last_match(e.drop_last(), q)
    }
}

/// What `q` resolves to: the full form of a pair whose short form is `q`;
/// failing that, the full form of the one pair that matches `q`; none
/// where no pair or several match.
pub open spec fn resolve_spec(e: Seq<(Seq<char>, Seq<char>)>, q: Seq<char>) -> Option<Seq<char>> {
    match find_short(e, q, 0) {
        Some(i) => Some(e[i].1),
        None => if match_count(e, q) == 1 { Some(e[last_match(e, q)].1) } else { None },
    }
}

proof fn lemma_last_match_range(e: Seq<(Seq<char>, Seq<char>)>, q: Seq<char>)
    ensures
        match_count(e, q) > 0 ==> 0 <= last_match(e, q) < e.len(),
    decreases e.len(),
{
    if e.len() > 0 {
        lemma_last_match_range(e.drop_last(), q);
    }
}

/// A copy of `ids` without repeats, each where it first occurs.
fn dedup_ids(ids: &[String]) -> (r: Vec<String>)
    ensures
        views(r@) == dedup(views(ids@)),
{
    let ghost vs = views(ids@);
    let mut r: Vec<String> = Vec::new();
    let mut i: usize = 0;
    while i < ids.len()
        invariant
            i <= ids@.len(),
            vs == views(ids@),
            views(r@) == dedup(vs.subrange(0, i as int)),
        decreases ids@.len() - i,
    {
        assert(vs.subrange(0, i as int + 1).drop_last() =~= vs.subrange(0, i as int));
        let mut seen = false;
        let mut k: usize = 0;
        while k < r.len()
            invariant
                k <= r@.len(),
                i < ids@.len(),
                seen == exists|j: int| 0 <= j < k && r@[j]@ == ids@[i as int]@,
            decreases r@.len() - k,
        {
            if r[k] == ids[i] {
                seen = true;
            }
            k = k + 1;
        }
        proof {
            let d = dedup(vs.subrange(0, i as int));
            assert(views(r@) == d);
            if seen {
                let j = choose|j: int| 0 <= j < r@.len() && r@[j]@ == ids@[i as int]@;
                assert(d[j] == vs[i as int]);
                assert(d.contains(vs[i as int]));
            } else {
                assert forall|j: int| 0 <= j < d.len() implies d[j] != vs[i as int] by {
                    assert(d[j] == r@[j]@);
                }
            }
        }
        if !seen {
            let ghost before = r@;
            r.push(ids[i].clone());
            assert(views(r@) =~= views(before).push(vs[i as int]));
        }
        i = i + 1;
    }
    assert(vs.subrange(0, ids@.len() as int) =~= vs);
    r
}

impl IdMap {
    /// The map holds, for each distinct identifier of `ids` in order of
    /// first occurrence, its short form and itself.
    pub open spec fn built_from(&self, ids: Seq<Seq<char>>) -> bool {
        let d = dedup(ids);
        &&& pairs(self.entries@).len() == d.len()
        &&& forall|i: int|
            0 <= i < d.len() ==> (#[trigger] pairs(self.entries@)[i]) == (shortest_unique(d, d[i]), d[i])
    }

    /// Map each distinct identifier of `change_ids`, in order of first
    /// occurrence, to its shortest prefix of at least four characters that
    /// no other identifier of the set starts with; an identifier with no
    /// such prefix (it is a prefix of another) maps to itself.
    pub fn build(change_ids: &[String]) -> (m: IdMap)
        ensures
            m.built_from(views(change_ids@)),
    {
        let ids = dedup_ids(change_ids);
        let mut entries: Vec<(String, String)> = Vec::new();
        let mut i: usize = 0;
        while i < ids.len()
            invariant
                i <= ids@.len(),
                entries@.len() == i,
                views(ids@) == dedup(views(change_ids@)),
                forall|k: int| 0 <= k < i ==> (#[trigger] pairs(entries@)[k]) == (
                    shortest_unique(views(ids@), views(ids@)[k]),
                    views(ids@)[k],
                ),
            decreases ids@.len() - i,
        {
            let short = shortest_unique_prefix(ids.as_slice(), ids[i].as_str());
            let ghost before = entries@;
            entries.push((short, ids[i].clone()));
            proof {
                assert forall|k: int| 0 <= k < i + 1 implies (#[trigger] pairs(entries@)[k]) == (
                    shortest_unique(views(ids@), views(ids@)[k]),
                    views(ids@)[k],
                ) by {
                    if k < i {
                        assert(pairs(entries@)[k] == pairs(before)[k]);
                    }
                }
            }
            i = i + 1;
        }
        let m = IdMap { entries };
        assert(pairs(m.entries@).len() == entries@.len());
        m
    }

    /// The full identifier that `short` stands for: an exact short form
    /// first, else the one pair whose short or full form starts with
    /// `short`; none when nothing or more than one matches.
    pub fn resolve<'a>(&'a self, short: &str) -> (r: Option<&'a str>)
        ensures
            match r {
                Some(f) => resolve_spec(pairs(self.entries@), short@) == Some(f@),
                None => resolve_spec(pairs(self.entries@), short@) is None,
            },
    {
        let ghost e = pairs(self.entries@);
        let mut i: usize = 0;
        while i < self.entries.len()
            invariant
                e == pairs(self.entries@),
                i <= e.len(),
                find_short(e, short@, 0) == find_short(e, short@, i as int),
            decreases e.len() - i,
        {
            assert(e[i as int] == (self.entries@[i as int].0@, self.entries@[i as int].1@));
            let s = self.entries[i].0.as_str();
            if starts_with(s, short) && starts_with(short, s) {
                assert(s@ =~= short@);
                return Some(self.entries[i].1.as_str());
            }
            proof {
                if s@ == short@ {
                    assert(s@.subrange(0, s@.len() as int) =~= s@);
                }
            }
            i = i + 1;
        }
        let mut count: usize = 0;
        let mut last: usize = 0;
        let mut k: usize = 0;
        while k < self.entries.len()
            invariant
                e == pairs(self.entries@),
                k <= e.len(),
                count <= k,
                count as nat == match_count(e.subrange(0, k as int), short@),
                count > 0 ==> last as int == last_match(e.subrange(0, k as int), short@),
            decreases e.len() - k,
        {
            assert(e.subrange(0, k as int + 1).drop_last() =~= e.subrange(0, k as int));
            assert(e[k as int] == (self.entries@[k as int].0@, self.entries@[k as int].1@));
            if starts_with(self.entries[k].0.as_str(), short) || starts_with(self.entries[k].1.as_str(), short) {
                count = count + 1;
                last = k;
            }
            k = k + 1;
        }
        assert(e.subrange(0, e.len() as int) =~= e);
        if count == 1 {
            proof {
                lemma_last_match_range(e, short@);
            }
            assert(e[last as int] == (self.entries@[last as int].0@, self.entries@[last as int].1@));
            Some(self.entries[last].1.as_str())
        } else {
            None
        }
    }

    /// The short form of `full`; its first four characters when the map
    /// does not hold it.
    pub fn short_id(&self, full: &str) -> (r: String)
        ensures
            r@ == match find_full(pairs(self.entries@), full@, 0) {
                Some(i) => pairs(self.entries@)[i].0,
                None => full@.subrange(0, min_len(full@)),
            },
    {
        let ghost e = pairs(self.entries@);
        let mut i: usize = 0;
        while i < self.entries.len()
            invariant
                e == pairs(self.entries@),
                i <= e.len(),
                find_full(e, full@, 0) == find_full(e, full@, i as int),
            decreases e.len() - i,
        {
            assert(e[i as int] == (self.entries@[i as int].0@, self.entries@[i as int].1@));
            let f = self.entries[i].1.as_str();
            if starts_with(f, full) && starts_with(full, f) {
                assert(f@ =~= full@);
                return self.entries[i].0.clone();
            }
            proof {
                if f@ == full@ {
                    assert(f@.subrange(0, f@.len() as int) =~= f@);
                }
            }
            i = i + 1;
        }
        let n = full.unicode_len();
        let take = if n < MIN_ID_LEN { n } else { MIN_ID_LEN };
        String::from_str(full.substring_char(0, take))
    }
}

proof fn lemma_dedup_distinct(s: Seq<Seq<char>>)
    ensures
        forall|a: int, b: int| 0 <= a < b < dedup(s).len() ==> dedup(s)[a] != dedup(s)[b],
    decreases s.len(),
{
    if s.len() > 0 {
        lemma_dedup_distinct(s.drop_last());
        let d = dedup(s.drop_last());
        if !d.contains(s.last()) {
            assert forall|a: int, b: int| 0 <= a < b < dedup(s).len() implies dedup(s)[a] != dedup(s)[b] by {
                if b == d.len() {
                    assert(dedup(s)[a] == d[a]);
                }
            }
        }
    }
}

proof fn lemma_prefix_count_two(ids: Seq<Seq<char>>, p: Seq<char>, a: int, b: int)
    requires
        0 <= a < b < ids.len(),
        has_prefix(ids[a], p),
        has_prefix(ids[b], p),
    ensures
        prefix_count(ids, p) >= 2,
    decreases ids.len(),
{
    if b < ids.len() - 1 {
        lemma_prefix_count_two(ids.drop_last(), p, a, b);
    } else {
        lemma_prefix_count_one(ids.drop_last(), p, a);
    }
}

proof fn lemma_prefix_count_one(ids: Seq<Seq<char>>, p: Seq<char>, a: int)
    requires
        0 <= a < ids.len(),
        has_prefix(ids[a], p),
    ensures
        prefix_count(ids, p) >= 1,
    decreases ids.len(),
{
    if a < ids.len() - 1 {
        lemma_prefix_count_one(ids.drop_last(), p, a);
    }
}

proof fn lemma_unique_len_count(ids: Seq<Seq<char>>, x: Seq<char>, l: int)
    requires
        0 <= l <= x.len(),
        unique_len(ids, x, l) < x.len(),
    ensures
        prefix_count(ids, x.subrange(0, unique_len(ids, x, l))) <= 1,
    decreases x.len() - l,
{
    if l < x.len() && prefix_count(ids, x.subrange(0, l)) > 1 {
        lemma_unique_len_count(ids, x, l + 1);
    }
}

/// Two distinct identifiers of a set without repeats get distinct short forms.
proof fn lemma_short_distinct(ids: Seq<Seq<char>>, a: int, b: int)
    requires
        0 <= a < b < ids.len(),
        ids[a] != ids[b],
    ensures
        shortest_unique(ids, ids[a]) != shortest_unique(ids, ids[b]),
{
    let x = ids[a];
    let y = ids[b];
    let lx = unique_len(ids, x, min_len(x));
    let ly = unique_len(ids, y, min_len(y));
    lemma_unique_len_bounds(ids, x, min_len(x));
    lemma_unique_len_bounds(ids, y, min_len(y));
    let p = x.subrange(0, lx);
    if p == y.subrange(0, ly) {
        assert(has_prefix(x, p));
        assert(has_prefix(y, p));
        if lx < x.len() {
            lemma_unique_len_count(ids, x, min_len(x));
            lemma_prefix_count_two(ids, p, a, b);
        } else if ly < y.len() {
            lemma_unique_len_count(ids, y, min_len(y));
            lemma_prefix_count_two(ids, p, a, b);
        } else {
            assert(x =~= p);
            assert(y =~= p);
        }
    }
}

proof fn lemma_find_short_unique(e: Seq<(Seq<char>, Seq<char>)>, q: Seq<char>, i: int, k: int)
    requires
        0 <= k <= i < e.len(),
        e[i].0 == q,
        forall|j: int| 0 <= j < e.len() && j != i ==> (#[trigger] e[j]).0 != q,
    ensures
        find_short(e, q, k) == Some(i),
    decreases i - k,
{
    if k < i {
        lemma_find_short_unique(e, q, i, k + 1);
    }
}

/// Every short form a built map hands out resolves to its identifier, and
/// is a prefix of it at least `min(4, len)` long.
pub proof fn lemma_batch_round_trip(m: IdMap, ids: Seq<Seq<char>>, i: int)
    requires
        m.built_from(ids),
        0 <= i < dedup(ids).len(),
    ensures
        resolve_spec(pairs(m.entries@), pairs(m.entries@)[i].0) == Some(dedup(ids)[i]),
        min_len(dedup(ids)[i]) <= pairs(m.entries@)[i].0.len() <= dedup(ids)[i].len(),
        has_prefix(dedup(ids)[i], pairs(m.entries@)[i].0),
{
    let d = dedup(ids);
    let e = pairs(m.entries@);
    lemma_dedup_distinct(ids);
    assert(e[i] == (shortest_unique(d, d[i]), d[i]));
    assert forall|j: int| 0 <= j < e.len() && j != i implies (#[trigger] e[j]).0 != e[i].0 by {
        assert(e[j] == (shortest_unique(d, d[j]), d[j]));
        if j < i {
            lemma_short_distinct(d, j, i);
        } else {
            lemma_short_distinct(d, i, j);
        }
    }
    lemma_find_short_unique(e, e[i].0, i, 0);
    lemma_unique_len_bounds(d, d[i], min_len(d[i]));
    let x = d[i];
    let l = unique_len(d, x, min_len(x));
    assert(x.subrange(0, l).len() == l);
    assert(x.subrange(0, l) =~= x.subrange(0, l).subrange(0, l));
}

} // verus!
