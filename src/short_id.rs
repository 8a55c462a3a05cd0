//! Short identifiers: the shortest prefix of at least four characters that
//! tells an identifier apart from the others of a set.

use vstd::prelude::*;

verus! {

/// The fewest characters of a short identifier, unless the identifier
/// itself is shorter.
pub const MIN_ID_LEN: usize = 4;

pub open spec fn min_len(x: Seq<char>) -> int {
    if x.len() < MIN_ID_LEN { x.len() as int } else { MIN_ID_LEN as int }
}

/// `s` starts with `p`.
pub open spec fn has_prefix(s: Seq<char>, p: Seq<char>) -> bool {
    p.len() <= s.len() && s.subrange(0, p.len() as int) == p
}

/// How many of `ids` start with `p`.
pub open spec fn prefix_count(ids: Seq<Seq<char>>, p: Seq<char>) -> nat
    decreases ids.len(),
{
    if ids.len() == 0 {
        0
    } else {
        prefix_count(ids.drop_last(), p) + (if has_prefix(ids.last(), p) { 1nat } else { 0nat })
    }
}

/// The length of the shortest prefix of `x` from `l` on that at most one of
/// `ids` starts with; all of `x` when there is none.
pub open spec fn unique_len(ids: Seq<Seq<char>>, x: Seq<char>, l: int) -> int
    decreases x.len() - l,
{
    if l >= x.len() {
        x.len() as int
    } else if prefix_count(ids, x.subrange(0, l)) <= 1 {
        l
    } else {
        unique_len(ids, x, l + 1)
    }
}

/// The short identifier of `x` within `ids`.
pub open spec fn shortest_unique(ids: Seq<Seq<char>>, x: Seq<char>) -> Seq<char> {
    x.subrange(0, unique_len(ids, x, min_len(x)))
}

pub proof fn lemma_unique_len_bounds(ids: Seq<Seq<char>>, x: Seq<char>, l: int)
    requires
        0 <= l <= x.len(),
    ensures
        l <= unique_len(ids, x, l) <= x.len(),
    decreases x.len() - l,
{
    if l < x.len() && prefix_count(ids, x.subrange(0, l)) > 1 {
        lemma_unique_len_bounds(ids, x, l + 1);
    }
}

/// The first `n` characters of `s`.
fn prefix_string(s: &str, n: usize) -> (r: String)
    requires
        n <= s@.len(),
    ensures
        r@ == s@.subrange(0, n as int),
{
    String::from_str(s.substring_char(0, n))
}

/// `s` starts with `p`.
pub fn starts_with(s: &str, p: &str) -> (r: bool)
    ensures
        r == has_prefix(s@, p@),
{
    let ls = s.unicode_len();
    let lp = p.unicode_len();
    if lp > ls {
        return false;
    }
    let mut i: usize = 0;
    while i < lp
        invariant
            lp == p@.len(),
            ls == s@.len(),
            lp <= ls,
            i <= lp,
            forall|j: int| 0 <= j < i ==> s@[j] == p@[j],
        decreases lp - i,
    {
        if s.get_char(i) != p.get_char(i) {
            assert(s@.subrange(0, lp as int)[i as int] != p@[i as int]);
            return false;
        }
        i = i + 1;
    }
    assert(s@.subrange(0, lp as int) =~= p@);
    true
}

pub open spec fn views(v: Seq<String>) -> Seq<Seq<char>> {
    v.map_values(|s: String| s@)
}

/// How many of `ids` start with `p`.
fn count_prefixed(ids: &[String], p: &str) -> (r: usize)
    ensures
        r as nat == prefix_count(views(ids@), p@),
{
    let ghost vs = views(ids@);
    let mut n: usize = 0;
    let mut i: usize = 0;
    while i < ids.len()
        invariant
            vs == views(ids@),
            i <= ids@.len(),
            n <= i,
            n as nat == prefix_count(vs.subrange(0, i as int), p@),
        decreases ids@.len() - i,
    {
        assert(vs.subrange(0, i as int + 1).drop_last() =~= vs.subrange(0, i as int));
        if starts_with(ids[i].as_str(), p) {
            n = n + 1;
        }
        i = i + 1;
    }
    assert(vs.subrange(0, ids@.len() as int) =~= vs);
    n
}

/// The short identifier of `x` among `ids`.
pub fn shortest_unique_prefix(ids: &[String], x: &str) -> (r: String)
    ensures
        r@ == shortest_unique(views(ids@), x@),
{
    let n = x.unicode_len();
    let mut l: usize = if n < MIN_ID_LEN { n } else { MIN_ID_LEN };
    while l < n
        invariant
            n == x@.len(),
            l <= n,
            unique_len(views(ids@), x@, l as int) == unique_len(views(ids@), x@, min_len(x@)),
        decreases n - l,
    {
        let p = prefix_string(x, l);
        if count_prefixed(ids, p.as_str()) <= 1 {
            return p;
        }
        l = l + 1;
    }
    String::from_str(x)
}

/// Short identifiers for a list of identifiers, one for each, in order.
pub fn compute_short_op_ids(ids: &[String]) -> (r: Vec<String>)
    ensures
        r@.len() == ids@.len(),
        forall|i: int| 0 <= i < ids@.len() ==> (#[trigger] r@[i])@ == shortest_unique(views(ids@), ids@[i]@),
{
    let mut r: Vec<String> = Vec::new();
    let mut i: usize = 0;
    while i < ids.len()
        invariant
            i <= ids@.len(),
            r@.len() == i,
            forall|k: int| 0 <= k < i ==> (#[trigger] r@[k])@ == shortest_unique(views(ids@), ids@[k]@),
        decreases ids@.len() - i,
    {
        r.push(shortest_unique_prefix(ids, ids[i].as_str()));
        i = i + 1;
    }
    r
}

/// The short identifier the revision index gives: the first
/// `max(unique_len, 4)` characters, or the first four when the index gave
/// no answer.
pub open spec fn global_short(id: Seq<char>, unique_len: Option<usize>) -> Seq<char> {
    let want: int = match unique_len {
        Some(l) => if l < MIN_ID_LEN { MIN_ID_LEN as int } else { l as int },
        None => MIN_ID_LEN as int,
    };
    id.subrange(0, if want < id.len() { want } else { id.len() as int })
}

/// The short identifier of `change_id` from the length of its shortest
/// prefix that is unique over the whole revision index (`None` where the
/// index could not answer).
pub fn global_short_id(change_id: &str, unique_len: Option<usize>) -> (r: String)
    ensures
        r@ == global_short(change_id@, unique_len),
        min_len(change_id@) <= r@.len() <= change_id@.len(),
        has_prefix(change_id@, r@),
{
    let n = change_id.unicode_len();
    let want: usize = match unique_len {
        Some(l) => if l < MIN_ID_LEN { MIN_ID_LEN } else { l },
        None => MIN_ID_LEN,
    };
    let take = if want < n { want } else { n };
    prefix_string(change_id, take)
}

/// How many characters of a commit id a revision line shows.
pub const SHOWN_ID_LEN: usize = 7;

/// The commit id characters shown after a short id: those from the short
/// id's length up to the seventh, when the short id is shorter than that.
pub open spec fn id_tail_spec(short: Seq<char>, commit_id: Seq<char>) -> Seq<char> {
    if short.len() < SHOWN_ID_LEN && commit_id.len() >= SHOWN_ID_LEN {
        commit_id.subrange(short.len() as int, SHOWN_ID_LEN as int)
    } else {
        Seq::empty()
    }
}

/// The part of `commit_id` shown, dimmed, after the short id `short`.
pub fn id_tail(short: &str, commit_id: &str) -> (r: String)
    ensures
        r@ == id_tail_spec(short@, commit_id@),
{
    let ls = short.unicode_len();
    let lc = commit_id.unicode_len();
    if ls < SHOWN_ID_LEN && lc >= SHOWN_ID_LEN {
        String::from_str(commit_id.substring_char(ls, SHOWN_ID_LEN))
    } else {
        String::new()
    }
}

} // verus!
