//! Text helpers over character sequences: whitespace trimming, splitting
//! and searching.

use vstd::prelude::*;
use crate::short_id::{has_prefix, starts_with, views};

verus! {

/// Unicode white space, as `char::is_whitespace` defines it.
pub open spec fn is_ws(c: char) -> bool {
    let u = c as u32;
    ||| (0x9 <= u && u <= 0xD)
    ||| u == 0x20
    ||| u == 0x85
    ||| u == 0xA0
    ||| u == 0x1680
    ||| (0x2000 <= u && u <= 0x200A)
    ||| u == 0x2028
    ||| u == 0x2029
    ||| u == 0x202F
    ||| u == 0x205F
    ||| u == 0x3000
}

pub fn is_whitespace(c: char) -> (r: bool)
    ensures
        r == is_ws(c),
{
    let u = c as u32;
    (0x9 <= u && u <= 0xD) || u == 0x20 || u == 0x85 || u == 0xA0 || u == 0x1680 || (0x2000 <= u && u
        <= 0x200A) || u == 0x2028 || u == 0x2029 || u == 0x202F || u == 0x205F || u == 0x3000
}

/// First position from `i` on that holds no white space (`s.len()` if none).
pub open spec fn lead(s: Seq<char>, i: int) -> int
    decreases s.len() - i,
{
    if i < 0 || i >= s.len() {
        s.len() as int
    } else if is_ws(s[i]) {
        lead(s, i + 1)
    } else {
        i
    }
}

/// End of `s` below `j` after dropping trailing white space, not below `lo`.
pub open spec fn trail(s: Seq<char>, j: int, lo: int) -> int
    decreases j - lo,
{
    if j <= lo {
        lo
    } else if is_ws(s[j - 1]) {
        trail(s, j - 1, lo)
    } else {
        j
    }
}

/// `s` without leading and trailing white space.
pub open spec fn trim(s: Seq<char>) -> Seq<char> {
    let a = lead(s, 0);
    s.subrange(a, trail(s, s.len() as int, a))
}

/// `s` without leading and trailing white space.
pub fn trim_str(s: &str) -> (r: String)
    ensures
        r@ == trim(s@),
{
    let n = s.unicode_len();
    let mut a: usize = 0;
    while a < n && is_whitespace(s.get_char(a))
        invariant
            n == s@.len(),
            a <= n,
            lead(s@, a as int) == lead(s@, 0),
        decreases n - a,
    {
        a = a + 1;
    }
    let mut b: usize = n;
    while b > a && is_whitespace(s.get_char(b - 1))
        invariant
            n == s@.len(),
            a <= b <= n,
            a == lead(s@, 0),
            trail(s@, b as int, a as int) == trail(s@, n as int, a as int),
        decreases b,
    {
        b = b - 1;
    }
    String::from_str(s.substring_char(a, b))
}

/// `s` cut at every `sep`, as `str::split` cuts it: `k` separators give
/// `k + 1` pieces, empty ones included.
pub open spec fn split(s: Seq<char>, sep: char) -> Seq<Seq<char>>
    decreases s.len(),
{
    if s.len() == 0 {
        seq![Seq::empty()]
    } else {
        let rest = split(s.drop_last(), sep);
        if s.last() == sep {
            rest.push(Seq::empty())
        } else {
            rest.update(rest.len() - 1, rest.last().push(s.last()))
        }
    }
}

/// `s` cut at every `sep`.
pub fn split_on(s: &str, sep: char) -> (r: Vec<String>)
    ensures
        views(r@) == split(s@, sep),
{
    let n = s.unicode_len();
    let mut pieces: Vec<String> = Vec::new();
    let mut start: usize = 0;
    let mut i: usize = 0;
    assert(views(pieces@) =~= Seq::<Seq<char>>::empty());
    assert(s@.subrange(0, 0) =~= Seq::<char>::empty());
    assert(split(Seq::<char>::empty(), sep) == seq![Seq::<char>::empty()]);
    assert(views(pieces@).push(s@.subrange(0, 0)) =~= split(s@.subrange(0, 0), sep));
    while i < n
        invariant
            n == s@.len(),
            start <= i <= n,
            views(pieces@).push(s@.subrange(start as int, i as int)) == split(s@.subrange(0, i as int), sep),
        decreases n - i,
    {
        let c = s.get_char(i);
        let ghost sub = s@.subrange(0, i as int + 1);
        let ghost rest = split(s@.subrange(0, i as int), sep);
        let ghost before = views(pieces@);
        assert(sub.drop_last() =~= s@.subrange(0, i as int));
        assert(sub.last() == c);
        assert(rest == before.push(s@.subrange(start as int, i as int)));
        if c == sep {
            let piece = String::from_str(s.substring_char(start, i));
            pieces.push(piece);
            assert(views(pieces@) =~= before.push(s@.subrange(start as int, i as int)));
            start = i + 1;
            assert(split(sub, sep) == rest.push(Seq::<char>::empty()));
            assert(s@.subrange(start as int, i as int + 1) =~= Seq::<char>::empty());
            assert(views(pieces@).push(s@.subrange(start as int, i as int + 1)) =~= split(sub, sep));
        } else {
            assert(split(sub, sep) == rest.update(rest.len() - 1, rest.last().push(c)));
            assert(rest.last() == s@.subrange(start as int, i as int));
            assert(s@.subrange(start as int, i as int + 1) =~= s@.subrange(start as int, i as int).push(c));
            assert(before.push(s@.subrange(start as int, i as int + 1)) =~= rest.update(
                rest.len() - 1,
                rest.last().push(c),
            ));
        }
        i = i + 1;
    }
    let last = String::from_str(s.substring_char(start, n));
    pieces.push(last);
    assert(s@.subrange(0, n as int) =~= s@);
    pieces
}

/// Position of the first occurrence of `p` in `s`.
pub open spec fn find_from(s: Seq<char>, p: Seq<char>, i: int) -> Option<int>
    decreases s.len() + 1 - i,
{
    if i < 0 || i + p.len() > s.len() {
        None
    } else if s.subrange(i, i + p.len()) == p {
        Some(i)
    } else {
        find_from(s, p, i + 1)
    }
}

pub open spec fn find(s: Seq<char>, p: Seq<char>) -> Option<int> {
    find_from(s, p, 0)
}

/// First position of `p` in `s`.
pub fn find_str(s: &str, p: &str) -> (r: Option<usize>)
    ensures
        opt_usize(r) == find(s@, p@),
        r is Some ==> r->0 + p@.len() <= s@.len(),
{
    let n = s.unicode_len();
    let m = p.unicode_len();
    if m == 0 {
        assert(s@.subrange(0, 0) =~= p@);
        return Some(0);
    }
    let mut i: usize = 0;
    while m <= n - i
        invariant
            n == s@.len(),
            m == p@.len(),
            m > 0,
            i <= n,
            find_from(s@, p@, i as int) == find(s@, p@),
        decreases n + 1 - i,
    {
        let window = s.substring_char(i, i + m);
        if starts_with(window, p) {
            assert(window@ =~= p@);
            return Some(i);
        }
        proof {
            if s@.subrange(i as int, i + m) == p@ {
                assert(window@.subrange(0, m as int) =~= window@);
            }
        }
        i = i + 1;
    }
    None
}

pub open spec fn opt_usize(o: Option<usize>) -> Option<int> {
    match o {
        Some(x) => Some(x as int),
        None => None,
    }
}

/// `s` without any trailing `c`.
pub open spec fn strip_trailing(s: Seq<char>, c: char) -> Seq<char>
    decreases s.len(),
{
    if s.len() > 0 && s.last() == c {
        strip_trailing(s.drop_last(), c)
    } else {
        s
    }
}

pub fn strip_trailing_str(s: &str, c: char) -> (r: String)
    ensures
        r@ == strip_trailing(s@, c),
{
    let mut b: usize = s.unicode_len();
    assert(s@.subrange(0, b as int) =~= s@);
    while b > 0 && s.get_char(b - 1) == c
        invariant
            b <= s@.len(),
            strip_trailing(s@.subrange(0, b as int), c) == strip_trailing(s@, c),
        decreases b,
    {
        assert(s@.subrange(0, b as int).drop_last() =~= s@.subrange(0, b as int - 1));
        b = b - 1;
    }
    assert(s@.subrange(0, s@.len() as int) =~= s@);
    String::from_str(s.substring_char(0, b))
}

} // verus!
