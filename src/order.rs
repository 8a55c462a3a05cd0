//! Lexicographic order on identifiers, by code point.

use vstd::prelude::*;

verus! {

/// `a` sorts strictly before `b`: at the first position where they differ
/// `a` has the smaller character, or `a` is a proper prefix of `b`.
pub open spec fn id_lt(a: Seq<char>, b: Seq<char>) -> bool {
    exists|k: int| #[trigger] differs_at(a, b, k) && a_first_at(a, b, k)
}

/// `a` and `b` agree below `k`, and `k` is within both or at the end of one.
pub open spec fn differs_at(a: Seq<char>, b: Seq<char>, k: int) -> bool {
    &&& 0 <= k <= a.len()
    &&& k <= b.len()
    &&& forall|j: int| 0 <= j < k ==> a[j] == b[j]
}

pub open spec fn a_first_at(a: Seq<char>, b: Seq<char>, k: int) -> bool {
    ||| (k == a.len() && k < b.len())
    ||| (k < a.len() && k < b.len() && (a[k] as u32) < (b[k] as u32))
}

pub proof fn lemma_id_lt_irreflexive(a: Seq<char>)
    ensures
        !id_lt(a, a),
{
}

pub proof fn lemma_id_lt_asymmetric(a: Seq<char>, b: Seq<char>)
    ensures
        !(id_lt(a, b) && id_lt(b, a)),
{
    if id_lt(a, b) && id_lt(b, a) {
        let k1 = choose|k: int| #[trigger] differs_at(a, b, k) && a_first_at(a, b, k);
        let k2 = choose|k: int| #[trigger] differs_at(b, a, k) && a_first_at(b, a, k);
        if k1 < k2 {
            assert(a[k1] == b[k1]);
        } else if k2 < k1 {
            assert(a[k2] == b[k2]);
        }
    }
}

pub proof fn lemma_id_lt_total(a: Seq<char>, b: Seq<char>)
    ensures
        a == b || id_lt(a, b) || id_lt(b, a),
{
    if a != b {
        let n = if a.len() < b.len() { a.len() as int } else { b.len() as int };
        if forall|j: int| 0 <= j < n ==> a[j] == b[j] {
            if a.len() == b.len() {
                assert(a =~= b);
            } else if a.len() < b.len() {
                assert(differs_at(a, b, n) && a_first_at(a, b, n));
            } else {
                assert(differs_at(b, a, n) && a_first_at(b, a, n));
            }
        } else {
            lemma_first_difference(a, b, n);
            let k = choose|k: int| 0 <= k < n && a[k] != b[k] && forall|j: int| 0 <= j < k ==> a[j] == b[j];
            if (a[k] as u32) < (b[k] as u32) {
                assert(differs_at(a, b, k) && a_first_at(a, b, k));
            } else {
                vstd::utf8::char_u32_cast(a[k], a[k] as u32);
                vstd::utf8::char_u32_cast(b[k], b[k] as u32);
                assert(differs_at(b, a, k) && a_first_at(b, a, k));
            }
        }
    }
}

proof fn lemma_first_difference(a: Seq<char>, b: Seq<char>, n: int)
    requires
        0 <= n <= a.len(),
        n <= b.len(),
        exists|k: int| 0 <= k < n && a[k] != b[k],
    ensures
        exists|k: int| 0 <= k < n && a[k] != b[k] && forall|j: int| 0 <= j < k ==> a[j] == b[j],
    decreases n,
{
    if forall|j: int| 0 <= j < n - 1 ==> a[j] == b[j] {
        assert(a[n - 1] != b[n - 1]);
        assert(0 <= n - 1 < n && a[n - 1] != b[n - 1] && forall|j: int| 0 <= j < n - 1 ==> a[j] == b[j]);
    } else {
        lemma_first_difference(a, b, n - 1);
    }
}

pub proof fn lemma_id_lt_transitive(a: Seq<char>, b: Seq<char>, c: Seq<char>)
    requires
        id_lt(a, b),
        id_lt(b, c),
    ensures
        id_lt(a, c),
{
    let k1 = choose|k: int| #[trigger] differs_at(a, b, k) && a_first_at(a, b, k);
    let k2 = choose|k: int| #[trigger] differs_at(b, c, k) && a_first_at(b, c, k);
    let k = if k1 < k2 { k1 } else { k2 };
    assert(differs_at(a, c, k) && a_first_at(a, c, k));
}

/// Strict lexicographic comparison of two identifiers.
pub fn id_less(a: &str, b: &str) -> (r: bool)
    ensures
        r == id_lt(a@, b@),
{
    let la = a.unicode_len();
    let lb = b.unicode_len();
    let mut i: usize = 0;
    while i < la && i < lb
        invariant
            la == a@.len(),
            lb == b@.len(),
            i <= la,
            i <= lb,
            forall|j: int| 0 <= j < i ==> a@[j] == b@[j],
        decreases la - i,
    {
        let ca = a.get_char(i);
        let cb = b.get_char(i);
        if ca != cb {
            let r = (ca as u32) < (cb as u32);
            proof {
                assert(differs_at(a@, b@, i as int));
                if r {
                    assert(a_first_at(a@, b@, i as int));
                } else {
                    assert forall|k: int| #[trigger] differs_at(a@, b@, k) implies !a_first_at(a@, b@, k) by {
                        if k < i {
                        } else if k > i {
                            assert(a@[i as int] == b@[i as int]);
                        }
                    }
                }
            }
            return r;
        }
        i = i + 1;
    }
    proof {
        if i < lb {
            assert(differs_at(a@, b@, i as int) && a_first_at(a@, b@, i as int));
        } else {
            assert forall|k: int| #[trigger] differs_at(a@, b@, k) implies !a_first_at(a@, b@, k) by {}
        }
    }
    i < lb
}

} // verus!
