//! Byte strings and their lexicographic order.
//!
//! Labels of a hash tree and principal identifiers are both ordered byte by
//! byte, a proper prefix standing before every string that extends it.

use vstd::prelude::*;

verus! {

/// `a` and `b` hold the same bytes at every index below `k`.
pub open spec fn agree_until(a: Seq<u8>, b: Seq<u8>, k: int) -> bool {
    &&& 0 <= k <= a.len()
    &&& k <= b.len()
    &&& forall|j: int| 0 <= j < k ==> a[j] == b[j]
}

/// `k` is the place at which `a` is decided to stand before `b`: both agree
/// below `k`, and there `a` either ends while `b` goes on or holds the smaller
/// byte.
pub open spec fn decided_at(a: Seq<u8>, b: Seq<u8>, k: int) -> bool {
    &&& agree_until(a, b, k)
    &&& k < b.len()
    &&& (k == a.len() || a[k] < b[k])
}

/// Strict byte-lexicographic order.
pub open spec fn lex_lt(a: Seq<u8>, b: Seq<u8>) -> bool {
    exists|k: int| decided_at(a, b, k)
}

/// Byte-lexicographic order, equality included.
pub open spec fn lex_le(a: Seq<u8>, b: Seq<u8>) -> bool {
    a == b || lex_lt(a, b)
}

/// How one byte string stands to another.
#[derive(Clone, Copy, Debug, PartialEq, Eq, Structural)]
pub enum Order {
    Before,
    Same,
    After,
}

/// No byte string stands before itself.
pub proof fn lemma_lex_lt_irreflexive(a: Seq<u8>)
    ensures
        !lex_lt(a, a),
{
}

/// Of two byte strings at most one stands before the other.
pub proof fn lemma_lex_lt_asymmetric(a: Seq<u8>, b: Seq<u8>)
    requires
        lex_lt(a, b),
    ensures
        !lex_lt(b, a),
        a != b,
{
    let k = choose|k: int| decided_at(a, b, k);
    if lex_lt(b, a) {
        let m = choose|m: int| decided_at(b, a, m);
        if m < k {
            assert(a[m] == b[m]);
        } else if k < m {
            assert(b[k] == a[k]);
        }
    }
}

/// The order is transitive.
pub proof fn lemma_lex_lt_transitive(a: Seq<u8>, b: Seq<u8>, c: Seq<u8>)
    requires
        lex_lt(a, b),
        lex_lt(b, c),
    ensures
        lex_lt(a, c),
{
    let k = choose|k: int| decided_at(a, b, k);
    let m = choose|m: int| decided_at(b, c, m);
    let n = if k <= m { k } else { m };
    assert(agree_until(a, c, n));
    if k < m {
        assert(b[k] == c[k]);
    } else if m < k {
        assert(a[m] == b[m]);
    }
    assert(decided_at(a, c, n));
}

/// Any two byte strings are equal or one stands before the other.
pub proof fn lemma_lex_total(a: Seq<u8>, b: Seq<u8>)
    ensures
        lex_lt(a, b) || a == b || lex_lt(b, a),
{
    lemma_first_difference(a, b, 0);
}

/// Two byte strings that agree below `k` are equal or ordered.
proof fn lemma_first_difference(a: Seq<u8>, b: Seq<u8>, k: int)
    requires
        agree_until(a, b, k),
    ensures
        lex_lt(a, b) || a == b || lex_lt(b, a),
    decreases a.len() - k,
{
    if k == a.len() {
        if k == b.len() {
            assert(a =~= b);
        } else {
            assert(decided_at(a, b, k));
        }
    } else if k == b.len() {
        assert(agree_until(b, a, k));
        assert(decided_at(b, a, k));
    } else if a[k] < b[k] {
        assert(decided_at(a, b, k));
    } else if b[k] < a[k] {
        assert(agree_until(b, a, k));
        assert(decided_at(b, a, k));
    } else {
        lemma_first_difference(a, b, k + 1);
    }
}

/// Orders two byte strings lexicographically.
pub fn order_bytes(a: &[u8], b: &[u8]) -> (r: Order)
    ensures
        r == Order::Before <==> lex_lt(a@, b@),
        r == Order::Same <==> a@ == b@,
        r == Order::After <==> lex_lt(b@, a@),
{
    let mut i: usize = 0;
    while i < a.len() && i < b.len()
        invariant
            agree_until(a@, b@, i as int),
        decreases a.len() - i,
    {
        if a[i] < b[i] {
            proof {
                assert(decided_at(a@, b@, i as int));
                lemma_lex_lt_asymmetric(a@, b@);
            }
            return Order::Before;
        }
        if a[i] > b[i] {
            proof {
                assert(agree_until(b@, a@, i as int));
                assert(decided_at(b@, a@, i as int));
                lemma_lex_lt_asymmetric(b@, a@);
            }
            return Order::After;
        }
        i += 1;
    }
    if i < b.len() {
        proof {
            assert(decided_at(a@, b@, i as int));
            lemma_lex_lt_asymmetric(a@, b@);
        }
        Order::Before
    } else if i < a.len() {
        proof {
            assert(agree_until(b@, a@, i as int));
            assert(decided_at(b@, a@, i as int));
            lemma_lex_lt_asymmetric(b@, a@);
        }
        Order::After
    } else {
        proof {
            assert(a@ =~= b@);
            lemma_lex_lt_irreflexive(a@);
        }
        Order::Same
    }
}

} // verus!
