//! The order of keys: byte strings compared byte by byte, unsigned, a
//! shorter string before each of its extensions.

use vstd::prelude::*;

verus! {

/// `a` and `b` hold the same bytes at every position below `n`.
pub open spec fn agree_below(a: Seq<u8>, b: Seq<u8>, n: int) -> bool {
    &&& n <= a.len()
    &&& n <= b.len()
    &&& forall|j: int| 0 <= j < n ==> a[j] == b[j]
}

/// `a` and `b` first differ at position `i`, where `a` holds the smaller byte.
pub open spec fn less_at(a: Seq<u8>, b: Seq<u8>, i: int) -> bool {
    &&& 0 <= i < a.len()
    &&& i < b.len()
    &&& agree_below(a, b, i)
    &&& a[i] < b[i]
}

/// `a` is a prefix of `b` and shorter than `b`.
pub open spec fn proper_prefix(a: Seq<u8>, b: Seq<u8>) -> bool {
    a.len() < b.len() && agree_below(a, b, a.len() as int)
}

/// `a` comes strictly before `b` in the order of keys.
pub open spec fn lex_lt(a: Seq<u8>, b: Seq<u8>) -> bool {
    proper_prefix(a, b) || exists|i: int| less_at(a, b, i)
}

/// `a` comes before `b` in the order of keys, or is `b`.
pub open spec fn lex_le(a: Seq<u8>, b: Seq<u8>) -> bool {
    a == b || lex_lt(a, b)
}

/// `prefix` is the leading part of `key`.
pub open spec fn has_prefix(key: Seq<u8>, prefix: Seq<u8>) -> bool {
    agree_below(prefix, key, prefix.len() as int)
}

/// Two strings of one length that agree at every position are one string.
pub proof fn lemma_agree_equal(a: Seq<u8>, b: Seq<u8>)
    requires
        a.len() == b.len(),
        agree_below(a, b, a.len() as int),
    ensures
        a == b,
{
    assert(a =~= b);
}

/// No key comes before itself.
pub proof fn lemma_lt_irreflexive(a: Seq<u8>)
    ensures
        !lex_lt(a, a),
{
}

/// If `a` comes before `b`, then `b` does not come before `a`.
pub proof fn lemma_lt_asymmetric(a: Seq<u8>, b: Seq<u8>)
    requires
        lex_lt(a, b),
    ensures
        !lex_lt(b, a),
{
    if lex_lt(b, a) {
        if proper_prefix(a, b) {
            let j = choose|j: int| less_at(b, a, j);
            assert(a[j] == b[j]);
        } else {
            let i = choose|i: int| less_at(a, b, i);
            if proper_prefix(b, a) {
                assert(a[i] == b[i]);
            } else {
                let j = choose|j: int| less_at(b, a, j);
                if i < j {
                    assert(b[i] == a[i]);
                } else if j < i {
                    assert(a[j] == b[j]);
                }
            }
        }
    }
}

/// The order is transitive.
pub proof fn lemma_lt_transitive(a: Seq<u8>, b: Seq<u8>, c: Seq<u8>)
    requires
        lex_lt(a, b),
        lex_lt(b, c),
    ensures
        lex_lt(a, c),
{
    if proper_prefix(a, b) {
        if proper_prefix(b, c) {
            assert(proper_prefix(a, c));
        } else {
            let j = choose|j: int| less_at(b, c, j);
            if j < a.len() {
                assert(a[j] == b[j]);
                assert(less_at(a, c, j));
            } else {
                assert(proper_prefix(a, c));
            }
        }
    } else {
        let i = choose|i: int| less_at(a, b, i);
        if proper_prefix(b, c) {
            assert(less_at(a, c, i));
        } else {
            let j = choose|j: int| less_at(b, c, j);
            if i <= j {
                assert(less_at(a, c, i));
            } else {
                assert(a[j] == b[j]);
                assert(less_at(a, c, j));
            }
        }
    }
}

/// Two strings that agree below `n` either agree along the whole of the
/// shorter one, or differ first at some position from `n` on.
proof fn lemma_first_difference(a: Seq<u8>, b: Seq<u8>, n: int)
    requires
        0 <= n,
        agree_below(a, b, n),
    ensures
        agree_below(a, b, a.len() as int) || agree_below(a, b, b.len() as int) || exists|i: int|
            less_at(a, b, i) || less_at(b, a, i),
    decreases a.len() - n,
{
    if n == a.len() || n == b.len() {
    } else if a[n] == b[n] {
        lemma_first_difference(a, b, n + 1);
    } else {
        assert(less_at(a, b, n) || less_at(b, a, n));
    }
}

/// Of two different keys one comes before the other.
pub proof fn lemma_lt_total(a: Seq<u8>, b: Seq<u8>)
    ensures
        a == b || lex_lt(a, b) || lex_lt(b, a),
{
    lemma_first_difference(a, b, 0);
    if agree_below(a, b, a.len() as int) {
        if a.len() == b.len() {
            lemma_agree_equal(a, b);
        }
    } else if agree_below(a, b, b.len() as int) {
        assert(proper_prefix(b, a));
    }
}

/// Whether `a` comes strictly before `b` in the order of keys.
pub fn lex_less(a: &[u8], b: &[u8]) -> (r: bool)
    ensures
        r == lex_lt(a@, b@),
{
    let mut i: usize = 0;
    while i < a.len() && i < b.len()
        invariant
            agree_below(a@, b@, i as int),
        decreases a.len() - i,
    {
        if a[i] < b[i] {
            assert(less_at(a@, b@, i as int));
            return true;
        }
        if a[i] > b[i] {
            proof {
                assert(less_at(b@, a@, i as int));
                lemma_lt_asymmetric(b@, a@);
            }
            return false;
        }
        i = i + 1;
    }
    if a.len() < b.len() {
        true
    } else {
        proof {
            if a.len() == b.len() {
                lemma_agree_equal(a@, b@);
                lemma_lt_irreflexive(a@);
            } else {
                assert(proper_prefix(b@, a@));
                lemma_lt_asymmetric(b@, a@);
            }
        }
        false
    }
}

} // verus!
