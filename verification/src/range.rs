//! From a prefix to the half-open range of keys that holds exactly the keys
//! with that prefix.

use crate::order::{agree_below, has_prefix, less_at, lex_le, lex_less, lex_lt, proper_prefix};
use crate::order::{lemma_agree_equal, lemma_lt_asymmetric};
use vstd::prelude::*;
use vstd::slice::{slice_subrange, slice_to_vec};

verus! {

/// Every byte of `p` has the greatest value a byte can take.
pub open spec fn all_max(p: Seq<u8>) -> bool {
    forall|j: int| 0 <= j < p.len() ==> p[j] == u8::MAX
}

/// The least key that comes after every key with the prefix `p`: `p` cut
/// behind its last byte below the greatest value, that byte raised by one.
/// There is none where every byte of `p` has the greatest value.
pub open spec fn upper_bound(p: Seq<u8>) -> Option<Seq<u8>>
    decreases p.len(),
{
    if p.len() == 0 {
        None
    } else if p.last() < u8::MAX {
        Some(p.drop_last().push((p.last() + 1) as u8))
    } else {
        upper_bound(p.drop_last())
    }
}

/// `k` lies in the range from `lower`, inclusive, to `upper`, exclusive;
/// without an `upper` the range has no end.
pub open spec fn in_range(lower: Seq<u8>, upper: Option<Seq<u8>>, k: Seq<u8>) -> bool {
    &&& lex_le(lower, k)
    &&& upper matches Some(u) ==> lex_lt(k, u)
}

/// What `upper_bound` gives, position by position: the bound keeps the bytes
/// of `p` before its last byte below the greatest value, raises that byte by
/// one and drops the bytes behind it, all of which have the greatest value.
pub proof fn lemma_upper_bound_shape(p: Seq<u8>)
    ensures
        upper_bound(p) is None <==> all_max(p),
        upper_bound(p) matches Some(u) ==> {
            &&& 1 <= u.len() <= p.len()
            &&& agree_below(u, p, u.len() - 1)
            &&& p[u.len() - 1] < u8::MAX
            &&& u[u.len() - 1] == p[u.len() - 1] + 1
            &&& forall|j: int| u.len() <= j < p.len() ==> p[j] == u8::MAX
        },
    decreases p.len(),
{
    if p.len() == 0 {
    } else if p.last() < u8::MAX {
    } else {
        let q = p.drop_last();
        lemma_upper_bound_shape(q);
        if all_max(q) {
            assert forall|j: int| 0 <= j < p.len() implies p[j] == u8::MAX by {
                if j < q.len() {
                    assert(q[j] == p[j]);
                }
            }
        } else {
            let j = choose|j: int| 0 <= j < q.len() && q[j] != u8::MAX;
            assert(p[j] == q[j]);
        }
        if upper_bound(p) is Some {
            let u = upper_bound(p)->Some_0;
            assert forall|j: int| 0 <= j < u.len() - 1 implies u[j] == p[j] by {
                assert(q[j] == p[j]);
            }
            assert(q[u.len() - 1] == p[u.len() - 1]);
            assert forall|j: int| u.len() <= j < p.len() implies p[j] == u8::MAX by {
                if j < q.len() {
                    assert(q[j] == p[j]);
                }
            }
        }
    }
}

/// The bound of a prefix comes strictly after the prefix.
pub proof fn lemma_upper_bound_above(p: Seq<u8>)
    requires
        !all_max(p),
    ensures
        upper_bound(p) matches Some(u) && lex_lt(p, u),
{
    lemma_upper_bound_shape(p);
    let u = upper_bound(p)->Some_0;
    assert(less_at(p, u, u.len() - 1));
}

/// A key with the prefix `p` lies in the range from `p` to the bound of `p`.
pub proof fn lemma_prefixed_in_range(p: Seq<u8>, k: Seq<u8>)
    requires
        has_prefix(k, p),
    ensures
        in_range(p, upper_bound(p), k),
{
    lemma_upper_bound_shape(p);
    if p.len() == k.len() {
        lemma_agree_equal(p, k);
    } else {
        assert(proper_prefix(p, k));
    }
    if upper_bound(p) is Some {
        let u = upper_bound(p)->Some_0;
        assert(less_at(k, u, u.len() - 1));
    }
}

/// A key in the range from `p` to the bound of `p` has the prefix `p`.
pub proof fn lemma_in_range_prefixed(p: Seq<u8>, k: Seq<u8>)
    requires
        in_range(p, upper_bound(p), k),
    ensures
        has_prefix(k, p),
{
    lemma_upper_bound_shape(p);
    if p == k || proper_prefix(p, k) {
    } else {
        // `k` is above `p` by a greater byte at some position `m`.
        let m = choose|m: int| less_at(p, k, m);
        match upper_bound(p) {
            None => {
                assert(p[m] == u8::MAX);
            },
            Some(u) => {
                let last = u.len() - 1;
                if m > last {
                    assert(p[m] == u8::MAX);
                } else if proper_prefix(k, u) {
                    // `k` ends at or before `last`, yet differs from `p` at `m`.
                } else {
                    let i = choose|i: int| less_at(k, u, i);
                    if i < m {
                        assert(k[i] == p[i]);
                    } else if m < i {
                        assert(k[m] == u[m]);
                    }
                }
            },
        }
    }
}

/// The range from `p` to the bound of `p` holds the keys with the prefix `p`
/// and no others.
pub proof fn lemma_range_is_prefix(p: Seq<u8>)
    ensures
        forall|k: Seq<u8>| in_range(p, upper_bound(p), k) <==> has_prefix(k, p),
{
    assert forall|k: Seq<u8>| in_range(p, upper_bound(p), k) <==> has_prefix(k, p) by {
        if has_prefix(k, p) {
            lemma_prefixed_in_range(p, k);
        }
        if in_range(p, upper_bound(p), k) {
            lemma_in_range_prefixed(p, k);
        }
    }
}

/// No other bound cuts the keys with the prefix `p` out of the keys from `p`
/// on: a bound `v` that does so is the bound of `p`.
pub proof fn lemma_upper_bound_unique(p: Seq<u8>, v: Option<Seq<u8>>)
    requires
        forall|k: Seq<u8>| in_range(p, v, k) <==> has_prefix(k, p),
    ensures
        v == upper_bound(p),
{
    lemma_upper_bound_shape(p);
    lemma_range_is_prefix(p);
    match (v, upper_bound(p)) {
        (None, None) => {},
        (Some(w), None) => {
            // Each extension of `p` is below `w`, also the one that repeats `w`.
            let k = p + w.push(0u8);
            assert(has_prefix(k, p));
            assert(in_range(p, v, k));
            lemma_extension_not_below(p, w);
        },
        (None, Some(u)) => {
            crate::order::lemma_lt_irreflexive(u);
            lemma_upper_bound_above(p);
            assert(in_range(p, v, u));
            assert(has_prefix(u, p));
            assert(in_range(p, upper_bound(p), u));
        },
        (Some(w), Some(u)) => {
            crate::order::lemma_lt_total(w, u);
            crate::order::lemma_lt_irreflexive(u);
            crate::order::lemma_lt_irreflexive(w);
            lemma_upper_bound_above(p);
            if lex_lt(w, u) {
                // `w` is outside its own range, so it must be below `p`, or
                // lack the prefix; but it lies between `p` and `u`.
                assert(has_prefix(p, p));
                assert(in_range(p, v, p));
                assert(in_range(p, upper_bound(p), w));
                assert(has_prefix(w, p));
                assert(in_range(p, v, w));
            } else if lex_lt(u, w) {
                assert(in_range(p, v, u));
                assert(has_prefix(u, p));
                assert(in_range(p, upper_bound(p), u));
            }
        },
    }
}

/// Where every byte of `p` has the greatest value, the key made of `p`, `w`
/// and one more byte is not below `w`.
proof fn lemma_extension_not_below(p: Seq<u8>, w: Seq<u8>)
    requires
        all_max(p),
    ensures
        !lex_lt(p + w.push(0u8), w),
{
    let k = p + w.push(0u8);
    if lex_lt(k, w) {
        assert(!proper_prefix(k, w));
        let i = choose|i: int| less_at(k, w, i);
        lemma_shifted_not_below(p, w, i);
    }
}

/// Where every byte of `p` has the greatest value and `p + w` agrees with
/// `w` below `i`, the byte of `p + w` at `i` is not below that of `w`.
proof fn lemma_shifted_not_below(p: Seq<u8>, w: Seq<u8>, i: int)
    requires
        all_max(p),
        0 <= i < w.len(),
        agree_below(p + w.push(0u8), w, i),
    ensures
        (p + w.push(0u8))[i] >= w[i],
    decreases i,
{
    let k = p + w.push(0u8);
    if i < p.len() {
        assert(k[i] == p[i]);
    } else if p.len() == 0 {
        assert(k[i] == w.push(0u8)[i]);
    } else {
        // The byte at `i` is the byte of `w` at `i - p.len()`, which the
        // agreement below `i` carries back to the front of `p + w`.
        let j = i - p.len();
        assert(k[i] == w.push(0u8)[j]);
        assert(k[j] == w[j]);
        lemma_all_max_front(p, w, i);
    }
}

/// Where every byte of `p` has the greatest value and `p + w` agrees with
/// `w` below `i`, every byte of `w` below `i` has the greatest value.
proof fn lemma_all_max_front(p: Seq<u8>, w: Seq<u8>, i: int)
    requires
        all_max(p),
        p.len() > 0,
        0 <= i <= w.len(),
        agree_below(p + w.push(0u8), w, i),
    ensures
        forall|j: int| 0 <= j < i ==> w[j] == u8::MAX,
    decreases i,
{
    if i > 0 {
        lemma_all_max_front(p, w, i - 1);
        let k = p + w.push(0u8);
        let j = i - 1;
        assert(k[j] == w[j]);
        if j < p.len() {
            assert(k[j] == p[j]);
        } else {
            assert(k[j] == w.push(0u8)[j - p.len()]);
            assert(w[j - p.len()] == u8::MAX);
        }
    }
}

/// The bytes of a bound, where there is one.
pub open spec fn bound_view(bound: Option<Vec<u8>>) -> Option<Seq<u8>> {
    match bound {
        Some(u) => Some(u@),
        None => None,
    }
}

/// The exclusive upper end of the range of keys with the prefix `key_prefix`,
/// or `None` where that range has no end: where the prefix is empty or each
/// of its bytes has the greatest value.
pub fn get_upper_bound_option(key_prefix: &[u8]) -> (r: Option<Vec<u8>>)
    ensures
        bound_view(r) == upper_bound(key_prefix@),
        r is None <==> all_max(key_prefix@),
        r matches Some(u) ==> u@.len() <= key_prefix@.len() && lex_lt(key_prefix@, u@),
        forall|k: Seq<u8>| in_range(key_prefix@, bound_view(r), k) <==> has_prefix(k, key_prefix@),
{
    let mut i: usize = key_prefix.len();
    assert(key_prefix@.take(i as int) == key_prefix@);
    while i > 0
        invariant
            i <= key_prefix@.len(),
            upper_bound(key_prefix@) == upper_bound(key_prefix@.take(i as int)),
        decreases i,
    {
        let val: u8 = key_prefix[i - 1];
        let ghost head = key_prefix@.take(i as int);
        assert(head.last() == val);
        assert(head.drop_last() == key_prefix@.take(i - 1));
        if val < u8::MAX {
            let mut bound: Vec<u8> = slice_to_vec(slice_subrange(key_prefix, 0, i));
            assert(bound@ == head);
            bound.set(i - 1, val + 1);
            proof {
                assert(bound@ == head.drop_last().push((val + 1) as u8));
                lemma_upper_bound_shape(key_prefix@);
                lemma_upper_bound_above(key_prefix@);
                lemma_range_is_prefix(key_prefix@);
            }
            return Some(bound);
        }
        i = i - 1;
    }
    proof {
        assert(key_prefix@.take(0) == Seq::<u8>::empty());
        lemma_upper_bound_shape(key_prefix@);
        lemma_range_is_prefix(key_prefix@);
    }
    None
}

/// A range of keys: from `lower`, inclusive, to `upper`, exclusive; without
/// an `upper` it has no end.
#[derive(Clone, Debug, PartialEq, Eq)]
pub struct ScanRange {
    pub lower: Vec<u8>,
    pub upper: Option<Vec<u8>>,
}

/// A range of keys as the two byte strings that bound it.
pub struct ScanRangeView {
    pub lower: Seq<u8>,
    pub upper: Option<Seq<u8>>,
}

impl ScanRangeView {
    /// `k` lies in the range.
    pub open spec fn contains(self, k: Seq<u8>) -> bool {
        in_range(self.lower, self.upper, k)
    }
}

/// The range of the keys with the prefix `p`.
pub open spec fn prefix_range(p: Seq<u8>) -> ScanRangeView {
    ScanRangeView { lower: p, upper: upper_bound(p) }
}

impl View for ScanRange {
    type V = ScanRangeView;

    open spec fn view(&self) -> ScanRangeView {
        ScanRangeView { lower: self.lower@, upper: bound_view(self.upper) }
    }
}

impl ScanRange {
    /// The range that holds the keys with the prefix `prefix` and no others.
    pub fn for_prefix(prefix: &[u8]) -> (r: ScanRange)
        ensures
            r@ == prefix_range(prefix@),
            forall|k: Seq<u8>| r@.contains(k) <==> has_prefix(k, prefix@),
    {
        let upper = get_upper_bound_option(prefix);
        let lower = slice_to_vec(prefix);
        ScanRange { lower, upper }
    }

    /// Whether `key` lies in the range.
    pub fn contains(&self, key: &[u8]) -> (b: bool)
        ensures
            b == self@.contains(key@),
    {
        if lex_less(key, self.lower.as_slice()) {
            proof {
                lemma_lt_asymmetric(key@, self.lower@);
            }
            return false;
        }
        proof {
            crate::order::lemma_lt_total(key@, self.lower@);
        }
        match &self.upper {
            Some(u) => lex_less(key, u.as_slice()),
            None => true,
        }
    }
}

} // verus!
