//! Ranges of versioned keys.
use vstd::prelude::*;
use std::ops::Bound;
use crate::entry::{lemma_sorted_skip, sorted, Entry};
use crate::key::{
    key_lt, lemma_key_lt_asymmetric, lemma_key_lt_irreflexive, lemma_key_lt_total,
    lemma_key_lt_transitive, KeySlice, KeyVec, VKey,
};
use crate::snapshot::lemma_filter_contains;

verus! {

/// Declares `std::ops::Bound` with its three variants.
#[verifier::external_type_specification]
pub struct ExBound<T>(std::ops::Bound<T>);

/// Whether a key is inside a lower bound.
pub open spec fn above(lower: Bound<VKey>, k: VKey) -> bool {
    match lower {
        Bound::Included(b) => !key_lt(k, b),
        Bound::Excluded(b) => key_lt(b, k),
        Bound::Unbounded => true,
    }
}

/// Whether a key is inside an upper bound.
pub open spec fn below(upper: Bound<VKey>, k: VKey) -> bool {
    match upper {
        Bound::Included(b) => !key_lt(b, k),
        Bound::Excluded(b) => key_lt(k, b),
        Bound::Unbounded => true,
    }
}

/// The entries with keys between two bounds.
pub open spec fn in_range(s: Seq<Entry>, lower: Bound<VKey>, upper: Bound<VKey>) -> Seq<Entry> {
    s.filter(|e: Entry| above(lower, e.key) && below(upper, e.key))
}

/// The mathematical value of a bound.
pub open spec fn slice_bound(b: Bound<KeySlice>) -> Bound<VKey> {
    match b {
        Bound::Included(k) => Bound::Included(k@),
        Bound::Excluded(k) => Bound::Excluded(k@),
        Bound::Unbounded => Bound::Unbounded,
    }
}

/// The mathematical value of an owned bound.
pub open spec fn vec_bound(b: Bound<KeyVec>) -> Bound<VKey> {
    match b {
        Bound::Included(k) => Bound::Included(k@),
        Bound::Excluded(k) => Bound::Excluded(k@),
        Bound::Unbounded => Bound::Unbounded,
    }
}

/// The entries between two bounds are those whose keys are not before the lower and not behind the
/// upper bound, of which the ends belong to the range where they are included.
pub proof fn lemma_in_range(s: Seq<Entry>, lower: Bound<VKey>, upper: Bound<VKey>, e: Entry)
    ensures
        in_range(s, lower, upper).contains(e) <==> {
            &&& s.contains(e)
            &&& match lower {
                Bound::Included(b) => b == e.key || key_lt(b, e.key),
                Bound::Excluded(b) => key_lt(b, e.key),
                Bound::Unbounded => true,
            }
            &&& match upper {
                Bound::Included(b) => e.key == b || key_lt(e.key, b),
                Bound::Excluded(b) => key_lt(e.key, b),
                Bound::Unbounded => true,
            }
        },
{
    lemma_filter_contains(s, |e: Entry| above(lower, e.key) && below(upper, e.key), e);
    if let Bound::Included(b) = lower {
        lemma_key_lt_total(b, e.key);
        lemma_key_lt_irreflexive(b);
        if key_lt(b, e.key) {
            lemma_key_lt_asymmetric(b, e.key);
        }
    }
    if let Bound::Included(b) = upper {
        lemma_key_lt_total(b, e.key);
        lemma_key_lt_irreflexive(b);
        if key_lt(e.key, b) {
            lemma_key_lt_asymmetric(e.key, b);
        }
    }
}

/// A key after one that is inside a lower bound is inside it too.
pub proof fn lemma_above_upward(lower: Bound<VKey>, a: VKey, b: VKey)
    requires
        above(lower, a),
        key_lt(a, b),
    ensures
        above(lower, b),
{
    match lower {
        Bound::Included(k) => {
            if key_lt(b, k) {
                lemma_key_lt_transitive(a, b, k);
            }
        },
        Bound::Excluded(k) => {
            lemma_key_lt_transitive(k, a, b);
        },
        Bound::Unbounded => {},
    }
}

/// A key before one that is inside an upper bound is inside it too.
pub proof fn lemma_below_downward(upper: Bound<VKey>, a: VKey, b: VKey)
    requires
        below(upper, b),
        key_lt(a, b),
    ensures
        below(upper, a),
{
    match upper {
        Bound::Included(k) => {
            if key_lt(k, a) {
                lemma_key_lt_transitive(k, a, b);
            }
        },
        Bound::Excluded(k) => {
            lemma_key_lt_transitive(a, b, k);
        },
        Bound::Unbounded => {},
    }
}

/// A predicate that holds exactly from `i` to `j` picks what stands between them.
pub proof fn lemma_filter_subrange<A>(s: Seq<A>, p: spec_fn(A) -> bool, i: int, j: int)
    requires
        0 <= i <= j <= s.len(),
        forall|k: int| 0 <= k < s.len() ==> (p(#[trigger] s[k]) <==> i <= k < j),
    ensures
        s.filter(p) == s.subrange(i, j),
    decreases s.len(),
{
    reveal(Seq::filter);
    if s.len() == 0 {
        assert(s.filter(p) =~= s.subrange(i, j));
    } else {
        let t = s.drop_last();
        let n = t.len() as int;
        assert forall|k: int| 0 <= k < t.len() implies (p(#[trigger] t[k]) <==> (if i <= n { i } else { n }) <= k < (if j
            <= n {
            j
        } else {
            n
        })) by {
            assert(t[k] == s[k]);
        }
        lemma_filter_subrange(
            t,
            p,
            if i <= n {
                i
            } else {
                n
            },
            if j <= n {
                j
            } else {
                n
            },
        );
        assert(p(s[n]) <==> i <= n < j);
        assert(s.filter(p) =~= s.subrange(i, j));
    }
}

/// Between two places that part the sorted entries at the bounds lie the entries in range.
pub proof fn lemma_in_range_subrange(
    s: Seq<Entry>,
    lower: Bound<VKey>,
    upper: Bound<VKey>,
    i: int,
    j: int,
)
    requires
        0 <= i <= s.len(),
        0 <= j <= s.len(),
        forall|k: int| 0 <= k < s.len() ==> (above(lower, (#[trigger] s[k]).key) <==> i <= k),
        forall|k: int| 0 <= k < s.len() ==> (below(upper, (#[trigger] s[k]).key) <==> k < j),
    ensures
        in_range(s, lower, upper) == if i <= j {
            s.subrange(i, j)
        } else {
            Seq::empty()
        },
{
    let p = |e: Entry| above(lower, e.key) && below(upper, e.key);
    if i <= j {
        lemma_filter_subrange(s, p, i, j);
    } else {
        lemma_filter_subrange(s, p, 0, 0);
        assert(s.subrange(0, 0) =~= Seq::<Entry>::empty());
    }
}

/// The number of leading entries that are not inside a lower bound.
pub open spec fn start_of(s: Seq<Entry>, lower: Bound<VKey>) -> int
    decreases s.len(),
{
    if s.len() == 0 || above(lower, s[0].key) {
        0
    } else {
        1 + start_of(s.skip(1), lower)
    }
}

/// The number of leading entries that are inside an upper bound.
pub open spec fn end_of(s: Seq<Entry>, upper: Bound<VKey>) -> int
    decreases s.len(),
{
    if s.len() == 0 || !below(upper, s[0].key) {
        0
    } else {
        1 + end_of(s.skip(1), upper)
    }
}

/// The bounds part sorted entries in two.
pub proof fn lemma_start_of(s: Seq<Entry>, lower: Bound<VKey>)
    requires
        sorted(s),
    ensures
        0 <= start_of(s, lower) <= s.len(),
        forall|k: int|
            0 <= k < s.len() ==> (above(lower, (#[trigger] s[k]).key) <==> start_of(s, lower) <= k),
    decreases s.len(),
{
    if s.len() > 0 {
        let t = s.skip(1);
        lemma_sorted_skip(s, 1);
        lemma_start_of(t, lower);
        assert forall|k: int| 0 <= k < s.len() implies (above(lower, (#[trigger] s[k]).key)
            <==> start_of(s, lower) <= k) by {
            if k > 0 {
                assert(s[k] == t[k - 1]);
                assert(key_lt(s[0].key, s[k].key));
                if above(lower, s[0].key) {
                    lemma_above_upward(lower, s[0].key, s[k].key);
                }
            }
        }
    }
}

pub proof fn lemma_end_of(s: Seq<Entry>, upper: Bound<VKey>)
    requires
        sorted(s),
    ensures
        0 <= end_of(s, upper) <= s.len(),
        forall|k: int|
            0 <= k < s.len() ==> (below(upper, (#[trigger] s[k]).key) <==> k < end_of(s, upper)),
    decreases s.len(),
{
    if s.len() > 0 {
        let t = s.skip(1);
        lemma_sorted_skip(s, 1);
        lemma_end_of(t, upper);
        assert forall|k: int| 0 <= k < s.len() implies (below(upper, (#[trigger] s[k]).key) <==> k
            < end_of(s, upper)) by {
            if k > 0 {
                assert(s[k] == t[k - 1]);
                assert(key_lt(s[0].key, s[k].key));
                if below(upper, s[k].key) {
                    lemma_below_downward(upper, s[0].key, s[k].key);
                }
            }
        }
    }
}

/// Copies a bound.
pub fn map_bound(bound: Bound<KeySlice>) -> (r: Bound<KeyVec>)
    ensures
        vec_bound(r) == slice_bound(bound),
{
    match bound {
        Bound::Included(x) => Bound::Included(x.to_key_vec()),
        Bound::Excluded(x) => Bound::Excluded(x.to_key_vec()),
        Bound::Unbounded => Bound::Unbounded,
    }
}

/// Borrows a bound.
pub fn borrow_bound(bound: &Bound<KeyVec>) -> (r: Bound<KeySlice<'_>>)
    ensures
        slice_bound(r) == vec_bound(*bound),
{
    match bound {
        Bound::Included(x) => Bound::Included(x.as_key_slice()),
        Bound::Excluded(x) => Bound::Excluded(x.as_key_slice()),
        Bound::Unbounded => Bound::Unbounded,
    }
}

} // verus!
