//! A sorted map from versioned keys to values, kept in a concurrent skip list.
use vstd::prelude::*;
use crossbeam_skiplist::SkipMap;
use std::ops::Bound;
use crate::bound::{
    above, below, end_of, in_range, lemma_end_of, lemma_in_range_subrange, lemma_start_of,
    slice_bound, start_of,
};
use crate::codec::copy_range;
use crate::entry::{lemma_lower_bound_sorted, lower_bound, sorted, Entry};
use crate::key::{key_lt, lemma_key_lt_irreflexive, lemma_key_lt_total, KeySlice, KeyVec, VKey};
use crate::order::bytes_lt;

verus! {

/// Declares the skip list.
#[verifier::external_type_specification]
#[verifier::external_body]
#[verifier::reject_recursive_types(K)]
#[verifier::reject_recursive_types(V)]
pub struct ExSkipMap<K, V>(crossbeam_skiplist::SkipMap<K, V>);

/// What a skip list holds.
pub uninterp spec fn skip_map_contents(map: SkipMap<(Vec<u8>, u64), Vec<u8>>) -> Map<
    (Seq<u8>, u64),
    Seq<u8>,
>;

/// The order of the keys in the skip list, which is that of pairs of a byte string and a
/// number.
pub open spec fn slot_lt(a: (Seq<u8>, u64), b: (Seq<u8>, u64)) -> bool {
    bytes_lt(a.0, b.0) || (a.0 == b.0 && a.1 < b.1)
}

/// Whether a pair lies between two bounds.
pub open spec fn slot_in(
    lower: Bound<(Vec<u8>, u64)>,
    upper: Bound<(Vec<u8>, u64)>,
    k: (Seq<u8>, u64),
) -> bool {
    &&& match lower {
        Bound::Included(b) => !slot_lt(k, (b.0@, b.1)),
        Bound::Excluded(b) => slot_lt((b.0@, b.1), k),
        Bound::Unbounded => true,
    }
    &&& match upper {
        Bound::Included(b) => !slot_lt((b.0@, b.1), k),
        Bound::Excluded(b) => slot_lt(k, (b.0@, b.1)),
        Bound::Unbounded => true,
    }
}

/// Calls `SkipMap::new`. Trusted: a new map holds nothing.
#[verifier::external_body]
fn skip_map_new() -> (r: SkipMap<(Vec<u8>, u64), Vec<u8>>)
    ensures
        forall|o: (Seq<u8>, u64)| !#[trigger] skip_map_contents(r).contains_key(o),
{
    SkipMap::new()
}

/// Calls `SkipMap::insert`. Trusted: the pair takes the place of one with the same key, and
/// everything else stays.
#[verifier::external_body]
fn skip_map_insert(map: &mut SkipMap<(Vec<u8>, u64), Vec<u8>>, key: (Vec<u8>, u64), value: Vec<u8>)
    ensures
        skip_map_contents(*final(map)) == skip_map_contents(*old(map)).insert(
            (key.0@, key.1),
            value@,
        ),
{
    map.insert(key, value);
}

/// Calls `SkipMap::get`. Trusted: returns the value under the key, if there is one.
#[verifier::external_body]
fn skip_map_get(map: &SkipMap<(Vec<u8>, u64), Vec<u8>>, key: &(Vec<u8>, u64)) -> (r: Option<Vec<u8>>)
    ensures
        match r {
            Some(v) => skip_map_contents(*map).contains_pair((key.0@, key.1), v@),
            None => !skip_map_contents(*map).contains_key((key.0@, key.1)),
        },
{
    map.get(key).map(|e| e.value().clone())
}

/// Calls `SkipMap::range` and takes the first item. Trusted: it is the pair with the smallest
/// key between the bounds, if there is one.
#[verifier::external_body]
fn skip_map_first_in(
    map: &SkipMap<(Vec<u8>, u64), Vec<u8>>,
    lower: Bound<(Vec<u8>, u64)>,
    upper: Bound<(Vec<u8>, u64)>,
) -> (r: Option<((Vec<u8>, u64), Vec<u8>)>)
    ensures
        match r {
            Some(item) => {
                let k = (item.0.0@, item.0.1);
                &&& skip_map_contents(*map).contains_pair(k, item.1@)
                &&& slot_in(lower, upper, k)
                &&& forall|o: (Seq<u8>, u64)| #[trigger]
                    skip_map_contents(*map).contains_key(o) && slot_in(lower, upper, o)
                        ==> !slot_lt(o, k)
            },
            None => forall|o: (Seq<u8>, u64)| #[trigger]
                skip_map_contents(*map).contains_key(o) ==> !slot_in(lower, upper, o),
        },
{
    map.range((lower, upper)).next().map(|e| (e.key().clone(), e.value().clone()))
}

/// Calls `SkipMap::is_empty`. Trusted: tells whether the map holds nothing.
#[verifier::external_body]
fn skip_map_is_empty(map: &SkipMap<(Vec<u8>, u64), Vec<u8>>) -> (r: bool)
    ensures
        r == (forall|o: (Seq<u8>, u64)| !#[trigger] skip_map_contents(*map).contains_key(o)),
{
    map.is_empty()
}

/// The pair under which a key stands in the skip list. The timestamp counts down, so that
/// the order of the pairs is the key order.
pub open spec fn slot_of(k: VKey) -> (Seq<u8>, u64) {
    (k.user, (0xffff_ffff_ffff_ffff - k.ts) as u64)
}

pub open spec fn key_of(s: (Seq<u8>, u64)) -> VKey {
    VKey { user: s.0, ts: (0xffff_ffff_ffff_ffff - s.1) as u64 }
}

/// The sorted entries with one more, which takes the place of one with the same key.
pub open spec fn upsert(s: Seq<Entry>, e: Entry) -> Seq<Entry> {
    let i = lower_bound(s, e.key);
    if i < s.len() && s[i].key == e.key {
        s.update(i, e)
    } else {
        s.insert(i, e)
    }
}

/// Sorted entries with some more put in, one after the other.
pub open spec fn upsert_all(s: Seq<Entry>, es: Seq<Entry>) -> Seq<Entry>
    decreases es.len(),
{
    if es.len() == 0 {
        s
    } else {
        upsert_all(upsert(s, es[0]), es.drop_first())
    }
}

pub proof fn lemma_upsert_all_append(s: Seq<Entry>, a: Seq<Entry>, b: Seq<Entry>)
    ensures
        upsert_all(s, a + b) == upsert_all(upsert_all(s, a), b),
    decreases a.len(),
{
    if a.len() == 0 {
        assert(a + b =~= b);
    } else {
        assert((a + b).drop_first() =~= a.drop_first() + b);
        lemma_upsert_all_append(upsert(s, a[0]), a.drop_first(), b);
    }
}

/// The value under a key.
pub open spec fn value_of(s: Seq<Entry>, k: VKey) -> Option<Seq<u8>> {
    let i = lower_bound(s, k);
    if i < s.len() && s[i].key == k {
        Some(s[i].value)
    } else {
        None
    }
}

/// Adding an entry to sorted entries keeps them sorted, and changes nothing else.
pub proof fn lemma_upsert(s: Seq<Entry>, e: Entry)
    requires
        sorted(s),
    ensures
        sorted(upsert(s, e)),
        forall|k: VKey| #[trigger]
            value_of(upsert(s, e), k) == if k == e.key {
                Some(e.value)
            } else {
                value_of(s, k)
            },
        forall|i: int|
            0 <= i < upsert(s, e).len() ==> (#[trigger] upsert(s, e)[i]) == e || exists|j: int|
                0 <= j < s.len() && s[j] == upsert(s, e)[i],
{
    let i = lower_bound(s, e.key);
    let t = upsert(s, e);
    lemma_lower_bound_sorted(s, e.key);
    let there = i < s.len() && s[i].key == e.key;
    assert forall|a: int| 0 <= a < t.len() implies #[trigger] t[a] == (if a == i {
        e
    } else if a < i || there {
        s[a]
    } else {
        s[a - 1]
    }) by {}
    assert forall|a: int| i <= a < s.len() && !(there && a == i) implies key_lt(
        e.key,
        (#[trigger] s[a]).key,
    ) by {
        lemma_key_lt_total(e.key, s[a].key);
        if there {
            assert(key_lt(s[i].key, s[a].key));
        } else if s[a].key == e.key {
            if a > i {
                assert(key_lt(s[i].key, s[a].key));
            }
        }
    }
    assert forall|a: int, b: int| #![trigger t[a], t[b]] 0 <= a < b < t.len() implies key_lt(
        t[a].key,
        t[b].key,
    ) by {
        let a1 = if a == i || a < i || there { a } else { a - 1 };
        let b1 = if b < i || there { b } else { b - 1 };
        if a != i && b != i {
            assert(t[a] == s[a1] && t[b] == s[b1]);
        } else if a == i {
            assert(t[b] == s[b1]);
            assert(key_lt(e.key, s[b1].key));
        } else {
            assert(t[a] == s[a]);
            assert(key_lt(s[a].key, e.key));
        }
    }
    assert forall|k: VKey| #[trigger] value_of(t, k) == if k == e.key {
        Some(e.value)
    } else {
        value_of(s, k)
    } by {
        lemma_value_of(t, k);
        lemma_value_of(s, k);
        if k == e.key {
            assert(t[i].key == k);
        } else {
            if value_of(s, k) is Some {
                let j = lower_bound(s, k);
                let j1 = if j < i || there { j } else { j + 1 };
                assert(t[j1] == s[j]);
            }
            if value_of(t, k) is Some {
                let j = lower_bound(t, k);
                let j1 = if j < i || there { j } else { j - 1 };
                assert(t[j] == s[j1]);
            }
        }
    }
    assert forall|a: int| 0 <= a < t.len() implies (#[trigger] t[a]) == e || exists|j: int|
        0 <= j < s.len() && s[j] == t[a] by {
        if a != i {
            let a1 = if a < i || there { a } else { a - 1 };
            assert(s[a1] == t[a]);
        }
    }
}

/// The value under a key is that of the one entry with this key.
pub proof fn lemma_value_of(s: Seq<Entry>, k: VKey)
    requires
        sorted(s),
    ensures
        forall|j: int|
            0 <= j < s.len() && (#[trigger] s[j]).key == k ==> value_of(s, k) == Some(s[j].value)
                && lower_bound(s, k) == j,
        value_of(s, k) is Some ==> 0 <= lower_bound(s, k) < s.len() && s[lower_bound(s, k)].key == k,
        0 <= lower_bound(s, k) <= s.len(),
{
    lemma_lower_bound_sorted(s, k);
    let i = lower_bound(s, k);
    assert forall|j: int| 0 <= j < s.len() && (#[trigger] s[j]).key == k implies i == j by {
        lemma_key_lt_irreflexive(k);
        if i < j {
            assert(key_lt(s[i].key, s[j].key));
        }
    }
}

/// A sorted map from versioned keys to values.
pub struct VersionMap {
    map: SkipMap<(Vec<u8>, u64), Vec<u8>>,
    sorted: Ghost<Seq<Entry>>,
}

impl VersionMap {
    /// The entries in key order.
    pub closed spec fn entries(&self) -> Seq<Entry> {
        self.sorted@
    }

    /// Whether the skip list holds exactly the entries.
    pub closed spec fn wf(&self) -> bool {
        let m = skip_map_contents(self.map);
        &&& sorted(self.sorted@)
        &&& forall|i: int|
            0 <= i < self.sorted@.len() ==> m.contains_pair(
                slot_of((#[trigger] self.sorted@[i]).key),
                self.sorted@[i].value,
            )
        &&& forall|o: (Seq<u8>, u64)| #[trigger]
            m.contains_key(o) ==> value_of(self.sorted@, key_of(o)) is Some
    }

    pub proof fn lemma_wf(&self)
        requires
            self.wf(),
        ensures
            sorted(self.entries()),
    {
    }

    /// Creates an empty map.
    pub fn new() -> (r: VersionMap)
        ensures
            r.wf(),
            r.entries() == Seq::<Entry>::empty(),
    {
        VersionMap { map: skip_map_new(), sorted: Ghost(Seq::empty()) }
    }

    /// Puts a value under a key, in place of one that was there.
    pub fn insert(&mut self, key: KeySlice, value: &[u8])
        requires
            old(self).wf(),
        ensures
            final(self).wf(),
            final(self).entries() == upsert(
                old(self).entries(),
                Entry { key: key@, value: value@ },
            ),
    {
        let ghost e = Entry { key: key@, value: value@ };
        let ghost before = self.sorted@;
        let ghost m = skip_map_contents(self.map);
        let user = copy_range(key.key, 0, key.key.len());
        let rank = 0xffff_ffff_ffff_ffff - key.ts;
        let copy = copy_range(value, 0, value.len());
        assert(user@ =~= key.key@);
        assert(copy@ =~= value@);
        skip_map_insert(&mut self.map, (user, rank), copy);
        self.sorted = Ghost(upsert(before, e));
        proof {
            let m2 = skip_map_contents(self.map);
            let t = self.sorted@;
            lemma_upsert(before, e);
            assert(m2 == m.insert(slot_of(e.key), e.value));
            assert forall|i: int| 0 <= i < t.len() implies m2.contains_pair(
                slot_of((#[trigger] t[i]).key),
                t[i].value,
            ) by {
                if t[i] != e {
                    let j = choose|j: int| 0 <= j < before.len() && before[j] == t[i];
                    assert(m.contains_pair(slot_of(before[j].key), before[j].value));
                    lemma_value_of(t, e.key);
                    assert(value_of(t, e.key) == Some(e.value));
                    if t[i].key == e.key {
                        assert(t[i].value == e.value);
                        assert(t[i] =~= e);
                    }
                    lemma_slots(t[i].key, e.key);
                }
            }
            assert forall|o: (Seq<u8>, u64)| #[trigger] m2.contains_key(o) implies value_of(
                t,
                key_of(o),
            ) is Some by {
                lemma_key_of(o);
                if key_of(o) != e.key {
                    assert(m.contains_key(o));
                }
            }
        }
    }

    /// The value under a key.
    pub fn get(&self, key: KeySlice) -> (r: Option<Vec<u8>>)
        requires
            self.wf(),
        ensures
            match r {
                Some(v) => value_of(self.entries(), key@) == Some(v@),
                None => value_of(self.entries(), key@) is None,
            },
    {
        let user = copy_range(key.key, 0, key.key.len());
        assert(user@ =~= key.key@);
        let rank = 0xffff_ffff_ffff_ffff - key.ts;
        let ghost o = slot_of(key@);
        proof {
            lemma_key_of(o);
            lemma_value_of(self.sorted@, key@);
            assert(key_of(o) =~= key@);
        }
        let r = skip_map_get(&self.map, &(user, rank));
        proof {
            let m = skip_map_contents(self.map);
            let i = lower_bound(self.sorted@, key@);
            if m.contains_key(o) {
                assert(self.sorted@[i].key == key@);
                assert(m.contains_pair(slot_of(self.sorted@[i].key), self.sorted@[i].value));
            } else if value_of(self.sorted@, key@) is Some {
                assert(m.contains_pair(slot_of(self.sorted@[i].key), self.sorted@[i].value));
            }
        }
        r
    }

    /// The first entry between two bounds.
    pub fn first_in(&self, lower: Bound<KeySlice>, upper: Bound<KeySlice>) -> (r: Option<
        (KeyVec, Vec<u8>),
    >)
        requires
            self.wf(),
        ensures
            match r {
                Some(item) => {
                    let i = start_of(self.entries(), slice_bound(lower));
                    &&& 0 <= i < self.entries().len()
                    &&& self.entries()[i] == (Entry { key: item.0@, value: item.1@ })
                    &&& below(slice_bound(upper), item.0@)
                },
                None => in_range(self.entries(), slice_bound(lower), slice_bound(upper)).len() == 0,
            },
    {
        let lo = slot_bound(lower);
        let hi = slot_bound(upper);
        let r = skip_map_first_in(&self.map, lo, hi);
        let ghost s = self.sorted@;
        let ghost m = skip_map_contents(self.map);
        let ghost i = start_of(s, slice_bound(lower));
        let ghost j = end_of(s, slice_bound(upper));
        proof {
            lemma_start_of(s, slice_bound(lower));
            lemma_end_of(s, slice_bound(upper));
            lemma_in_range_subrange(s, slice_bound(lower), slice_bound(upper), i, j);
            assert forall|k: int| 0 <= k < s.len() implies m.contains_key(
                slot_of((#[trigger] s[k]).key),
            ) && (slot_in(lo, hi, slot_of(s[k].key)) <==> i <= k < j) by {
                assert(m.contains_pair(slot_of(s[k].key), s[k].value));
                lemma_slot_in(lo, hi, slice_bound(lower), slice_bound(upper), s[k].key);
            }
        }
        match r {
            None => {
                proof {
                    if i < j {
                        assert(m.contains_key(slot_of(s[i].key)));
                    }
                }
                None
            },
            Some((pair, value)) => {
                proof {
                    let o = (pair.0@, pair.1);
                    let k = key_of(o);
                    lemma_key_of(o);
                    assert(m.contains_key(o));
                    lemma_value_of(s, k);
                    let p = lower_bound(s, k);
                    assert(s[p].key == k);
                    assert(m.contains_pair(slot_of(s[p].key), s[p].value));
                    assert(i <= p < j);
                    if i < p {
                        assert(key_lt(s[i].key, s[p].key));
                        lemma_slots(s[i].key, s[p].key);
                        assert(m.contains_key(slot_of(s[i].key)));
                    }
                }
                let (user, rank) = pair;
                Some((KeyVec::from_vec_with_ts(user, 0xffff_ffff_ffff_ffff - rank), value))
            },
        }
    }

    /// Whether the map holds nothing.
    pub fn is_empty(&self) -> (r: bool)
        requires
            self.wf(),
        ensures
            r == (self.entries().len() == 0),
    {
        let r = skip_map_is_empty(&self.map);
        proof {
            let m = skip_map_contents(self.map);
            let s = self.sorted@;
            if s.len() > 0 {
                assert(m.contains_pair(slot_of(s[0].key), s[0].value));
                assert(m.contains_key(slot_of(s[0].key)));
            }
        }
        r
    }
}

/// The bounds of the pairs that the keys between two bounds stand under.
fn slot_bound(b: Bound<KeySlice>) -> (r: Bound<(Vec<u8>, u64)>)
    ensures
        bound_matches(r, slice_bound(b)),
{
    match b {
        Bound::Included(k) => {
            let user = copy_range(k.key, 0, k.key.len());
            assert(user@ =~= k.key@);
            Bound::Included((user, 0xffff_ffff_ffff_ffff - k.ts))
        },
        Bound::Excluded(k) => {
            let user = copy_range(k.key, 0, k.key.len());
            assert(user@ =~= k.key@);
            Bound::Excluded((user, 0xffff_ffff_ffff_ffff - k.ts))
        },
        Bound::Unbounded => Bound::Unbounded,
    }
}

spec fn bound_matches(a: Bound<(Vec<u8>, u64)>, b: Bound<VKey>) -> bool {
    match (a, b) {
        (Bound::Included(x), Bound::Included(k)) => (x.0@, x.1) == slot_of(k),
        (Bound::Excluded(x), Bound::Excluded(k)) => (x.0@, x.1) == slot_of(k),
        (Bound::Unbounded, Bound::Unbounded) => true,
        _ => false,
    }
}

/// The order of the pairs is the key order.
proof fn lemma_slots(a: VKey, b: VKey)
    ensures
        slot_lt(slot_of(a), slot_of(b)) == key_lt(a, b),
        slot_of(a) == slot_of(b) ==> a == b,
{
    if slot_of(a) == slot_of(b) {
        assert(a =~= b);
    }
}

proof fn lemma_key_of(o: (Seq<u8>, u64))
    ensures
        slot_of(key_of(o)) == o,
{
}

proof fn lemma_slot_in(
    lo: Bound<(Vec<u8>, u64)>,
    hi: Bound<(Vec<u8>, u64)>,
    lower: Bound<VKey>,
    upper: Bound<VKey>,
    k: VKey,
)
    requires
        bound_matches(lo, lower),
        bound_matches(hi, upper),
    ensures
        slot_in(lo, hi, slot_of(k)) == (above(lower, k) && below(upper, k)),
{
    match lower {
        Bound::Included(b) => {
            lemma_slots(k, b);
        },
        Bound::Excluded(b) => {
            lemma_slots(b, k);
        },
        Bound::Unbounded => {},
    }
    match upper {
        Bound::Included(b) => {
            lemma_slots(b, k);
        },
        Bound::Excluded(b) => {
            lemma_slots(k, b);
        },
        Bound::Unbounded => {},
    }
}

} // verus!
