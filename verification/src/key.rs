//! Versioned keys: a user key together with the timestamp of a write.
use vstd::prelude::*;
use crate::codec::{be64, copy_range, get_u64, holds_at, lemma_u64_at, put_slice, put_u64, u64_at};
use crate::order::{
    bytes_lt, compare_bytes, lemma_bytes_lt_irreflexive, lemma_bytes_lt_total,
    lemma_bytes_lt_transitive, Order,
};

verus! {

/// The timestamp of keys that carry no version of their own.
pub const TS_DEFAULT: u64 = 0;

/// The timestamp of the first version of a user key in key order.
pub const TS_RANGE_BEGIN: u64 = 0xffff_ffff_ffff_ffff;

/// The timestamp of the last version of a user key in key order.
pub const TS_RANGE_END: u64 = 0;

/// The mathematical value of a versioned key.
#[verifier::ext_equal]
pub struct VKey {
    pub user: Seq<u8>,
    pub ts: u64,
}

/// The key order: user keys in lexicographic order, and the versions of one user key from
/// the newest to the oldest.
pub open spec fn key_lt(a: VKey, b: VKey) -> bool {
    bytes_lt(a.user, b.user) || (a.user == b.user && a.ts > b.ts)
}

pub open spec fn key_le(a: VKey, b: VKey) -> bool {
    a == b || key_lt(a, b)
}

/// The key order is a strict total order.
pub proof fn lemma_key_lt_irreflexive(a: VKey)
    ensures
        !key_lt(a, a),
{
    lemma_bytes_lt_irreflexive(a.user);
}

pub proof fn lemma_key_lt_transitive(a: VKey, b: VKey, c: VKey)
    requires
        key_lt(a, b),
        key_lt(b, c),
    ensures
        key_lt(a, c),
{
    if bytes_lt(a.user, b.user) && bytes_lt(b.user, c.user) {
        lemma_bytes_lt_transitive(a.user, b.user, c.user);
    }
}

pub proof fn lemma_key_lt_total(a: VKey, b: VKey)
    ensures
        key_lt(a, b) || a == b || key_lt(b, a),
{
    lemma_bytes_lt_total(a.user, b.user);
    if a.user == b.user && a.ts == b.ts {
        assert(a =~= b);
    }
}

pub proof fn lemma_key_lt_asymmetric(a: VKey, b: VKey)
    requires
        key_lt(a, b),
    ensures
        !key_lt(b, a),
        a != b,
{
    lemma_key_lt_irreflexive(a);
    if key_lt(b, a) {
        lemma_key_lt_transitive(a, b, a);
    }
}

/// The versions of one user key stand from the newest to the oldest, and user keys in their order.
pub proof fn lemma_newest_first(a: VKey, b: VKey)
    ensures
        a.user == b.user ==> (key_lt(a, b) <==> b.ts < a.ts),
        a.user != b.user ==> (key_lt(a, b) <==> bytes_lt(a.user, b.user)),
{
    lemma_bytes_lt_irreflexive(a.user);
}

/// The bytes under which a key is stored: the user key, then the timestamp.
pub open spec fn raw_key(k: VKey) -> Seq<u8> {
    k.user + be64(k.ts)
}

/// The key that the stored bytes stand for. Fewer bytes than a timestamp has stand for the
/// empty key.
pub open spec fn parse_raw(raw: Seq<u8>) -> VKey {
    if raw.len() < 8 {
        VKey { user: Seq::empty(), ts: 0 }
    } else {
        VKey {
            user: raw.subrange(0, raw.len() - 8),
            ts: u64_at(raw, raw.len() - 8) as u64,
        }
    }
}

/// The stored form of a key gives the key back.
pub proof fn lemma_parse_raw_key(k: VKey)
    ensures
        parse_raw(raw_key(k)) == k,
        raw_key(k).len() == k.user.len() + 8,
{
    let raw = raw_key(k);
    assert(raw.subrange(0, raw.len() - 8) =~= k.user);
    assert(raw.subrange(raw.len() - 8, raw.len() as int) =~= be64(k.ts));
    assert(holds_at(raw, raw.len() - 8, be64(k.ts)));
    lemma_u64_at(raw, raw.len() - 8, k.ts);
}

/// A borrowed versioned key.
#[derive(Debug, Clone, Copy)]
pub struct KeySlice<'a> {
    pub key: &'a [u8],
    pub ts: u64,
}

/// An owned versioned key.
#[derive(Debug)]
pub struct KeyVec {
    pub key: Vec<u8>,
    pub ts: u64,
}

impl<'a> View for KeySlice<'a> {
    type V = VKey;

    open spec fn view(&self) -> VKey {
        VKey { user: self.key@, ts: self.ts }
    }
}

impl View for KeyVec {
    type V = VKey;

    open spec fn view(&self) -> VKey {
        VKey { user: self.key@, ts: self.ts }
    }
}

impl<'a> KeySlice<'a> {
    /// A key with a given version.
    pub fn from_slice(key: &'a [u8], ts: u64) -> (r: KeySlice<'a>)
        ensures
            r@ == (VKey { user: key@, ts }),
    {
        KeySlice { key, ts }
    }

    /// Reads a key from its stored form.
    pub fn from_raw(raw: &'a [u8]) -> (r: KeySlice<'a>)
        ensures
            r@ == parse_raw(raw@),
    {
        if raw.len() < 8 {
            let r = KeySlice { key: vstd::slice::slice_subrange(raw, 0, 0), ts: 0 };
            assert(r.key@ =~= Seq::<u8>::empty());
            r
        } else {
            let n = raw.len() - 8;
            KeySlice { key: vstd::slice::slice_subrange(raw, 0, n), ts: get_u64(raw, n) }
        }
    }

    pub fn key_ref(&self) -> (r: &'a [u8])
        ensures
            r@ == self@.user,
    {
        self.key
    }

    pub fn key_len(&self) -> (r: usize)
        ensures
            r == self@.user.len(),
    {
        self.key.len()
    }

    pub fn ts(&self) -> (r: u64)
        ensures
            r == self@.ts,
    {
        self.ts
    }

    /// Whether the user key is empty.
    pub fn is_empty(&self) -> (r: bool)
        ensures
            r == (self@.user.len() == 0),
    {
        self.key.len() == 0
    }

    /// The bytes under which this key is stored.
    pub fn to_raw(&self) -> (r: Vec<u8>)
        ensures
            r@ == raw_key(self@),
    {
        let mut out: Vec<u8> = Vec::new();
        put_slice(&mut out, self.key);
        put_u64(&mut out, self.ts);
        assert(out@ =~= raw_key(self@));
        out
    }

    pub fn to_key_vec(&self) -> (r: KeyVec)
        ensures
            r@ == self@,
    {
        let r = KeyVec { key: copy_range(self.key, 0, self.key.len()), ts: self.ts };
        assert(r@ =~= self@);
        r
    }

    /// Compares two keys in key order.
    pub fn compare(&self, other: &KeySlice) -> (r: Order)
        ensures
            r is Less <==> key_lt(self@, other@),
            r is Equal <==> self@ == other@,
            r is Greater <==> key_lt(other@, self@),
    {
        proof {
            lemma_bytes_lt_irreflexive(self@.user);
            lemma_bytes_lt_irreflexive(other@.user);
            lemma_key_lt_total(self@, other@);
            if key_lt(self@, other@) {
                lemma_key_lt_asymmetric(self@, other@);
            }
            if key_lt(other@, self@) {
                lemma_key_lt_asymmetric(other@, self@);
            }
        }
        match compare_bytes(self.key, other.key) {
            Order::Less => Order::Less,
            Order::Greater => Order::Greater,
            Order::Equal => {
                if self.ts > other.ts {
                    Order::Less
                } else if self.ts < other.ts {
                    Order::Greater
                } else {
                    Order::Equal
                }
            },
        }
    }

    pub fn less(&self, other: &KeySlice) -> (r: bool)
        ensures
            r == key_lt(self@, other@),
    {
        match self.compare(other) {
            Order::Less => true,
            _ => false,
        }
    }

    pub fn equal(&self, other: &KeySlice) -> (r: bool)
        ensures
            r == (self@ == other@),
    {
        match self.compare(other) {
            Order::Equal => true,
            _ => false,
        }
    }
}

impl KeyVec {
    /// The empty key.
    pub fn new() -> (r: KeyVec)
        ensures
            r@ == (VKey { user: Seq::empty(), ts: TS_DEFAULT }),
    {
        let r = KeyVec { key: Vec::new(), ts: TS_DEFAULT };
        assert(r@.user =~= Seq::<u8>::empty());
        r
    }

    pub fn from_vec_with_ts(key: Vec<u8>, ts: u64) -> (r: KeyVec)
        ensures
            r@ == (VKey { user: key@, ts }),
    {
        KeyVec { key, ts }
    }

    pub fn as_key_slice(&self) -> (r: KeySlice<'_>)
        ensures
            r@ == self@,
    {
        KeySlice { key: self.key.as_slice(), ts: self.ts }
    }

    pub fn copied(&self) -> (r: KeyVec)
        ensures
            r@ == self@,
    {
        self.as_key_slice().to_key_vec()
    }
}

} // verus!
