//! The hash functions and the checksum that the engine takes from outside crates.
use vstd::prelude::*;

verus! {

/// The number in the four bytes of `s` from `p` on, least significant first.
pub open spec fn le32_at(s: Seq<u8>, p: int) -> int {
    s[p] + s[p + 1] * 256 + s[p + 2] * 0x1_0000 + s[p + 3] * 0x100_0000
}

/// The inputs on which FarmHash computes its 32-bit hash without an addition that exceeds
/// 32 bits. On the others it panics in a build with overflow checks.
pub open spec fn hashable(s: Seq<u8>) -> bool {
    &&& 5 <= s.len() <= 12 ==> {
        &&& s.len() + le32_at(s, 0) <= 0xffff_ffff
        &&& 5 * s.len() + le32_at(s, s.len() - 4) <= 0xffff_ffff
        &&& 9 + le32_at(s, if s.len() < 8 { 0 } else { 4 }) <= 0xffff_ffff
    }
    &&& 13 <= s.len() <= 24 ==> le32_at(s, s.len() as int / 2) * 0xcc9e_2d51 % 0x1_0000_0000
        + s.len() <= 0xffff_ffff
}

/// The FarmHash fingerprint of a byte string.
pub uninterp spec fn fingerprint32_of(s: Seq<u8>) -> u32;

/// The 32-bit FarmHash of a byte string.
pub uninterp spec fn hash32_of(s: Seq<u8>) -> u32;

/// The CRC-32 checksum of a byte string.
pub uninterp spec fn crc32_of(s: Seq<u8>) -> u32;

/// The number by which filters know a user key: its fingerprint, or 0 where FarmHash is not
/// defined on it. A filter then lets some keys pass that it need not.
pub open spec fn filter_hash(user: Seq<u8>) -> u32 {
    if hashable(user) {
        fingerprint32_of(user)
    } else {
        0
    }
}

/// The number by which transactions know a user key: its hash, or 0 where FarmHash is not defined
/// on it. Transactions then conflict where they need not.
pub open spec fn conflict_hash(user: Seq<u8>) -> u32 {
    if hashable(user) {
        hash32_of(user)
    } else {
        0
    }
}

/// Where FarmHash is defined, keys go by their own hashes. It is defined on all short and all long
/// keys.
pub proof fn lemma_key_hashes(user: Seq<u8>)
    ensures
        hashable(user) ==> filter_hash(user) == fingerprint32_of(user) && conflict_hash(user)
            == hash32_of(user),
        user.len() < 5 || 24 < user.len() ==> hashable(user),
{
}

/// Calls `farmhash::fingerprint32`. Trusted: the result depends on the bytes alone, on every
/// platform, and the call returns on every hashable input. What the result is on given bytes
/// is not stated.
#[verifier::external_body]
fn fingerprint32(s: &[u8]) -> (r: u32)
    requires
        hashable(s@),
    ensures
        r == fingerprint32_of(s@),
{
    farmhash::fingerprint32(s)
}

/// Calls `farmhash::hash32`. Trusted: the result depends on the bytes alone, on every platform
/// (it reads them least significant byte first), and the call returns on every hashable input.
/// What the result is on given bytes is not stated.
#[verifier::external_body]
fn hash32(s: &[u8]) -> (r: u32)
    requires
        hashable(s@),
    ensures
        r == hash32_of(s@),
{
    farmhash::hash32(s)
}

/// Calls `crc32fast::hash`. Trusted: the result depends on the bytes alone. What the checksum
/// of given bytes is is not stated.
#[verifier::external_body]
pub(crate) fn crc32(s: &[u8]) -> (r: u32)
    ensures
        r == crc32_of(s@),
{
    crc32fast::hash(s)
}

fn le32(s: &[u8], p: usize) -> (r: u64)
    requires
        p + 4 <= s.len(),
    ensures
        r == le32_at(s@, p as int),
        r <= 0xffff_ffff,
{
    s[p] as u64 + s[p + 1] as u64 * 256 + s[p + 2] as u64 * 0x1_0000 + s[p + 3] as u64 * 0x100_0000
}

/// Whether FarmHash is defined on this input in every build.
pub fn is_hashable(s: &[u8]) -> (r: bool)
    ensures
        r == hashable(s@),
{
    let n = s.len();
    if 5 <= n && n <= 12 {
        let mid: usize = if n < 8 {
            0
        } else {
            4
        };
        n as u64 + le32(s, 0) <= 0xffff_ffff && 5 * n as u64 + le32(s, n - 4) <= 0xffff_ffff && 9
            + le32(s, mid) <= 0xffff_ffff
    } else if 13 <= n && n <= 24 {
        let d = le32(s, n / 2);
        assert(d * 0xcc9e_2d51 <= 0xffff_ffff * 0xcc9e_2d51) by (nonlinear_arith)
            requires
                0 <= d <= 0xffff_ffff,
        ;
        d * 0xcc9e_2d51 % 0x1_0000_0000 + n as u64 <= 0xffff_ffff
    } else {
        true
    }
}

/// The number by which filters know a user key.
pub(crate) fn hash_for_filter(user: &[u8]) -> (r: u32)
    ensures
        r == filter_hash(user@),
{
    if is_hashable(user) {
        fingerprint32(user)
    } else {
        0
    }
}

/// The number by which transactions know a user key.
pub(crate) fn hash_for_conflicts(user: &[u8]) -> (r: u32)
    ensures
        r == conflict_hash(user@),
{
    if is_hashable(user) {
        hash32(user)
    } else {
        0
    }
}

} // verus!
