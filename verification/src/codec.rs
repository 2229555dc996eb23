//! Big-endian integers inside byte sequences.
use vstd::prelude::*;

verus! {

/// The two bytes of `x`, most significant first.
pub open spec fn be16(x: u16) -> Seq<u8> {
    seq![(x / 256) as u8, (x % 256) as u8]
}

/// The four bytes of `x`, most significant first.
pub open spec fn be32(x: u32) -> Seq<u8> {
    seq![
        (x / 0x100_0000) as u8,
        (x / 0x1_0000 % 256) as u8,
        (x / 256 % 256) as u8,
        (x % 256) as u8,
    ]
}

/// The eight bytes of `x`, most significant first.
pub open spec fn be64(x: u64) -> Seq<u8> {
    be32((x / 0x1_0000_0000) as u32) + be32((x % 0x1_0000_0000) as u32)
}

/// The number in the two bytes of `s` from `p` on.
pub open spec fn u16_at(s: Seq<u8>, p: int) -> int {
    s[p] * 256 + s[p + 1]
}

/// The number in the four bytes of `s` from `p` on.
pub open spec fn u32_at(s: Seq<u8>, p: int) -> int {
    s[p] * 0x100_0000 + s[p + 1] * 0x1_0000 + s[p + 2] * 256 + s[p + 3]
}

/// The number in the eight bytes of `s` from `p` on.
pub open spec fn u64_at(s: Seq<u8>, p: int) -> int {
    u32_at(s, p) * 0x1_0000_0000 + u32_at(s, p + 4)
}

/// Whether the bytes of `part` stand in `s` from `p` on.
pub open spec fn holds_at(s: Seq<u8>, p: int, part: Seq<u8>) -> bool {
    &&& 0 <= p
    &&& p + part.len() <= s.len()
    &&& s.subrange(p, p + part.len()) == part
}

/// Reading a number back from the place where its two bytes stand.
pub proof fn lemma_u16_at(s: Seq<u8>, p: int, x: u16)
    requires
        holds_at(s, p, be16(x)),
    ensures
        u16_at(s, p) == x,
{
    let part = s.subrange(p, p + 2);
    assert(part[0] == s[p] && part[1] == s[p + 1]);
}

/// Reading a number back from the place where its four bytes stand.
pub proof fn lemma_u32_at(s: Seq<u8>, p: int, x: u32)
    requires
        holds_at(s, p, be32(x)),
    ensures
        u32_at(s, p) == x,
{
    let part = s.subrange(p, p + 4);
    assert(part[0] == s[p] && part[1] == s[p + 1] && part[2] == s[p + 2] && part[3] == s[p + 3]);
}

/// Reading a number back from the place where its eight bytes stand.
pub proof fn lemma_u64_at(s: Seq<u8>, p: int, x: u64)
    requires
        holds_at(s, p, be64(x)),
    ensures
        u64_at(s, p) == x,
{
    let part = s.subrange(p, p + 8);
    let hi = (x / 0x1_0000_0000) as u32;
    let lo = (x % 0x1_0000_0000) as u32;
    assert(s.subrange(p, p + 4) =~= part.subrange(0, 4));
    assert(s.subrange(p + 4, p + 8) =~= part.subrange(4, 8));
    assert(part.subrange(0, 4) =~= be32(hi));
    assert(part.subrange(4, 8) =~= be32(lo));
    lemma_u32_at(s, p, hi);
    lemma_u32_at(s, p + 4, lo);
}

/// What stands somewhere stands there piece by piece.
pub proof fn lemma_holds_split(s: Seq<u8>, p: int, a: Seq<u8>, b: Seq<u8>)
    requires
        holds_at(s, p, a + b),
    ensures
        holds_at(s, p, a),
        holds_at(s, p + a.len(), b),
{
    let whole = s.subrange(p, p + a.len() + b.len());
    assert(s.subrange(p, p + a.len()) =~= whole.subrange(0, a.len() as int));
    assert(whole.subrange(0, a.len() as int) =~= a);
    assert(s.subrange(p + a.len(), p + a.len() + b.len()) =~= whole.subrange(
        a.len() as int,
        (a.len() + b.len()) as int,
    ));
    assert(whole.subrange(a.len() as int, (a.len() + b.len()) as int) =~= b);
}

/// Appends the two bytes of `x`.
pub fn put_u16(buf: &mut Vec<u8>, x: u16)
    ensures
        final(buf)@ == old(buf)@ + be16(x),
{
    buf.push((x / 256) as u8);
    buf.push((x % 256) as u8);
    assert(buf@ =~= old(buf)@ + be16(x));
}

/// Appends the four bytes of `x`.
pub fn put_u32(buf: &mut Vec<u8>, x: u32)
    ensures
        final(buf)@ == old(buf)@ + be32(x),
{
    buf.push((x / 0x100_0000) as u8);
    buf.push((x / 0x1_0000 % 256) as u8);
    buf.push((x / 256 % 256) as u8);
    buf.push((x % 256) as u8);
    assert(buf@ =~= old(buf)@ + be32(x));
}

/// Appends the eight bytes of `x`.
pub fn put_u64(buf: &mut Vec<u8>, x: u64)
    ensures
        final(buf)@ == old(buf)@ + be64(x),
{
    put_u32(buf, (x / 0x1_0000_0000) as u32);
    put_u32(buf, (x % 0x1_0000_0000) as u32);
    assert(buf@ =~= old(buf)@ + be64(x));
}

/// Appends all bytes of `bytes`.
pub fn put_slice(buf: &mut Vec<u8>, bytes: &[u8])
    ensures
        final(buf)@ == old(buf)@ + bytes@,
{
    buf.extend_from_slice(bytes);
    assert(buf@ =~= old(buf)@ + bytes@);
}

/// Reads two bytes.
pub fn get_u16(data: &[u8], pos: usize) -> (x: u16)
    requires
        pos + 2 <= data.len(),
    ensures
        x == u16_at(data@, pos as int),
{
    data[pos] as u16 * 256 + data[pos + 1] as u16
}

/// Reads four bytes.
pub fn get_u32(data: &[u8], pos: usize) -> (x: u32)
    requires
        pos + 4 <= data.len(),
    ensures
        x == u32_at(data@, pos as int),
{
    data[pos] as u32 * 0x100_0000 + data[pos + 1] as u32 * 0x1_0000 + data[pos + 2] as u32 * 256
        + data[pos + 3] as u32
}

/// Reads eight bytes.
pub fn get_u64(data: &[u8], pos: usize) -> (x: u64)
    requires
        pos + 8 <= data.len(),
    ensures
        x == u64_at(data@, pos as int),
{
    get_u32(data, pos) as u64 * 0x1_0000_0000 + get_u32(data, pos + 4) as u64
}

/// Copies `data[from..to]`.
pub fn copy_range(data: &[u8], from: usize, to: usize) -> (out: Vec<u8>)
    requires
        from <= to <= data.len(),
    ensures
        out@ == data@.subrange(from as int, to as int),
{
    let mut out: Vec<u8> = Vec::new();
    let part = vstd::slice::slice_subrange(data, from, to);
    out.extend_from_slice(part);
    assert(out@ =~= data@.subrange(from as int, to as int));
    out
}

} // verus!
