//! Little-endian integers in byte buffers.
use vstd::prelude::*;

verus! {

/// The little-endian value of the two bytes at `o`.
pub open spec fn le16(b: Seq<u8>, o: int) -> int {
    b[o] + b[o + 1] * 0x100
}

/// The little-endian value of the four bytes at `o`.
pub open spec fn le32(b: Seq<u8>, o: int) -> int {
    le16(b, o) + le16(b, o + 2) * 0x1_0000
}

/// The little-endian value of the eight bytes at `o`.
pub open spec fn le64(b: Seq<u8>, o: int) -> int {
    le32(b, o) + le32(b, o + 4) * 0x1_0000_0000
}

/// Append `c` to `s` (`String::push`, which appends the character to the
/// end of the string).
#[verifier::external_body]
pub(crate) fn push_char(s: &mut String, c: char)
    ensures
        final(s)@ == old(s)@.push(c),
{
    s.push(c)
}

/// Read the little-endian `u16` at `o`.
pub fn read_u16(b: &[u8], o: usize) -> (r: u16)
    requires
        o + 2 <= b.len(),
    ensures
        r == le16(b@, o as int),
{
    b[o] as u16 + (b[o + 1] as u16) * 0x100
}

/// Read the little-endian `u32` at `o`.
pub fn read_u32(b: &[u8], o: usize) -> (r: u32)
    requires
        o + 4 <= b.len(),
    ensures
        r == le32(b@, o as int),
{
    let lo = read_u16(b, o);
    let hi = read_u16(b, o + 2);
    lo as u32 + (hi as u32) * 0x1_0000
}

/// Read the little-endian `u64` at `o`.
pub fn read_u64(b: &[u8], o: usize) -> (r: u64)
    requires
        o + 8 <= b.len(),
    ensures
        r == le64(b@, o as int),
{
    let lo = read_u32(b, o);
    let hi = read_u32(b, o + 4);
    lo as u64 + (hi as u64) * 0x1_0000_0000
}

/// `buf` with the bytes of `src` written from `at` on.
pub open spec fn splice(buf: Seq<u8>, at: int, src: Seq<u8>) -> Seq<u8> {
    Seq::new(buf.len(), |j: int| if at <= j < at + src.len() { src[j - at] } else { buf[j] })
}

/// Writing `x` and then `y` right after it is writing `x + y`.
pub proof fn lemma_splice_concat(buf: Seq<u8>, at: int, x: Seq<u8>, y: Seq<u8>)
    requires
        0 <= at,
        at + x.len() + y.len() <= buf.len(),
    ensures
        splice(splice(buf, at, x), at + x.len(), y) == splice(buf, at, x + y),
{
    assert(splice(splice(buf, at, x), at + x.len(), y) =~= splice(buf, at, x + y));
}

/// The two little-endian bytes of `v`.
pub open spec fn u16_bytes(v: u16) -> Seq<u8> {
    seq![(v % 0x100) as u8, (v / 0x100) as u8]
}

/// The four little-endian bytes of `v`.
pub open spec fn u32_bytes(v: u32) -> Seq<u8> {
    u16_bytes((v % 0x1_0000) as u16) + u16_bytes((v / 0x1_0000) as u16)
}

/// Write `v` as two little-endian bytes at `o`.
pub fn write_u16(b: &mut [u8], o: usize, v: u16)
    requires
        o + 2 <= old(b)@.len(),
    ensures
        final(b)@ == splice(old(b)@, o as int, u16_bytes(v)),
        le16(final(b)@, o as int) == v,
{
    b[o] = (v % 0x100) as u8;
    b[o + 1] = (v / 0x100) as u8;
    assert(b@ =~= splice(old(b)@, o as int, u16_bytes(v)));
}

/// Write `v` as four little-endian bytes at `o`.
pub fn write_u32(b: &mut [u8], o: usize, v: u32)
    requires
        o + 4 <= old(b)@.len(),
        old(b)@.len() <= usize::MAX,
    ensures
        final(b)@ == splice(old(b)@, o as int, u32_bytes(v)),
        le32(final(b)@, o as int) == v,
{
    write_u16(b, o, (v % 0x1_0000) as u16);
    write_u16(b, o + 2, (v / 0x1_0000) as u16);
    assert(b@ =~= splice(old(b)@, o as int, u32_bytes(v)));
}

} // verus!
