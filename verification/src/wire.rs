//! Little-endian integer framing used by the binary wire formats.
use vstd::prelude::*;

verus! {

/// The 8 little-endian bytes of `x`.
pub open spec fn le64(x: u64) -> Seq<u8> {
    seq![
        x as u8,
        (x >> 8u64) as u8,
        (x >> 16u64) as u8,
        (x >> 24u64) as u8,
        (x >> 32u64) as u8,
        (x >> 40u64) as u8,
        (x >> 48u64) as u8,
        (x >> 56u64) as u8,
    ]
}

/// The integer whose little-endian bytes are `b[0..8]`.
pub open spec fn from_le64(b: Seq<u8>) -> u64 {
    (b[0] as u64) | ((b[1] as u64) << 8u64) | ((b[2] as u64) << 16u64) | ((b[3] as u64) << 24u64)
        | ((b[4] as u64) << 32u64) | ((b[5] as u64) << 40u64) | ((b[6] as u64) << 48u64) | ((
    b[7] as u64) << 56u64)
}

/// The 2 little-endian bytes of `x`.
pub open spec fn le16(x: u16) -> Seq<u8> {
    seq![x as u8, (x >> 8u16) as u8]
}

/// The integer whose little-endian bytes are `b[0..2]`.
pub open spec fn from_le16(b: Seq<u8>) -> u16 {
    (b[0] as u16) | ((b[1] as u16) << 8u16)
}

/// `x` with its 8 bytes in reverse order.
pub open spec fn swap_bytes64(x: u64) -> u64 {
    from_le64(le64(x).reverse())
}

/// `x` with its 2 bytes in reverse order.
pub open spec fn swap_bytes16(x: u16) -> u16 {
    from_le16(le16(x).reverse())
}

/// `r` is `x` converted between native and little-endian byte order: unchanged on a
/// little-endian target, byte-swapped on a big-endian one.
pub open spec fn is_le_image64(x: u64, r: u64) -> bool {
    r == x || r == swap_bytes64(x)
}

/// 16-bit counterpart of `is_le_image64`.
pub open spec fn is_le_image16(x: u16, r: u16) -> bool {
    r == x || r == swap_bytes16(x)
}

pub proof fn lemma_le64_roundtrip(x: u64)
    ensures
        le64(x).len() == 8,
        from_le64(le64(x)) == x,
{
    assert((x as u8) as u64 | ((((x >> 8u64) as u8) as u64) << 8u64) | ((((x >> 16u64) as u8) as u64)
        << 16u64) | ((((x >> 24u64) as u8) as u64) << 24u64) | ((((x >> 32u64) as u8) as u64)
        << 32u64) | ((((x >> 40u64) as u8) as u64) << 40u64) | ((((x >> 48u64) as u8) as u64)
        << 48u64) | ((((x >> 56u64) as u8) as u64) << 56u64) == x) by (bit_vector);
}

pub proof fn lemma_le64_canonical(b: Seq<u8>)
    requires
        b.len() == 8,
    ensures
        le64(from_le64(b)) == b,
{
    let b0 = b[0];
    let b1 = b[1];
    let b2 = b[2];
    let b3 = b[3];
    let b4 = b[4];
    let b5 = b[5];
    let b6 = b[6];
    let b7 = b[7];
    let y = from_le64(b);
    assert(y == (b0 as u64) | ((b1 as u64) << 8u64) | ((b2 as u64) << 16u64) | ((b3 as u64)
        << 24u64) | ((b4 as u64) << 32u64) | ((b5 as u64) << 40u64) | ((b6 as u64) << 48u64) | ((
    b7 as u64) << 56u64));
    assert({
        &&& y as u8 == b0
        &&& (y >> 8u64) as u8 == b1
        &&& (y >> 16u64) as u8 == b2
        &&& (y >> 24u64) as u8 == b3
        &&& (y >> 32u64) as u8 == b4
        &&& (y >> 40u64) as u8 == b5
        &&& (y >> 48u64) as u8 == b6
        &&& (y >> 56u64) as u8 == b7
    }) by (bit_vector)
        requires
            y == (b0 as u64) | ((b1 as u64) << 8u64) | ((b2 as u64) << 16u64) | ((b3 as u64)
                << 24u64) | ((b4 as u64) << 32u64) | ((b5 as u64) << 40u64) | ((b6 as u64)
                << 48u64) | ((b7 as u64) << 56u64),
    ;
    assert(le64(y) =~= b);
}

pub proof fn lemma_le16_roundtrip(x: u16)
    ensures
        le16(x).len() == 2,
        from_le16(le16(x)) == x,
{
    assert((x as u8) as u16 | ((((x >> 8u16) as u8) as u16) << 8u16) == x) by (bit_vector);
}

pub proof fn lemma_le16_canonical(b: Seq<u8>)
    requires
        b.len() == 2,
    ensures
        le16(from_le16(b)) == b,
{
    let b0 = b[0];
    let b1 = b[1];
    let y = from_le16(b);
    assert(y == (b0 as u16) | ((b1 as u16) << 8u16));
    assert(y as u8 == b0 && (y >> 8u16) as u8 == b1) by (bit_vector)
        requires
            y == (b0 as u16) | ((b1 as u16) << 8u16),
    ;
    assert(le16(y) =~= b);
}

/// Appends the 8 little-endian bytes of `x`.
pub fn push_le64(v: &mut Vec<u8>, x: u64)
    ensures
        final(v)@ == old(v)@ + le64(x),
{
    v.push(x as u8);
    v.push((x >> 8u64) as u8);
    v.push((x >> 16u64) as u8);
    v.push((x >> 24u64) as u8);
    v.push((x >> 32u64) as u8);
    v.push((x >> 40u64) as u8);
    v.push((x >> 48u64) as u8);
    v.push((x >> 56u64) as u8);
    assert(v@ =~= old(v)@ + le64(x));
}

/// Appends the 2 little-endian bytes of `x`.
pub fn push_le16(v: &mut Vec<u8>, x: u16)
    ensures
        final(v)@ == old(v)@ + le16(x),
{
    v.push(x as u8);
    v.push((x >> 8u16) as u8);
    assert(v@ =~= old(v)@ + le16(x));
}

/// Appends the 4 little-endian bytes of `x`.
pub fn push_le32(v: &mut Vec<u8>, x: u32)
    ensures
        final(v)@ == old(v)@ + le32(x),
{
    v.push(x as u8);
    v.push((x >> 8u32) as u8);
    v.push((x >> 16u32) as u8);
    v.push((x >> 24u32) as u8);
    assert(v@ =~= old(v)@ + le32(x));
}

/// The 4 little-endian bytes of `x`.
pub open spec fn le32(x: u32) -> Seq<u8> {
    seq![x as u8, (x >> 8u32) as u8, (x >> 16u32) as u8, (x >> 24u32) as u8]
}

/// The integer whose little-endian bytes are `b[0..4]`.
pub open spec fn from_le32(b: Seq<u8>) -> u32 {
    (b[0] as u32) | ((b[1] as u32) << 8u32) | ((b[2] as u32) << 16u32) | ((b[3] as u32) << 24u32)
}

pub proof fn lemma_le32_roundtrip(x: u32)
    ensures
        le32(x).len() == 4,
        from_le32(le32(x)) == x,
{
    assert((x as u8) as u32 | ((((x >> 8u32) as u8) as u32) << 8u32) | ((((x >> 16u32) as u8) as u32)
        << 16u32) | ((((x >> 24u32) as u8) as u32) << 24u32) == x) by (bit_vector);
}

pub proof fn lemma_le32_canonical(b: Seq<u8>)
    requires
        b.len() == 4,
    ensures
        le32(from_le32(b)) == b,
{
    let b0 = b[0];
    let b1 = b[1];
    let b2 = b[2];
    let b3 = b[3];
    let y = from_le32(b);
    assert(y == (b0 as u32) | ((b1 as u32) << 8u32) | ((b2 as u32) << 16u32) | ((b3 as u32) << 24u32));
    assert({
        &&& y as u8 == b0
        &&& (y >> 8u32) as u8 == b1
        &&& (y >> 16u32) as u8 == b2
        &&& (y >> 24u32) as u8 == b3
    }) by (bit_vector)
        requires
            y == (b0 as u32) | ((b1 as u32) << 8u32) | ((b2 as u32) << 16u32) | ((b3 as u32) << 24u32),
    ;
    assert(le32(y) =~= b);
}

/// Reads the little-endian integer stored at `b[off..off + 8]`.
pub fn read_le64(b: &[u8], off: usize) -> (r: u64)
    requires
        off + 8 <= b@.len(),
    ensures
        r == from_le64(b@.subrange(off as int, off + 8)),
{
    let s = Ghost(b@.subrange(off as int, off + 8));
    assert(s@[0] == b@[off as int]);
    (b[off] as u64) | ((b[off + 1] as u64) << 8u64) | ((b[off + 2] as u64) << 16u64) | ((b[off + 3] as u64)
        << 24u64) | ((b[off + 4] as u64) << 32u64) | ((b[off + 5] as u64) << 40u64) | ((b[off
        + 6] as u64) << 48u64) | ((b[off + 7] as u64) << 56u64)
}

/// Reads the little-endian integer stored at `b[off..off + 4]`.
pub fn read_le32(b: &[u8], off: usize) -> (r: u32)
    requires
        off + 4 <= b@.len(),
    ensures
        r == from_le32(b@.subrange(off as int, off + 4)),
{
    (b[off] as u32) | ((b[off + 1] as u32) << 8u32) | ((b[off + 2] as u32) << 16u32) | ((b[off
        + 3] as u32) << 24u32)
}

/// Reads the little-endian integer stored at `b[off..off + 2]`.
pub fn read_le16(b: &[u8], off: usize) -> (r: u16)
    requires
        off + 2 <= b@.len(),
    ensures
        r == from_le16(b@.subrange(off as int, off + 2)),
{
    (b[off] as u16) | ((b[off + 1] as u16) << 8u16)
}

/// Calls `u64::to_le`, which leaves the value unchanged on little-endian targets and
/// swaps its bytes on big-endian ones; which of the two happens is not stated.
#[verifier::external_body]
pub(crate) fn u64_to_le(x: u64) -> (r: u64)
    ensures
        is_le_image64(x, r),
{
    x.to_le()
}

/// Calls `u64::from_le`, which leaves the value unchanged on little-endian targets and
/// swaps its bytes on big-endian ones; which of the two happens is not stated.
#[verifier::external_body]
pub(crate) fn u64_from_le(x: u64) -> (r: u64)
    ensures
        is_le_image64(x, r),
{
    u64::from_le(x)
}

/// Calls `u16::to_le`, which leaves the value unchanged on little-endian targets and
/// swaps its bytes on big-endian ones; which of the two happens is not stated.
#[verifier::external_body]
pub(crate) fn u16_to_le(x: u16) -> (r: u16)
    ensures
        is_le_image16(x, r),
{
    x.to_le()
}

/// Calls `u16::from_le`, which leaves the value unchanged on little-endian targets and
/// swaps its bytes on big-endian ones; which of the two happens is not stated.
#[verifier::external_body]
pub(crate) fn u16_from_le(x: u16) -> (r: u16)
    ensures
        is_le_image16(x, r),
{
    u16::from_le(x)
}

} // verus!
