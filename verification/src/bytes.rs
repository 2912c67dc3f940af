//! Bytes: writing a piece over an image, little-endian fields, copying.

use vstd::prelude::*;

verus! {

/// `base` with `bytes` written over it from offset `at` on.
pub open spec fn overlay(base: Seq<u8>, at: int, bytes: Seq<u8>) -> Seq<u8> {
    Seq::new(
        base.len(),
        |i: int|
            if at <= i < at + bytes.len() {
                bytes[i - at]
            } else {
                base[i]
            },
    )
}

/// The two bytes of a 16-bit value, low byte first.
pub open spec fn le16(v: int) -> Seq<u8> {
    seq![(v % 256) as u8, (v / 256 % 256) as u8]
}

/// The three bytes of a 24-bit value, low byte first.
pub open spec fn le24(v: int) -> Seq<u8> {
    seq![(v % 256) as u8, (v / 256 % 256) as u8, (v / 65536 % 256) as u8]
}

/// The value that two bytes hold, low byte first.
pub open spec fn from_le16(lo: u8, hi: u8) -> int {
    lo as int + 256 * (hi as int)
}

/// Copies `count` bytes of `src`, from position `from` on, over `dst` at offset
/// `at`.
pub fn write_bytes(dst: &mut Vec<u8>, at: usize, src: &Vec<u8>, from: usize, count: usize)
    requires
        from + count <= src@.len(),
        at + count <= old(dst)@.len(),
    ensures
        final(dst)@ == overlay(old(dst)@, at as int, src@.subrange(from as int, from + count)),
{
    let ghost piece = src@.subrange(from as int, from + count);
    let mut k: usize = 0;
    while k < count
        invariant
            k <= count,
            from + count <= src.len(),
            at + count <= dst.len(),
            piece == src@.subrange(from as int, from + count),
            dst@ == overlay(old(dst)@, at as int, piece.take(k as int)),
        decreases count - k,
    {
        let b: u8 = src[from + k];
        dst.set(at + k, b);
        k += 1;
    }
}

/// Appends all of `src` to `dst`.
pub fn append_bytes(dst: &mut Vec<u8>, src: &Vec<u8>)
    ensures
        final(dst)@ == old(dst)@ + src@,
{
    let mut k: usize = 0;
    while k < src.len()
        invariant
            k <= src@.len(),
            dst@ == old(dst)@ + src@.take(k as int),
        decreases src@.len() - k,
    {
        dst.push(src[k]);
        k += 1;
    }
}

/// Appends the two bytes of `v`, low byte first.
pub fn push_le16(dst: &mut Vec<u8>, v: u16)
    ensures
        final(dst)@ == old(dst)@ + le16(v as int),
{
    dst.push((v % 256) as u8);
    dst.push((v / 256) as u8);
}

/// Appends the low three bytes of `v`, low byte first.
pub fn push_le24(dst: &mut Vec<u8>, v: u32)
    ensures
        final(dst)@ == old(dst)@ + le24(v as int),
{
    dst.push((v % 256) as u8);
    dst.push((v / 256 % 256) as u8);
    dst.push((v / 65536 % 256) as u8);
}

/// The bytes of `v` in the opposite order.
pub fn reversed(v: &Vec<u8>) -> (r: Vec<u8>)
    ensures
        r@ == v@.reverse(),
{
    let mut r: Vec<u8> = Vec::new();
    let mut k: usize = v.len();
    while k > 0
        invariant
            k <= v@.len(),
            r@.len() == v@.len() - k,
            forall|i: int| 0 <= i < r@.len() ==> r@[i] == v@[v@.len() - 1 - i],
        decreases k,
    {
        k -= 1;
        r.push(v[k]);
    }
    r
}

} // verus!
