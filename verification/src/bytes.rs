//! Little-endian byte encoding of the fixed-size values that syscalls write
//! verbatim into user memory (`TimeVal`, `TaskInfo`, `Stat` and exit codes).
use vstd::prelude::*;

verus! {

/// The eight little-endian bytes of a 64-bit word.
pub open spec fn le64(x: u64) -> Seq<u8> {
    seq![
        (x % 256) as u8,
        ((x / 256) % 256) as u8,
        ((x / 65536) % 256) as u8,
        ((x / 16777216) % 256) as u8,
        ((x / 4294967296) % 256) as u8,
        ((x / 1099511627776) % 256) as u8,
        ((x / 281474976710656) % 256) as u8,
        ((x / 72057594037927936) % 256) as u8,
    ]
}

/// The four little-endian bytes of a 32-bit word.
pub open spec fn le32(x: u32) -> Seq<u8> {
    seq![
        (x % 256) as u8,
        ((x / 256) % 256) as u8,
        ((x / 65536) % 256) as u8,
        ((x / 16777216) % 256) as u8,
    ]
}

/// The value encoded by eight little-endian bytes.
pub open spec fn le64_val(s: Seq<u8>) -> int {
    s[0] + s[1] * 256 + s[2] * 65536 + s[3] * 16777216 + s[4] * 4294967296
        + s[5] * 1099511627776 + s[6] * 281474976710656 + s[7] * 72057594037927936
}

/// The value encoded by four little-endian bytes.
pub open spec fn le32_val(s: Seq<u8>) -> int {
    s[0] + s[1] * 256 + s[2] * 65536 + s[3] * 16777216
}

/// Decoding the eight little-endian bytes of a word gives the word back.
pub proof fn lemma_le64_roundtrip(x: u64)
    ensures
        le64_val(le64(x)) == x,
{
    assert(le64_val(le64(x)) == x) by (bit_vector);
}

/// Decoding the four little-endian bytes of a word gives the word back.
pub proof fn lemma_le32_roundtrip(x: u32)
    ensures
        le32_val(le32(x)) == x,
{
    assert(le32_val(le32(x)) == x) by (bit_vector);
}

/// Appends the eight little-endian bytes of `x` to `out`.
pub fn push_le64(out: &mut Vec<u8>, x: u64)
    ensures
        final(out)@ == old(out)@ + le64(x),
{
    out.push((x % 256) as u8);
    out.push(((x / 256) % 256) as u8);
    out.push(((x / 65536) % 256) as u8);
    out.push(((x / 16777216) % 256) as u8);
    out.push(((x / 4294967296) % 256) as u8);
    out.push(((x / 1099511627776) % 256) as u8);
    out.push(((x / 281474976710656) % 256) as u8);
    out.push(((x / 72057594037927936) % 256) as u8);
    assert(final(out)@ =~= old(out)@ + le64(x));
}

/// Appends the four little-endian bytes of `x` to `out`.
pub fn push_le32(out: &mut Vec<u8>, x: u32)
    ensures
        final(out)@ == old(out)@ + le32(x),
{
    out.push((x % 256) as u8);
    out.push(((x / 256) % 256) as u8);
    out.push(((x / 65536) % 256) as u8);
    out.push(((x / 16777216) % 256) as u8);
    assert(final(out)@ =~= old(out)@ + le32(x));
}

/// Reads the 64-bit word encoded little-endian at `bytes[off..off + 8]`.
pub fn read_le64(bytes: &Vec<u8>, off: usize) -> (r: u64)
    requires
        off + 8 <= bytes.len(),
    ensures
        r == le64_val(bytes@.subrange(off as int, off as int + 8)),
{
    let b0 = bytes[off] as u64;
    let b1 = bytes[off + 1] as u64;
    let b2 = bytes[off + 2] as u64;
    let b3 = bytes[off + 3] as u64;
    let b4 = bytes[off + 4] as u64;
    let b5 = bytes[off + 5] as u64;
    let b6 = bytes[off + 6] as u64;
    let b7 = bytes[off + 7] as u64;
    b0 + b1 * 256 + b2 * 65536 + b3 * 16777216 + b4 * 4294967296 + b5 * 1099511627776
        + b6 * 281474976710656 + b7 * 72057594037927936
}

/// Reads the 32-bit word encoded little-endian at `bytes[off..off + 4]`.
pub fn read_le32(bytes: &Vec<u8>, off: usize) -> (r: u32)
    requires
        off + 4 <= bytes.len(),
    ensures
        r == le32_val(bytes@.subrange(off as int, off as int + 4)),
{
    let b0 = bytes[off] as u32;
    let b1 = bytes[off + 1] as u32;
    let b2 = bytes[off + 2] as u32;
    let b3 = bytes[off + 3] as u32;
    b0 + b1 * 256 + b2 * 65536 + b3 * 16777216
}

} // verus!
