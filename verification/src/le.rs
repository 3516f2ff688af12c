//! Little-endian integers in byte strings.

use vstd::prelude::*;

verus! {

/// The 16-bit value at `i`, without a sign.
pub open spec fn u16_at(b: Seq<u8>, i: int) -> int {
    b[i] + 0x100 * b[i + 1]
}

/// The 32-bit value at `i`, without a sign.
pub open spec fn u32_at(b: Seq<u8>, i: int) -> int {
    b[i] + 0x100 * b[i + 1] + 0x1_0000 * b[i + 2] + 0x100_0000 * b[i + 3]
}

/// The 16-bit value at `i` in two's complement.
pub open spec fn i16_at(b: Seq<u8>, i: int) -> int {
    if u16_at(b, i) < 0x8000 {
        u16_at(b, i)
    } else {
        u16_at(b, i) - 0x1_0000
    }
}

/// The four bytes of a 32-bit value.
pub open spec fn u32_bytes(x: int) -> Seq<u8> {
    seq![
        (x % 0x100) as u8,
        (x / 0x100 % 0x100) as u8,
        (x / 0x1_0000 % 0x100) as u8,
        (x / 0x100_0000 % 0x100) as u8,
    ]
}

/// The two bytes of a 16-bit value in two's complement.
pub open spec fn i16_bytes(x: int) -> Seq<u8> {
    seq![(x % 0x100) as u8, (x / 0x100 % 0x100) as u8]
}

pub fn read_u32(b: &[u8], i: usize) -> (r: u32)
    requires
        i + 4 <= b@.len(),
    ensures
        r == u32_at(b@, i as int),
{
    let v: u64 = b[i] as u64 + 0x100 * b[i + 1] as u64 + 0x1_0000 * b[i + 2] as u64 + 0x100_0000
        * b[i + 3] as u64;
    v as u32
}

pub fn read_i16(b: &[u8], i: usize) -> (r: i16)
    requires
        i + 2 <= b@.len(),
    ensures
        r == i16_at(b@, i as int),
{
    let v: i32 = b[i] as i32 + 0x100 * b[i + 1] as i32;
    if v < 0x8000 {
        v as i16
    } else {
        (v - 0x1_0000) as i16
    }
}

pub fn push_u32(out: &mut Vec<u8>, x: u32)
    ensures
        final(out)@ == old(out)@ + u32_bytes(x as int),
{
    out.push((x % 0x100) as u8);
    out.push((x / 0x100 % 0x100) as u8);
    out.push((x / 0x1_0000 % 0x100) as u8);
    out.push((x / 0x100_0000 % 0x100) as u8);
    assert(out@ =~= old(out)@ + u32_bytes(x as int));
}

pub fn push_i16(out: &mut Vec<u8>, x: i16)
    ensures
        final(out)@ == old(out)@ + i16_bytes(x as int),
{
    let u: i32 = if x < 0 {
        x as i32 + 0x1_0000
    } else {
        x as i32
    };
    out.push((u % 0x100) as u8);
    out.push((u / 0x100 % 0x100) as u8);
    assert(out@ =~= old(out)@ + i16_bytes(x as int));
}

/// Reading gives back what was written.
pub proof fn u32_read_back(b: Seq<u8>, i: int, x: int)
    requires
        0 <= i,
        i + 4 <= b.len(),
        0 <= x <= 0xffff_ffff,
        b.subrange(i, i + 4) == u32_bytes(x),
    ensures
        u32_at(b, i) == x,
{
    let s = b.subrange(i, i + 4);
    assert(b[i] == s[0] && b[i + 1] == s[1] && b[i + 2] == s[2] && b[i + 3] == s[3]);
}

/// Reading gives back what was written.
pub proof fn i16_read_back(b: Seq<u8>, i: int, x: int)
    requires
        0 <= i,
        i + 2 <= b.len(),
        -0x8000 <= x <= 0x7fff,
        b.subrange(i, i + 2) == i16_bytes(x),
    ensures
        i16_at(b, i) == x,
{
    let s = b.subrange(i, i + 2);
    assert(b[i] == s[0] && b[i + 1] == s[1]);
}

/// Whether `v` are the 32-bit values in the bytes from `start` on.
pub open spec fn are_u32(v: Seq<u32>, data: Seq<u8>, start: int) -> bool {
    forall|i: int| 0 <= i < v.len() ==> #[trigger] v[i] == u32_at(data, start + 4 * i)
}

/// Whether `v` are the 16-bit values in the bytes from `start` on.
pub open spec fn are_i16(v: Seq<i16>, data: Seq<u8>, start: int) -> bool {
    forall|i: int| 0 <= i < v.len() ==> #[trigger] v[i] == i16_at(data, start + 2 * i)
}

/// The `count` 32-bit values from `start` on.
pub fn decode_u32(data: &[u8], start: usize, count: usize) -> (r: Vec<u32>)
    requires
        start + count * 4 <= data@.len(),
    ensures
        r@.len() == count,
        are_u32(r@, data@, start as int),
{
    let mut out: Vec<u32> = Vec::new();
    let mut i: usize = 0;
    while i < count
        invariant
            i <= count,
            out@.len() == i,
            start + count * 4 <= data.len(),
            are_u32(out@, data@, start as int),
        decreases count - i,
    {
        out.push(read_u32(data, start + i * 4));
        i = i + 1;
    }
    out
}

/// The `count` 16-bit values from `start` on.
pub fn decode_i16(data: &[u8], start: usize, count: usize) -> (r: Vec<i16>)
    requires
        start + count * 2 <= data@.len(),
    ensures
        r@.len() == count,
        are_i16(r@, data@, start as int),
{
    let mut out: Vec<i16> = Vec::new();
    let mut i: usize = 0;
    while i < count
        invariant
            i <= count,
            out@.len() == i,
            start + count * 2 <= data.len(),
            are_i16(out@, data@, start as int),
        decreases count - i,
    {
        out.push(read_i16(data, start + i * 2));
        i = i + 1;
    }
    out
}

/// The first byte of an integer counts ones, the next one 256s and so on; where the
/// last bit of a 16-bit value with a sign is set, the value is negative.
pub proof fn low_bytes_come_first(b: Seq<u8>, i: int)
    ensures
        u32_at(b, i) == b[i] + 256 * b[i + 1] + 65536 * b[i + 2] + 16777216 * b[i + 3],
        b[i + 1] < 128 ==> i16_at(b, i) == b[i] + 256 * b[i + 1],
        b[i + 1] >= 128 ==> i16_at(b, i) == b[i] + 256 * b[i + 1] - 65536,
{
}

} // verus!
