//! Big-endian integers in byte sequences.

use vstd::prelude::*;

verus! {

/// The two bytes of `x`, most significant first.
pub open spec fn be_u16(x: u16) -> Seq<u8> {
    seq![(x / 256) as u8, (x % 256) as u8]
}

/// The four bytes of `x`, most significant first.
pub open spec fn be_u32(x: u32) -> Seq<u8> {
    seq![
        (x / 0x100_0000) as u8,
        (x / 0x1_0000 % 256) as u8,
        (x / 256 % 256) as u8,
        (x % 256) as u8,
    ]
}

/// The eight bytes of `x`, most significant first.
pub open spec fn be_u64(x: u64) -> Seq<u8> {
    be_u32((x / 0x1_0000_0000) as u32) + be_u32((x % 0x1_0000_0000) as u32)
}

/// The unsigned number with the same bits as `x` in two's complement.
pub open spec fn bits_of_i64(x: i64) -> u64 {
    if x >= 0 {
        x as u64
    } else {
        (x + 0x1_0000_0000_0000_0000) as u64
    }
}

/// The signed number with the bits of `x` in two's complement.
pub open spec fn i64_of_bits(x: u64) -> i64 {
    if x < 0x8000_0000_0000_0000 {
        x as i64
    } else {
        (x - 0x1_0000_0000_0000_0000) as i64
    }
}

/// The signed number with the bits of `x` in two's complement.
pub open spec fn i32_of_bits(x: u32) -> i32 {
    if x < 0x8000_0000 {
        x as i32
    } else {
        (x - 0x1_0000_0000) as i32
    }
}

/// The eight bytes of `x` in two's complement, most significant first.
pub open spec fn be_i64(x: i64) -> Seq<u8> {
    be_u64(bits_of_i64(x))
}

/// The big-endian number in the two bytes of `s` from `at` on.
pub open spec fn u16_at(s: Seq<u8>, at: int) -> u16 {
    (s[at] * 256 + s[at + 1]) as u16
}

/// The big-endian number in the four bytes of `s` from `at` on.
pub open spec fn u32_at(s: Seq<u8>, at: int) -> u32 {
    (s[at] * 0x100_0000 + s[at + 1] * 0x1_0000 + s[at + 2] * 256 + s[at + 3]) as u32
}

/// The big-endian number in the eight bytes of `s` from `at` on.
pub open spec fn u64_at(s: Seq<u8>, at: int) -> u64 {
    (u32_at(s, at) * 0x1_0000_0000 + u32_at(s, at + 4)) as u64
}

/// The signed big-endian number in the four bytes of `s` from `at` on.
pub open spec fn i32_at(s: Seq<u8>, at: int) -> i32 {
    i32_of_bits(u32_at(s, at))
}

/// The signed big-endian number in the eight bytes of `s` from `at` on.
pub open spec fn i64_at(s: Seq<u8>, at: int) -> i64 {
    i64_of_bits(u64_at(s, at))
}

/// Reading back a `u16` that was written at `at` yields it.
pub proof fn lemma_u16_at_be_u16(s: Seq<u8>, at: int, x: u16)
    requires
        0 <= at,
        at + 2 <= s.len(),
        s.subrange(at, at + 2) == be_u16(x),
    ensures
        u16_at(s, at) == x,
{
    let part = s.subrange(at, at + 2);
    assert(s[at] == part[0] && s[at + 1] == part[1]);
}

/// Reading back a `u32` that was written at `at` yields it.
pub proof fn lemma_u32_at_be_u32(s: Seq<u8>, at: int, x: u32)
    requires
        0 <= at,
        at + 4 <= s.len(),
        s.subrange(at, at + 4) == be_u32(x),
    ensures
        u32_at(s, at) == x,
{
    let part = s.subrange(at, at + 4);
    assert(s[at] == part[0] && s[at + 1] == part[1] && s[at + 2] == part[2] && s[at + 3]
        == part[3]);
}

/// Reading back a `u64` that was written at `at` yields it.
pub proof fn lemma_u64_at_be_u64(s: Seq<u8>, at: int, x: u64)
    requires
        0 <= at,
        at + 8 <= s.len(),
        s.subrange(at, at + 8) == be_u64(x),
    ensures
        u64_at(s, at) == x,
{
    let high = (x / 0x1_0000_0000) as u32;
    let low = (x % 0x1_0000_0000) as u32;
    assert(be_u64(x).subrange(0, 4) =~= be_u32(high));
    assert(be_u64(x).subrange(4, 8) =~= be_u32(low));
    assert(s.subrange(at, at + 4) =~= s.subrange(at, at + 8).subrange(0, 4));
    assert(s.subrange(at + 4, at + 8) =~= s.subrange(at, at + 8).subrange(4, 8));
    lemma_u32_at_be_u32(s, at, high);
    lemma_u32_at_be_u32(s, at + 4, low);
}

/// Reading back an `i64` that was written at `at` yields it.
pub proof fn lemma_i64_at_be_i64(s: Seq<u8>, at: int, x: i64)
    requires
        0 <= at,
        at + 8 <= s.len(),
        s.subrange(at, at + 8) == be_i64(x),
    ensures
        i64_at(s, at) == x,
{
    lemma_u64_at_be_u64(s, at, bits_of_i64(x));
}

/// A number is read digit by digit in base 256, most significant digit first, and a
/// signed one counts its greatest digits down from zero.
pub proof fn law_numbers_are_big_endian(s: Seq<u8>, at: int)
    requires
        0 <= at,
        at + 8 <= s.len(),
    ensures
        u16_at(s, at) == s[at] * 256 + s[at + 1],
        u32_at(s, at) == ((s[at] * 256 + s[at + 1]) * 256 + s[at + 2]) * 256 + s[at + 3],
        u64_at(s, at) == u32_at(s, at) * 0x1_0000_0000 + u32_at(s, at + 4),
        i32_at(s, at) == u32_at(s, at) - (if s[at] >= 128 {
            0x1_0000_0000int
        } else {
            0
        }),
        i64_at(s, at) == u64_at(s, at) - (if s[at] >= 128 {
            0x1_0000_0000_0000_0000int
        } else {
            0
        }),
{
}

/// A number is written in as many bytes as it has, from which it is read again.
pub proof fn law_numbers_read_back(a: u16, b: u32, c: u64, d: i64)
    ensures
        be_u16(a).len() == 2 && u16_at(be_u16(a), 0) == a,
        be_u32(b).len() == 4 && u32_at(be_u32(b), 0) == b,
        be_u64(c).len() == 8 && u64_at(be_u64(c), 0) == c,
        be_i64(d).len() == 8 && i64_at(be_i64(d), 0) == d,
{
    assert(be_u16(a).subrange(0, 2) =~= be_u16(a));
    assert(be_u32(b).subrange(0, 4) =~= be_u32(b));
    assert(be_u64(c).subrange(0, 8) =~= be_u64(c));
    assert(be_i64(d).subrange(0, 8) =~= be_i64(d));
    lemma_u16_at_be_u16(be_u16(a), 0, a);
    lemma_u32_at_be_u32(be_u32(b), 0, b);
    lemma_u64_at_be_u64(be_u64(c), 0, c);
    lemma_i64_at_be_i64(be_i64(d), 0, d);
}

pub fn push_u16(out: &mut Vec<u8>, x: u16)
    ensures
        final(out)@ == old(out)@ + be_u16(x),
{
    out.push((x / 256) as u8);
    out.push((x % 256) as u8);
    assert(out@ =~= old(out)@ + be_u16(x));
}

pub fn push_u32(out: &mut Vec<u8>, x: u32)
    ensures
        final(out)@ == old(out)@ + be_u32(x),
{
    out.push((x / 0x100_0000) as u8);
    out.push((x / 0x1_0000 % 256) as u8);
    out.push((x / 256 % 256) as u8);
    out.push((x % 256) as u8);
    assert(out@ =~= old(out)@ + be_u32(x));
}

pub fn push_u64(out: &mut Vec<u8>, x: u64)
    ensures
        final(out)@ == old(out)@ + be_u64(x),
{
    push_u32(out, (x / 0x1_0000_0000) as u32);
    push_u32(out, (x % 0x1_0000_0000) as u32);
    assert(out@ =~= old(out)@ + be_u64(x));
}

pub fn push_i64(out: &mut Vec<u8>, x: i64)
    ensures
        final(out)@ == old(out)@ + be_i64(x),
{
    let bits: u64 = if x >= 0 {
        x as u64
    } else {
        u64::MAX - (-(x + 1)) as u64
    };
    push_u64(out, bits);
}

pub fn read_u16(bytes: &[u8], at: usize) -> (x: u16)
    requires
        at + 2 <= bytes@.len(),
    ensures
        x == u16_at(bytes@, at as int),
{
    bytes[at] as u16 * 256 + bytes[at + 1] as u16
}

pub fn read_u32(bytes: &[u8], at: usize) -> (x: u32)
    requires
        at + 4 <= bytes@.len(),
    ensures
        x == u32_at(bytes@, at as int),
{
    bytes[at] as u32 * 0x100_0000 + bytes[at + 1] as u32 * 0x1_0000 + bytes[at + 2] as u32 * 256
        + bytes[at + 3] as u32
}

pub fn read_u64(bytes: &[u8], at: usize) -> (x: u64)
    requires
        at + 8 <= bytes@.len(),
    ensures
        x == u64_at(bytes@, at as int),
{
    let length = bytes.len();
    assert(at + 8 <= length);
    read_u32(bytes, at) as u64 * 0x1_0000_0000 + read_u32(bytes, at + 4) as u64
}

pub fn read_i32(bytes: &[u8], at: usize) -> (x: i32)
    requires
        at + 4 <= bytes@.len(),
    ensures
        x == i32_at(bytes@, at as int),
{
    let bits = read_u32(bytes, at);
    if bits < 0x8000_0000 {
        bits as i32
    } else {
        -((u32::MAX - bits) as i32) - 1
    }
}

pub fn read_i64(bytes: &[u8], at: usize) -> (x: i64)
    requires
        at + 8 <= bytes@.len(),
    ensures
        x == i64_at(bytes@, at as int),
{
    let bits = read_u64(bytes, at);
    if bits < 0x8000_0000_0000_0000 {
        bits as i64
    } else {
        -((u64::MAX - bits) as i64) - 1
    }
}

/// Copies the bytes of `bytes` from `from` up to `to`.
pub fn copy_range(bytes: &[u8], from: usize, to: usize) -> (out: Vec<u8>)
    requires
        from <= to <= bytes@.len(),
    ensures
        out@ == bytes@.subrange(from as int, to as int),
{
    vstd::slice::slice_to_vec(vstd::slice::slice_subrange(bytes, from, to))
}

/// Appends `more` to `out`.
pub fn append(out: &mut Vec<u8>, more: &[u8])
    ensures
        final(out)@ == old(out)@ + more@,
{
    out.extend_from_slice(more);
    assert(out@ =~= old(out)@ + more@);
}

} // verus!
