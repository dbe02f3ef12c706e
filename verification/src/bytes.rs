//! Numbers as bytes, the most significant one first.

use vstd::prelude::*;

verus! {

/// The number that two bytes denote.
pub open spec fn be_u16(s: Seq<u8>) -> u16 {
    (s[0] * 0x100 + s[1]) as u16
}

/// The number that four bytes denote.
pub open spec fn be_u32(s: Seq<u8>) -> u32 {
    (s[0] * 0x100_0000 + s[1] * 0x1_0000 + s[2] * 0x100 + s[3]) as u32
}

/// The number with a sign that four bytes denote, in two's complement.
pub open spec fn be_i32(s: Seq<u8>) -> i32 {
    if be_u32(s) < 0x8000_0000 {
        be_u32(s) as i32
    } else {
        (be_u32(s) - 0x1_0000_0000) as i32
    }
}

/// The two bytes of a number.
pub open spec fn u16_bytes(n: u16) -> Seq<u8> {
    seq![(n / 0x100) as u8, (n % 0x100) as u8]
}

/// The four bytes of a number.
pub open spec fn u32_bytes(n: u32) -> Seq<u8> {
    seq![
        (n / 0x100_0000) as u8,
        (n / 0x1_0000 % 0x100) as u8,
        (n / 0x100 % 0x100) as u8,
        (n % 0x100) as u8,
    ]
}

/// Reads the two bytes at `at`.
pub fn read_u16(s: &[u8], at: usize) -> (n: u16)
    requires
        at + 2 <= s.len(),
    ensures
        n == be_u16(s@.skip(at as int)),
{
    s[at] as u16 * 0x100 + s[at + 1] as u16
}

/// Reads the four bytes at `at`.
pub fn read_u32(s: &[u8], at: usize) -> (n: u32)
    requires
        at + 4 <= s.len(),
    ensures
        n == be_u32(s@.skip(at as int)),
{
    s[at] as u32 * 0x100_0000 + s[at + 1] as u32 * 0x1_0000 + s[at + 2] as u32 * 0x100 + s[at
        + 3] as u32
}

/// Reads the four bytes at `at` as a number with a sign.
pub fn read_i32(s: &[u8], at: usize) -> (n: i32)
    requires
        at + 4 <= s.len(),
    ensures
        n == be_i32(s@.skip(at as int)),
{
    let n: u32 = read_u32(s, at);
    if n < 0x8000_0000 {
        n as i32
    } else {
        (n as i64 - 0x1_0000_0000) as i32
    }
}

/// Appends the two bytes of a number.
pub fn push_u16(out: &mut Vec<u8>, n: u16)
    ensures
        final(out)@ == old(out)@ + u16_bytes(n),
{
    out.push((n / 0x100) as u8);
    out.push((n % 0x100) as u8);
}

/// Appends the four bytes of a number.
pub fn push_u32(out: &mut Vec<u8>, n: u32)
    ensures
        final(out)@ == old(out)@ + u32_bytes(n),
{
    out.push((n / 0x100_0000) as u8);
    out.push((n / 0x1_0000 % 0x100) as u8);
    out.push((n / 0x100 % 0x100) as u8);
    out.push((n % 0x100) as u8);
}

/// The bytes of a number are read back as that number, whatever follows them.
pub proof fn law_u16_reads_back(n: u16, rest: Seq<u8>)
    ensures
        be_u16(u16_bytes(n) + rest) == n,
{
}

/// The bytes of a number are read back as that number, whatever follows them.
pub proof fn law_u32_reads_back(n: u32, rest: Seq<u8>)
    ensures
        be_u32(u32_bytes(n) + rest) == n,
{
}

/// The most significant byte comes first: each byte is that many of its power of 256, and the first
/// bit is the sign of a number that may be negative.
pub proof fn law_most_significant_byte_first(s: Seq<u8>)
    ensures
        s.len() >= 2 ==> be_u16(s) / 0x100 == s[0] && be_u16(s) % 0x100 == s[1],
        s.len() >= 4 ==> {
            &&& be_u32(s) / 0x100_0000 == s[0]
            &&& be_u32(s) / 0x1_0000 % 0x100 == s[1]
            &&& be_u32(s) / 0x100 % 0x100 == s[2]
            &&& be_u32(s) % 0x100 == s[3]
            &&& be_i32(s) < 0 <==> s[0] >= 128
            &&& be_i32(s) < 0 ==> be_i32(s) + 0x1_0000_0000 == be_u32(s)
            &&& be_i32(s) >= 0 ==> be_i32(s) == be_u32(s)
        },
{
}

/// A number is written in as many bytes as it has, the most significant one first.
pub proof fn law_numbers_are_written_in_full(n: u16, m: u32)
    ensures
        u16_bytes(n).len() == 2,
        u16_bytes(n)[0] * 256 + u16_bytes(n)[1] == n,
        u32_bytes(m).len() == 4,
        u32_bytes(m)[0] * 16777216 + u32_bytes(m)[1] * 65536 + u32_bytes(m)[2] * 256 + u32_bytes(
            m,
        )[3] == m,
{
}

} // verus!
