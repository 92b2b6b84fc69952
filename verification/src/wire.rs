//! Integers on the wire: most significant byte first.
use vstd::prelude::*;

verus! {

/// The two bytes of `n`, most significant first.
pub open spec fn be16(n: u16) -> Seq<u8> {
    seq![(n / 256) as u8, (n % 256) as u8]
}

/// The four bytes of `n`, most significant first.
pub open spec fn be32(n: u32) -> Seq<u8> {
    seq![
        (n / 0x100_0000) as u8,
        (n / 0x1_0000 % 256) as u8,
        (n / 256 % 256) as u8,
        (n % 256) as u8,
    ]
}

/// The number that the first two bytes of `s` write.
pub open spec fn from_be16(s: Seq<u8>) -> u16 {
    (s[0] * 256 + s[1]) as u16
}

/// The number that the first four bytes of `s` write.
pub open spec fn from_be32(s: Seq<u8>) -> u32 {
    (s[0] * 0x100_0000 + s[1] * 0x1_0000 + s[2] * 256 + s[3]) as u32
}

/// A number is read back from what was written for it, whatever follows.
pub proof fn be16_round_trip(n: u16, rest: Seq<u8>)
    ensures
        from_be16(be16(n) + rest) == n,
{
}

/// A number is read back from what was written for it, whatever follows.
pub proof fn be32_round_trip(n: u32, rest: Seq<u8>)
    ensures
        from_be32(be32(n) + rest) == n,
{
}

/// Reads the two bytes at `at`.
pub(crate) fn read_u16(data: &[u8], at: usize) -> (n: u16)
    requires
        at + 2 <= data@.len(),
    ensures
        n == from_be16(data@.skip(at as int)),
{
    (data[at] as u16) * 256 + (data[at + 1] as u16)
}

/// Reads the four bytes at `at`.
pub(crate) fn read_u32(data: &[u8], at: usize) -> (n: u32)
    requires
        at + 4 <= data@.len(),
    ensures
        n == from_be32(data@.skip(at as int)),
{
    (data[at] as u32) * 0x100_0000 + (data[at + 1] as u32) * 0x1_0000 + (data[at + 2] as u32) * 256
        + (data[at + 3] as u32)
}

/// Appends the two bytes of `n`.
pub(crate) fn push_u16(out: &mut Vec<u8>, n: u16)
    ensures
        final(out)@ == old(out)@ + be16(n),
{
    out.push((n / 256) as u8);
    out.push((n % 256) as u8);
    assert(out@ =~= old(out)@ + be16(n));
}

/// Appends the four bytes of `n`.
pub(crate) fn push_u32(out: &mut Vec<u8>, n: u32)
    ensures
        final(out)@ == old(out)@ + be32(n),
{
    out.push((n / 0x100_0000) as u8);
    out.push((n / 0x1_0000 % 256) as u8);
    out.push((n / 256 % 256) as u8);
    out.push((n % 256) as u8);
    assert(out@ =~= old(out)@ + be32(n));
}

/// Appends the bytes of `data`.
pub(crate) fn push_bytes(out: &mut Vec<u8>, data: &[u8])
    ensures
        final(out)@ == old(out)@ + data@,
{
    out.extend_from_slice(data);
    assert(out@ =~= old(out)@ + data@);
}

/// What is written for a number are its two digits to the base 256, the high one first.
pub proof fn be16_digits(n: u16)
    ensures
        be16(n).len() == 2,
        be16(n)[0] * 0x100 + be16(n)[1] == n,
{
}

/// What is written for a number are its four digits to the base 256, the highest first.
pub proof fn be32_digits(n: u32)
    ensures
        be32(n).len() == 4,
        be32(n)[0] * 0x100_0000 + be32(n)[1] * 0x1_0000 + be32(n)[2] * 0x100 + be32(n)[3] == n,
{
}

/// Two bytes are read as digits to the base 256, the high one first.
pub proof fn from_be16_digits(s: Seq<u8>)
    ensures
        from_be16(s) as int == s[0] * 0x100 + s[1],
{
}

/// Four bytes are read as digits to the base 256, the highest first.
pub proof fn from_be32_digits(s: Seq<u8>)
    ensures
        from_be32(s) as int == s[0] * 0x100_0000 + s[1] * 0x1_0000 + s[2] * 0x100 + s[3],
{
}

/// The number that the two bytes of `s` from `at` on are the digits of, to the base 256.
pub open spec fn number16(s: Seq<u8>, at: int) -> int {
    s[at] * 0x100 + s[at + 1]
}

/// The number that the four bytes of `s` from `at` on are the digits of, to the base 256.
pub open spec fn number32(s: Seq<u8>, at: int) -> int {
    s[at] * 0x100_0000 + s[at + 1] * 0x1_0000 + s[at + 2] * 0x100 + s[at + 3]
}

} // verus!
