//! Lengths in packets that bundle several packets: one byte from 1 to 255; else a zero
//! byte and two bytes, unless both of these are zero; else four bytes more.
use vstd::prelude::*;

use crate::error::{Error, Result};
use crate::wire::{
    be16, be16_round_trip, be32, be32_round_trip, from_be16, from_be32, read_u16,
    read_u32,
};

verus! {

/// The length that `s` starts with, and how many bytes it takes.
pub open spec fn length_at_start(s: Seq<u8>) -> Option<(u32, nat)> {
    if s.len() < 1 {
        None
    } else if s[0] > 0 {
        Some((s[0] as u32, 1))
    } else if s.len() < 3 {
        None
    } else if from_be16(s.skip(1)) > 0 {
        Some((from_be16(s.skip(1)) as u32, 3))
    } else if s.len() < 7 {
        None
    } else {
        Some((from_be32(s.skip(3)), 7))
    }
}

/// A length as it is written.
pub open spec fn length_bytes(n: u32) -> Seq<u8> {
    if 0 < n < 0x100 {
        seq![n as u8]
    } else if 0 < n < 0x1_0000 {
        seq![0u8] + be16(n as u16)
    } else {
        seq![0u8, 0u8, 0u8] + be32(n)
    }
}

/// A length is read back from what was written for it, whatever follows.
pub proof fn length_round_trip(n: u32, rest: Seq<u8>)
    ensures
        length_at_start(length_bytes(n) + rest) == Some((n, length_bytes(n).len())),
{
    let s = length_bytes(n) + rest;
    if 0 < n < 0x100 {
    } else if 0 < n < 0x1_0000 {
        assert(s.skip(1) =~= be16(n as u16) + rest);
        be16_round_trip(n as u16, rest);
    } else {
        assert(s.skip(1) =~= be16(0) + s.skip(3));
        be16_round_trip(0, s.skip(3));
        assert(s.skip(3) =~= be32(n) + rest);
        be32_round_trip(n, rest);
    }
}

/// Reads the length at `at`: the length, and where it ends.
pub fn read(data: &[u8], at: usize) -> (r: Result<(u32, usize)>)
    requires
        at <= data@.len(),
    ensures
        match length_at_start(data@.skip(at as int)) {
            Some((n, used)) => r matches Ok((m, end)) && m == n && end == at + used && end
                <= data@.len(),
            None => r == Err::<(u32, usize), Error>(Error::UnexpectedEnd),
        },
{
    let ghost s = data@.skip(at as int);
    let left: usize = data.len() - at;
    if left < 1 {
        return Err(Error::UnexpectedEnd);
    }
    let first: u8 = data[at];
    if first > 0 {
        return Ok((first as u32, at + 1));
    }
    if left < 3 {
        return Err(Error::UnexpectedEnd);
    }
    assert(s.skip(1) =~= data@.skip(at + 1));
    let short: u16 = read_u16(data, at + 1);
    if short > 0 {
        return Ok((short as u32, at + 3));
    }
    if left < 7 {
        return Err(Error::UnexpectedEnd);
    }
    assert(s.skip(3) =~= data@.skip(at + 3));
    Ok((read_u32(data, at + 3), at + 7))
}

/// A length from 1 to 255 is read from one byte.
pub proof fn short_length_is_read(n: u8, rest: Seq<u8>)
    requires
        n > 0,
    ensures
        length_at_start(seq![n] + rest) == Some((n as u32, 1nat)),
{
}

/// A length of two bytes is read behind a zero byte, the high byte first.
pub proof fn middle_length_is_read(high: u8, low: u8, rest: Seq<u8>)
    requires
        high > 0 || low > 0,
    ensures
        length_at_start(seq![0u8, high, low] + rest) == Some(((high * 0x100 + low) as u32, 3nat)),
{
    let s = seq![0u8, high, low] + rest;
    assert(s.skip(1)[0] == high && s.skip(1)[1] == low);
}

/// A length of four bytes is read behind three zero bytes, the highest byte first.
pub proof fn long_length_is_read(a: u8, b: u8, c: u8, d: u8, rest: Seq<u8>)
    ensures
        length_at_start(seq![0u8, 0u8, 0u8, a, b, c, d] + rest) == Some(
            ((a * 0x100_0000 + b * 0x1_0000 + c * 0x100 + d) as u32, 7nat),
        ),
{
    let s = seq![0u8, 0u8, 0u8, a, b, c, d] + rest;
    assert(s.skip(1)[0] == 0 && s.skip(1)[1] == 0);
    assert(s.skip(3)[0] == a && s.skip(3)[1] == b && s.skip(3)[2] == c && s.skip(3)[3] == d);
}

/// A length that the bytes do not hold to its end is not read, and any other is.
pub proof fn cut_length_is_not_read(s: Seq<u8>)
    ensures
        length_at_start(s) is None <==> {
            ||| s.len() == 0
            ||| s.len() < 3 && s[0] == 0
            ||| s.len() < 7 && s[0] == 0 && s[1] == 0 && s[2] == 0
        },
{
    if s.len() >= 3 {
        assert(s.skip(1)[0] == s[1] && s.skip(1)[1] == s[2]);
    }
}

} // verus!
