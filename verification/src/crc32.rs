//! Seeded CRC-32, by which packets are verified.
use vstd::prelude::*;

verus! {

/// The CRC-32 polynomial, least significant bit first.
pub const POLYNOMIAL: u32 = 0xEDB8_8320;

/// The remainder after shifting one bit out.
pub open spec fn shifted(c: u32) -> u32 {
    if c & 1 == 1 {
        (c >> 1) ^ POLYNOMIAL
    } else {
        c >> 1
    }
}

/// The remainder after shifting `n` bits out.
pub open spec fn shifted_by(c: u32, n: nat) -> u32
    decreases n,
{
    if n == 0 {
        c
    } else {
        shifted(shifted_by(c, (n - 1) as nat))
    }
}

/// The remainder after taking in the bytes of `data`.
pub open spec fn remainder(c: u32, data: Seq<u8>) -> u32
    decreases data.len(),
{
    if data.len() == 0 {
        c
    } else {
        shifted_by(remainder(c, data.drop_last()) ^ (data.last() as u32), 8)
    }
}

/// The bytes of a seed, least significant first.
pub open spec fn seed_bytes(seed: u32) -> Seq<u8> {
    seq![
        (seed % 256) as u8,
        (seed / 256 % 256) as u8,
        (seed / 0x1_0000 % 256) as u8,
        (seed / 0x100_0000) as u8,
    ]
}

/// The CRC-32 of `data`, as if the bytes of the seed stood in front of it.
pub open spec fn crc32(seed: u32, data: Seq<u8>) -> u32 {
    !remainder(0xFFFF_FFFF, seed_bytes(seed) + data)
}

/// Taking in one run of bytes after another is taking in both at once.
proof fn remainder_of_concat(c: u32, a: Seq<u8>, b: Seq<u8>)
    ensures
        remainder(c, a + b) == remainder(remainder(c, a), b),
    decreases b.len(),
{
    if b.len() == 0 {
        assert(a + b =~= a);
    } else {
        remainder_of_concat(c, a, b.drop_last());
        assert((a + b).drop_last() =~= a + b.drop_last());
    }
}

/// Takes one byte in.
fn take_in(c: u32, byte: u8) -> (r: u32)
    ensures
        r == shifted_by(c ^ (byte as u32), 8),
{
    let mut r: u32 = c ^ (byte as u32);
    let mut n: u32 = 0;
    while n < 8
        invariant
            n <= 8,
            r == shifted_by(c ^ (byte as u32), n as nat),
        decreases 8 - n,
    {
        r = if r & 1 == 1 {
            (r >> 1) ^ POLYNOMIAL
        } else {
            r >> 1
        };
        n = n + 1;
    }
    r
}

/// Takes the bytes of `data` in.
fn take_in_all(c: u32, data: &[u8]) -> (r: u32)
    ensures
        r == remainder(c, data@),
{
    let mut r: u32 = c;
    let mut i: usize = 0;
    assert(data@.take(0) =~= Seq::<u8>::empty());
    while i < data.len()
        invariant
            i <= data@.len(),
            r == remainder(c, data@.take(i as int)),
        decreases data@.len() - i,
    {
        assert(data@.take(i + 1).drop_last() =~= data@.take(i as int));
        r = take_in(r, data[i]);
        i = i + 1;
    }
    assert(data@.take(i as int) =~= data@);
    r
}

/// Computes CRCs under one seed.
#[derive(Debug, Clone, Copy)]
pub struct Crc32 {
    seed: u32,
    start: u32,
}

impl Crc32 {
    /// The seed under which CRCs are computed.
    pub closed spec fn seed(&self) -> u32 {
        self.seed
    }

    /// Whether the remainder that was prepared belongs to the seed.
    pub closed spec fn wf(&self) -> bool {
        self.start == remainder(0xFFFF_FFFF, seed_bytes(self.seed))
    }

    /// Prepares to compute CRCs under `seed`.
    pub fn new(seed: u32) -> (r: Crc32)
        ensures
            r.wf(),
            r.seed() == seed,
    {
        let bytes: [u8; 4] = [
            (seed % 256) as u8,
            (seed / 256 % 256) as u8,
            (seed / 0x1_0000 % 256) as u8,
            (seed / 0x100_0000) as u8,
        ];
        assert(bytes@ =~= seed_bytes(seed));
        Crc32 { seed, start: take_in_all(0xFFFF_FFFF, &bytes) }
    }

    /// The CRC of `data`.
    pub fn hash(&self, data: &[u8]) -> (crc: u32)
        requires
            self.wf(),
        ensures
            crc == crc32(self.seed(), data@),
    {
        proof {
            remainder_of_concat(0xFFFF_FFFF, seed_bytes(self.seed), data@);
        }
        !take_in_all(self.start, data)
    }
}

/// Shifting a bit out halves the remainder, and takes the CRC-32 polynomial in where the
/// bit was set.
pub proof fn shifting_divides(c: u32)
    ensures
        c % 2 == 0 ==> shifted(c) == c / 2,
        c % 2 == 1 ==> shifted(c) == ((c / 2) as u32) ^ 0xEDB8_8320,
{
    assert(c & 1 == c % 2) by (bit_vector);
    assert(c >> 1 == c / 2) by (bit_vector);
}

/// Taking in a byte is combining it with the low bits of the remainder and shifting eight
/// bits out.
pub proof fn byte_is_taken_in(c: u32, data: Seq<u8>, byte: u8)
    ensures
        remainder(c, Seq::empty()) == c,
        remainder(c, data.push(byte)) == shifted(
            shifted(
                shifted(
                    shifted(
                        shifted(shifted(shifted(shifted(remainder(c, data) ^ (byte as u32)))),
                        ),
                    ),
                ),
            ),
        ),
{
    assert(data.push(byte).drop_last() =~= data);
    reveal_with_fuel(shifted_by, 9);
}

/// The CRC of some bytes is what the CRC-32 of the four bytes of the seed, the lowest
/// first, and then those bytes is: it starts from all bits set and ends with all bits
/// turned.
pub proof fn seed_stands_in_front(seed: u32, a: u8, b: u8, c: u8, d: u8, data: Seq<u8>)
    requires
        seed == a + b * 0x100 + c * 0x1_0000 + d * 0x100_0000,
    ensures
        crc32(seed, data) == !remainder(0xFFFF_FFFF, seq![a, b, c, d] + data),
{
    let high = b + c * 0x100 + d * 0x1_0000;
    assert(seed == a + 0x100 * high);
    assert(seed / 0x100 == high && seed % 0x100 == a as int);
    let higher = c + d * 0x100;
    assert(high == b + 0x100 * higher);
    assert(high / 0x100 == higher && high % 0x100 == b as int);
    assert(seed / 0x1_0000 == higher && higher % 0x100 == c as int);
    assert(seed / 0x100_0000 == d as int);
    assert(seed_bytes(seed) =~= seq![a, b, c, d]);
}

/// Shifting loses nothing.
proof fn shifted_injective(a: u32, b: u32)
    requires
        shifted(a) == shifted(b),
    ensures
        a == b,
{
    assert((if a & 1 == 1 {
        (a >> 1) ^ 0xEDB8_8320u32
    } else {
        a >> 1
    }) == (if b & 1 == 1 {
        (b >> 1) ^ 0xEDB8_8320u32
    } else {
        b >> 1
    }) ==> a == b) by (bit_vector);
}

proof fn shifted_by_injective(a: u32, b: u32, n: nat)
    requires
        shifted_by(a, n) == shifted_by(b, n),
    ensures
        a == b,
    decreases n,
{
    if n > 0 {
        shifted_injective(shifted_by(a, (n - 1) as nat), shifted_by(b, (n - 1) as nat));
        shifted_by_injective(a, b, (n - 1) as nat);
    }
}

/// Remainders that differ still differ once the same bytes were taken in.
pub proof fn remainder_injective(a: u32, b: u32, data: Seq<u8>)
    requires
        a != b,
    ensures
        remainder(a, data) != remainder(b, data),
    decreases data.len(),
{
    if data.len() > 0 {
        let rest = data.drop_last();
        remainder_injective(a, b, rest);
        let x = remainder(a, rest);
        let y = remainder(b, rest);
        let byte = data.last() as u32;
        if remainder(a, data) == remainder(b, data) {
            shifted_by_injective(x ^ byte, y ^ byte, 8);
            assert(x ^ byte == y ^ byte ==> x == y) by (bit_vector);
        }
    }
}

/// The CRC notices every change of a single byte, whichever it is and wherever it stands.
pub proof fn changed_byte_changes_crc(seed: u32, data: Seq<u8>, at: int, byte: u8)
    requires
        0 <= at < data.len(),
        byte != data[at],
    ensures
        crc32(seed, data.update(at, byte)) != crc32(seed, data),
{
    let front = seed_bytes(seed) + data.take(at);
    let back = data.skip(at + 1);
    let old = data[at];
    assert(seed_bytes(seed) + data =~= front.push(old) + back);
    assert(seed_bytes(seed) + data.update(at, byte) =~= front.push(byte) + back);
    let c = remainder(0xFFFF_FFFF, front);
    assert(front.push(old).drop_last() =~= front);
    assert(front.push(byte).drop_last() =~= front);
    let x = remainder(0xFFFF_FFFF, front.push(old));
    let y = remainder(0xFFFF_FFFF, front.push(byte));
    if x == y {
        shifted_by_injective(c ^ (old as u32), c ^ (byte as u32), 8);
        let p = old as u32;
        let q = byte as u32;
        assert(c ^ p == c ^ q ==> p == q) by (bit_vector);
    }
    remainder_injective(x, y, back);
    remainder_of_concat(0xFFFF_FFFF, front.push(old), back);
    remainder_of_concat(0xFFFF_FFFF, front.push(byte), back);
    let r = remainder(x, back);
    let s = remainder(y, back);
    assert(!r == !s ==> r == s) by (bit_vector);
}

} // verus!
