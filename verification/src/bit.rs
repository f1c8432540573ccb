//! Reading a byte stream bit by bit, the lowest bit of each byte first.

use vstd::prelude::*;
use vstd::arithmetic::power2::{lemma2_to64, lemma_pow2_unfold, pow2};
use crate::Error;

verus! {

/// The bit at place `pos` of the stream: bit `pos mod 8`, counted from the
/// lowest, of byte `pos / 8`.
pub open spec fn bit_at(bytes: Seq<u8>, pos: int) -> bool
    recommends
        0 <= pos < 8 * bytes.len(),
{
    (bytes[pos / 8] >> ((pos % 8) as u8)) & 1 == 1
}

/// The number that the `n` bits from `pos` on spell, the first of them
/// being its lowest bit.
pub open spec fn bits_value(bytes: Seq<u8>, pos: int, n: int) -> int
    decreases n,
{
    if n <= 0 {
        0
    } else {
        (if bit_at(bytes, pos) {
            1int
        } else {
            0int
        }) + 2 * bits_value(bytes, pos + 1, n - 1)
    }
}

/// `n` bits spell a number below two to the `n`.
pub proof fn lemma_bits_value_bound(bytes: Seq<u8>, pos: int, n: int)
    requires
        0 <= n,
    ensures
        0 <= bits_value(bytes, pos, n) < pow2(n as nat),
    decreases n,
{
    if n == 0 {
        lemma2_to64();
    } else {
        lemma_bits_value_bound(bytes, pos + 1, n - 1);
        lemma_pow2_unfold(n as nat);
    }
}

/// The first place at or after `pos` at which a byte starts.
pub open spec fn aligned(pos: int) -> int {
    if pos % 8 == 0 {
        pos
    } else {
        pos + 8 - pos % 8
    }
}

/// A cursor into a byte stream that reads it bit by bit.
pub struct BitReader<'a> {
    bytes: &'a [u8],
    byte: usize,
    bit: u8,
}

impl<'a> BitReader<'a> {
    /// The bytes that are read.
    pub closed spec fn source(&self) -> Seq<u8> {
        self.bytes@
    }

    /// How many bits have been read.
    pub closed spec fn position(&self) -> int {
        self.byte * 8 + self.bit
    }

    /// The cursor stands inside the stream or at its end.
    pub closed spec fn wf(&self) -> bool {
        &&& self.byte <= self.bytes@.len()
        &&& self.bit < 8
        &&& self.byte == self.bytes@.len() ==> self.bit == 0
    }

    /// The cursor never stands beyond the end.
    pub proof fn lemma_position_bounds(&self)
        requires
            self.wf(),
        ensures
            0 <= self.position() <= 8 * self.source().len(),
    {
    }

    /// A reader at the start of `bytes`.
    pub fn new(bytes: &'a [u8]) -> (r: Self)
        ensures
            r.wf(),
            r.source() == bytes@,
            r.position() == 0,
    {
        BitReader { bytes, byte: 0, bit: 0 }
    }

    /// A second cursor at the same place of the same stream.
    pub fn fork(&self) -> (r: Self)
        requires
            self.wf(),
        ensures
            r.wf(),
            r.source() == self.source(),
            r.position() == self.position(),
    {
        BitReader { bytes: self.bytes, byte: self.byte, bit: self.bit }
    }

    /// Whether two cursors have read equally many bits.
    pub fn is_at(&self, other: &Self) -> (r: bool)
        requires
            self.wf(),
            other.wf(),
        ensures
            r == (self.position() == other.position()),
    {
        self.byte == other.byte && self.bit == other.bit
    }

    /// Whether `n` more bits can be read.
    fn has_bits(&self, n: u8) -> (r: bool)
        requires
            self.wf(),
            n <= 16,
        ensures
            r == (self.position() + n <= 8 * self.source().len()),
    {
        let need: usize = (self.bit as usize + n as usize + 7) / 8;
        need <= self.bytes.len() - self.byte
    }

    /// The bit `off` places after the cursor.
    fn peek(&self, off: u8) -> (r: bool)
        requires
            self.wf(),
            off < 16,
            self.position() + off < 8 * self.source().len(),
        ensures
            r == bit_at(self.source(), self.position() + off),
    {
        let len = self.bytes.len();
        let total: usize = self.bit as usize + off as usize;
        assert(self.byte + total / 8 < len);
        let b = self.bytes[self.byte + total / 8];
        let k: u8 = (total % 8) as u8;
        (b >> k) & 1 == 1
    }

    /// Moves the cursor on by `n` bits.
    fn skip(&mut self, n: u8)
        requires
            old(self).wf(),
            n <= 16,
            old(self).position() + n <= 8 * old(self).source().len(),
        ensures
            final(self).wf(),
            final(self).source() == old(self).source(),
            final(self).position() == old(self).position() + n,
    {
        let len = self.bytes.len();
        let total: usize = self.bit as usize + n as usize;
        assert(self.byte + total / 8 <= len);
        self.byte = self.byte + total / 8;
        self.bit = (total % 8) as u8;
    }

    /// Reads one bit. `Truncated` at the end of the stream.
    pub fn read_bit(&mut self) -> (r: Result<bool, Error>)
        requires
            old(self).wf(),
        ensures
            final(self).wf(),
            final(self).source() == old(self).source(),
            match r {
                Ok(b) => old(self).position() < 8 * old(self).source().len() && b == bit_at(
                    old(self).source(),
                    old(self).position(),
                ) && final(self).position() == old(self).position() + 1,
                Err(e) => e == Error::Truncated && old(self).position() >= 8 * old(
                    self,
                ).source().len() && final(self).position() == old(self).position(),
            },
    {
        if !self.has_bits(1) {
            return Err(Error::Truncated);
        }
        let b = self.peek(0);
        self.skip(1);
        Ok(b)
    }

    /// Reads a number of `n` bits, its lowest bit first. `Truncated`, and
    /// nothing read, where fewer than `n` bits are left.
    pub fn read_bits(&mut self, n: u8) -> (r: Result<u16, Error>)
        requires
            old(self).wf(),
            n <= 16,
        ensures
            final(self).wf(),
            final(self).source() == old(self).source(),
            match r {
                Ok(v) => old(self).position() + n <= 8 * old(self).source().len() && v
                    == bits_value(old(self).source(), old(self).position(), n as int)
                    && final(self).position() == old(self).position() + n,
                Err(e) => e == Error::Truncated && old(self).position() + n > 8 * old(
                    self,
                ).source().len() && final(self).position() == old(self).position(),
            },
    {
        if !self.has_bits(n) {
            return Err(Error::Truncated);
        }
        let mut acc: u32 = 0;
        let mut i: u8 = n;
        proof {
            lemma2_to64();
        }
        while i > 0
            invariant
                self.wf(),
                i <= n <= 16,
                self.position() + n <= 8 * self.source().len(),
                acc == bits_value(self.source(), self.position() + i, n - i),
                acc < pow2((n - i) as nat),
                pow2((n - i) as nat) <= 65536,
            decreases i,
        {
            i = i - 1;
            let b = self.peek(i);
            proof {
                lemma_pow2_unfold((n - i) as nat);
                lemma_bits_value_bound(self.source(), self.position() + i, n - i);
                lemma2_to64();
                if n - i == 16 {
                } else {
                    vstd::arithmetic::power2::lemma_pow2_strictly_increases(
                        (n - i) as nat,
                        16,
                    );
                }
            }
            acc = 2 * acc + if b {
                1
            } else {
                0
            };
        }
        self.skip(n);
        Ok(acc as u16)
    }

    /// Passes over the bits up to the next start of a byte.
    pub fn align(&mut self)
        requires
            old(self).wf(),
        ensures
            final(self).wf(),
            final(self).source() == old(self).source(),
            final(self).position() == aligned(old(self).position()),
    {
        let len = self.bytes.len();
        if self.bit != 0 {
            assert(self.byte < len);
            self.byte = self.byte + 1;
            self.bit = 0;
        }
    }
}

/// The `n` lowest bits of `v`, the lowest first.
pub open spec fn low_bits(v: u16, n: int) -> Seq<bool> {
    Seq::new(n as nat, |i: int| (v >> (i as u16)) & 1 == 1)
}

/// `n` bits that are not set.
pub open spec fn zero_bits(n: int) -> Seq<bool> {
    Seq::new(n as nat, |i: int| false)
}

/// Bit `j` of a byte, set where the bit at place `i` is.
pub open spec fn bit_in_byte(bits: Seq<bool>, i: int, j: u8) -> u8 {
    if 0 <= i < bits.len() && bits[i] {
        1u8 << j
    } else {
        0u8
    }
}

/// The byte that holds the eight bits from place `8 * k` on, the first
/// of them lowest; bits beyond the end are not set.
pub open spec fn byte_of(bits: Seq<bool>, k: int) -> u8 {
    bit_in_byte(bits, 8 * k, 0) | bit_in_byte(bits, 8 * k + 1, 1) | bit_in_byte(
        bits,
        8 * k + 2,
        2,
    ) | bit_in_byte(bits, 8 * k + 3, 3) | bit_in_byte(bits, 8 * k + 4, 4) | bit_in_byte(
        bits,
        8 * k + 5,
        5,
    ) | bit_in_byte(bits, 8 * k + 6, 6) | bit_in_byte(bits, 8 * k + 7, 7)
}

/// The bytes that hold the bits, the lowest bit of each byte first, the
/// last byte filled up with bits that are not set.
pub open spec fn packed(bits: Seq<bool>) -> Seq<u8> {
    Seq::new(((bits.len() + 7) / 8) as nat, |k: int| byte_of(bits, k))
}

/// A byte is made up of its bits.
proof fn lemma_byte_from_bits(x: u8, b0: u8, b1: u8, b2: u8, b3: u8, b4: u8, b5: u8, b6: u8, b7: u8)
    requires
        b0 == (if (x >> 0u8) & 1 == 1 { 1u8 << 0u8 } else { 0u8 }),
        b1 == (if (x >> 1u8) & 1 == 1 { 1u8 << 1u8 } else { 0u8 }),
        b2 == (if (x >> 2u8) & 1 == 1 { 1u8 << 2u8 } else { 0u8 }),
        b3 == (if (x >> 3u8) & 1 == 1 { 1u8 << 3u8 } else { 0u8 }),
        b4 == (if (x >> 4u8) & 1 == 1 { 1u8 << 4u8 } else { 0u8 }),
        b5 == (if (x >> 5u8) & 1 == 1 { 1u8 << 5u8 } else { 0u8 }),
        b6 == (if (x >> 6u8) & 1 == 1 { 1u8 << 6u8 } else { 0u8 }),
        b7 == (if (x >> 7u8) & 1 == 1 { 1u8 << 7u8 } else { 0u8 }),
    ensures
        x == b0 | b1 | b2 | b3 | b4 | b5 | b6 | b7,
{
    assert(x == b0 | b1 | b2 | b3 | b4 | b5 | b6 | b7) by (bit_vector)
        requires
            b0 == (if (x >> 0u8) & 1 == 1 { 1u8 << 0u8 } else { 0u8 }),
            b1 == (if (x >> 1u8) & 1 == 1 { 1u8 << 1u8 } else { 0u8 }),
            b2 == (if (x >> 2u8) & 1 == 1 { 1u8 << 2u8 } else { 0u8 }),
            b3 == (if (x >> 3u8) & 1 == 1 { 1u8 << 3u8 } else { 0u8 }),
            b4 == (if (x >> 4u8) & 1 == 1 { 1u8 << 4u8 } else { 0u8 }),
            b5 == (if (x >> 5u8) & 1 == 1 { 1u8 << 5u8 } else { 0u8 }),
            b6 == (if (x >> 6u8) & 1 == 1 { 1u8 << 6u8 } else { 0u8 }),
            b7 == (if (x >> 7u8) & 1 == 1 { 1u8 << 7u8 } else { 0u8 }),
    ;
}

/// Bytes whose bits are `bits`, and not set beyond them, are the bytes
/// that hold `bits`.
pub proof fn lemma_packed(bytes: Seq<u8>, bits: Seq<bool>)
    requires
        8 * bytes.len() == aligned(bits.len() as int),
        forall|i: int| 0 <= i < bits.len() ==> bit_at(bytes, i) == bits[i],
        forall|i: int| bits.len() <= i < 8 * bytes.len() ==> !bit_at(bytes, i),
    ensures
        bytes == packed(bits),
{
    assert forall|k: int| 0 <= k < bytes.len() implies bytes[k] == byte_of(bits, k) by {
        let x = bytes[k];
        assert forall|j: int| 0 <= j < 8 implies #[trigger] bit_in_byte(bits, 8 * k + j, j as u8)
            == (if (x >> (j as u8)) & 1 == 1 {
            1u8 << (j as u8)
        } else {
            0u8
        }) by {
            let i = 8 * k + j;
            assert(i / 8 == k && i % 8 == j);
            assert(bit_at(bytes, i) == ((x >> (j as u8)) & 1 == 1));
        }
        assert(bit_in_byte(bits, 8 * k + 0, 0u8) == bit_in_byte(bits, 8 * k, 0));
        lemma_byte_from_bits(
            x,
            bit_in_byte(bits, 8 * k + 0, 0),
            bit_in_byte(bits, 8 * k + 1, 1),
            bit_in_byte(bits, 8 * k + 2, 2),
            bit_in_byte(bits, 8 * k + 3, 3),
            bit_in_byte(bits, 8 * k + 4, 4),
            bit_in_byte(bits, 8 * k + 5, 5),
            bit_in_byte(bits, 8 * k + 6, 6),
            bit_in_byte(bits, 8 * k + 7, 7),
        );
    }
    assert(bytes =~= packed(bits));
}

/// Reading the bytes that hold some bits gives those bits: the bit at
/// place `i` of the packed bytes is the `i`-th of them.
pub proof fn lemma_packed_bit(bits: Seq<bool>, i: int)
    requires
        0 <= i < bits.len(),
    ensures
        i / 8 < packed(bits).len(),
        bit_at(packed(bits), i) == bits[i],
{
    let k = i / 8;
    let j = i % 8;
    let b0 = bit_in_byte(bits, 8 * k, 0);
    let b1 = bit_in_byte(bits, 8 * k + 1, 1);
    let b2 = bit_in_byte(bits, 8 * k + 2, 2);
    let b3 = bit_in_byte(bits, 8 * k + 3, 3);
    let b4 = bit_in_byte(bits, 8 * k + 4, 4);
    let b5 = bit_in_byte(bits, 8 * k + 5, 5);
    let b6 = bit_in_byte(bits, 8 * k + 6, 6);
    let b7 = bit_in_byte(bits, 8 * k + 7, 7);
    assert(packed(bits)[k] == b0 | b1 | b2 | b3 | b4 | b5 | b6 | b7);
    assert(1u8 << 0u8 != 0 && 1u8 << 1u8 != 0 && 1u8 << 2u8 != 0 && 1u8 << 3u8 != 0 && 1u8 << 4u8
        != 0 && 1u8 << 5u8 != 0 && 1u8 << 6u8 != 0 && 1u8 << 7u8 != 0) by (bit_vector);
    if j == 0 {
        assert((((b0 | b1 | b2 | b3 | b4 | b5 | b6 | b7) >> 0u8) & 1 == 1) == (b0 != 0)) by (bit_vector)
            requires
                    b0 == 0 || b0 == 1u8 << 0u8,
                    b1 == 0 || b1 == 1u8 << 1u8,
                    b2 == 0 || b2 == 1u8 << 2u8,
                    b3 == 0 || b3 == 1u8 << 3u8,
                    b4 == 0 || b4 == 1u8 << 4u8,
                    b5 == 0 || b5 == 1u8 << 5u8,
                    b6 == 0 || b6 == 1u8 << 6u8,
                    b7 == 0 || b7 == 1u8 << 7u8,
        ;
    }
    if j == 1 {
        assert((((b0 | b1 | b2 | b3 | b4 | b5 | b6 | b7) >> 1u8) & 1 == 1) == (b1 != 0)) by (bit_vector)
            requires
                    b0 == 0 || b0 == 1u8 << 0u8,
                    b1 == 0 || b1 == 1u8 << 1u8,
                    b2 == 0 || b2 == 1u8 << 2u8,
                    b3 == 0 || b3 == 1u8 << 3u8,
                    b4 == 0 || b4 == 1u8 << 4u8,
                    b5 == 0 || b5 == 1u8 << 5u8,
                    b6 == 0 || b6 == 1u8 << 6u8,
                    b7 == 0 || b7 == 1u8 << 7u8,
        ;
    }
    if j == 2 {
        assert((((b0 | b1 | b2 | b3 | b4 | b5 | b6 | b7) >> 2u8) & 1 == 1) == (b2 != 0)) by (bit_vector)
            requires
                    b0 == 0 || b0 == 1u8 << 0u8,
                    b1 == 0 || b1 == 1u8 << 1u8,
                    b2 == 0 || b2 == 1u8 << 2u8,
                    b3 == 0 || b3 == 1u8 << 3u8,
                    b4 == 0 || b4 == 1u8 << 4u8,
                    b5 == 0 || b5 == 1u8 << 5u8,
                    b6 == 0 || b6 == 1u8 << 6u8,
                    b7 == 0 || b7 == 1u8 << 7u8,
        ;
    }
    if j == 3 {
        assert((((b0 | b1 | b2 | b3 | b4 | b5 | b6 | b7) >> 3u8) & 1 == 1) == (b3 != 0)) by (bit_vector)
            requires
                    b0 == 0 || b0 == 1u8 << 0u8,
                    b1 == 0 || b1 == 1u8 << 1u8,
                    b2 == 0 || b2 == 1u8 << 2u8,
                    b3 == 0 || b3 == 1u8 << 3u8,
                    b4 == 0 || b4 == 1u8 << 4u8,
                    b5 == 0 || b5 == 1u8 << 5u8,
                    b6 == 0 || b6 == 1u8 << 6u8,
                    b7 == 0 || b7 == 1u8 << 7u8,
        ;
    }
    if j == 4 {
        assert((((b0 | b1 | b2 | b3 | b4 | b5 | b6 | b7) >> 4u8) & 1 == 1) == (b4 != 0)) by (bit_vector)
            requires
                    b0 == 0 || b0 == 1u8 << 0u8,
                    b1 == 0 || b1 == 1u8 << 1u8,
                    b2 == 0 || b2 == 1u8 << 2u8,
                    b3 == 0 || b3 == 1u8 << 3u8,
                    b4 == 0 || b4 == 1u8 << 4u8,
                    b5 == 0 || b5 == 1u8 << 5u8,
                    b6 == 0 || b6 == 1u8 << 6u8,
                    b7 == 0 || b7 == 1u8 << 7u8,
        ;
    }
    if j == 5 {
        assert((((b0 | b1 | b2 | b3 | b4 | b5 | b6 | b7) >> 5u8) & 1 == 1) == (b5 != 0)) by (bit_vector)
            requires
                    b0 == 0 || b0 == 1u8 << 0u8,
                    b1 == 0 || b1 == 1u8 << 1u8,
                    b2 == 0 || b2 == 1u8 << 2u8,
                    b3 == 0 || b3 == 1u8 << 3u8,
                    b4 == 0 || b4 == 1u8 << 4u8,
                    b5 == 0 || b5 == 1u8 << 5u8,
                    b6 == 0 || b6 == 1u8 << 6u8,
                    b7 == 0 || b7 == 1u8 << 7u8,
        ;
    }
    if j == 6 {
        assert((((b0 | b1 | b2 | b3 | b4 | b5 | b6 | b7) >> 6u8) & 1 == 1) == (b6 != 0)) by (bit_vector)
            requires
                    b0 == 0 || b0 == 1u8 << 0u8,
                    b1 == 0 || b1 == 1u8 << 1u8,
                    b2 == 0 || b2 == 1u8 << 2u8,
                    b3 == 0 || b3 == 1u8 << 3u8,
                    b4 == 0 || b4 == 1u8 << 4u8,
                    b5 == 0 || b5 == 1u8 << 5u8,
                    b6 == 0 || b6 == 1u8 << 6u8,
                    b7 == 0 || b7 == 1u8 << 7u8,
        ;
    }
    if j == 7 {
        assert((((b0 | b1 | b2 | b3 | b4 | b5 | b6 | b7) >> 7u8) & 1 == 1) == (b7 != 0)) by (bit_vector)
            requires
                    b0 == 0 || b0 == 1u8 << 0u8,
                    b1 == 0 || b1 == 1u8 << 1u8,
                    b2 == 0 || b2 == 1u8 << 2u8,
                    b3 == 0 || b3 == 1u8 << 3u8,
                    b4 == 0 || b4 == 1u8 << 4u8,
                    b5 == 0 || b5 == 1u8 << 5u8,
                    b6 == 0 || b6 == 1u8 << 6u8,
                    b7 == 0 || b7 == 1u8 << 7u8,
        ;
    }
}

/// Collects bits into bytes, the lowest bit of each byte first.
pub struct BitWriter {
    bytes: Vec<u8>,
    used: u8,
}

impl BitWriter {
    /// How many bits have been written.
    pub closed spec fn count(&self) -> int {
        if self.used == 0 {
            8 * (self.bytes@.len() as int)
        } else {
            8 * (self.bytes@.len() - 1) + self.used
        }
    }

    /// The bits written, in order.
    pub closed spec fn written(&self) -> Seq<bool> {
        Seq::new(self.count() as nat, |i: int| bit_at(self.bytes@, i))
    }

    /// The last byte is filled from its lowest bit, and nothing is set
    /// above what was written.
    pub closed spec fn wf(&self) -> bool {
        &&& self.used < 8
        &&& self.used > 0 ==> self.bytes@.len() > 0 && self.bytes@.last() >> self.used == 0
    }

    /// A writer that has written nothing.
    pub fn new() -> (r: Self)
        ensures
            r.wf(),
            r.written() == Seq::<bool>::empty(),
    {
        let r = BitWriter { bytes: Vec::new(), used: 0 };
        assert(r.written() =~= Seq::<bool>::empty());
        r
    }

    /// Writes one bit.
    pub fn write_bit(&mut self, bit: bool)
        requires
            old(self).wf(),
        ensures
            final(self).wf(),
            final(self).written() == old(self).written().push(bit),
    {
        let ghost before = *self;
        let b: u8 = if bit {
            1
        } else {
            0
        };
        if self.used == 0 {
            self.bytes.push(b);
            self.used = 1;
            proof {
                assert(b >> 1u8 == 0 && ((b >> 0u8) & 1 == 1) == bit) by (bit_vector)
                    requires
                        b == (if bit {
                            1u8
                        } else {
                            0u8
                        }),
                ;
                let n = before.bytes@.len() as int;
                assert forall|i: int| 0 <= i < self.count() implies bit_at(self.bytes@, i)
                    == before.written().push(bit)[i] by {
                    if i < 8 * n {
                        assert(self.bytes@[i / 8] == before.bytes@[i / 8]);
                    } else {
                        assert(i == 8 * n);
                        assert(self.bytes@[i / 8] == b);
                    }
                }
                assert(self.written() =~= before.written().push(bit));
            }
        } else {
            let last = self.bytes.len() - 1;
            let old_byte = self.bytes[last];
            let k = self.used;
            let new_byte = old_byte | (b << k);
            self.bytes.set(last, new_byte);
            self.used = if k == 7 {
                0
            } else {
                k + 1
            };
            proof {
                assert(((new_byte >> k) & 1 == 1) == bit && (k < 7 ==> new_byte >> ((k + 1) as u8)
                    == 0)) by (bit_vector)
                    requires
                        new_byte == old_byte | (b << k),
                        old_byte >> k == 0,
                        0 < k < 8,
                        b == (if bit {
                            1u8
                        } else {
                            0u8
                        }),
                ;
                assert forall|j: u8| j < k implies (#[trigger] (new_byte >> j)) & 1 == (old_byte
                    >> j) & 1 by {
                    assert((new_byte >> j) & 1 == (old_byte >> j) & 1) by (bit_vector)
                        requires
                            new_byte == old_byte | (b << k),
                            j < k < 8,
                            b <= 1,
                    ;
                }
                assert forall|i: int| 0 <= i < self.count() implies bit_at(self.bytes@, i)
                    == before.written().push(bit)[i] by {
                    if i < 8 * last {
                        assert(self.bytes@[i / 8] == before.bytes@[i / 8]);
                    } else if i < 8 * last + k {
                        let j = (i % 8) as u8;
                        assert(j < k);
                        assert((new_byte >> j) & 1 == (old_byte >> j) & 1);
                    } else {
                        assert(i == 8 * last + k);
                    }
                }
                assert(self.written() =~= before.written().push(bit));
            }
        }
    }

    /// Writes the `n` lowest bits of `v`, the lowest first.
    pub fn write_bits(&mut self, v: u16, n: u8)
        requires
            old(self).wf(),
            n <= 16,
        ensures
            final(self).wf(),
            final(self).written() == old(self).written() + low_bits(v, n as int),
    {
        let ghost start = self.written();
        let mut i: u8 = 0;
        assert(start + low_bits(v, 0) =~= start);
        while i < n
            invariant
                i <= n <= 16,
                self.wf(),
                self.written() == start + low_bits(v, i as int),
            decreases n - i,
        {
            let bit = (v >> (i as u16)) & 1 == 1;
            self.write_bit(bit);
            assert(self.written() =~= start + low_bits(v, i + 1));
            i += 1;
        }
    }

    /// Fills the last byte up with bits that are not set.
    pub fn align(&mut self)
        requires
            old(self).wf(),
        ensures
            final(self).wf(),
            final(self).written().len() == aligned(old(self).written().len() as int),
            final(self).written() == old(self).written() + zero_bits(
                aligned(old(self).written().len() as int) - old(self).written().len(),
            ),
    {
        let ghost before = *self;
        if self.used != 0 {
            let k = self.used;
            let ghost last_byte = self.bytes@.last();
            self.used = 0;
            proof {
                assert forall|j: u8| k <= j < 8 implies (#[trigger] (last_byte >> j)) & 1 == 0 by {
                    assert((last_byte >> j) & 1 == 0) by (bit_vector)
                        requires
                            last_byte >> k == 0,
                            k <= j < 8,
                    ;
                }
                let n = before.written().len() as int;
                let want = before.written() + zero_bits(aligned(n) - n);
                assert forall|i: int| 0 <= i < self.count() implies bit_at(self.bytes@, i)
                    == want[i] by {
                    if i >= n {
                        let j = (i % 8) as u8;
                        assert(k <= j < 8);
                        assert(self.bytes@[i / 8] == last_byte);
                        assert((last_byte >> j) & 1 == 0);
                    }
                }
                assert(self.written() =~= want);
            }
        } else {
            assert(self.written() =~= before.written() + zero_bits(0));
        }
    }

    /// The bytes that hold the bits written, the last filled up with bits
    /// that are not set.
    pub fn into_inner(self) -> (r: Vec<u8>)
        requires
            self.wf(),
        ensures
            r@ == packed(self.written()),
    {
        proof {
            if self.used != 0 {
                let k = self.used;
                let last_byte = self.bytes@.last();
                assert forall|j: u8| k <= j < 8 implies (#[trigger] (last_byte >> j)) & 1 == 0 by {
                    assert((last_byte >> j) & 1 == 0) by (bit_vector)
                        requires
                            last_byte >> k == 0,
                            k <= j < 8,
                    ;
                }
                assert forall|i: int| self.written().len() <= i < 8 * self.bytes@.len() implies !bit_at(
                    self.bytes@,
                    i,
                ) by {
                    let j = (i % 8) as u8;
                    assert(k <= j < 8);
                    assert(self.bytes@[i / 8] == last_byte);
                    assert((last_byte >> j) & 1 == 0);
                }
            }
            lemma_packed(self.bytes@, self.written());
        }
        self.bytes
    }
}

} // verus!
