//! Canonical prefix codes: from the code length of each symbol to its
//! code, and from the bits of a stream back to the symbols.

use vstd::prelude::*;
use vstd::arithmetic::power2::{lemma2_to64, lemma_pow2_unfold, pow2};
use crate::bit::{bit_at, BitReader, BitWriter};
use crate::Error;

verus! {

/// How many of the first `n` symbols have the code length `l`.
pub open spec fn count_len(lens: Seq<u8>, l: int, n: int) -> int
    decreases n,
{
    if n <= 0 {
        0
    } else {
        count_len(lens, l, n - 1) + if lens[n - 1] == l {
            1int
        } else {
            0int
        }
    }
}

/// The code of the first symbol of length `l`: codes are given out in
/// rising order, the shorter lengths first.
pub open spec fn first_code(lens: Seq<u8>, l: int) -> int
    decreases l,
{
    if l <= 1 {
        0
    } else {
        2 * (first_code(lens, l - 1) + count_len(lens, l - 1, lens.len() as int))
    }
}

/// The code of symbol `s`: the codes of one length go to its symbols in
/// the order of the symbols.
pub open spec fn code_of(lens: Seq<u8>, s: int) -> int {
    first_code(lens, lens[s] as int) + count_len(lens, lens[s] as int, s)
}

/// The codes of every length fit into as many bits: the lengths are not
/// over-subscribed.
pub open spec fn fits(lens: Seq<u8>) -> bool {
    forall|l: int|
        1 <= l <= 15 ==> first_code(lens, l) + #[trigger] count_len(lens, l, lens.len() as int)
            <= pow2(l as nat)
}

/// Only one symbol has a code, and that code has one bit.
pub open spec fn lone_short(lens: Seq<u8>) -> bool {
    count_len(lens, 0, lens.len() as int) == lens.len() - 1 && count_len(
        lens,
        1,
        lens.len() as int,
    ) == 1
}

/// The lengths make a code: none is above 15, they are not
/// over-subscribed, and they are not those of a lone code of one bit.
pub open spec fn valid_lengths(lens: Seq<u8>) -> bool {
    &&& forall|i: int| 0 <= i < lens.len() ==> (#[trigger] lens[i]) <= 15
    &&& fits(lens)
    &&& !lone_short(lens)
}

/// The first symbol from `from` on that has the length `l` and the code
/// `c`.
pub open spec fn find_symbol(lens: Seq<u8>, l: int, c: int, from: int) -> Option<int>
    decreases lens.len() - from,
{
    if from >= lens.len() {
        None
    } else if lens[from] == l && code_of(lens, from) == c {
        Some(from)
    } else {
        find_symbol(lens, l, c, from + 1)
    }
}

/// The symbol that the bits from `pos` on spell, `l` bits with the value
/// `acc` having been read already, and the place after it. The bits of a
/// code come highest first. `Truncated` where the stream ends inside a
/// code, `InvalidSymbol` where 15 bits spell none; the place is then the
/// one at which reading stopped.
pub open spec fn decoded_symbol(lens: Seq<u8>, bytes: Seq<u8>, pos: int, l: int, acc: int) -> (
    Result<int, Error>,
    int,
)
    decreases 15 - l,
{
    if l >= 15 {
        (Err(Error::InvalidSymbol), pos)
    } else if pos < 0 || pos >= 8 * bytes.len() {
        (Err(Error::Truncated), pos)
    } else {
        let next = 2 * acc + if bit_at(bytes, pos) {
            1int
        } else {
            0int
        };
        match find_symbol(lens, l + 1, next, 0) {
            Some(s) => (Ok(s), pos + 1),
            None => decoded_symbol(lens, bytes, pos + 1, l + 1, next),
        }
    }
}

/// The bits of the code of `len` bits with the value `code`, the highest
/// first.
pub open spec fn code_bits(code: u32, len: int) -> Seq<bool> {
    Seq::new(len as nat, |i: int| (code >> ((len - 1 - i) as u32)) & 1 == 1)
}

/// The bits of the code of symbol `sym`; none where it has no code.
pub open spec fn symbol_bits(lens: Seq<u8>, sym: int) -> Option<Seq<bool>> {
    if 0 <= sym < lens.len() && 0 < lens[sym] <= 15 {
        Some(code_bits(code_of(lens, sym) as u32, lens[sym] as int))
    } else {
        None
    }
}

/// Counting goes up by at most one per symbol.
pub proof fn lemma_count_len_bounds(lens: Seq<u8>, l: int, n: int)
    requires
        0 <= n,
    ensures
        0 <= count_len(lens, l, n) <= n,
    decreases n,
{
    if n > 0 {
        lemma_count_len_bounds(lens, l, n - 1);
    }
}

/// Where `find_symbol` finds a symbol, it is one of the alphabet.
pub proof fn lemma_find_symbol_bounds(lens: Seq<u8>, l: int, c: int, from: int)
    requires
        0 <= from,
    ensures
        find_symbol(lens, l, c, from) matches Some(s) ==> from <= s < lens.len() && lens[s] == l
            && code_of(lens, s) == c,
    decreases lens.len() - from,
{
    if from < lens.len() && !(lens[from] == l && code_of(lens, from) == c) {
        lemma_find_symbol_bounds(lens, l, c, from + 1);
    }
}

/// A canonical prefix code.
pub struct CodeTree {
    lengths: Vec<u8>,
    first: Vec<u32>,
}

impl CodeTree {
    /// The code length of each symbol.
    pub closed spec fn lens(&self) -> Seq<u8> {
        self.lengths@
    }

    /// The table of first codes is that of the lengths.
    pub closed spec fn wf(&self) -> bool {
        &&& self.lengths@.len() <= 288
        &&& forall|i: int| 0 <= i < self.lengths@.len() ==> (#[trigger] self.lengths@[i]) <= 15
        &&& self.first@.len() == 16
        &&& forall|l: int| 1 <= l <= 15 ==> (#[trigger] self.first@[l]) == first_code(self.lengths@, l)
        &&& forall|l: int| 1 <= l <= 15 ==> (#[trigger] self.first@[l]) <= 65536
    }

    /// The code with the given length for each symbol. `InvalidCodeTable`
    /// where a length is above 15, where the lengths are over-subscribed,
    /// and where they are those of a lone code of one bit.
    pub fn new(lengths: &[u8]) -> (r: Result<CodeTree, Error>)
        requires
            lengths@.len() <= 288,
        ensures
            match r {
                Ok(tree) => valid_lengths(lengths@) && tree.wf() && tree.lens() == lengths@,
                Err(e) => e == Error::InvalidCodeTable && !valid_lengths(lengths@),
            },
    {
        let n = lengths.len();
        let mut counts: Vec<u32> = vec![0u32; 16];
        let mut i: usize = 0;
        while i < n
            invariant
                i <= n,
                n == lengths@.len(),
                n <= 288,
                counts@.len() == 16,
                forall|k: int| 0 <= k < i ==> (#[trigger] lengths@[k]) <= 15,
                forall|l: int| 0 <= l <= 15 ==> (#[trigger] counts@[l]) == count_len(lengths@, l, i as int),
                forall|l: int| 0 <= l <= 15 ==> (#[trigger] counts@[l]) <= i,
            decreases n - i,
        {
            let len = lengths[i];
            if len > 15 {
                return Err(Error::InvalidCodeTable);
            }
            proof {
                lemma_count_len_bounds(lengths@, len as int, i as int);
            }
            let c = counts[len as usize];
            counts.set(len as usize, c + 1);
            i += 1;
        }
        if counts[0] as usize + 1 == n && counts[1] == 1 {
            return Err(Error::InvalidCodeTable);
        }
        let mut first: Vec<u32> = vec![0u32; 16];
        let mut limit: u32 = 2;
        let mut l: usize = 1;
        proof {
            lemma2_to64();
        }
        while l <= 15
            invariant
                1 <= l <= 16,
                n == lengths@.len(),
                n <= 288,
                forall|k: int| 0 <= k < n ==> (#[trigger] lengths@[k]) <= 15,
                counts@.len() == 16,
                first@.len() == 16,
                l <= 15 ==> limit == pow2(l as nat),
                limit <= 65536,
                forall|k: int| 0 <= k <= 15 ==> (#[trigger] counts@[k]) == count_len(lengths@, k, n as int),
                forall|k: int| 0 <= k <= 15 ==> (#[trigger] counts@[k]) <= 288,
                forall|k: int| 1 <= k < l ==> (#[trigger] first@[k]) == first_code(lengths@, k),
                forall|k: int| 1 <= k < l ==> (#[trigger] first@[k]) <= 65536,
                forall|k: int|
                    1 <= k < l ==> first_code(lengths@, k) + #[trigger] count_len(
                        lengths@,
                        k,
                        n as int,
                    ) <= pow2(k as nat),
                l >= 2 ==> first_code(lengths@, l as int) == 2 * (first@[l - 1] + counts@[l - 1]),
                l >= 2 ==> first@[l - 1] + counts@[l - 1] <= pow2((l - 1) as nat),
                l >= 2 ==> pow2((l - 1) as nat) <= 32768,
            decreases 16 - l,
        {
            proof {
                lemma_pow2_unfold(l as nat);
            }
            let start: u32 = if l == 1 {
                0
            } else {
                2 * (first[l - 1] + counts[l - 1])
            };
            if start + counts[l] > limit {
                assert(first_code(lengths@, l as int) + count_len(lengths@, l as int, n as int)
                    > pow2(l as nat));
                return Err(Error::InvalidCodeTable);
            }
            first.set(l, start);
            proof {
                lemma2_to64();
                lemma_pow2_unfold((l + 1) as nat);
                if l < 15 {
                    vstd::arithmetic::power2::lemma_pow2_strictly_increases((l + 1) as nat, 16);
                    vstd::arithmetic::power2::lemma_pow2_strictly_increases(l as nat, 15);
                }
            }
            if l < 15 {
                limit = limit * 2;
            }
            l += 1;
        }
        let mut own: Vec<u8> = Vec::with_capacity(n);
        let mut j: usize = 0;
        while j < n
            invariant
                j <= n,
                n == lengths@.len(),
                own@ == lengths@.subrange(0, j as int),
            decreases n - j,
        {
            own.push(lengths[j]);
            assert(own@ =~= lengths@.subrange(0, j + 1));
            j += 1;
        }
        assert(own@ =~= lengths@);
        Ok(CodeTree { lengths: own, first })
    }

    /// Reads one symbol: bit by bit, the highest bit of its code first,
    /// until the bits read are the code of a symbol. `Truncated` where the
    /// stream ends before that, `InvalidSymbol` where 15 bits are no code.
    pub fn decode(&self, reader: &mut BitReader) -> (r: Result<u16, Error>)
        requires
            self.wf(),
            old(reader).wf(),
        ensures
            final(reader).wf(),
            final(reader).source() == old(reader).source(),
            ({
                let want = decoded_symbol(
                    self.lens(),
                    old(reader).source(),
                    old(reader).position(),
                    0,
                    0,
                );
                &&& final(reader).position() == want.1
                &&& match (r, want.0) {
                    (Ok(s), Ok(w)) => s == w && s < self.lens().len(),
                    (Err(e), Err(f)) => e == f,
                    _ => false,
                }
            }),
    {
        let n = self.lengths.len();
        let mut acc: u32 = 0;
        let mut l: usize = 0;
        let ghost bytes = reader.source();
        let ghost start = reader.position();
        proof {
            lemma2_to64();
            reader.lemma_position_bounds();
        }
        while l < 15
            invariant
                l <= 15,
                self.wf(),
                n == self.lengths@.len(),
                reader.wf(),
                reader.source() == bytes,
                bytes == old(reader).source(),
                start == old(reader).position(),
                0 <= reader.position(),
                acc < pow2(l as nat),
                pow2(l as nat) <= 32768,
                decoded_symbol(self.lens(), bytes, start, 0, 0) == decoded_symbol(
                    self.lens(),
                    bytes,
                    reader.position(),
                    l as int,
                    acc as int,
                ),
            decreases 15 - l,
        {
            let ghost prev_pos = reader.position();
            let ghost prev_acc = acc as int;
            let bit = match reader.read_bit() {
                Ok(b) => b,
                Err(e) => {
                    return Err(e);
                },
            };
            proof {
                lemma2_to64();
                lemma_pow2_unfold((l + 1) as nat);
                if l + 1 < 15 {
                    vstd::arithmetic::power2::lemma_pow2_strictly_increases((l + 1) as nat, 15);
                }
            }
            acc = 2 * acc + if bit {
                1
            } else {
                0
            };
            l += 1;
            let base = self.first[l];
            let mut k: u32 = 0;
            let mut s: usize = 0;
            while s < n
                invariant
                    s <= n,
                    n == self.lengths@.len(),
                    n <= 288,
                    1 <= l <= 15,
                    self.wf(),
                    base == first_code(self.lengths@, l as int),
                    base <= 65536,
                    k == count_len(self.lengths@, l as int, s as int),
                    k <= s,
                    reader.wf(),
                    reader.source() == bytes,
                    bytes == old(reader).source(),
                    start == old(reader).position(),
                    0 <= prev_pos < 8 * bytes.len(),
                    reader.position() == prev_pos + 1,
                    acc == 2 * prev_acc + if bit_at(bytes, prev_pos) {
                        1int
                    } else {
                        0int
                    },
                    decoded_symbol(self.lens(), bytes, start, 0, 0) == decoded_symbol(
                        self.lens(),
                        bytes,
                        prev_pos,
                        l - 1,
                        prev_acc,
                    ),
                    find_symbol(self.lengths@, l as int, acc as int, 0) == find_symbol(
                        self.lengths@,
                        l as int,
                        acc as int,
                        s as int,
                    ),
                decreases n - s,
            {
                if self.lengths[s] as usize == l {
                    if base + k == acc {
                        assert(code_of(self.lengths@, s as int) == acc);
                        return Ok(s as u16);
                    }
                    k += 1;
                }
                s += 1;
            }
        }
        Err(Error::InvalidSymbol)
    }
}

impl CodeTree {
    /// Whether the symbol has a code.
    pub fn has_code(&self, sym: u16) -> (r: bool)
        requires
            self.wf(),
        ensures
            r == symbol_bits(self.lens(), sym as int).is_some(),
    {
        (sym as usize) < self.lengths.len() && self.lengths[sym as usize] > 0
    }

    /// Writes the code of a symbol, its highest bit first.
    pub fn encode(&self, sym: u16, writer: &mut BitWriter)
        requires
            self.wf(),
            old(writer).wf(),
            symbol_bits(self.lens(), sym as int).is_some(),
        ensures
            final(writer).wf(),
            final(writer).written() == old(writer).written() + symbol_bits(
                self.lens(),
                sym as int,
            )->Some_0,
    {
        let len = self.lengths[sym as usize];
        let mut rank: u32 = 0;
        let mut s: usize = 0;
        while s < sym as usize
            invariant
                s <= sym,
                sym < self.lengths@.len(),
                self.lengths@.len() <= 288,
                rank == count_len(self.lengths@, len as int, s as int),
                rank <= s,
            decreases sym - s,
        {
            if self.lengths[s] == len {
                rank += 1;
            }
            s += 1;
        }
        let code: u32 = self.first[len as usize] + rank;
        assert(code == code_of(self.lengths@, sym as int));
        let ghost start = writer.written();
        let ghost want = code_bits(code, len as int);
        let mut i: u8 = 0;
        assert(start + want.subrange(0, 0) =~= start);
        while i < len
            invariant
                i <= len <= 15,
                writer.wf(),
                want == code_bits(code, len as int),
                writer.written() == start + want.subrange(0, i as int),
            decreases len - i,
        {
            let bit = (code >> ((len - 1 - i) as u32)) & 1 == 1;
            writer.write_bit(bit);
            assert(writer.written() =~= start + want.subrange(0, i + 1));
            i += 1;
        }
        assert(want.subrange(0, len as int) =~= want);
    }
}

} // verus!
