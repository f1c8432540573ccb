//! From tokens back to the bytes they stand for, and to the bits of a
//! compressed stream.

use vstd::prelude::*;
use crate::bit::{aligned, low_bits, packed, zero_bits, BitReader, BitWriter};
use crate::all_refs::{lemma_longest_reference_is_open, refs_at, run_length};
use crate::circles::{
    copied, lemma_copied_bytes, lemma_tail_cap_append, tail_cap, CircularBuffer,
};
use crate::huffman::{symbol_bits, CodeTree};
use crate::parse::{
    dist_base, dist_extra_bits, dist_parts, fixed_dist_lengths, fixed_lit_lengths, fixed_trees,
    header_at, read_header, run_base, run_extra_bits, run_parts,
};
use crate::{emitted, Block, Code, Error};

verus! {

/// The bytes that a token stands for after the window `w`; a reference
/// that reaches back by nothing, or further than the window holds, has
/// none.
pub open spec fn token_bytes(w: Seq<u8>, cap: int, code: Code) -> Result<Seq<u8>, Error> {
    match code {
        Code::Literal(b) => Ok(seq![b]),
        Code::Reference { dist, run_minus_3 } => if dist == 0 || dist > w.len() {
            Err(Error::InvalidDistance)
        } else {
            Ok(copied(w, cap, dist as int, run_minus_3 as int + 3))
        },
    }
}

/// The bytes that the tokens from the `i`-th on stand for after the
/// window `w`, up to the first token that has none, and the error of that
/// token.
pub open spec fn decoded_from(w: Seq<u8>, cap: int, codes: Seq<Code>, i: int) -> (
    Seq<u8>,
    Option<Error>,
)
    decreases codes.len() - i,
{
    if i >= codes.len() {
        (Seq::empty(), None)
    } else {
        match token_bytes(w, cap, codes[i]) {
            Err(e) => (Seq::empty(), Some(e)),
            Ok(bytes) => {
                let rest = decoded_from(tail_cap(w + bytes, cap), cap, codes, i + 1);
                (bytes + rest.0, rest.1)
            },
        }
    }
}

/// Appends to `into` and to the window the bytes that the tokens stand
/// for. At the first reference that reaches back by nothing or further
/// than the window holds it stops with `InvalidDistance`, the bytes of
/// the tokens before it appended.
pub fn decompressed_codes(into: &mut Vec<u8>, dictionary: &mut CircularBuffer, codes: &[Code]) -> (r:
    Result<(), Error>)
    requires
        old(dictionary).wf(),
    ensures
        final(dictionary).wf(),
        final(dictionary).capacity() == old(dictionary).capacity(),
        ({
            let d = decoded_from(old(dictionary).recent(), old(dictionary).capacity(), codes@, 0);
            &&& final(into)@ == old(into)@ + d.0
            &&& final(dictionary).recent() == tail_cap(
                old(dictionary).recent() + d.0,
                old(dictionary).capacity(),
            )
            &&& match r {
                Ok(_) => d.1.is_none(),
                Err(e) => d.1 == Some(e),
            }
        }),
{
    let ghost start = dictionary.recent();
    let ghost cap = dictionary.capacity();
    let ghost into_start = into@;
    let ghost done = Seq::<u8>::empty();
    let ghost whole = decoded_from(start, cap, codes@, 0);
    let mut i: usize = 0;
    proof {
        dictionary.lemma_bounds();
    }
    assert(start + done =~= start);
    assert(into_start + done =~= into_start);
    assert(done + whole.0 =~= whole.0);
    while i < codes.len()
        invariant
            i <= codes@.len(),
            cap > 0,
            start == old(dictionary).recent(),
            cap == old(dictionary).capacity(),
            into_start == old(into)@,
            dictionary.wf(),
            dictionary.capacity() == cap,
            into@ == into_start + done,
            dictionary.recent() == tail_cap(start + done, cap),
            whole == decoded_from(start, cap, codes@, 0),
            whole.0 == done + decoded_from(dictionary.recent(), cap, codes@, i as int).0,
            whole.1 == decoded_from(dictionary.recent(), cap, codes@, i as int).1,
        decreases codes@.len() - i,
    {
        let ghost w = dictionary.recent();
        match codes[i] {
            Code::Literal(byte) => {
                proof {
                    assert(w.push(byte) =~= w + seq![byte]);
                }
                dictionary.append(byte);
                into.push(byte);
            },
            Code::Reference { dist, run_minus_3 } => {
                if dist == 0 || dist as usize > dictionary.len() {
                    proof {
                        assert(done + Seq::<u8>::empty() =~= done);
                    }
                    return Err(Error::InvalidDistance);
                }
                dictionary.copy(dist, run_minus_3 as u16 + 3, into);
            },
        }
        proof {
            let bytes = token_bytes(w, cap, codes@[i as int])->Ok_0;
            let rest = decoded_from(tail_cap(w + bytes, cap), cap, codes@, i + 1);
            lemma_tail_cap_append(start + done, bytes, cap);
            assert((start + done) + bytes =~= start + (done + bytes));
            assert(done + (bytes + rest.0) =~= (done + bytes) + rest.0);
            assert(into@ =~= into_start + (done + bytes));
            done = done + bytes;
        }
        i += 1;
    }
    proof {
        assert(done + Seq::<u8>::empty() =~= done);
    }
    Ok(())
}

/// The tokens from the `i`-th on spell the block from `data_pos` to its
/// end: a literal is the byte at its place, and each byte of a reference
/// is the byte `dist` places before it.
pub open spec fn spells(
    preroll: Seq<u8>,
    data: Seq<u8>,
    codes: Seq<Code>,
    i: int,
    data_pos: int,
) -> bool
    decreases codes.len() - i,
{
    if i >= codes.len() {
        data_pos == data.len()
    } else {
        &&& match codes[i] {
            Code::Literal(b) => data_pos < data.len() && data[data_pos] == b,
            Code::Reference { dist, run_minus_3 } => {
                &&& 1 <= dist <= preroll.len() + data_pos
                &&& data_pos + run_minus_3 + 3 <= data.len()
                &&& forall|c: int|
                    0 <= c < run_minus_3 + 3 ==> #[trigger] data[data_pos + c] == (preroll
                        + data)[preroll.len() + data_pos + c - dist]
            },
        }
        &&& spells(preroll, data, codes, i + 1, data_pos + emitted(codes[i]))
    }
}

/// Each byte of a copy made after the history and the bytes `done` is
/// the byte `dist` places before it in the history followed by the block,
/// whatever follows the copy in the block.
pub proof fn lemma_copy_spells(
    preroll: Seq<u8>,
    done: Seq<u8>,
    cap: int,
    dist: int,
    run: int,
    rest: Seq<u8>,
)
    requires
        0 < cap,
        0 <= run,
        1 <= dist <= tail_cap(preroll + done, cap).len(),
    ensures
        ({
            let bytes = copied(tail_cap(preroll + done, cap), cap, dist, run);
            let data = done + bytes + rest;
            &&& bytes.len() == run
            &&& dist <= preroll.len() + done.len()
            &&& forall|c: int|
                0 <= c < run ==> #[trigger] data[done.len() + c] == (preroll + data)[preroll.len()
                    + done.len() + c - dist]
        }),
{
    let before = preroll + done;
    let w = tail_cap(before, cap);
    let bytes = copied(w, cap, dist, run);
    let data = done + bytes + rest;
    lemma_copied_bytes(w, cap, dist, run);
    assert forall|c: int| 0 <= c < run implies #[trigger] data[done.len() + c] == (preroll
        + data)[preroll.len() + done.len() + c - dist] by {
        assert(data[done.len() + c] == bytes[c]);
        assert(bytes[c] == (w + bytes)[w.len() + c - dist]);
        if c < dist {
            assert(w[w.len() + c - dist] == before[before.len() + c - dist]);
            assert(before[before.len() + c - dist] == (preroll + data)[preroll.len() + done.len()
                + c - dist]);
        } else {
            assert((w + bytes)[w.len() + c - dist] == bytes[c - dist]);
            assert(bytes[c - dist] == data[done.len() + c - dist]);
        }
    }
}

/// What the tokens are decoded to, they spell: where the tokens from the
/// `i`-th on have the bytes `rest` after the history and the bytes
/// `done`, they spell the block `done + rest` from the end of `done` on.
pub proof fn lemma_decoded_spells(
    preroll: Seq<u8>,
    cap: int,
    codes: Seq<Code>,
    i: int,
    done: Seq<u8>,
)
    requires
        0 < cap,
        0 <= i,
        decoded_from(tail_cap(preroll + done, cap), cap, codes, i).1.is_none(),
    ensures
        spells(
            preroll,
            done + decoded_from(tail_cap(preroll + done, cap), cap, codes, i).0,
            codes,
            i,
            done.len() as int,
        ),
    decreases codes.len() - i,
{
    let before = preroll + done;
    let w = tail_cap(before, cap);
    let whole = decoded_from(w, cap, codes, i).0;
    let data = done + whole;
    if i >= codes.len() {
        assert(data =~= done);
    } else {
        let bytes = token_bytes(w, cap, codes[i])->Ok_0;
        let rest = decoded_from(tail_cap(w + bytes, cap), cap, codes, i + 1);
        assert(whole == bytes + rest.0);
        lemma_tail_cap_append(before, bytes, cap);
        assert(before + bytes =~= preroll + (done + bytes));
        lemma_decoded_spells(preroll, cap, codes, i + 1, done + bytes);
        assert((done + bytes) + rest.0 =~= data);
        assert(done + bytes + rest.0 =~= data);
        match codes[i] {
            Code::Literal(b) => {
                assert(bytes.len() == 1);
                assert(data[done.len() as int] == bytes[0]);
            },
            Code::Reference { dist, run_minus_3 } => {
                lemma_copy_spells(preroll, done, cap, dist as int, run_minus_3 as int + 3, rest.0);
            },
        }
        assert(spells(preroll, data, codes, i + 1, done.len() + emitted(codes[i])));
    }
}

/// The reference of a token is among the open ones, with the run that
/// the data lets it have: where the tokens from the `i`-th on spell the
/// block from `data_pos` on and the `i`-th is a reference over no more
/// than 32768, the reference over its distance is open at `data_pos`.
pub proof fn lemma_spelt_reference_is_open(
    preroll: Seq<u8>,
    data: Seq<u8>,
    codes: Seq<Code>,
    i: int,
    data_pos: int,
)
    requires
        0 <= i < codes.len(),
        0 <= data_pos,
        spells(preroll, data, codes, i, data_pos),
        codes[i] matches Code::Reference { dist, .. } && dist <= 32768,
    ensures
        codes[i] matches Code::Reference { dist, .. } && refs_at(preroll, data, data_pos).contains(
            (dist, run_length(preroll, data, data_pos, dist as int) as u16),
        ),
{
    if let Code::Reference { dist, run_minus_3 } = codes[i] {
        let abs = preroll.len() + data_pos;
        assert(data[data_pos + 0] == (preroll + data)[abs + 0 - dist]);
        assert(data[data_pos + 1] == (preroll + data)[abs + 1 - dist]);
        assert(data[data_pos + 2] == (preroll + data)[abs + 2 - dist]);
        lemma_longest_reference_is_open(preroll, data, data_pos, dist as int);
    }
}

/// The bytes that a block stands for after the window `w`, up to the
/// first token that has none, and the error of that token.
pub open spec fn block_bytes(w: Seq<u8>, cap: int, block: Block) -> (Seq<u8>, Option<Error>) {
    match block {
        Block::Uncompressed(bytes) => (bytes@, None),
        Block::FixedHuffman(codes) => decoded_from(w, cap, codes@, 0),
        Block::DynamicHuffman { trees, codes } => decoded_from(w, cap, codes@, 0),
    }
}

/// Appends to `into` and to the window the bytes that a block stands for:
/// those of a stored block as they are, those of a compressed block from
/// its tokens.
pub fn decompressed_block(into: &mut Vec<u8>, dictionary: &mut CircularBuffer, block: &Block) -> (r:
    Result<(), Error>)
    requires
        old(dictionary).wf(),
    ensures
        final(dictionary).wf(),
        final(dictionary).capacity() == old(dictionary).capacity(),
        ({
            let d = block_bytes(old(dictionary).recent(), old(dictionary).capacity(), *block);
            &&& final(into)@ == old(into)@ + d.0
            &&& final(dictionary).recent() == tail_cap(
                old(dictionary).recent() + d.0,
                old(dictionary).capacity(),
            )
            &&& match r {
                Ok(_) => d.1.is_none(),
                Err(e) => d.1 == Some(e),
            }
        }),
{
    match block {
        Block::Uncompressed(bytes) => {
            dictionary.extend(bytes.as_slice());
            into.extend_from_slice(bytes.as_slice());
            Ok(())
        },
        Block::FixedHuffman(codes) => decompressed_codes(into, dictionary, codes.as_slice()),
        Block::DynamicHuffman { trees, codes } => decompressed_codes(
            into,
            dictionary,
            codes.as_slice(),
        ),
    }
}

/// The greatest length symbol from 257 up to `sym` whose shortest run is
/// not above `run`.
pub open spec fn run_symbol(run: int, sym: int) -> int
    decreases sym,
{
    if sym <= 257 || run_base(sym) <= run {
        sym
    } else {
        run_symbol(run, sym - 1)
    }
}

/// The greatest distance symbol up to `sym` whose shortest distance is
/// not above `dist`.
pub open spec fn dist_symbol(dist: int, sym: int) -> int
    decreases sym,
{
    if sym <= 0 || dist_base(sym) <= dist {
        sym
    } else {
        dist_symbol(dist, sym - 1)
    }
}

/// The length symbol of a run and what the bits after it add.
pub fn run_symbol_of(run: u16) -> (r: (u16, u16))
    requires
        3 <= run <= 258,
    ensures
        r.0 == run_symbol(run as int, 285),
        257 <= r.0 <= 285,
        r.1 == run - run_base(r.0 as int),
{
    let mut sym: u16 = 285;
    while sym > 257 && run_parts(sym).0 > run
        invariant
            257 <= sym <= 285,
            run_symbol(run as int, 285) == run_symbol(run as int, sym as int),
        decreases sym,
    {
        sym -= 1;
    }
    (sym, run - run_parts(sym).0)
}

/// The distance symbol of a distance and what the bits after it add.
pub fn dist_symbol_of(dist: u16) -> (r: (u16, u16))
    requires
        1 <= dist,
    ensures
        r.0 == dist_symbol(dist as int, 29),
        r.0 <= 29,
        r.1 == dist - dist_base(r.0 as int),
{
    let mut sym: u16 = 29;
    while sym > 0 && dist_parts(sym).0 > dist
        invariant
            sym <= 29,
            dist_symbol(dist as int, 29) == dist_symbol(dist as int, sym as int),
        decreases sym,
    {
        sym -= 1;
    }
    (sym, dist - dist_parts(sym).0)
}

/// The bits of a token under the codes with the lengths `lit` and `dist`:
/// the code of a literal; for a reference the code of its length symbol,
/// the bits that make up the run, the code of its distance symbol and the
/// bits that make up the distance. None where a symbol has no code or the
/// distance is none from 1 to 32768.
pub open spec fn token_bits(lit: Seq<u8>, dist: Seq<u8>, code: Code) -> Option<Seq<bool>> {
    match code {
        Code::Literal(b) => symbol_bits(lit, b as int),
        Code::Reference { dist: d, run_minus_3 } => {
            let run = run_minus_3 as int + 3;
            let rs = run_symbol(run, 285);
            let ds = dist_symbol(d as int, 29);
            if d == 0 || d > 32768 {
                None
            } else {
                match (symbol_bits(lit, rs), symbol_bits(dist, ds)) {
                    (Some(a), Some(b)) => Some(
                        a + low_bits((run - run_base(rs)) as u16, run_extra_bits(rs)) + b
                            + low_bits((d - dist_base(ds)) as u16, dist_extra_bits(ds)),
                    ),
                    _ => None,
                }
            }
        },
    }
}

/// Writes one token. `InvalidSymbol`, and nothing written, where it has
/// no bits under these codes.
pub fn write_token(lit: &CodeTree, dist: &CodeTree, writer: &mut BitWriter, code: &Code) -> (r:
    Result<(), Error>)
    requires
        lit.wf(),
        dist.wf(),
        old(writer).wf(),
    ensures
        final(writer).wf(),
        match (r, token_bits(lit.lens(), dist.lens(), *code)) {
            (Ok(_), Some(bits)) => final(writer).written() == old(writer).written() + bits,
            (Err(e), None) => e == Error::InvalidSymbol && final(writer).written() == old(
                writer,
            ).written(),
            _ => false,
        },
{
    let ghost start = writer.written();
    match *code {
        Code::Literal(byte) => {
            if !lit.has_code(byte as u16) {
                return Err(Error::InvalidSymbol);
            }
            lit.encode(byte as u16, writer);
            Ok(())
        },
        Code::Reference { dist: d, run_minus_3 } => {
            if d == 0 || d > 32768 {
                return Err(Error::InvalidSymbol);
            }
            let (rs, extra) = run_symbol_of(run_minus_3 as u16 + 3);
            let (ds, dextra) = dist_symbol_of(d);
            if !lit.has_code(rs) || !dist.has_code(ds) {
                return Err(Error::InvalidSymbol);
            }
            let ghost a = symbol_bits(lit.lens(), rs as int)->Some_0;
            let ghost b = symbol_bits(dist.lens(), ds as int)->Some_0;
            let ghost ea = low_bits(extra, run_extra_bits(rs as int));
            let ghost eb = low_bits(dextra, dist_extra_bits(ds as int));
            lit.encode(rs, writer);
            writer.write_bits(extra, run_parts(rs).1);
            dist.encode(ds, writer);
            writer.write_bits(dextra, dist_parts(ds).1);
            assert(writer.written() =~= start + (a + ea + b + eb));
            Ok(())
        },
    }
}

/// The bits of the tokens from the `i`-th on and of the end-of-block
/// symbol after them, up to the first that has none, and whether all of
/// them have bits.
pub open spec fn tokens_bits(lit: Seq<u8>, dist: Seq<u8>, codes: Seq<Code>, i: int) -> (
    Seq<bool>,
    bool,
)
    decreases codes.len() - i,
{
    if i >= codes.len() {
        match symbol_bits(lit, 256) {
            Some(end) => (end, true),
            None => (Seq::empty(), false),
        }
    } else {
        match token_bits(lit, dist, codes[i]) {
            None => (Seq::empty(), false),
            Some(bits) => {
                let rest = tokens_bits(lit, dist, codes, i + 1);
                (bits + rest.0, rest.1)
            },
        }
    }
}

/// Writes the tokens of a block and the end-of-block symbol after them.
/// `InvalidSymbol` at the first that has no bits under these codes, those
/// before it written.
pub fn compressed_codes(lit: &CodeTree, dist: &CodeTree, writer: &mut BitWriter, codes: &[Code]) -> (r:
    Result<(), Error>)
    requires
        lit.wf(),
        dist.wf(),
        old(writer).wf(),
    ensures
        final(writer).wf(),
        final(writer).written() == old(writer).written() + tokens_bits(
            lit.lens(),
            dist.lens(),
            codes@,
            0,
        ).0,
        match r {
            Ok(_) => tokens_bits(lit.lens(), dist.lens(), codes@, 0).1,
            Err(e) => e == Error::InvalidSymbol && !tokens_bits(lit.lens(), dist.lens(), codes@, 0).1,
        },
{
    let ghost start = writer.written();
    let ghost whole = tokens_bits(lit.lens(), dist.lens(), codes@, 0);
    let ghost done = Seq::<bool>::empty();
    let mut i: usize = 0;
    assert(start + done =~= start);
    assert(done + whole.0 =~= whole.0);
    while i < codes.len()
        invariant
            i <= codes@.len(),
            lit.wf(),
            dist.wf(),
            writer.wf(),
            start == old(writer).written(),
            whole == tokens_bits(lit.lens(), dist.lens(), codes@, 0),
            writer.written() == start + done,
            whole.0 == done + tokens_bits(lit.lens(), dist.lens(), codes@, i as int).0,
            whole.1 == tokens_bits(lit.lens(), dist.lens(), codes@, i as int).1,
        decreases codes@.len() - i,
    {
        match write_token(lit, dist, writer, &codes[i]) {
            Ok(_) => {},
            Err(e) => {
                assert(done + Seq::<bool>::empty() =~= done);
                return Err(e);
            },
        }
        proof {
            let bits = token_bits(lit.lens(), dist.lens(), codes@[i as int])->Some_0;
            let rest = tokens_bits(lit.lens(), dist.lens(), codes@, i + 1);
            assert(done + (bits + rest.0) =~= (done + bits) + rest.0);
            assert(start + done + bits =~= start + (done + bits));
            done = done + bits;
        }
        i += 1;
    }
    if !lit.has_code(256) {
        assert(done + Seq::<bool>::empty() =~= done);
        return Err(Error::InvalidSymbol);
    }
    lit.encode(256, writer);
    proof {
        let end = symbol_bits(lit.lens(), 256)->Some_0;
        assert(start + done + end =~= start + (done + end));
    }
    Ok(())
}

/// The bits of the first `n` bytes, eight for each, the lowest first.
pub open spec fn bytes_bits(bytes: Seq<u8>, n: int) -> Seq<bool>
    decreases n,
{
    if n <= 0 {
        Seq::empty()
    } else {
        bytes_bits(bytes, n - 1) + low_bits(bytes[n - 1] as u16, 8)
    }
}

/// The bits of a block after `before` bits of the stream, without the bit
/// that says whether it is the last, and the error where it has none:
/// two bits for its kind; for a stored block bits that are not set up to
/// the next byte, the length, the length with every bit turned, and the
/// bytes; for a block with the fixed codes its tokens; for one with its
/// own codes its header as it was read, and its tokens under the codes of
/// that header. `InvalidSymbol` for a stored block of more than 65535
/// bytes and for a token without bits, of which those before it are
/// written; the error of the header where it gives no codes.
pub open spec fn block_bits(before: int, block: Block) -> (Seq<bool>, Option<Error>) {
    match block {
        Block::Uncompressed(bytes) => if bytes@.len() > 65535 {
            (Seq::empty(), Some(Error::InvalidSymbol))
        } else {
            (
                low_bits(0, 2) + zero_bits(aligned(before + 2) - (before + 2)) + low_bits(
                    bytes@.len() as u16,
                    16,
                ) + low_bits((65535 - bytes@.len()) as u16, 16) + bytes_bits(
                    bytes@,
                    bytes@.len() as int,
                ),
                None,
            )
        },
        Block::FixedHuffman(codes) => {
            let t = tokens_bits(fixed_lit_lengths(), fixed_dist_lengths(), codes@, 0);
            (
                low_bits(1, 2) + t.0,
                if t.1 {
                    None
                } else {
                    Some(Error::InvalidSymbol)
                },
            )
        },
        Block::DynamicHuffman { trees, codes } => match header_at(packed(trees@), 0) {
            Err(e) => (Seq::empty(), Some(e)),
            Ok((lit, dist, _)) => {
                let t = tokens_bits(lit, dist, codes@, 0);
                (
                    low_bits(2, 2) + trees@ + t.0,
                    if t.1 {
                        None
                    } else {
                        Some(Error::InvalidSymbol)
                    },
                )
            },
        },
    }
}

/// Writes each bit of a list.
fn write_all(writer: &mut BitWriter, bits: &Vec<bool>)
    requires
        old(writer).wf(),
    ensures
        final(writer).wf(),
        final(writer).written() == old(writer).written() + bits@,
{
    let ghost start = writer.written();
    let mut i: usize = 0;
    assert(start + bits@.subrange(0, 0) =~= start);
    while i < bits.len()
        invariant
            i <= bits@.len(),
            writer.wf(),
            writer.written() == start + bits@.subrange(0, i as int),
        decreases bits@.len() - i,
    {
        writer.write_bit(bits[i]);
        assert(writer.written() =~= start + bits@.subrange(0, i + 1));
        i += 1;
    }
    assert(bits@.subrange(0, i as int) =~= bits@);
}

/// Writes a block, without the bit that says whether it is the last.
pub fn compressed_block(writer: &mut BitWriter, block: &Block) -> (r: Result<(), Error>)
    requires
        old(writer).wf(),
    ensures
        final(writer).wf(),
        ({
            let want = block_bits(old(writer).written().len() as int, *block);
            &&& final(writer).written() == old(writer).written() + want.0
            &&& match r {
                Ok(_) => want.1.is_none(),
                Err(e) => want.1 == Some(e),
            }
        }),
{
    let ghost start = writer.written();
    match block {
        Block::Uncompressed(bytes) => {
            if bytes.len() > 65535 {
                assert(start + Seq::<bool>::empty() =~= start);
                return Err(Error::InvalidSymbol);
            }
            let len = bytes.len() as u16;
            writer.write_bits(0, 2);
            writer.align();
            writer.write_bits(len, 16);
            writer.write_bits(65535 - len, 16);
            let ghost head = writer.written();
            let mut i: usize = 0;
            assert(head + bytes_bits(bytes@, 0) =~= head);
            while i < bytes.len()
                invariant
                    i <= bytes@.len(),
                    writer.wf(),
                    writer.written() == head + bytes_bits(bytes@, i as int),
                decreases bytes@.len() - i,
            {
                writer.write_bits(bytes[i] as u16, 8);
                assert(writer.written() =~= head + bytes_bits(bytes@, i + 1));
                i += 1;
            }
            assert(writer.written() =~= start + block_bits(start.len() as int, *block).0);
            Ok(())
        },
        Block::FixedHuffman(codes) => {
            let (lit, dist) = fixed_trees();
            writer.write_bits(1, 2);
            let r = compressed_codes(&lit, &dist, writer, codes.as_slice());
            assert(writer.written() =~= start + block_bits(start.len() as int, *block).0);
            r
        },
        Block::DynamicHuffman { trees, codes } => {
            let mut header = BitWriter::new();
            write_all(&mut header, trees);
            assert(header.written() =~= trees@);
            let bytes = header.into_inner();
            let mut reader = BitReader::new(bytes.as_slice());
            let (lit, dist) = match read_header(&mut reader) {
                Ok(t) => t,
                Err(e) => {
                    assert(start + Seq::<bool>::empty() =~= start);
                    return Err(e);
                },
            };
            writer.write_bits(2, 2);
            write_all(writer, trees);
            let r = compressed_codes(&lit, &dist, writer, codes.as_slice());
            assert(writer.written() =~= start + block_bits(start.len() as int, *block).0);
            r
        },
    }
}

} // verus!
