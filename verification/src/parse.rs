//! From the bits of a compressed stream to its blocks and their tokens.

use vstd::prelude::*;
use vstd::arithmetic::power2::{lemma2_to64, lemma_pow2_unfold, pow2};
use crate::bit::{aligned, bit_at, bits_value, lemma_bits_value_bound, BitReader};
use crate::huffman::{
    count_len, decoded_symbol, first_code, lemma_find_symbol_bounds, valid_lengths, CodeTree,
};
use crate::{emitted, Block, Code, Error};

verus! {

/// How many bits follow the length symbol `sym` to make up the run.
pub open spec fn run_extra_bits(sym: int) -> int
    recommends
        257 <= sym <= 285,
{
    if sym <= 264 || sym >= 285 {
        0
    } else {
        (sym - 261) / 4
    }
}

/// The shortest run that the length symbol `sym` stands for.
pub open spec fn run_base(sym: int) -> int
    recommends
        257 <= sym <= 285,
{
    if sym <= 264 {
        sym - 254
    } else if sym <= 268 {
        11 + 2 * (sym - 265)
    } else if sym <= 272 {
        19 + 4 * (sym - 269)
    } else if sym <= 276 {
        35 + 8 * (sym - 273)
    } else if sym <= 280 {
        67 + 16 * (sym - 277)
    } else if sym <= 284 {
        131 + 32 * (sym - 281)
    } else {
        258
    }
}

/// How many bits follow the distance symbol `sym` to make up the
/// distance.
pub open spec fn dist_extra_bits(sym: int) -> int
    recommends
        0 <= sym <= 29,
{
    if sym < 4 {
        0
    } else {
        sym / 2 - 1
    }
}

/// The shortest distance that the distance symbol `sym` stands for.
pub open spec fn dist_base(sym: int) -> int
    recommends
        0 <= sym <= 29,
{
    if sym < 4 {
        sym + 1
    } else {
        1 + (2 + sym % 2) * pow2((sym / 2 - 1) as nat)
    }
}

/// The shortest run of a length symbol and the number of bits that follow
/// it.
pub fn run_parts(sym: u16) -> (r: (u16, u8))
    requires
        257 <= sym <= 285,
    ensures
        r.0 == run_base(sym as int),
        r.1 == run_extra_bits(sym as int),
        r.1 <= 5,
{
    if sym <= 264 {
        (sym - 254, 0)
    } else if sym <= 268 {
        (11 + 2 * (sym - 265), 1)
    } else if sym <= 272 {
        (19 + 4 * (sym - 269), 2)
    } else if sym <= 276 {
        (35 + 8 * (sym - 273), 3)
    } else if sym <= 280 {
        (67 + 16 * (sym - 277), 4)
    } else if sym <= 284 {
        (131 + 32 * (sym - 281), 5)
    } else {
        (258, 0)
    }
}

/// The shortest distance of a distance symbol and the number of bits that
/// follow it.
pub fn dist_parts(sym: u16) -> (r: (u16, u8))
    requires
        sym <= 29,
    ensures
        r.0 == dist_base(sym as int),
        r.1 == dist_extra_bits(sym as int),
        r.1 <= 13,
        r.0 + pow2(r.1 as nat) <= 32769,
{
    proof {
        lemma2_to64();
    }
    if sym < 4 {
        (sym + 1, 0)
    } else {
        let extra: u8 = (sym / 2 - 1) as u8;
        let mut span: u16 = 1;
        let mut i: u8 = 0;
        while i < extra
            invariant
                i <= extra <= 13,
                span == pow2(i as nat),
                span <= 8192,
            decreases extra - i,
        {
            proof {
                lemma2_to64();
                lemma_pow2_unfold((i + 1) as nat);
                if i + 1 < 13 {
                    vstd::arithmetic::power2::lemma_pow2_strictly_increases((i + 1) as nat, 13);
                }
            }
            span = span * 2;
            i += 1;
        }
        let odd = sym % 2 == 1;
        let ghost p = pow2(extra as nat) as int;
        let ghost m = (sym % 2) as int;
        proof {
            lemma2_to64();
            if odd {
                assert((2 + m) * p == p + p + p) by (nonlinear_arith)
                    requires
                        m == 1,
                ;
            } else {
                assert((2 + m) * p == p + p) by (nonlinear_arith)
                    requires
                        m == 0,
                ;
            }
            if extra < 13 {
                vstd::arithmetic::power2::lemma_pow2_strictly_increases(extra as nat, 13);
            }
        }
        let top: u16 = if odd {
            span + span + span
        } else {
            span + span
        };
        (1 + top, extra)
    }
}

/// The number that `n` bits at `pos` spell and the place after them;
/// `Truncated` where fewer are left.
pub open spec fn grab(bytes: Seq<u8>, pos: int, n: int) -> Result<(int, int), Error> {
    if 0 <= pos && pos + n <= 8 * bytes.len() {
        Ok((bits_value(bytes, pos, n), pos + n))
    } else {
        Err(Error::Truncated)
    }
}

/// The token that stands at `pos` under the codes with the lengths `lit`
/// and `dist`, `seen` bytes having been emitted before it, and the place
/// after it; no token for the end of the block. `InvalidSymbol` for a
/// length symbol above 285 or a distance symbol above 29,
/// `InvalidDistance` for a distance beyond what was emitted.
pub open spec fn token_at(lit: Seq<u8>, dist: Seq<u8>, bytes: Seq<u8>, pos: int, seen: int) -> Result<
    (Option<Code>, int),
    Error,
> {
    match decoded_symbol(lit, bytes, pos, 0, 0) {
        (Err(e), _) => Err(e),
        (Ok(sym), pa) => if sym < 256 {
            Ok((Some(Code::Literal(sym as u8)), pa))
        } else if sym == 256 {
            Ok((None, pa))
        } else if sym > 285 {
            Err(Error::InvalidSymbol)
        } else {
            match grab(bytes, pa, run_extra_bits(sym)) {
                Err(e) => Err(e),
                Ok((extra, pb)) => match decoded_symbol(dist, bytes, pb, 0, 0) {
                    (Err(e), _) => Err(e),
                    (Ok(dsym), pc) => if dsym > 29 {
                        Err(Error::InvalidSymbol)
                    } else {
                        match grab(bytes, pc, dist_extra_bits(dsym)) {
                            Err(e) => Err(e),
                            Ok((dextra, pd)) => if dist_base(dsym) + dextra > seen {
                                Err(Error::InvalidDistance)
                            } else {
                                Ok(
                                    (
                                        Some(
                                            Code::Reference {
                                                dist: (dist_base(dsym) + dextra) as u16,
                                                run_minus_3: (run_base(sym) + extra - 3) as u8,
                                            },
                                        ),
                                        pd,
                                    ),
                                )
                            },
                        }
                    },
                },
            }
        },
    }
}

/// A symbol that was read took at least one bit and ended inside the
/// stream.
pub proof fn lemma_decoded_symbol_advances(
    lens: Seq<u8>,
    bytes: Seq<u8>,
    pos: int,
    l: int,
    acc: int,
)
    requires
        0 <= l,
    ensures
        decoded_symbol(lens, bytes, pos, l, acc).0 matches Ok(s) ==> pos < decoded_symbol(
            lens,
            bytes,
            pos,
            l,
            acc,
        ).1 <= 8 * bytes.len() && 0 <= s < lens.len(),
    decreases 15 - l,
{
    if l < 15 && 0 <= pos < 8 * bytes.len() {
        let next = 2 * acc + if crate::bit::bit_at(bytes, pos) {
            1int
        } else {
            0int
        };
        lemma_find_symbol_bounds(lens, l + 1, next, 0);
        lemma_decoded_symbol_advances(lens, bytes, pos + 1, l + 1, next);
    }
}

/// A token that was read took at least one bit and ended inside the
/// stream.
pub proof fn lemma_token_advances(lit: Seq<u8>, dist: Seq<u8>, bytes: Seq<u8>, pos: int, seen: int)
    ensures
        token_at(lit, dist, bytes, pos, seen) matches Ok(t) ==> pos < t.1 <= 8 * bytes.len(),
{
    lemma_decoded_symbol_advances(lit, bytes, pos, 0, 0);
    let first = decoded_symbol(lit, bytes, pos, 0, 0);
    if let Ok(sym) = first.0 {
        if 256 < sym <= 285 {
            if let Ok(g) = grab(bytes, first.1, run_extra_bits(sym)) {
                lemma_decoded_symbol_advances(dist, bytes, g.1, 0, 0);
            }
        }
    }
}

/// Reads one token; `None` at the end of the block.
fn read_token(lit: &CodeTree, dist: &CodeTree, reader: &mut BitReader, seen: usize) -> (r:
    Result<Option<Code>, Error>)
    requires
        lit.wf(),
        dist.wf(),
        old(reader).wf(),
    ensures
        final(reader).wf(),
        final(reader).source() == old(reader).source(),
        match (
            r,
            token_at(
                lit.lens(),
                dist.lens(),
                old(reader).source(),
                old(reader).position(),
                seen as int,
            ),
        ) {
            (Ok(c), Ok(w)) => c == w.0 && final(reader).position() == w.1,
            (Err(e), Err(f)) => e == f,
            _ => false,
        },
{
    proof {
        lemma2_to64();
        reader.lemma_position_bounds();
    }
    let sym = match lit.decode(reader) {
        Ok(s) => s,
        Err(e) => {
            return Err(e);
        },
    };
    if sym < 256 {
        return Ok(Some(Code::Literal(sym as u8)));
    }
    if sym == 256 {
        return Ok(None);
    }
    if sym > 285 {
        return Err(Error::InvalidSymbol);
    }
    let (base, extra_bits) = run_parts(sym);
    let ghost pa = reader.position();
    proof {
        reader.lemma_position_bounds();
        lemma_bits_value_bound(reader.source(), pa, extra_bits as int);
    }
    let extra = match reader.read_bits(extra_bits) {
        Ok(v) => v,
        Err(e) => {
            return Err(e);
        },
    };
    let run = base + extra;
    let dsym = match dist.decode(reader) {
        Ok(s) => s,
        Err(e) => {
            return Err(e);
        },
    };
    if dsym > 29 {
        return Err(Error::InvalidSymbol);
    }
    let (dbase, dextra_bits) = dist_parts(dsym);
    proof {
        reader.lemma_position_bounds();
        lemma_bits_value_bound(reader.source(), reader.position(), dextra_bits as int);
    }
    let dextra = match reader.read_bits(dextra_bits) {
        Ok(v) => v,
        Err(e) => {
            return Err(e);
        },
    };
    let d = dbase + dextra;
    if d as usize > seen {
        return Err(Error::InvalidDistance);
    }
    Ok(Some(Code::Reference { dist: d, run_minus_3: (run - 3) as u8 }))
}

/// How many bits of the stream stand at `pos` and after it.
pub open spec fn bits_left(bytes: Seq<u8>, pos: int) -> nat {
    if 0 <= pos <= 8 * bytes.len() {
        (8 * bytes.len() - pos) as nat
    } else {
        0
    }
}

/// The number of bytes emitted, as far as a reference can reach.
pub open spec fn capped(seen: int) -> int {
    if seen > 32768 {
        32768
    } else {
        seen
    }
}

/// The tokens from `pos` up to the end of the block, the place after
/// the end-of-block symbol, and the number of bytes emitted by then.
pub open spec fn tokens_from(lit: Seq<u8>, dist: Seq<u8>, bytes: Seq<u8>, pos: int, seen: int) -> Result<
    (Seq<Code>, int, int),
    Error,
>
    decreases bits_left(bytes, pos),
    via tokens_from_decreases
{
    match token_at(lit, dist, bytes, pos, seen) {
        Err(e) => Err(e),
        Ok((None, p)) => Ok((Seq::empty(), p, seen)),
        Ok((Some(code), p)) => match tokens_from(
            lit,
            dist,
            bytes,
            p,
            capped(seen + emitted(code)),
        ) {
            Err(e) => Err(e),
            Ok((rest, q, s)) => Ok((seq![code] + rest, q, s)),
        },
    }
}

#[via_fn]
proof fn tokens_from_decreases(lit: Seq<u8>, dist: Seq<u8>, bytes: Seq<u8>, pos: int, seen: int) {
    lemma_token_advances(lit, dist, bytes, pos, seen);
}

/// `codes` in front of the tokens that `rest` holds.
pub open spec fn tokens_then(codes: Seq<Code>, rest: Result<(Seq<Code>, int, int), Error>) -> Result<
    (Seq<Code>, int, int),
    Error,
> {
    match rest {
        Ok((r, q, s)) => Ok((codes + r, q, s)),
        Err(e) => Err(e),
    }
}

/// Reads the tokens of a block up to its end-of-block symbol and counts
/// in `seen` the bytes they emit, as far as a reference can reach.
pub(crate) fn read_tokens(lit: &CodeTree, dist: &CodeTree, reader: &mut BitReader, seen: &mut usize) -> (r:
    Result<Vec<Code>, Error>)
    requires
        lit.wf(),
        dist.wf(),
        old(reader).wf(),
        *old(seen) <= 32768,
    ensures
        final(reader).wf(),
        final(reader).source() == old(reader).source(),
        *final(seen) <= 32768,
        match (
            r,
            tokens_from(
                lit.lens(),
                dist.lens(),
                old(reader).source(),
                old(reader).position(),
                *old(seen) as int,
            ),
        ) {
            (Ok(v), Ok(w)) => v@ == w.0 && final(reader).position() == w.1 && *final(seen) == w.2,
            (Err(e), Err(f)) => e == f,
            _ => false,
        },
{
    let mut codes: Vec<Code> = Vec::new();
    let ghost bytes = reader.source();
    let ghost whole = tokens_from(
        lit.lens(),
        dist.lens(),
        bytes,
        reader.position(),
        *seen as int,
    );
    proof {
        if let Ok(w) = whole {
            assert(Seq::<Code>::empty() + w.0 =~= w.0);
        }
    }
    loop
        invariant
            lit.wf(),
            dist.wf(),
            reader.wf(),
            reader.source() == bytes,
            bytes == old(reader).source(),
            *seen <= 32768,
            whole == tokens_from(
                lit.lens(),
                dist.lens(),
                bytes,
                old(reader).position(),
                *old(seen) as int,
            ),
            whole == tokens_then(
                codes@,
                tokens_from(lit.lens(), dist.lens(), bytes, reader.position(), *seen as int),
            ),
        decreases bits_left(bytes, reader.position()),
    {
        let ghost pos = reader.position();
        let ghost before = codes@;
        proof {
            lemma_token_advances(lit.lens(), dist.lens(), bytes, pos, *seen as int);
            reader.lemma_position_bounds();
        }
        match read_token(lit, dist, reader, *seen) {
            Err(e) => {
                return Err(e);
            },
            Ok(None) => {
                proof {
                    assert(before + Seq::<Code>::empty() =~= before);
                }
                return Ok(codes);
            },
            Ok(Some(code)) => {
                let n = code.emitted_bytes() as usize;
                *seen = if *seen + n > 32768 {
                    32768
                } else {
                    *seen + n
                };
                codes.push(code);
                proof {
                    let rest = tokens_from(
                        lit.lens(),
                        dist.lens(),
                        bytes,
                        reader.position(),
                        *seen as int,
                    );
                    if let Ok(w) = rest {
                        assert(before + (seq![code] + w.0) =~= codes@ + w.0);
                    }
                }
            },
        }
    }
}

/// The code lengths of the literals and lengths in a block with fixed
/// codes.
pub open spec fn fixed_lit_lengths() -> Seq<u8> {
    Seq::new(
        288,
        |i: int|
            if i < 144 {
                8u8
            } else if i < 256 {
                9u8
            } else if i < 280 {
                7u8
            } else {
                8u8
            },
    )
}

/// The code lengths of the distances in a block with fixed codes.
pub open spec fn fixed_dist_lengths() -> Seq<u8> {
    Seq::new(32, |i: int| 5u8)
}

/// Over a stretch of symbols that all have the length `c`, the count of
/// `c` goes up by the stretch and no other count moves.
pub proof fn lemma_count_len_stretch(lens: Seq<u8>, l: int, a: int, b: int, c: int)
    requires
        0 <= a <= b <= lens.len(),
        forall|i: int| a <= i < b ==> lens[i] == c,
    ensures
        count_len(lens, l, b) == count_len(lens, l, a) + if l == c {
            b - a
        } else {
            0
        },
    decreases b - a,
{
    if a < b {
        lemma_count_len_stretch(lens, l, a, b - 1, c);
    }
}

/// The fixed code lengths make codes.
pub proof fn lemma_fixed_lengths_valid()
    ensures
        valid_lengths(fixed_lit_lengths()),
        valid_lengths(fixed_dist_lengths()),
{
    let lit = fixed_lit_lengths();
    let dist = fixed_dist_lengths();
    lemma2_to64();
    reveal_with_fuel(first_code, 16);
    assert forall|l: int| 0 <= l <= 15 implies #[trigger] count_len(lit, l, 288) == (if l == 7 {
        24int
    } else if l == 8 {
        152
    } else if l == 9 {
        112
    } else {
        0
    }) by {
        lemma_count_len_stretch(lit, l, 0, 144, 8);
        lemma_count_len_stretch(lit, l, 144, 256, 9);
        lemma_count_len_stretch(lit, l, 256, 280, 7);
        lemma_count_len_stretch(lit, l, 280, 288, 8);
    }
    assert forall|l: int| 0 <= l <= 15 implies #[trigger] count_len(dist, l, 32) == (if l == 5 {
        32int
    } else {
        0
    }) by {
        lemma_count_len_stretch(dist, l, 0, 32, 5);
    }
    assert(count_len(lit, 1, 288) == 0);
    assert(count_len(lit, 2, 288) == 0);
    assert(count_len(lit, 3, 288) == 0);
    assert(count_len(lit, 4, 288) == 0);
    assert(count_len(lit, 5, 288) == 0);
    assert(count_len(lit, 6, 288) == 0);
    assert(count_len(lit, 7, 288) == 24);
    assert(count_len(lit, 8, 288) == 152);
    assert(count_len(lit, 9, 288) == 112);
    assert(count_len(lit, 10, 288) == 0);
    assert(count_len(lit, 11, 288) == 0);
    assert(count_len(lit, 12, 288) == 0);
    assert(count_len(lit, 13, 288) == 0);
    assert(count_len(lit, 14, 288) == 0);
    assert(count_len(lit, 15, 288) == 0);
    assert(first_code(lit, 15) == 32768);
    assert(count_len(dist, 1, 32) == 0);
    assert(count_len(dist, 2, 32) == 0);
    assert(count_len(dist, 3, 32) == 0);
    assert(count_len(dist, 4, 32) == 0);
    assert(count_len(dist, 5, 32) == 32);
    assert(count_len(dist, 6, 32) == 0);
    assert(count_len(dist, 7, 32) == 0);
    assert(count_len(dist, 8, 32) == 0);
    assert(count_len(dist, 9, 32) == 0);
    assert(count_len(dist, 10, 32) == 0);
    assert(count_len(dist, 11, 32) == 0);
    assert(count_len(dist, 12, 32) == 0);
    assert(count_len(dist, 13, 32) == 0);
    assert(count_len(dist, 14, 32) == 0);
    assert(count_len(dist, 15, 32) == 0);
    assert(first_code(dist, 15) == 32768);
    assert(count_len(lit, 0, 288) == 0);
    assert(count_len(dist, 0, 32) == 0);
}

/// The trees of a block with fixed codes: that of the literals and
/// lengths, and that of the distances.
pub fn fixed_trees() -> (r: (CodeTree, CodeTree))
    ensures
        r.0.wf(),
        r.1.wf(),
        r.0.lens() == fixed_lit_lengths(),
        r.1.lens() == fixed_dist_lengths(),
{
    let mut lit: Vec<u8> = Vec::with_capacity(288);
    let mut i: usize = 0;
    while i < 288
        invariant
            i <= 288,
            lit@.len() == i,
            forall|k: int| 0 <= k < i ==> lit@[k] == fixed_lit_lengths()[k],
        decreases 288 - i,
    {
        lit.push(
            if i < 144 {
                8
            } else if i < 256 {
                9
            } else if i < 280 {
                7
            } else {
                8
            },
        );
        i += 1;
    }
    let dist: Vec<u8> = vec![5u8; 32];
    assert(lit@ =~= fixed_lit_lengths());
    assert(dist@ =~= fixed_dist_lengths());
    proof {
        lemma_fixed_lengths_valid();
    }
    let lit_tree = match CodeTree::new(lit.as_slice()) {
        Ok(t) => t,
        Err(_) => vstd::pervasive::unreached(),
    };
    let dist_tree = match CodeTree::new(dist.as_slice()) {
        Ok(t) => t,
        Err(_) => vstd::pervasive::unreached(),
    };
    (lit_tree, dist_tree)
}

/// The payload of a stored block whose header starts at the first whole
/// byte at or after `pos`, and the place after it: a length of 16 bits,
/// the same with every bit turned, and that many bytes. `InvalidSymbol`
/// where the two lengths do not agree.
pub open spec fn stored_at(bytes: Seq<u8>, pos: int) -> Result<(Seq<u8>, int), Error> {
    match grab(bytes, aligned(pos), 16) {
        Err(e) => Err(e),
        Ok((len, pa)) => match grab(bytes, pa, 16) {
            Err(e) => Err(e),
            Ok((nlen, pb)) => if len + nlen != 65535 {
                Err(Error::InvalidSymbol)
            } else if pb + 8 * len > 8 * bytes.len() {
                Err(Error::Truncated)
            } else {
                Ok((Seq::new(len as nat, |i: int| bits_value(bytes, pb + 8 * i, 8) as u8), pb + 8 * len))
            },
        },
    }
}

/// Reads the payload of a stored block.
fn read_stored(reader: &mut BitReader) -> (r: Result<Vec<u8>, Error>)
    requires
        old(reader).wf(),
    ensures
        final(reader).wf(),
        final(reader).source() == old(reader).source(),
        match (r, stored_at(old(reader).source(), old(reader).position())) {
            (Ok(v), Ok(w)) => v@ == w.0 && final(reader).position() == w.1,
            (Err(e), Err(f)) => e == f,
            _ => false,
        },
{
    let ghost bytes = reader.source();
    proof {
        reader.lemma_position_bounds();
        lemma2_to64();
    }
    reader.align();
    proof {
        reader.lemma_position_bounds();
        lemma_bits_value_bound(bytes, reader.position(), 16);
    }
    let len = match reader.read_bits(16) {
        Ok(v) => v,
        Err(e) => {
            return Err(e);
        },
    };
    proof {
        lemma_bits_value_bound(bytes, reader.position(), 16);
    }
    let nlen = match reader.read_bits(16) {
        Ok(v) => v,
        Err(e) => {
            return Err(e);
        },
    };
    if len as u32 + nlen as u32 != 65535 {
        return Err(Error::InvalidSymbol);
    }
    let ghost pb = reader.position();
    let ghost want = stored_at(bytes, old(reader).position());
    let mut payload: Vec<u8> = Vec::with_capacity(len as usize);
    let mut i: u16 = 0;
    while i < len
        invariant
            i <= len,
            want == stored_at(bytes, old(reader).position()),
            want == (if pb + 8 * len > 8 * bytes.len() {
                Err::<(Seq<u8>, int), Error>(Error::Truncated)
            } else {
                Ok(
                    (
                        Seq::new(len as nat, |i: int| bits_value(bytes, pb + 8 * i, 8) as u8),
                        pb + 8 * len,
                    ),
                )
            }),
            reader.wf(),
            reader.source() == bytes,
            bytes == old(reader).source(),
            reader.position() == pb + 8 * i,
            0 <= pb,
            payload@.len() == i,
            forall|k: int| 0 <= k < i ==> payload@[k] == bits_value(bytes, pb + 8 * k, 8) as u8,
        decreases len - i,
    {
        proof {
            lemma2_to64();
            lemma_bits_value_bound(bytes, reader.position(), 8);
        }
        let b = match reader.read_bits(8) {
            Ok(v) => v,
            Err(e) => {
                return Err(e);
            },
        };
        payload.push(b as u8);
        i += 1;
    }
    proof {
        reader.lemma_position_bounds();
        assert(payload@ =~= Seq::new(len as nat, |i: int| bits_value(bytes, pb + 8 * i, 8) as u8));
    }
    Ok(payload)
}

/// The symbols that spell code lengths, in the order in which a block's
/// header gives their own code lengths.
pub open spec fn cl_order_table() -> Seq<int> {
    seq![16int, 17, 18, 0, 8, 7, 9, 6, 10, 5, 11, 4, 12, 3, 13, 2, 14, 1, 15]
}

/// The symbol whose code length stands at place `i` of a block's header.
pub open spec fn cl_order(i: int) -> int
    recommends
        0 <= i < 19,
{
    cl_order_table()[i]
}

/// The symbol whose code length stands at place `i` of a block's header.
pub fn cl_order_at(i: usize) -> (r: usize)
    requires
        i < 19,
    ensures
        r == cl_order(i as int),
        r < 19,
{
    if i < 3 {
        16 + i
    } else if i == 3 {
        0
    } else if i % 2 == 0 {
        6 + i / 2
    } else {
        9 - i / 2
    }
}

/// The code lengths of the 19 symbols that spell code lengths, the first
/// `n` of them, in the order of the header, read from `pos` on with three
/// bits each, the others 0.
pub open spec fn cl_lengths(bytes: Seq<u8>, pos: int, n: int) -> Seq<u8>
    decreases n,
{
    if n <= 0 {
        Seq::new(19, |i: int| 0u8)
    } else {
        cl_lengths(bytes, pos, n - 1).update(
            cl_order(n - 1),
            bits_value(bytes, pos + 3 * (n - 1), 3) as u8,
        )
    }
}

/// `n` times the length `v`.
pub open spec fn repeated(v: u8, n: int) -> Seq<u8> {
    Seq::new(n as nat, |i: int| v)
}

/// What a symbol from 16 to 18 adds to the code lengths `have`: the
/// length to repeat, how often, and the place after the bits that say
/// so. 16 repeats the length before it 3 to 6 times, 17 gives 3 to 10
/// zeros and 18 gives 11 to 138. `InvalidCodeTable` where 16 comes
/// first.
pub open spec fn run_at(bytes: Seq<u8>, pos: int, sym: int, have: Seq<u8>) -> Result<
    (u8, int, int),
    Error,
> {
    if sym == 16 {
        if have.len() == 0 {
            Err(Error::InvalidCodeTable)
        } else {
            match grab(bytes, pos, 2) {
                Err(e) => Err(e),
                Ok((x, p)) => Ok((have.last(), 3 + x, p)),
            }
        }
    } else if sym == 17 {
        match grab(bytes, pos, 3) {
            Err(e) => Err(e),
            Ok((x, p)) => Ok((0u8, 3 + x, p)),
        }
    } else {
        match grab(bytes, pos, 7) {
            Err(e) => Err(e),
            Ok((x, p)) => Ok((0u8, 11 + x, p)),
        }
    }
}

/// A run adds between 3 and 138 lengths and ends inside the stream.
pub proof fn lemma_run_at_bounds(bytes: Seq<u8>, pos: int, sym: int, have: Seq<u8>)
    ensures
        run_at(bytes, pos, sym, have) matches Ok(r) ==> 3 <= r.1 <= 138 && pos <= r.2 <= 8
            * bytes.len(),
{
    lemma2_to64();
    lemma_bits_value_bound(bytes, pos, 2);
    lemma_bits_value_bound(bytes, pos, 3);
    lemma_bits_value_bound(bytes, pos, 7);
}

/// How many code lengths are missing from `have`.
pub open spec fn short_by(have: Seq<u8>, want: int) -> nat {
    if have.len() < want {
        (want - have.len()) as nat
    } else {
        0
    }
}

/// The `want` code lengths that are spelt from `pos` on under the code
/// with the lengths `cl`, after the lengths `have`, and the place after
/// them. A symbol below 16 is a length, one from 16 on a run.
/// `InvalidCodeTable` where more than `want` lengths are spelt.
pub open spec fn lengths_from(cl: Seq<u8>, bytes: Seq<u8>, pos: int, have: Seq<u8>, want: int) -> Result<
    (Seq<u8>, int),
    Error,
>
    decreases short_by(have, want),
    via lengths_from_decreases
{
    if have.len() > want {
        Err(Error::InvalidCodeTable)
    } else if have.len() == want {
        Ok((have, pos))
    } else {
        match decoded_symbol(cl, bytes, pos, 0, 0) {
            (Err(e), _) => Err(e),
            (Ok(sym), pa) => if sym < 16 {
                lengths_from(cl, bytes, pa, have.push(sym as u8), want)
            } else {
                match run_at(bytes, pa, sym, have) {
                    Err(e) => Err(e),
                    Ok((v, count, pb)) => lengths_from(
                        cl,
                        bytes,
                        pb,
                        have + repeated(v, count),
                        want,
                    ),
                }
            },
        }
    }
}

#[via_fn]
proof fn lengths_from_decreases(cl: Seq<u8>, bytes: Seq<u8>, pos: int, have: Seq<u8>, want: int) {
    let first = decoded_symbol(cl, bytes, pos, 0, 0);
    if let Ok(sym) = first.0 {
        lemma_run_at_bounds(bytes, first.1, sym, have);
    }
}

/// Code lengths that were read are as many as were wanted and ended
/// inside the stream.
pub proof fn lemma_lengths_from_advances(
    cl: Seq<u8>,
    bytes: Seq<u8>,
    pos: int,
    have: Seq<u8>,
    want: int,
)
    requires
        0 <= pos <= 8 * bytes.len(),
    ensures
        lengths_from(cl, bytes, pos, have, want) matches Ok(r) ==> pos <= r.1 <= 8 * bytes.len()
            && r.0.len() == want,
    decreases short_by(have, want),
{
    if have.len() < want {
        lemma_decoded_symbol_advances(cl, bytes, pos, 0, 0);
        let first = decoded_symbol(cl, bytes, pos, 0, 0);
        if let Ok(sym) = first.0 {
            let pa = first.1;
            if sym < 16 {
                lemma_lengths_from_advances(cl, bytes, pa, have.push(sym as u8), want);
            } else {
                lemma_run_at_bounds(bytes, pa, sym, have);
                if let Ok(r) = run_at(bytes, pa, sym, have) {
                    lemma_lengths_from_advances(cl, bytes, r.2, have + repeated(r.0, r.1), want);
                }
            }
        }
    }
}

/// Reads what a symbol from 16 to 18 adds to the code lengths: the length
/// to repeat and how often.
fn read_run(reader: &mut BitReader, sym: u16, have: &Vec<u8>) -> (r: Result<(u8, u16), Error>)
    requires
        old(reader).wf(),
        16 <= sym <= 18,
    ensures
        final(reader).wf(),
        final(reader).source() == old(reader).source(),
        match (r, run_at(old(reader).source(), old(reader).position(), sym as int, have@)) {
            (Ok(v), Ok(w)) => v.0 == w.0 && v.1 == w.1 && final(reader).position() == w.2,
            (Err(e), Err(f)) => e == f,
            _ => false,
        },
{
    proof {
        lemma2_to64();
        reader.lemma_position_bounds();
        lemma_bits_value_bound(reader.source(), reader.position(), 2);
        lemma_bits_value_bound(reader.source(), reader.position(), 3);
        lemma_bits_value_bound(reader.source(), reader.position(), 7);
    }
    if sym == 16 {
        if have.len() == 0 {
            return Err(Error::InvalidCodeTable);
        }
        let last = have[have.len() - 1];
        match reader.read_bits(2) {
            Ok(x) => Ok((last, 3 + x)),
            Err(e) => Err(e),
        }
    } else if sym == 17 {
        match reader.read_bits(3) {
            Ok(x) => Ok((0, 3 + x)),
            Err(e) => Err(e),
        }
    } else {
        match reader.read_bits(7) {
            Ok(x) => Ok((0, 11 + x)),
            Err(e) => Err(e),
        }
    }
}

/// Appends `count` times the length `v`.
fn push_repeated(have: &mut Vec<u8>, v: u8, count: u16)
    ensures
        final(have)@ == old(have)@ + repeated(v, count as int),
{
    let ghost base = have@;
    let mut j: u16 = 0;
    assert(have@ =~= base + repeated(v, 0));
    while j < count
        invariant
            j <= count,
            have@ == base + repeated(v, j as int),
        decreases count - j,
    {
        have.push(v);
        assert(have@ =~= base + repeated(v, j + 1));
        j += 1;
    }
}

/// Reads `want` code lengths under the code `cl`.
fn read_lengths(cl: &CodeTree, reader: &mut BitReader, want: usize) -> (r: Result<
    Vec<u8>,
    Error,
>)
    requires
        cl.wf(),
        cl.lens().len() == 19,
        old(reader).wf(),
        want <= 320,
    ensures
        final(reader).wf(),
        final(reader).source() == old(reader).source(),
        match (
            r,
            lengths_from(
                cl.lens(),
                old(reader).source(),
                old(reader).position(),
                Seq::empty(),
                want as int,
            ),
        ) {
            (Ok(v), Ok(w)) => v@ == w.0 && final(reader).position() == w.1,
            (Err(e), Err(f)) => e == f,
            _ => false,
        },
{
    let ghost bytes = reader.source();
    let ghost whole = lengths_from(cl.lens(), bytes, reader.position(), Seq::empty(), want as int);
    let mut have: Vec<u8> = Vec::new();
    while have.len() < want
        invariant
            cl.wf(),
            cl.lens().len() == 19,
            reader.wf(),
            reader.source() == bytes,
            bytes == old(reader).source(),
            want <= 320,
            have@.len() <= want,
            whole == lengths_from(
                cl.lens(),
                bytes,
                old(reader).position(),
                Seq::empty(),
                want as int,
            ),
            whole == lengths_from(cl.lens(), bytes, reader.position(), have@, want as int),
        decreases want - have@.len(),
    {
        let ghost pos = reader.position();
        let ghost before = have@;
        let sym = match cl.decode(reader) {
            Ok(s) => s,
            Err(e) => {
                return Err(e);
            },
        };
        let ghost pa = reader.position();
        if sym < 16 {
            have.push(sym as u8);
            assert(whole == lengths_from(cl.lens(), bytes, pa, have@, want as int));
        } else {
            proof {
                lemma_run_at_bounds(bytes, pa, sym as int, before);
            }
            let (v, count) = match read_run(reader, sym, &have) {
                Ok(run) => run,
                Err(e) => {
                    return Err(e);
                },
            };
            push_repeated(&mut have, v, count);
            assert(whole == lengths_from(cl.lens(), bytes, reader.position(), have@, want as int));
            if have.len() > want {
                return Err(Error::InvalidCodeTable);
            }
        }
    }
    Ok(have)
}

/// The code lengths that the header of a block with its own codes gives
/// to the literals and lengths and to the distances, and the place after
/// the header. The header holds the numbers of the three kinds of
/// lengths, less 257, 1 and 4, in 5, 5 and 4 bits, then the lengths of
/// the code that spells code lengths, then the code lengths.
/// `InvalidCodeTable` where one of the three sets of lengths makes no
/// code.
pub open spec fn header_at(bytes: Seq<u8>, pos: int) -> Result<(Seq<u8>, Seq<u8>, int), Error> {
    match grab(bytes, pos, 5) {
        Err(e) => Err(e),
        Ok((hlit, pa)) => match grab(bytes, pa, 5) {
            Err(e) => Err(e),
            Ok((hdist, pb)) => match grab(bytes, pb, 4) {
                Err(e) => Err(e),
                Ok((hclen, pc)) => if pc + 3 * (hclen + 4) > 8 * bytes.len() {
                    Err(Error::Truncated)
                } else if !valid_lengths(cl_lengths(bytes, pc, hclen + 4)) {
                    Err(Error::InvalidCodeTable)
                } else {
                    match lengths_from(
                        cl_lengths(bytes, pc, hclen + 4),
                        bytes,
                        pc + 3 * (hclen + 4),
                        Seq::empty(),
                        hlit + hdist + 258,
                    ) {
                        Err(e) => Err(e),
                        Ok((all, pd)) => if !valid_lengths(all.subrange(0, hlit + 257))
                            || !valid_lengths(all.subrange(hlit + 257, all.len() as int)) {
                            Err(Error::InvalidCodeTable)
                        } else {
                            Ok(
                                (
                                    all.subrange(0, hlit + 257),
                                    all.subrange(hlit + 257, all.len() as int),
                                    pd,
                                ),
                            )
                        },
                    }
                },
            },
        },
    }
}

/// A header that was read ended inside the stream, behind its start.
pub proof fn lemma_header_advances(bytes: Seq<u8>, pos: int)
    ensures
        header_at(bytes, pos) matches Ok(r) ==> pos < r.2 <= 8 * bytes.len(),
{
    if let Ok(g1) = grab(bytes, pos, 5) {
        if let Ok(g2) = grab(bytes, g1.1, 5) {
            if let Ok(g3) = grab(bytes, g2.1, 4) {
                lemma_bits_value_bound(bytes, pos, 5);
                lemma_bits_value_bound(bytes, g1.1, 5);
                lemma_bits_value_bound(bytes, g2.1, 4);
                let n = g3.0 + 4;
                if g3.1 + 3 * n <= 8 * bytes.len() {
                    lemma_lengths_from_advances(
                        cl_lengths(bytes, g3.1, n),
                        bytes,
                        g3.1 + 3 * n,
                        Seq::empty(),
                        g1.0 + g2.0 + 258,
                    );
                }
            }
        }
    }
}

/// Reads the header of a block with its own codes and builds the trees of
/// the literals and lengths and of the distances.
pub(crate) fn read_header(reader: &mut BitReader) -> (r: Result<(CodeTree, CodeTree), Error>)
    requires
        old(reader).wf(),
    ensures
        final(reader).wf(),
        final(reader).source() == old(reader).source(),
        match (r, header_at(old(reader).source(), old(reader).position())) {
            (Ok(t), Ok(w)) => t.0.wf() && t.1.wf() && t.0.lens() == w.0 && t.1.lens() == w.1
                && final(reader).position() == w.2,
            (Err(e), Err(f)) => e == f,
            _ => false,
        },
{
    let ghost bytes = reader.source();
    let ghost start = reader.position();
    proof {
        lemma2_to64();
        reader.lemma_position_bounds();
        lemma_bits_value_bound(bytes, start, 5);
        lemma_bits_value_bound(bytes, start + 5, 5);
        lemma_bits_value_bound(bytes, start + 10, 4);
    }
    let hlit = match reader.read_bits(5) {
        Ok(v) => v as usize + 257,
        Err(e) => {
            return Err(e);
        },
    };
    let hdist = match reader.read_bits(5) {
        Ok(v) => v as usize + 1,
        Err(e) => {
            return Err(e);
        },
    };
    let hclen = match reader.read_bits(4) {
        Ok(v) => v as usize + 4,
        Err(e) => {
            return Err(e);
        },
    };
    let ghost pc = reader.position();
    let mut cl: Vec<u8> = vec![0u8; 19];
    assert(cl@ =~= cl_lengths(bytes, pc, 0));
    let mut i: usize = 0;
    while i < hclen
        invariant
            i <= hclen <= 19,
            reader.wf(),
            reader.source() == bytes,
            bytes == old(reader).source(),
            reader.position() == pc + 3 * i,
            start == old(reader).position(),
            0 <= start,
            pc == start + 14,
            pc <= 8 * bytes.len(),
            hclen == bits_value(bytes, start + 10, 4) + 4,
            cl@.len() == 19,
            cl@ == cl_lengths(bytes, pc, i as int),
        decreases hclen - i,
    {
        proof {
            lemma2_to64();
            lemma_bits_value_bound(bytes, reader.position(), 3);
        }
        let v = match reader.read_bits(3) {
            Ok(v) => v,
            Err(e) => {
                return Err(e);
            },
        };
        cl.set(cl_order_at(i), v as u8);
        i += 1;
    }
    proof {
        reader.lemma_position_bounds();
    }
    let cl_tree = match CodeTree::new(cl.as_slice()) {
        Ok(t) => t,
        Err(e) => {
            return Err(e);
        },
    };
    proof {
        lemma_lengths_from_advances(
            cl@,
            bytes,
            reader.position(),
            Seq::empty(),
            (hlit + hdist) as int,
        );
    }
    let all = match read_lengths(&cl_tree, reader, hlit + hdist) {
        Ok(v) => v,
        Err(e) => {
            return Err(e);
        },
    };
    let whole = all.as_slice();
    let lit = match CodeTree::new(&whole[0..hlit]) {
        Ok(t) => t,
        Err(e) => {
            return Err(e);
        },
    };
    let dist = match CodeTree::new(&whole[hlit..whole.len()]) {
        Ok(t) => t,
        Err(e) => {
            return Err(e);
        },
    };
    Ok((lit, dist))
}

/// What a block holds.
pub enum BlockModel {
    Uncompressed(Seq<u8>),
    FixedHuffman(Seq<Code>),
    DynamicHuffman { trees: Seq<bool>, codes: Seq<Code> },
}

/// What the block `b` holds.
pub open spec fn model_of(b: Block) -> BlockModel {
    match b {
        Block::Uncompressed(bytes) => BlockModel::Uncompressed(bytes@),
        Block::FixedHuffman(codes) => BlockModel::FixedHuffman(codes@),
        Block::DynamicHuffman { trees, codes } => BlockModel::DynamicHuffman {
            trees: trees@,
            codes: codes@,
        },
    }
}

/// The bits of the stream from `from` up to `to`.
pub open spec fn bits_between(bytes: Seq<u8>, from: int, to: int) -> Seq<bool> {
    Seq::new((to - from) as nat, |i: int| bit_at(bytes, from + i))
}

/// The block that starts at `pos`, `seen` bytes having been emitted
/// before it: whether it is the last, what it holds, the place after it
/// and the bytes emitted by then, as far as a reference can reach. One
/// bit says whether it is the last, two bits its kind: 0 stored, 1 with
/// the fixed codes, 2 with its own; `ReservedBlockType` for 3.
pub open spec fn block_at(bytes: Seq<u8>, pos: int, seen: int) -> Result<
    (bool, BlockModel, int, int),
    Error,
> {
    match grab(bytes, pos, 1) {
        Err(e) => Err(e),
        Ok((last, pa)) => match grab(bytes, pa, 2) {
            Err(e) => Err(e),
            Ok((kind, pb)) => if kind == 0 {
                match stored_at(bytes, pb) {
                    Err(e) => Err(e),
                    Ok((payload, pc)) => Ok(
                        (
                            last == 1,
                            BlockModel::Uncompressed(payload),
                            pc,
                            capped(seen + payload.len()),
                        ),
                    ),
                }
            } else if kind == 1 {
                match tokens_from(fixed_lit_lengths(), fixed_dist_lengths(), bytes, pb, seen) {
                    Err(e) => Err(e),
                    Ok((codes, pc, s)) => Ok((last == 1, BlockModel::FixedHuffman(codes), pc, s)),
                }
            } else if kind == 2 {
                match header_at(bytes, pb) {
                    Err(e) => Err(e),
                    Ok((lit, dist, pc)) => match tokens_from(lit, dist, bytes, pc, seen) {
                        Err(e) => Err(e),
                        Ok((codes, pd, s)) => Ok(
                            (
                                last == 1,
                                BlockModel::DynamicHuffman {
                                    trees: bits_between(bytes, pb, pc),
                                    codes: codes,
                                },
                                pd,
                                s,
                            ),
                        ),
                    },
                }
            } else {
                Err(Error::ReservedBlockType)
            },
        },
    }
}

/// Tokens that were read ended inside the stream, behind their start.
pub proof fn lemma_tokens_from_advances(
    lit: Seq<u8>,
    dist: Seq<u8>,
    bytes: Seq<u8>,
    pos: int,
    seen: int,
)
    ensures
        tokens_from(lit, dist, bytes, pos, seen) matches Ok(r) ==> pos < r.1 <= 8 * bytes.len(),
    decreases bits_left(bytes, pos),
{
    lemma_token_advances(lit, dist, bytes, pos, seen);
    if let Ok(t) = token_at(lit, dist, bytes, pos, seen) {
        if let Some(code) = t.0 {
            lemma_tokens_from_advances(lit, dist, bytes, t.1, capped(seen + emitted(code)));
        }
    }
}

/// A block that was read ended inside the stream, behind its start.
pub proof fn lemma_block_advances(bytes: Seq<u8>, pos: int, seen: int)
    ensures
        block_at(bytes, pos, seen) matches Ok(r) ==> pos < r.2 <= 8 * bytes.len(),
{
    if let Ok(g1) = grab(bytes, pos, 1) {
        if let Ok(g2) = grab(bytes, g1.1, 2) {
            let pb = g2.1;
            lemma_bits_value_bound(bytes, aligned(pb), 16);
            lemma_tokens_from_advances(fixed_lit_lengths(), fixed_dist_lengths(), bytes, pb, seen);
            lemma_header_advances(bytes, pb);
            if let Ok(h) = header_at(bytes, pb) {
                lemma_tokens_from_advances(h.0, h.1, bytes, h.2, seen);
            }
        }
    }
}

/// Reads one block and counts in `seen` the bytes it emits, as far as a
/// reference can reach. Returns whether it is the last, and the block.
fn read_block(reader: &mut BitReader, seen: &mut usize) -> (r: Result<(bool, Block), Error>)
    requires
        old(reader).wf(),
        *old(seen) <= 32768,
    ensures
        final(reader).wf(),
        final(reader).source() == old(reader).source(),
        *final(seen) <= 32768,
        match (r, block_at(old(reader).source(), old(reader).position(), *old(seen) as int)) {
            (Ok(b), Ok(w)) => b.0 == w.0 && model_of(b.1) == w.1 && final(reader).position() == w.2
                && *final(seen) == w.3,
            (Err(e), Err(f)) => e == f,
            _ => false,
        },
{
    let ghost bytes = reader.source();
    proof {
        lemma2_to64();
        reader.lemma_position_bounds();
        lemma_bits_value_bound(bytes, reader.position(), 1);
        lemma_bits_value_bound(bytes, reader.position() + 1, 2);
    }
    let last = match reader.read_bits(1) {
        Ok(v) => v == 1,
        Err(e) => {
            return Err(e);
        },
    };
    let kind = match reader.read_bits(2) {
        Ok(v) => v,
        Err(e) => {
            return Err(e);
        },
    };
    let ghost pb = reader.position();
    if kind == 0 {
        let payload = match read_stored(reader) {
            Ok(v) => v,
            Err(e) => {
                return Err(e);
            },
        };
        let n = payload.len();
        *seen = if n > 32768 || *seen + n > 32768 {
            32768
        } else {
            *seen + n
        };
        Ok((last, Block::Uncompressed(payload)))
    } else if kind == 1 {
        let (lit, dist) = fixed_trees();
        match read_tokens(&lit, &dist, reader, seen) {
            Ok(codes) => Ok((last, Block::FixedHuffman(codes))),
            Err(e) => Err(e),
        }
    } else if kind == 2 {
        let mut mark = reader.fork();
        let (lit, dist) = match read_header(reader) {
            Ok(t) => t,
            Err(e) => {
                return Err(e);
            },
        };
        let ghost pc = reader.position();
        proof {
            lemma_header_advances(bytes, pb);
        }
        let mut trees: Vec<bool> = Vec::new();
        while !mark.is_at(reader)
            invariant
                mark.wf(),
                reader.wf(),
                mark.source() == bytes,
                reader.source() == bytes,
                reader.position() == pc,
                pb <= mark.position() <= pc <= 8 * bytes.len(),
                trees@.len() == mark.position() - pb,
                forall|k: int| 0 <= k < trees@.len() ==> trees@[k] == bit_at(bytes, pb + k),
            decreases pc - mark.position(),
        {
            match mark.read_bit() {
                Ok(b) => {
                    trees.push(b);
                },
                Err(_) => {
                    assert(false);
                },
            }
        }
        assert(trees@ =~= bits_between(bytes, pb, pc));
        match read_tokens(&lit, &dist, reader, seen) {
            Ok(codes) => Ok((last, Block::DynamicHuffman { trees, codes })),
            Err(e) => Err(e),
        }
    } else {
        Err(Error::ReservedBlockType)
    }
}

/// The blocks of the stream from `pos` on, up to the one that says it is
/// the last; the first error where one cannot be read.
pub open spec fn blocks_from(bytes: Seq<u8>, pos: int, seen: int) -> Result<Seq<BlockModel>, Error>
    decreases bits_left(bytes, pos),
    via blocks_from_decreases
{
    match block_at(bytes, pos, seen) {
        Err(e) => Err(e),
        Ok((last, block, p, s)) => if last {
            Ok(seq![block])
        } else {
            match blocks_from(bytes, p, s) {
                Err(e) => Err(e),
                Ok(rest) => Ok(seq![block] + rest),
            }
        },
    }
}

#[via_fn]
proof fn blocks_from_decreases(bytes: Seq<u8>, pos: int, seen: int) {
    lemma_block_advances(bytes, pos, seen);
}

/// The blocks in front of what `rest` holds.
pub open spec fn blocks_then(blocks: Seq<BlockModel>, rest: Result<Seq<BlockModel>, Error>) -> Result<
    Seq<BlockModel>,
    Error,
> {
    match rest {
        Ok(r) => Ok(blocks + r),
        Err(e) => Err(e),
    }
}

/// What each of the blocks holds.
pub open spec fn models_of(blocks: Seq<Block>) -> Seq<BlockModel> {
    blocks.map_values(|b: Block| model_of(b))
}

/// Reads a compressed stream: its blocks up to the one that says it is
/// the last. What follows that block is not looked at.
pub fn parse_deflate(bytes: &[u8]) -> (r: Result<Vec<Block>, Error>)
    ensures
        match (r, blocks_from(bytes@, 0, 0)) {
            (Ok(v), Ok(w)) => models_of(v@) == w,
            (Err(e), Err(f)) => e == f,
            _ => false,
        },
{
    let mut reader = BitReader::new(bytes);
    let mut seen: usize = 0;
    let mut blocks: Vec<Block> = Vec::new();
    let ghost whole = blocks_from(bytes@, 0, 0);
    proof {
        if let Ok(w) = whole {
            assert(models_of(blocks@) + w =~= w);
        }
    }
    loop
        invariant
            reader.wf(),
            reader.source() == bytes@,
            seen <= 32768,
            whole == blocks_from(bytes@, 0, 0),
            whole == blocks_then(
                models_of(blocks@),
                blocks_from(bytes@, reader.position(), seen as int),
            ),
        decreases bits_left(bytes@, reader.position()),
    {
        let ghost pos = reader.position();
        let ghost before = blocks@;
        proof {
            lemma_block_advances(bytes@, pos, seen as int);
            reader.lemma_position_bounds();
        }
        let (last, block) = match read_block(&mut reader, &mut seen) {
            Ok(b) => b,
            Err(e) => {
                return Err(e);
            },
        };
        let ghost m = model_of(block);
        blocks.push(block);
        proof {
            assert(models_of(blocks@) =~= models_of(before) + seq![m]);
            if last {
                assert(models_of(before) + seq![m] =~= models_of(blocks@));
            } else {
                let rest = blocks_from(bytes@, reader.position(), seen as int);
                if let Ok(w) = rest {
                    assert(models_of(before) + (seq![m] + w) =~= models_of(blocks@) + w);
                }
            }
        }
        if last {
            return Ok(blocks);
        }
    }
}

} // verus!
