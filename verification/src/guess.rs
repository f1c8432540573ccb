//! What a token stream tells about the encoder that wrote it.

use vstd::prelude::*;
use crate::bestguess::{
    code_of, find_all_options, left_of, lemma_candidates_fit, open_at,
};
use crate::circles::CircularBuffer;
use crate::serialise::{decoded_from, decompressed_codes};
use crate::{emitted, usize_from, Code, Error};

verus! {

/// The distance of a reference; none for a literal.
pub open spec fn dist_of(code: Code) -> Option<u16> {
    match code {
        Code::Reference { dist, run_minus_3 } => Some(dist),
        Code::Literal(_) => None,
    }
}

/// The greatest distance that a reference of the stream spans, or `None`
/// where it holds no reference.
pub fn max_distance(codes: &[Code]) -> (r: Option<u16>)
    ensures
        match r {
            None => forall|i: int| 0 <= i < codes@.len() ==> dist_of(#[trigger] codes@[i]).is_none(),
            Some(m) => {
                &&& exists|i: int| 0 <= i < codes@.len() && dist_of(#[trigger] codes@[i]) == Some(m)
                &&& forall|i: int|
                    0 <= i < codes@.len() ==> (dist_of(#[trigger] codes@[i]) matches Some(d) ==> d
                        <= m)
            },
        },
{
    let mut best: Option<u16> = None;
    let mut i: usize = 0;
    while i < codes.len()
        invariant
            i <= codes@.len(),
            match best {
                None => forall|n: int| 0 <= n < i ==> dist_of(#[trigger] codes@[n]).is_none(),
                Some(m) => {
                    &&& exists|n: int| 0 <= n < i && dist_of(#[trigger] codes@[n]) == Some(m)
                    &&& forall|n: int|
                        0 <= n < i ==> (dist_of(#[trigger] codes@[n]) matches Some(d) ==> d <= m)
                },
            },
        decreases codes@.len() - i,
    {
        if let Code::Reference { dist, run_minus_3 } = codes[i] {
            let larger = match best {
                None => true,
                Some(m) => dist > m,
            };
            if larger {
                best = Some(dist);
            } else {
                let ghost w = choose|n: int|
                    0 <= n < i && dist_of(#[trigger] codes@[n]) == best;
                assert(dist_of(codes@[w]) == best);
            }
            assert(dist_of(codes@[i as int]) == Some(dist));
        } else {
            if best.is_some() {
                let ghost w = choose|n: int|
                    0 <= n < i && dist_of(#[trigger] codes@[n]) == best;
                assert(dist_of(codes@[w]) == best);
            }
        }
        i += 1;
    }
    best
}

/// Whether the token at place `i` is a reference that spans `i` or more.
pub open spec fn reaches_out(codes: Seq<Code>, i: int) -> bool {
    dist_of(codes[i]) matches Some(d) && d >= i
}

/// Whether some reference spans as much as its place in the stream or
/// more, and so reaches before the start of the block.
pub fn outside_range(codes: &[Code]) -> (r: bool)
    ensures
        r == exists|i: int| 0 <= i < codes@.len() && reaches_out(codes@, i),
{
    let mut i: usize = 0;
    while i < codes.len()
        invariant
            i <= codes@.len(),
            forall|n: int| 0 <= n < i ==> !reaches_out(codes@, n),
        decreases codes@.len() - i,
    {
        if let Code::Reference { dist, run_minus_3 } = codes[i] {
            if dist as usize >= i {
                assert(reaches_out(codes@, i as int));
                return true;
            }
        }
        i += 1;
    }
    false
}

/// The last three bytes seen.
#[derive(Clone, Copy, Debug, Default, Eq, Hash, PartialEq)]
pub struct Key {
    pub vals: [u8; 3],
}

impl Key {
    /// Takes a byte in at the end and gives the byte at the front out.
    pub fn push(&mut self, val: u8) -> (evicted: u8)
        ensures
            evicted == old(self).vals@[0],
            final(self).vals@ == seq![old(self).vals@[1], old(self).vals@[2], val],
    {
        let evicted = self.vals[0];
        let next = [self.vals[1], self.vals[2], val];
        assert(next@ =~= seq![self.vals@[1], self.vals@[2], val]);
        self.vals = next;
        evicted
    }
}

/// A reader of a list that can look at the next three items. Unlike a
/// peekable iterator it is not lazy: it holds the whole list.
pub struct ThreePeek<T> {
    items: Vec<T>,
    at: usize,
}

impl<T: Copy> ThreePeek<T> {
    /// The reader stands inside its list.
    pub closed spec fn wf(&self) -> bool {
        self.at <= self.items@.len()
    }

    /// The items not yet read.
    pub closed spec fn remaining(&self) -> Seq<T> {
        self.items@.subrange(self.at as int, self.items@.len() as int)
    }

    /// A reader at the start of `inner`.
    pub fn new(inner: Vec<T>) -> (r: Self)
        ensures
            r.wf(),
            r.remaining() == inner@,
    {
        assert(inner@.subrange(0, inner@.len() as int) =~= inner@);
        ThreePeek { items: inner, at: 0 }
    }

    /// Reads the next item.
    pub fn next(&mut self) -> (r: Option<T>)
        requires
            old(self).wf(),
        ensures
            final(self).wf(),
            match r {
                Some(v) => old(self).remaining().len() > 0 && v == old(self).remaining()[0]
                    && final(self).remaining() == old(self).remaining().drop_first(),
                None => old(self).remaining().len() == 0 && final(self).remaining() == old(
                    self,
                ).remaining(),
            },
    {
        if self.at < self.items.len() {
            let v = self.items[self.at];
            self.at = self.at + 1;
            assert(self.remaining() =~= old(self).remaining().drop_first());
            Some(v)
        } else {
            None
        }
    }

    /// Looks at the next three items and reads the first of them; where
    /// fewer than three are left it reads nothing.
    pub fn next_three(&mut self) -> (r: Option<(T, T, T)>)
        requires
            old(self).wf(),
        ensures
            final(self).wf(),
            match r {
                Some(t) => old(self).remaining().len() >= 3 && t == (
                    old(self).remaining()[0],
                    old(self).remaining()[1],
                    old(self).remaining()[2],
                ) && final(self).remaining() == old(self).remaining().drop_first(),
                None => old(self).remaining().len() < 3 && final(self).remaining() == old(
                    self,
                ).remaining(),
            },
    {
        if self.items.len() - self.at >= 3 {
            let t = (self.items[self.at], self.items[self.at + 1], self.items[self.at + 2]);
            self.at = self.at + 1;
            assert(self.remaining() =~= old(self).remaining().drop_first());
            Some(t)
        } else {
            None
        }
    }
}

/// The tokens of an encoder that at each place of the block takes the
/// nearest open reference, if it spans no more than `window`, and else
/// the literal.
pub open spec fn greedy_from(data: Seq<u8>, window: int, data_pos: int) -> Seq<Code>
    decreases left_of(data, data_pos),
{
    if data_pos < 0 || data_pos >= data.len() {
        Seq::empty()
    } else {
        let cands = open_at(Seq::empty(), data, data_pos);
        let code = if cands.len() > 0 && cands[0].0 <= window {
            code_of(cands[0])
        } else {
            Code::Literal(data[data_pos])
        };
        seq![code] + greedy_from(data, window, data_pos + emitted(code))
    }
}

/// Encodes a block as the encoder does that takes the nearest open
/// reference wherever one spans no more than `window_size`.
pub fn single_block_encode_helper(window_size: u16, data: &[u8]) -> (r: Vec<Code>)
    ensures
        r@ == greedy_from(data@, window_size as int, 0),
{
    let preroll: Vec<u8> = Vec::new();
    let mut ret: Vec<Code> = Vec::with_capacity(data.len());
    let mut options = find_all_options(preroll.as_slice(), data);
    assert(preroll@ =~= Seq::<u8>::empty());
    assert(ret@ + greedy_from(data@, window_size as int, 0) =~= greedy_from(
        data@,
        window_size as int,
        0,
    ));
    while options.can_advance()
        invariant
            options.wf(),
            options.preroll_view() == Seq::<u8>::empty(),
            options.data_view() == data@,
            0 <= options.position() <= data@.len(),
            data@.len() <= usize::MAX,
            greedy_from(data@, window_size as int, 0) == ret@ + greedy_from(
                data@,
                window_size as int,
                options.position(),
            ),
        decreases data@.len() - options.position(),
    {
        let ghost pos = options.position();
        let ghost before = ret@;
        let nearest = if options.key().is_some() {
            proof {
                lemma_candidates_fit(Seq::<u8>::empty(), data@, pos);
            }
            options.first_candidate()
        } else {
            None
        };
        let code = match nearest {
            Some(first) => {
                if first.0 <= window_size {
                    Code::Reference { dist: first.0, run_minus_3: first.1 }
                } else {
                    options.current_literal()
                }
            },
            None => options.current_literal(),
        };
        ret.push(code);
        proof {
            let rest = greedy_from(data@, window_size as int, pos + emitted(code));
            assert(before + (seq![code] + rest) =~= ret@ + rest);
        }
        options.advance(usize_from(code.emitted_bytes()));
    }
    proof {
        assert(ret@ + Seq::<Code>::empty() =~= ret@);
    }
    ret
}

/// The tokens with which the encoder of `single_block_encode_helper`
/// writes the bytes that `codes` stand for. `InvalidDistance` where a
/// reference of `codes` reaches before the start.
pub fn single_block_mem(window_size: u16, codes: &[Code]) -> (r: Result<Vec<Code>, Error>)
    ensures
        match (decoded_from(Seq::empty(), 32768, codes@, 0), r) {
            ((bytes, None), Ok(v)) => v@ == greedy_from(bytes, window_size as int, 0),
            ((_, Some(e)), Err(f)) => e == f,
            _ => false,
        },
{
    let mut data: Vec<u8> = Vec::new();
    let mut window = CircularBuffer::with_capacity(32768);
    match decompressed_codes(&mut data, &mut window, codes) {
        Ok(_) => {
            assert(data@ =~= decoded_from(Seq::empty(), 32768, codes@, 0).0);
            Ok(single_block_encode_helper(window_size, data.as_slice()))
        },
        Err(e) => Err(e),
    }
}

/// Whether `codes` are the tokens with which the encoder of
/// `single_block_encode_helper` writes the bytes they stand for.
/// `InvalidDistance` where a reference of `codes` reaches before the
/// start, `Inconsistent` where the encoder writes other tokens.
pub fn single_block_encode(window_size: u16, codes: &[Code]) -> (r: Result<(), Error>)
    ensures
        match (decoded_from(Seq::empty(), 32768, codes@, 0), r) {
            ((bytes, None), Ok(_)) => codes@ == greedy_from(bytes, window_size as int, 0),
            ((bytes, None), Err(f)) => f == Error::Inconsistent && codes@ != greedy_from(
                bytes,
                window_size as int,
                0,
            ),
            ((_, Some(e)), Err(f)) => e == f,
            _ => false,
        },
{
    let found = match single_block_mem(window_size, codes) {
        Ok(v) => v,
        Err(e) => {
            return Err(e);
        },
    };
    if found.len() != codes.len() {
        return Err(Error::Inconsistent);
    }
    let mut i: usize = 0;
    while i < codes.len()
        invariant
            i <= codes@.len(),
            found@.len() == codes@.len(),
            decoded_from(Seq::empty(), 32768, codes@, 0).1.is_none(),
            found@ == greedy_from(
                decoded_from(Seq::empty(), 32768, codes@, 0).0,
                window_size as int,
                0,
            ),
            forall|k: int| 0 <= k < i ==> found@[k] == codes@[k],
        decreases codes@.len() - i,
    {
        if found[i] != codes[i] {
            return Err(Error::Inconsistent);
        }
        i += 1;
    }
    assert(found@ =~= codes@);
    Ok(())
}

} // verus!
