//! The analyser: how the encoder's choice at each token ranks among the
//! references that were open to it, and the way back from those ranks to
//! the tokens.
//!
//! Ranking of the references open at a position:
//!  1. the longest run, and among equally long runs the nearest;
//!  2. a literal;
//!  3. the other references, in the order of 1.

use vstd::prelude::*;
use crate::all_refs::{
    has_key, key_at, lemma_refs_at_bounds, refs_at, AllRefs, Key,
};
use crate::{emitted, pack_run, packed_run, usize_from, Code, Error};
pub use crate::all_refs::sub_range_inclusive;

verus! {

/// A reference as the analyser ranks it: its distance and its run less 3.
pub type Ref = (u16, u8);

/// The reference over one byte that runs for 258: where it is open, the
/// encoder is taken to have used it.
pub open spec fn mandatory() -> Ref {
    (1u16, 255u8)
}

/// `a` is preferred to `b`: it runs longer, or as long from nearer by.
pub open spec fn ranks_before(a: Ref, b: Ref) -> bool {
    a.1 > b.1 || (a.1 == b.1 && a.0 < b.0)
}

/// `s` with `x` put in behind the last element that `x` is not preferred
/// to.
pub open spec fn insert_ranked(s: Seq<Ref>, x: Ref) -> Seq<Ref>
    decreases s.len(),
{
    if s.len() == 0 {
        seq![x]
    } else if ranks_before(x, s.last()) {
        insert_ranked(s.drop_last(), x).push(s.last())
    } else {
        s.push(x)
    }
}

/// The references of `s` with the preferred first; equal ones keep their
/// order.
pub open spec fn ranked(s: Seq<Ref>) -> Seq<Ref>
    decreases s.len(),
{
    if s.len() == 0 {
        Seq::empty()
    } else {
        insert_ranked(ranked(s.drop_last()), s.last())
    }
}

/// The first place from `from` on at which `x` stands in `s`.
pub open spec fn position(s: Seq<Ref>, x: Ref, from: int) -> Option<int>
    decreases s.len() - from,
{
    if from >= s.len() {
        None
    } else if s[from] == x {
        Some(from)
    } else {
        position(s, x, from + 1)
    }
}

/// The references open at `data_pos` as the analyser ranks them, the
/// nearest first.
pub open spec fn candidates_at(preroll: Seq<u8>, data: Seq<u8>, data_pos: int) -> Seq<Ref>
    recommends
        has_key(data, data_pos),
{
    refs_at(preroll, data, data_pos).map_values(|r: (u16, u16)| (r.0, packed_run(r.1 as int)))
}

/// The hint for a reference that was chosen among `cands`: 0 where it is
/// the preferred one, else its place among the ranked ones plus 1, the
/// place 1 being the literal's.
pub open spec fn score_of(cands: Seq<Ref>, x: Ref) -> Result<usize, Error> {
    match position(ranked(cands), x, 0) {
        None => Err(Error::NotInCandidates),
        Some(k) => Ok(
            if k == 0 {
                0usize
            } else {
                (k + 1) as usize
            },
        ),
    }
}

/// The hint for a token where `cands` are open, the nearest first: none
/// where the choice was forced, 1 for a literal, the score for a
/// reference.
pub open spec fn hint_for(cands: Seq<Ref>, code: Code) -> Result<Option<usize>, Error> {
    if cands.len() == 0 {
        match code {
            Code::Literal(_) => Ok(None),
            Code::Reference { .. } => Err(Error::Inconsistent),
        }
    } else if cands[0] == mandatory() {
        Ok(None)
    } else {
        match code {
            Code::Literal(_) => Ok(Some(1usize)),
            Code::Reference { dist, run_minus_3 } => match score_of(cands, (dist, run_minus_3)) {
                Ok(h) => Ok(Some(h)),
                Err(e) => Err(e),
            },
        }
    }
}

/// The hint for a token that stands at `data_pos`: none where fewer than
/// three bytes are left, else what the references open there give.
pub open spec fn hint_at(preroll: Seq<u8>, data: Seq<u8>, data_pos: int, code: Code) -> Result<
    Option<usize>,
    Error,
> {
    if !has_key(data, data_pos) {
        Ok(None)
    } else {
        hint_for(candidates_at(preroll, data, data_pos), code)
    }
}

/// `hints` in front of what `rest` holds; the error of `rest` where it is
/// one.
pub open spec fn hints_then(hints: Seq<usize>, rest: Result<Seq<usize>, Error>) -> Result<
    Seq<usize>,
    Error,
> {
    match rest {
        Ok(r) => Ok(hints + r),
        Err(e) => Err(e),
    }
}

/// The hint as a sequence of none or one.
pub open spec fn hint_seq(h: Option<usize>) -> Seq<usize> {
    match h {
        Some(v) => seq![v],
        None => Seq::empty(),
    }
}

/// The hints of the tokens from the `i`-th on, the `i`-th standing at
/// `data_pos`; the first error where a token has none.
pub open spec fn reduce_from(
    preroll: Seq<u8>,
    data: Seq<u8>,
    codes: Seq<Code>,
    i: int,
    data_pos: int,
) -> Result<Seq<usize>, Error>
    decreases codes.len() - i,
{
    if i >= codes.len() {
        Ok(Seq::empty())
    } else {
        match hint_at(preroll, data, data_pos, codes[i]) {
            Err(e) => Err(e),
            Ok(h) => hints_then(
                hint_seq(h),
                reduce_from(preroll, data, codes, i + 1, data_pos + emitted(codes[i])),
            ),
        }
    }
}

/// The hints of a token stream over its data.
pub open spec fn reduced(preroll: Seq<u8>, data: Seq<u8>, codes: Seq<Code>) -> Result<
    Seq<usize>,
    Error,
> {
    reduce_from(preroll, data, codes, 0, 0)
}

/// Tokens that stand where fewer than three bytes are left have no hints.
pub proof fn lemma_reduce_past_keys(
    preroll: Seq<u8>,
    data: Seq<u8>,
    codes: Seq<Code>,
    i: int,
    data_pos: int,
)
    requires
        !has_key(data, data_pos),
    ensures
        reduce_from(preroll, data, codes, i, data_pos) == Ok::<Seq<usize>, Error>(Seq::empty()),
    decreases codes.len() - i,
{
    if i < codes.len() {
        lemma_reduce_past_keys(preroll, data, codes, i + 1, data_pos + emitted(codes[i]));
        assert(Seq::<usize>::empty() + Seq::<usize>::empty() =~= Seq::<usize>::empty());
    }
}

/// The index of a block with a cursor into it.
pub struct AllOptions<'p, 'd> {
    refs: AllRefs<'p, 'd>,
    data_pos: usize,
}

/// Indexes a block and the history before it, the cursor at the start of
/// the block.
pub fn find_all_options<'p, 'd>(preroll: &'p [u8], data: &'d [u8]) -> (r: AllOptions<'p, 'd>)
    requires
        preroll@.len() + data@.len() <= usize::MAX,
    ensures
        r.wf(),
        r.preroll_view() == preroll@,
        r.data_view() == data@,
        r.position() == 0,
{
    AllOptions { refs: AllRefs::new(preroll, data), data_pos: 0 }
}

impl<'p, 'd> AllOptions<'p, 'd> {
    /// The history that was indexed.
    pub closed spec fn preroll_view(&self) -> Seq<u8> {
        self.refs.preroll_view()
    }

    /// The block that was indexed.
    pub closed spec fn data_view(&self) -> Seq<u8> {
        self.refs.data_view()
    }

    /// Where the cursor stands in the block.
    pub closed spec fn position(&self) -> int {
        self.data_pos as int
    }

    /// The index is that of the history followed by the block.
    pub closed spec fn wf(&self) -> bool {
        self.refs.wf()
    }

    /// Moves the cursor on by `n` bytes.
    pub fn advance(&mut self, n: usize)
        requires
            old(self).position() + n <= usize::MAX,
        ensures
            final(self).position() == old(self).position() + n,
            final(self).preroll_view() == old(self).preroll_view(),
            final(self).data_view() == old(self).data_view(),
            final(self).wf() == old(self).wf(),
    {
        self.data_pos += n;
    }

    /// The three bytes at the cursor, or `None` where fewer are left.
    pub fn key(&self) -> (r: Option<Key>)
        ensures
            r.is_some() == has_key(self.data_view(), self.position()),
            r matches Some(k) ==> k == key_at(self.data_view(), self.position()),
    {
        self.refs.key(self.data_pos)
    }

    /// Where the cursor stands in the history followed by the block.
    pub fn pos(&self) -> (r: usize)
        requires
            self.preroll_view().len() + self.position() <= usize::MAX,
        ensures
            r == self.preroll_view().len() + self.position(),
    {
        self.data_pos + self.refs.preroll_len()
    }

    /// Whether the cursor stands before the end of the block.
    pub fn can_advance(&self) -> (r: bool)
        ensures
            r == (self.position() < self.data_view().len()),
    {
        self.data_pos < self.refs.data_len()
    }

    /// The references open at the cursor, the nearest first; `None` where
    /// fewer than three bytes are left.
    pub fn all_candidates(&self) -> (r: Option<Vec<Ref>>)
        requires
            self.wf(),
        ensures
            r.is_some() == has_key(self.data_view(), self.position()),
            r matches Some(v) ==> v@ == candidates_at(
                self.preroll_view(),
                self.data_view(),
                self.position(),
            ),
    {
        match self.refs.at(self.data_pos) {
            None => None,
            Some(refs) => {
                proof {
                    lemma_refs_at_bounds(
                        self.preroll_view(),
                        self.data_view(),
                        self.data_pos as int,
                    );
                }
                let ghost want = candidates_at(
                    self.preroll_view(),
                    self.data_view(),
                    self.position(),
                );
                let mut out: Vec<Ref> = Vec::with_capacity(refs.len());
                let mut i: usize = 0;
                while i < refs.len()
                    invariant
                        i <= refs@.len(),
                        out@.len() == i,
                        want.len() == refs@.len(),
                        forall|n: int| 0 <= n < refs@.len() ==> 3 <= (#[trigger] refs@[n]).1,
                        forall|n: int|
                            0 <= n < refs@.len() ==> #[trigger] want[n] == (
                                refs@[n].0,
                                packed_run(refs@[n].1 as int),
                            ),
                        forall|n: int| 0 <= n < i ==> out@[n] == want[n],
                    decreases refs@.len() - i,
                {
                    let (dist, run) = refs[i];
                    out.push((dist, pack_run(run)));
                    i += 1;
                }
                assert(out@ =~= want);
                Some(out)
            },
        }
    }

    /// The nearest reference open at the cursor, or `None` where there is
    /// none.
    pub fn first_candidate(&self) -> (r: Option<Ref>)
        requires
            self.wf(),
            has_key(self.data_view(), self.position()),
        ensures
            ({
                let cands = candidates_at(self.preroll_view(), self.data_view(), self.position());
                match r {
                    Some(c) => cands.len() > 0 && c == cands[0],
                    None => cands.len() == 0,
                }
            }),
    {
        proof {
            lemma_refs_at_bounds(self.preroll_view(), self.data_view(), self.data_pos as int);
        }
        match self.refs.first_at(self.data_pos) {
            None => None,
            Some((dist, run)) => Some((dist, pack_run(run))),
        }
    }

    /// The byte at the cursor, as a token.
    pub fn current_literal(&self) -> (c: Code)
        requires
            self.position() < self.data_view().len(),
        ensures
            c == Code::Literal(self.data_view()[self.position()]),
    {
        Code::Literal(self.refs.byte(self.data_pos))
    }

    /// The byte `dist` places before the cursor.
    pub fn get_at_dist(&self, dist: u16) -> (b: u8)
        requires
            0 < dist <= self.preroll_view().len() + self.position(),
            self.position() <= self.data_view().len(),
        ensures
            b == crate::all_refs::byte_at_dist(
                self.preroll_view(),
                self.data_view(),
                self.position(),
                dist as int,
            ),
    {
        self.refs.get_at_dist(self.data_pos, dist)
    }

    /// The length of the run at the cursor that copies from `dist` places
    /// back, its first three bytes taken to agree.
    pub fn possible_run_length_at(&self, dist: u16) -> (run: u16)
        requires
            0 < dist <= self.preroll_view().len() + self.position(),
            self.position() <= self.data_view().len(),
        ensures
            run == crate::all_refs::run_length(
                self.preroll_view(),
                self.data_view(),
                self.position(),
                dist as int,
            ),
    {
        self.refs.possible_run_length_at(self.data_pos, dist)
    }
}

/// Whether `a` is preferred to `b`.
fn outranks(a: Ref, b: Ref) -> (r: bool)
    ensures
        r == ranks_before(a, b),
{
    a.1 > b.1 || (a.1 == b.1 && a.0 < b.0)
}

/// Puts `x` into a ranked list, behind the last element that it is not
/// preferred to.
fn insert_by_rank(v: &mut Vec<Ref>, x: Ref)
    ensures
        final(v)@ == insert_ranked(old(v)@, x),
{
    let ghost before = v@;
    v.push(x);
    let mut i: usize = v.len() - 1;
    proof {
        assert(before.subrange(0, i as int) =~= before);
        assert(v@ =~= before.subrange(0, i as int).push(x) + before.subrange(
            i as int,
            before.len() as int,
        ));
    }
    while i > 0 && outranks(x, v[i - 1])
        invariant
            i <= before.len(),
            v@.len() == before.len() + 1,
            v@ == before.subrange(0, i as int).push(x) + before.subrange(
                i as int,
                before.len() as int,
            ),
            insert_ranked(before, x) == insert_ranked(before.subrange(0, i as int), x)
                + before.subrange(i as int, before.len() as int),
        decreases i,
    {
        let prev = v[i - 1];
        assert(prev == before[i - 1]);
        v.set(i, prev);
        v.set(i - 1, x);
        proof {
            let head = before.subrange(0, i as int);
            assert(head.last() == prev);
            assert(head.drop_last() =~= before.subrange(0, i - 1));
            assert(insert_ranked(head, x) == insert_ranked(before.subrange(0, i - 1), x).push(
                prev,
            ));
            assert(insert_ranked(before.subrange(0, i - 1), x).push(prev) + before.subrange(
                i as int,
                before.len() as int,
            ) =~= insert_ranked(before.subrange(0, i - 1), x) + before.subrange(
                i - 1,
                before.len() as int,
            ));
            assert(v@ =~= before.subrange(0, i - 1).push(x) + before.subrange(
                i - 1,
                before.len() as int,
            ));
        }
        i -= 1;
    }
    proof {
        let head = before.subrange(0, i as int);
        if i > 0 {
            assert(head.last() == before[i - 1]);
            assert(v@[i - 1] == before[i - 1]);
        }
        assert(insert_ranked(head, x) =~= head.push(x));
    }
}

/// The references with the preferred first: the longest run, and among
/// equally long runs the nearest.
pub fn sorted_candidates(candidates: Vec<Ref>) -> (us: Vec<Ref>)
    ensures
        us@ == ranked(candidates@),
{
    let mut us: Vec<Ref> = Vec::with_capacity(candidates.len());
    let mut i: usize = 0;
    while i < candidates.len()
        invariant
            i <= candidates@.len(),
            us@ == ranked(candidates@.subrange(0, i as int)),
        decreases candidates@.len() - i,
    {
        proof {
            let next = candidates@.subrange(0, i + 1);
            assert(next.drop_last() =~= candidates@.subrange(0, i as int));
            assert(next.last() == candidates@[i as int]);
        }
        insert_by_rank(&mut us, candidates[i]);
        i += 1;
    }
    assert(candidates@.subrange(0, i as int) =~= candidates@);
    us
}

/// The hint for the reference that was chosen among `candidates`: 0 where
/// it is the preferred one, else its place among the ranked candidates
/// plus 1. `NotInCandidates` where it is not among them.
pub fn find_reference_score(
    actual_dist: u16,
    actual_run_minus_3: u8,
    candidates: Vec<Ref>,
) -> (r: Result<usize, Error>)
    ensures
        r == score_of(candidates@, (actual_dist, actual_run_minus_3)),
{
    let us = sorted_candidates(candidates);
    let x: Ref = (actual_dist, actual_run_minus_3);
    let mut k: usize = 0;
    while k < us.len()
        invariant
            k <= us@.len(),
            us@ == ranked(candidates@),
            x == (actual_dist, actual_run_minus_3),
            position(us@, x, 0) == position(us@, x, k as int),
        decreases us@.len() - k,
    {
        let c = us[k];
        if c.0 == x.0 && c.1 == x.1 {
            assert(us@[k as int] == x);
            if k == 0 {
                return Ok(0);
            } else {
                return Ok(k + 1);
            }
        }
        k += 1;
    }
    Err(Error::NotInCandidates)
}

/// The hint for a token that stands at the cursor: none where the choice
/// was forced, 1 for a literal, the score for a reference.
pub fn reduce_code(orig: &Code, options: &AllOptions) -> (r: Result<Option<usize>, Error>)
    requires
        options.wf(),
    ensures
        r == hint_at(options.preroll_view(), options.data_view(), options.position(), *orig),
{
    if options.key().is_none() {
        return Ok(None);
    }
    match options.first_candidate() {
        None => match *orig {
            // There are no runs, so a literal is the only choice
            Code::Literal(_) => Ok(None),
            Code::Reference { .. } => Err(Error::Inconsistent),
        },
        Some(first) => {
            if first.0 == 1 && first.1 == 255 {
                return Ok(None);
            }
            match *orig {
                // There's a run available, and it was not picked
                Code::Literal(_) => Ok(Some(1)),
                Code::Reference { dist, run_minus_3 } => {
                    let candidates = match options.all_candidates() {
                        Some(c) => c,
                        None => Vec::new(),
                    };
                    match find_reference_score(dist, run_minus_3, candidates) {
                        Ok(h) => Ok(Some(h)),
                        Err(e) => Err(e),
                    }
                },
            }
        },
    }
}

/// The hints of a token stream over the block it stands for: for each
/// token none or one, in the order of the tokens. Fails at the first
/// token that is a reference where none is open (`Inconsistent`) or that
/// is not among the open ones (`NotInCandidates`).
pub fn reduce_entropy(preroll: &[u8], data: &[u8], codes: &[Code]) -> (r: Result<
    Vec<usize>,
    Error,
>)
    requires
        preroll@.len() + data@.len() <= usize::MAX,
    ensures
        match (r, reduced(preroll@, data@, codes@)) {
            (Ok(v), Ok(s)) => v@ == s,
            (Err(e), Err(f)) => e == f,
            _ => false,
        },
{
    let mut options = find_all_options(preroll, data);
    let mut hints: Vec<usize> = Vec::new();
    let mut i: usize = 0;
    assert(Seq::<usize>::empty() + Seq::<usize>::empty() =~= Seq::<usize>::empty());
    while i < codes.len()
        invariant
            i <= codes@.len(),
            data@.len() <= usize::MAX,
            options.wf(),
            options.preroll_view() == preroll@,
            options.data_view() == data@,
            options.position() >= 0,
            reduced(preroll@, data@, codes@) == hints_then(
                hints@,
                reduce_from(preroll@, data@, codes@, i as int, options.position()),
            ),
        decreases codes@.len() - i,
    {
        let orig = &codes[i];
        let ghost pos = options.position();
        let ghost rest = reduce_from(preroll@, data@, codes@, i + 1, pos + emitted(*orig));
        let ghost before = hints@;
        match reduce_code(orig, &options) {
            Err(e) => {
                return Err(e);
            },
            Ok(Some(h)) => {
                hints.push(h);
                proof {
                    if let Ok(s) = rest {
                        assert(before + (seq![h] + s) =~= hints@ + s);
                    }
                }
            },
            Ok(None) => {
                proof {
                    if let Ok(s) = rest {
                        assert(before + (Seq::<usize>::empty() + s) =~= hints@ + s);
                    }
                }
            },
        }
        let step = usize_from(orig.emitted_bytes());
        if !options.can_advance() || step > usize::MAX - options.data_pos {
            proof {
                lemma_reduce_past_keys(preroll@, data@, codes@, i + 1, pos + emitted(*orig));
                assert(hints@ + Seq::<usize>::empty() =~= hints@);
            }
            return Ok(hints);
        }
        options.advance(step);
        i += 1;
    }
    proof {
        assert(hints@ + Seq::<usize>::empty() =~= hints@);
    }
    Ok(hints)
}

/// A reference as a token.
pub open spec fn code_of(r: Ref) -> Code {
    Code::Reference { dist: r.0, run_minus_3: r.1 }
}

/// The reference that the hint `h` picks among `cands`, or none where it
/// picks the literal: 0 is the preferred reference, 1 the literal, and
/// `h > 1` the reference at place `h - 1` of the ranked ones.
pub open spec fn choice_with(cands: Seq<Ref>, h: usize) -> Result<Option<Ref>, Error> {
    if h == 0 {
        Ok(Some(ranked(cands)[0]))
    } else if h == 1 {
        Ok(None)
    } else if h - 1 < ranked(cands).len() {
        Ok(Some(ranked(cands)[h - 1]))
    } else {
        Err(Error::NotInCandidates)
    }
}

/// The token to emit where `cands` are open, the nearest first, and the
/// place of the next unused hint after it. No token stands for the
/// literal. No hint is used where nothing is open or where the mandatory
/// reference is; `Truncated` where a hint is needed and none is left.
pub open spec fn step_for(cands: Seq<Ref>, hints: Seq<usize>, next: int) -> Result<
    (Option<Code>, int),
    Error,
> {
    if cands.len() == 0 {
        Ok((None, next))
    } else if cands[0] == mandatory() {
        Ok((Some(code_of(cands[0])), next))
    } else if next >= hints.len() {
        Err(Error::Truncated)
    } else {
        match choice_with(cands, hints[next]) {
            Err(e) => Err(e),
            Ok(None) => Ok((None, next + 1)),
            Ok(Some(r)) => Ok((Some(code_of(r)), next + 1)),
        }
    }
}

/// The references open at `data_pos`; none where fewer than three bytes
/// are left.
pub open spec fn open_at(preroll: Seq<u8>, data: Seq<u8>, data_pos: int) -> Seq<Ref> {
    if has_key(data, data_pos) {
        candidates_at(preroll, data, data_pos)
    } else {
        Seq::empty()
    }
}

/// `codes` in front of what `rest` holds; the error of `rest` where it is
/// one.
pub open spec fn codes_then(codes: Seq<Code>, rest: Result<Seq<Code>, Error>) -> Result<
    Seq<Code>,
    Error,
> {
    match rest {
        Ok(r) => Ok(codes + r),
        Err(e) => Err(e),
    }
}

/// How many bytes of the block stand at `data_pos` and after it.
pub open spec fn left_of(data: Seq<u8>, data_pos: int) -> nat {
    if data_pos < data.len() {
        (data.len() - data_pos) as nat
    } else {
        0
    }
}

/// The tokens for the block from `data_pos` on, the hints from the
/// `next`-th on being unused.
pub open spec fn increase_from(
    preroll: Seq<u8>,
    data: Seq<u8>,
    hints: Seq<usize>,
    next: int,
    data_pos: int,
) -> Result<Seq<Code>, Error>
    decreases left_of(data, data_pos),
{
    if data_pos < 0 || data_pos >= data.len() {
        Ok(Seq::empty())
    } else {
        match step_for(open_at(preroll, data, data_pos), hints, next) {
            Err(e) => Err(e),
            Ok((c, after)) => {
                let code = match c {
                    Some(code) => code,
                    None => Code::Literal(data[data_pos]),
                };
                codes_then(
                    seq![code],
                    increase_from(preroll, data, hints, after, data_pos + emitted(code)),
                )
            },
        }
    }
}

/// The tokens that the hints give over a block.
pub open spec fn increased(preroll: Seq<u8>, data: Seq<u8>, hints: Seq<usize>) -> Result<
    Seq<Code>,
    Error,
> {
    increase_from(preroll, data, hints, 0, 0)
}

/// Putting a reference into a ranked list adds it and nothing else.
pub proof fn lemma_insert_ranked_members(s: Seq<Ref>, x: Ref)
    ensures
        insert_ranked(s, x).len() == s.len() + 1,
        insert_ranked(s, x).contains(x),
        forall|i: int| 0 <= i < s.len() ==> insert_ranked(s, x).contains(#[trigger] s[i]),
        forall|i: int|
            0 <= i < insert_ranked(s, x).len() ==> (#[trigger] insert_ranked(s, x)[i]) == x
                || s.contains(insert_ranked(s, x)[i]),
    decreases s.len(),
{
    let r = insert_ranked(s, x);
    if s.len() == 0 {
        assert(r[0] == x);
    } else if ranks_before(x, s.last()) {
        let t = s.drop_last();
        let u = insert_ranked(t, x);
        lemma_insert_ranked_members(t, x);
        assert(r =~= u.push(s.last()));
        let w = choose|w: int| 0 <= w < u.len() && u[w] == x;
        assert(r[w] == x);
        assert forall|i: int| 0 <= i < s.len() implies r.contains(#[trigger] s[i]) by {
            if i < t.len() {
                assert(u.contains(t[i]));
                let j = choose|j: int| 0 <= j < u.len() && u[j] == t[i];
                assert(r[j] == s[i]);
            } else {
                assert(r[u.len() as int] == s[i]);
            }
        }
        assert forall|i: int| 0 <= i < r.len() implies (#[trigger] r[i]) == x || s.contains(
            r[i],
        ) by {
            if i < u.len() {
                if u[i] != x {
                    assert(t.contains(u[i]));
                    let j = choose|j: int| 0 <= j < t.len() && t[j] == u[i];
                    assert(s[j] == r[i]);
                }
            } else {
                assert(s[s.len() - 1] == r[i]);
            }
        }
    } else {
        assert(r =~= s.push(x));
        assert(r[s.len() as int] == x);
        assert forall|i: int| 0 <= i < s.len() implies r.contains(#[trigger] s[i]) by {
            assert(r[i] == s[i]);
        }
        assert forall|i: int| 0 <= i < r.len() implies (#[trigger] r[i]) == x || s.contains(
            r[i],
        ) by {
            if i < s.len() {
                assert(s[i] == r[i]);
            }
        }
    }
}

/// Ranking keeps the references: as many as before, each of them one of
/// those that were given, and each of those given among them.
pub proof fn lemma_ranked_members(s: Seq<Ref>)
    ensures
        ranked(s).len() == s.len(),
        forall|i: int| 0 <= i < s.len() ==> s.contains(#[trigger] ranked(s)[i]),
        forall|i: int| 0 <= i < s.len() ==> ranked(s).contains(#[trigger] s[i]),
    decreases s.len(),
{
    if s.len() > 0 {
        let t = s.drop_last();
        lemma_ranked_members(t);
        lemma_insert_ranked_members(ranked(t), s.last());
        let r = ranked(s);
        assert forall|i: int| 0 <= i < s.len() implies s.contains(#[trigger] r[i]) by {
            if r[i] == s.last() {
                assert(s[s.len() - 1] == r[i]);
            } else {
                assert(ranked(t).contains(r[i]));
                let j = choose|j: int| 0 <= j < t.len() && ranked(t)[j] == r[i];
                assert(t.contains(ranked(t)[j]));
                let m = choose|m: int| 0 <= m < t.len() && t[m] == r[i];
                assert(s[m] == r[i]);
            }
        }
        assert forall|i: int| 0 <= i < s.len() implies r.contains(#[trigger] s[i]) by {
            if i < t.len() {
                assert(t[i] == s[i]);
                assert(ranked(t).contains(t[i]));
                let j = choose|j: int| 0 <= j < t.len() && ranked(t)[j] == t[i];
                assert(r.contains(ranked(t)[j]));
            }
        }
    }
}

/// Every reference open at a position runs no further than the block.
pub proof fn lemma_candidates_fit(preroll: Seq<u8>, data: Seq<u8>, data_pos: int)
    requires
        0 <= data_pos,
        has_key(data, data_pos),
    ensures
        candidates_at(preroll, data, data_pos).len() == refs_at(preroll, data, data_pos).len(),
        candidates_at(preroll, data, data_pos).len() <= 32768,
        forall|i: int, j: int|
            0 <= i < j < candidates_at(preroll, data, data_pos).len() ==> candidates_at(
                preroll,
                data,
                data_pos,
            )[i].0 < candidates_at(preroll, data, data_pos)[j].0,
        forall|i: int|
            0 <= i < candidates_at(preroll, data, data_pos).len() ==> {
                let c = #[trigger] candidates_at(preroll, data, data_pos)[i];
                &&& 1 <= c.0 <= 32768
                &&& c.0 <= preroll.len() + data_pos
                &&& c.1 + 3 == refs_at(preroll, data, data_pos)[i].1
                &&& data_pos + c.1 + 3 <= data.len()
            },
{
    lemma_refs_at_bounds(preroll, data, data_pos);
    let abs = preroll.len() + data_pos;
    crate::all_refs::lemma_offsets_desc_members(
        preroll + data,
        crate::all_refs::packed_key(key_at(data, data_pos)),
        crate::all_refs::window_start(abs),
        abs - 1,
    );
}

/// The token to emit at the cursor and the place of the next unused hint
/// after it; no token where the literal is to be emitted.
pub fn increase_code(options: &AllOptions, hints: &[usize], next: usize) -> (r: Result<
    (Option<Code>, usize),
    Error,
>)
    requires
        options.wf(),
        has_key(options.data_view(), options.position()),
        next <= hints@.len(),
    ensures
        match (
            r,
            step_for(
                candidates_at(options.preroll_view(), options.data_view(), options.position()),
                hints@,
                next as int,
            ),
        ) {
            (Ok(got), Ok(want)) => got.0 == want.0 && got.1 == want.1,
            (Err(e), Err(f)) => e == f,
            _ => false,
        },
{
    match options.first_candidate() {
        None => Ok((None, next)),
        Some(first) => {
            if first.0 == 1 && first.1 == 255 {
                return Ok((Some(Code::Reference { dist: first.0, run_minus_3: first.1 }), next));
            }
            if next >= hints.len() {
                return Err(Error::Truncated);
            }
            let hint = hints[next];
            if hint == 1 {
                return Ok((None, next + 1));
            }
            let candidates = match options.all_candidates() {
                Some(c) => c,
                None => Vec::new(),
            };
            proof {
                lemma_ranked_members(candidates@);
            }
            let candidates = sorted_candidates(candidates);
            let place: usize = if hint == 0 {
                0
            } else {
                hint - 1
            };
            if place < candidates.len() {
                let c = candidates[place];
                Ok((Some(Code::Reference { dist: c.0, run_minus_3: c.1 }), next + 1))
            } else {
                Err(Error::NotInCandidates)
            }
        },
    }
}

/// The tokens of a block, from its bytes and the hints: at each position
/// the literal where nothing is open, the mandatory reference where it
/// is, else what the next hint picks. `Truncated` where a hint is needed
/// and none is left, `NotInCandidates` where a hint picks a place beyond
/// the open references. Hints left over are not looked at.
pub fn increase_entropy(preroll: &[u8], data: &[u8], hints: &[usize]) -> (r: Result<
    Vec<Code>,
    Error,
>)
    requires
        preroll@.len() + data@.len() <= usize::MAX,
    ensures
        match (r, increased(preroll@, data@, hints@)) {
            (Ok(v), Ok(s)) => v@ == s,
            (Err(e), Err(f)) => e == f,
            _ => false,
        },
{
    let mut options = find_all_options(preroll, data);
    let mut next: usize = 0;
    let mut ret: Vec<Code> = Vec::new();
    assert(Seq::<Code>::empty() + Seq::<Code>::empty() =~= Seq::<Code>::empty());

    while options.key().is_some()
        invariant
            options.wf(),
            options.preroll_view() == preroll@,
            options.data_view() == data@,
            0 <= options.position() <= data@.len(),
            data@.len() <= usize::MAX,
            next <= hints@.len(),
            increased(preroll@, data@, hints@) == codes_then(
                ret@,
                increase_from(preroll@, data@, hints@, next as int, options.position()),
            ),
        decreases data@.len() - options.position(),
    {
        let ghost pos = options.position();
        let ghost before = ret@;
        proof {
            lemma_candidates_fit(preroll@, data@, pos);
            lemma_ranked_members(candidates_at(preroll@, data@, pos));
        }
        let orig = match increase_code(&options, hints, next) {
            Err(e) => {
                return Err(e);
            },
            Ok((c, after)) => {
                next = after;
                match c {
                    Some(code) => code,
                    None => options.current_literal(),
                }
            },
        };
        ret.push(orig);
        proof {
            let rest = increase_from(preroll@, data@, hints@, next as int, pos + emitted(orig));
            if let Ok(s) = rest {
                assert(before + (seq![orig] + s) =~= ret@ + s);
            }
        }
        options.advance(usize_from(orig.emitted_bytes()));
    }

    while options.can_advance()
        invariant
            options.wf(),
            options.preroll_view() == preroll@,
            options.data_view() == data@,
            0 <= options.position() <= data@.len(),
            data@.len() <= usize::MAX,
            !has_key(data@, options.position()),
            increased(preroll@, data@, hints@) == codes_then(
                ret@,
                increase_from(preroll@, data@, hints@, next as int, options.position()),
            ),
        decreases data@.len() - options.position(),
    {
        let ghost pos = options.position();
        let ghost before = ret@;
        let orig = options.current_literal();
        ret.push(orig);
        proof {
            let rest = increase_from(preroll@, data@, hints@, next as int, pos + 1);
            if let Ok(s) = rest {
                assert(before + (seq![orig] + s) =~= ret@ + s);
            }
        }
        options.advance(1);
    }

    proof {
        assert(ret@ + Seq::<Code>::empty() =~= ret@);
    }
    Ok(ret)
}

/// Whether the mandatory reference is open at `data_pos`.
pub open spec fn mandatory_open(preroll: Seq<u8>, data: Seq<u8>, data_pos: int) -> bool {
    open_at(preroll, data, data_pos).len() > 0 && open_at(preroll, data, data_pos)[0]
        == mandatory()
}

/// The tokens from the `i`-th on cover the block from `data_pos` to its
/// end: each literal is the byte at its place, no reference stands where
/// fewer than three bytes are left, and where the mandatory reference is
/// open the token is that reference.
pub open spec fn covers(
    preroll: Seq<u8>,
    data: Seq<u8>,
    codes: Seq<Code>,
    i: int,
    data_pos: int,
) -> bool
    decreases codes.len() - i,
{
    if i >= codes.len() {
        data_pos == data.len()
    } else {
        &&& match codes[i] {
            Code::Literal(b) => data_pos < data.len() && data[data_pos] == b && !mandatory_open(
                preroll,
                data,
                data_pos,
            ),
            Code::Reference { .. } => has_key(data, data_pos) && (mandatory_open(
                preroll,
                data,
                data_pos,
            ) ==> codes[i] == code_of(mandatory())),
        }
        &&& covers(preroll, data, codes, i + 1, data_pos + emitted(codes[i]))
    }
}

/// Where `position` finds `x`, it stands there, and nowhere between
/// `from` and there.
pub proof fn lemma_position_found(s: Seq<Ref>, x: Ref, from: int)
    requires
        0 <= from,
    ensures
        match position(s, x, from) {
            Some(k) => from <= k < s.len() && s[k] == x && forall|j: int|
                from <= j < k ==> s[j] != x,
            None => forall|j: int| from <= j < s.len() ==> s[j] != x,
        },
    decreases s.len() - from,
{
    if from < s.len() && s[from] != x {
        lemma_position_found(s, x, from + 1);
    }
}

/// The tokens that stand behind the hints, from the `i`-th token on: the
/// hints of those tokens, read as hints from the `next`-th on, give those
/// tokens again.
pub proof fn lemma_round_trip_from(
    preroll: Seq<u8>,
    data: Seq<u8>,
    codes: Seq<Code>,
    i: int,
    data_pos: int,
    hints: Seq<usize>,
    next: int,
)
    requires
        0 <= i <= codes.len(),
        0 <= data_pos,
        0 <= next <= hints.len(),
        covers(preroll, data, codes, i, data_pos),
        reduce_from(preroll, data, codes, i, data_pos) == Ok::<Seq<usize>, Error>(
            hints.subrange(next, hints.len() as int),
        ),
    ensures
        increase_from(preroll, data, hints, next, data_pos) == Ok::<Seq<Code>, Error>(
            codes.subrange(i, codes.len() as int),
        ),
    decreases codes.len() - i,
{
    let tail = hints.subrange(next, hints.len() as int);
    if i >= codes.len() {
        assert(codes.subrange(i, codes.len() as int) =~= Seq::<Code>::empty());
    } else {
        let code = codes[i];
        let after_pos = data_pos + emitted(code);
        let cands = open_at(preroll, data, data_pos);
        let h = hint_at(preroll, data, data_pos, code)->Ok_0;
        let rest = reduce_from(preroll, data, codes, i + 1, after_pos)->Ok_0;
        assert(tail == hint_seq(h) + rest);
        if has_key(data, data_pos) {
            lemma_candidates_fit(preroll, data, data_pos);
            lemma_ranked_members(cands);
        }
        let after = match h {
            Some(_) => next + 1,
            None => next,
        };
        match h {
            Some(v) => {
                assert(tail.len() == (seq![v] + rest).len());
                assert(next < hints.len());
                assert((seq![v] + rest)[0] == v);
                assert(hints[next] == tail[0]);
                assert forall|j: int| 0 <= j < rest.len() implies rest[j] == hints[next + 1 + j] by {
                    assert((seq![v] + rest)[j + 1] == rest[j]);
                    assert(tail[j + 1] == hints[next + j + 1]);
                }
                assert(rest =~= hints.subrange(next + 1, hints.len() as int));
                if let Code::Reference { dist, run_minus_3 } = code {
                    lemma_position_found(ranked(cands), (dist, run_minus_3), 0);
                }
            },
            None => {
                assert(rest =~= tail);
            },
        }
        assert(step_for(cands, hints, next) == Ok::<(Option<Code>, int), Error>(
            (
                match code {
                    Code::Literal(_) => None,
                    Code::Reference { .. } => Some(code),
                },
                after,
            ),
        ));
        lemma_round_trip_from(preroll, data, codes, i + 1, after_pos, hints, after);
        assert(seq![code] + codes.subrange(i + 1, codes.len() as int) =~= codes.subrange(
            i,
            codes.len() as int,
        ));
    }
}

/// Reading the hints of a token stream gives the token stream again:
/// where the tokens cover the block and have the hints `hints`, the
/// tokens that `hints` give over the block are those tokens.
pub proof fn lemma_round_trip(
    preroll: Seq<u8>,
    data: Seq<u8>,
    codes: Seq<Code>,
    hints: Seq<usize>,
)
    requires
        covers(preroll, data, codes, 0, 0),
        reduced(preroll, data, codes) == Ok::<Seq<usize>, Error>(hints),
    ensures
        increased(preroll, data, hints) == Ok::<Seq<Code>, Error>(codes),
{
    assert(hints.subrange(0, hints.len() as int) =~= hints);
    lemma_round_trip_from(preroll, data, codes, 0, 0, hints, 0);
    assert(codes.subrange(0, codes.len() as int) =~= codes);
}

/// The place of the first hint that is not used when the tokens for the
/// block from `data_pos` on are made, the hints from the `next`-th on
/// being unused before.
pub open spec fn next_after(
    preroll: Seq<u8>,
    data: Seq<u8>,
    hints: Seq<usize>,
    next: int,
    data_pos: int,
) -> int
    decreases left_of(data, data_pos),
{
    if data_pos < 0 || data_pos >= data.len() {
        next
    } else {
        match step_for(open_at(preroll, data, data_pos), hints, next) {
            Err(e) => next,
            Ok((c, after)) => {
                let code = match c {
                    Some(code) => code,
                    None => Code::Literal(data[data_pos]),
                };
                next_after(preroll, data, hints, after, data_pos + emitted(code))
            },
        }
    }
}

/// Putting a new reference into a list without repeats leaves it without
/// repeats.
pub proof fn lemma_insert_ranked_distinct(s: Seq<Ref>, x: Ref)
    requires
        s.no_duplicates(),
        !s.contains(x),
    ensures
        insert_ranked(s, x).no_duplicates(),
    decreases s.len(),
{
    let r = insert_ranked(s, x);
    if s.len() == 0 {
    } else if ranks_before(x, s.last()) {
        let t = s.drop_last();
        let u = insert_ranked(t, x);
        assert(!t.contains(x)) by {
            if t.contains(x) {
                let j = choose|j: int| 0 <= j < t.len() && t[j] == x;
                assert(s[j] == x);
            }
        }
        lemma_insert_ranked_distinct(t, x);
        lemma_insert_ranked_members(t, x);
        assert(r =~= u.push(s.last()));
        assert forall|i: int, j: int| 0 <= i < r.len() && 0 <= j < r.len() && i != j implies r[i]
            != r[j] by {
            if i < u.len() && j < u.len() {
            } else {
                let m = if i < u.len() {
                    i
                } else {
                    j
                };
                if u[m] != x {
                    assert(t.contains(u[m]));
                    let n = choose|n: int| 0 <= n < t.len() && t[n] == u[m];
                    assert(s[n] != s[s.len() - 1]);
                } else {
                    assert(s[s.len() - 1] != x);
                }
            }
        }
    } else {
        assert(r =~= s.push(x));
        assert forall|i: int, j: int| 0 <= i < r.len() && 0 <= j < r.len() && i != j implies r[i]
            != r[j] by {
            if i < s.len() && j < s.len() {
            } else {
                let m = if i < s.len() {
                    i
                } else {
                    j
                };
                assert(s[m] != x);
            }
        }
    }
}

/// Ranking a list without repeats gives one without repeats.
pub proof fn lemma_ranked_distinct(s: Seq<Ref>)
    requires
        s.no_duplicates(),
    ensures
        ranked(s).no_duplicates(),
    decreases s.len(),
{
    if s.len() > 0 {
        let t = s.drop_last();
        lemma_ranked_distinct(t);
        lemma_ranked_members(t);
        assert(!ranked(t).contains(s.last())) by {
            if ranked(t).contains(s.last()) {
                let j = choose|j: int| 0 <= j < t.len() && ranked(t)[j] == s.last();
                assert(t.contains(ranked(t)[j]));
                let n = choose|n: int| 0 <= n < t.len() && t[n] == s.last();
                assert(s[n] == s[s.len() - 1]);
            }
        }
        lemma_insert_ranked_distinct(ranked(t), s.last());
    }
}

/// `position` finds `x` at `k` where it stands there and nowhere between
/// `from` and there.
pub proof fn lemma_position_at(s: Seq<Ref>, x: Ref, from: int, k: int)
    requires
        0 <= from <= k < s.len(),
        s[k] == x,
        forall|j: int| from <= j < k ==> s[j] != x,
    ensures
        position(s, x, from) == Some(k),
    decreases k - from,
{
    if from < k {
        lemma_position_at(s, x, from + 1, k);
    }
}

/// The hints of the tokens behind the first are those of the stream
/// without it.
pub proof fn lemma_reduce_shift(
    preroll: Seq<u8>,
    data: Seq<u8>,
    first: Code,
    rest: Seq<Code>,
    i: int,
    data_pos: int,
)
    requires
        0 <= i,
    ensures
        reduce_from(preroll, data, seq![first] + rest, i + 1, data_pos) == reduce_from(
            preroll,
            data,
            rest,
            i,
            data_pos,
        ),
    decreases rest.len() - i,
{
    let all = seq![first] + rest;
    if i < rest.len() {
        assert(all[i + 1] == rest[i]);
        lemma_reduce_shift(preroll, data, first, rest, i + 1, data_pos + emitted(rest[i]));
    }
}

/// The hints that were used to make the tokens of the block from
/// `data_pos` on are the hints of those tokens.
pub proof fn lemma_hints_come_back_from(
    preroll: Seq<u8>,
    data: Seq<u8>,
    hints: Seq<usize>,
    next: int,
    data_pos: int,
)
    requires
        0 <= data_pos,
        0 <= next <= hints.len(),
        increase_from(preroll, data, hints, next, data_pos).is_ok(),
    ensures
        next <= next_after(preroll, data, hints, next, data_pos) <= hints.len(),
        reduce_from(
            preroll,
            data,
            increase_from(preroll, data, hints, next, data_pos)->Ok_0,
            0,
            data_pos,
        ) == Ok::<Seq<usize>, Error>(
            hints.subrange(next, next_after(preroll, data, hints, next, data_pos)),
        ),
    decreases left_of(data, data_pos),
{
    let used = next_after(preroll, data, hints, next, data_pos);
    if data_pos >= data.len() {
        assert(hints.subrange(next, next) =~= Seq::<usize>::empty());
    } else {
        let cands = open_at(preroll, data, data_pos);
        let step = step_for(cands, hints, next)->Ok_0;
        let after = step.1;
        let code = match step.0 {
            Some(code) => code,
            None => Code::Literal(data[data_pos]),
        };
        let after_pos = data_pos + emitted(code);
        let rest = increase_from(preroll, data, hints, after, after_pos)->Ok_0;
        let all = seq![code] + rest;
        assert(increase_from(preroll, data, hints, next, data_pos)->Ok_0 == all);
        if has_key(data, data_pos) {
            lemma_candidates_fit(preroll, data, data_pos);
            lemma_ranked_members(cands);
            assert(cands.no_duplicates()) by {
                assert forall|i: int, j: int|
                    0 <= i < cands.len() && 0 <= j < cands.len() && i != j implies cands[i]
                    != cands[j] by {
                    if i < j {
                        assert(cands[i].0 < cands[j].0);
                    } else {
                        assert(cands[j].0 < cands[i].0);
                    }
                }
            }
            lemma_ranked_distinct(cands);
        }
        lemma_hints_come_back_from(preroll, data, hints, after, after_pos);
        lemma_reduce_shift(preroll, data, code, rest, 0, after_pos);
        assert(all[0] == code);
        let h = hint_seq(hint_at(preroll, data, data_pos, code)->Ok_0);
        if after == next {
            assert(hint_at(preroll, data, data_pos, code) == Ok::<Option<usize>, Error>(None));
            assert(h + hints.subrange(after, used) =~= hints.subrange(next, used));
        } else {
            let v = hints[next];
            let place = if v == 0 {
                0
            } else {
                v - 1
            };
            if v != 1 {
                assert forall|j: int| 0 <= j < place implies ranked(cands)[j] != ranked(
                    cands,
                )[place] by {}
                lemma_position_at(ranked(cands), ranked(cands)[place], 0, place);
            }
            assert(hint_at(preroll, data, data_pos, code) == Ok::<Option<usize>, Error>(Some(v)));
            assert(h + hints.subrange(after, used) =~= hints.subrange(next, used));
        }
    }
}

/// Making tokens from hints and taking their hints gives the hints
/// again, where every hint was used: if `hints` give `codes` over the
/// block and none of them is left over, the hints of `codes` are
/// `hints`.
pub proof fn lemma_hints_come_back(
    preroll: Seq<u8>,
    data: Seq<u8>,
    hints: Seq<usize>,
    codes: Seq<Code>,
)
    requires
        increased(preroll, data, hints) == Ok::<Seq<Code>, Error>(codes),
        next_after(preroll, data, hints, 0, 0) == hints.len(),
    ensures
        reduced(preroll, data, codes) == Ok::<Seq<usize>, Error>(hints),
{
    lemma_hints_come_back_from(preroll, data, hints, 0, 0);
    assert(hints.subrange(0, hints.len() as int) =~= hints);
}

/// No element is preferred to one that stands before it.
pub open spec fn in_rank_order(s: Seq<Ref>) -> bool {
    forall|i: int, j: int| 0 <= i < j < s.len() ==> !ranks_before(s[j], s[i])
}

/// Putting a reference into a list in rank order leaves it in rank order.
pub proof fn lemma_insert_ranked_order(s: Seq<Ref>, x: Ref)
    requires
        in_rank_order(s),
    ensures
        in_rank_order(insert_ranked(s, x)),
    decreases s.len(),
{
    let r = insert_ranked(s, x);
    if s.len() == 0 {
    } else if ranks_before(x, s.last()) {
        let t = s.drop_last();
        let u = insert_ranked(t, x);
        assert(in_rank_order(t)) by {
            assert forall|i: int, j: int| 0 <= i < j < t.len() implies !ranks_before(
                t[j],
                t[i],
            ) by {
                assert(!ranks_before(s[j], s[i]));
            }
        }
        lemma_insert_ranked_order(t, x);
        lemma_insert_ranked_members(t, x);
        assert(r =~= u.push(s.last()));
        assert forall|i: int, j: int| 0 <= i < j < r.len() implies !ranks_before(r[j], r[i]) by {
            if j < u.len() {
                assert(!ranks_before(u[j], u[i]));
            } else if u[i] != x {
                assert(t.contains(u[i]));
                let n = choose|n: int| 0 <= n < t.len() && t[n] == u[i];
                assert(!ranks_before(s[s.len() - 1], s[n]));
            }
        }
    } else {
        assert(r =~= s.push(x));
        assert forall|i: int, j: int| 0 <= i < j < r.len() implies !ranks_before(r[j], r[i]) by {
            if j < s.len() {
                assert(!ranks_before(s[j], s[i]));
            } else if i < s.len() - 1 {
                assert(!ranks_before(s[s.len() - 1], s[i]));
            }
        }
    }
}

/// The ranked references stand in rank order: the longest run first, and
/// among equally long runs the nearest.
pub proof fn lemma_ranked_order(s: Seq<Ref>)
    ensures
        in_rank_order(ranked(s)),
    decreases s.len(),
{
    if s.len() > 0 {
        lemma_ranked_order(s.drop_last());
        lemma_insert_ranked_order(ranked(s.drop_last()), s.last());
    }
}

/// Among the references open at a position the mandatory one is the
/// nearest exactly if it is the first in rank.
pub proof fn lemma_mandatory_is_top(preroll: Seq<u8>, data: Seq<u8>, data_pos: int)
    requires
        0 <= data_pos,
        has_key(data, data_pos),
    ensures
        ({
            let cands = candidates_at(preroll, data, data_pos);
            (cands.len() > 0 && cands[0] == mandatory()) <==> (ranked(cands).len() > 0 && ranked(
                cands,
            )[0] == mandatory())
        }),
{
    let cands = candidates_at(preroll, data, data_pos);
    let top = ranked(cands);
    lemma_candidates_fit(preroll, data, data_pos);
    lemma_ranked_members(cands);
    lemma_ranked_order(cands);
    if cands.len() > 0 {
        assert(cands.contains(top[0]));
        let n = choose|n: int| 0 <= n < cands.len() && cands[n] == top[0];
        if cands[0] == mandatory() {
            assert(top.contains(cands[0]));
            let m = choose|m: int| 0 <= m < top.len() && top[m] == cands[0];
            if m > 0 {
                assert(!ranks_before(top[m], top[0]));
                assert(1 <= cands[n].0);
            }
        }
        if top[0] == mandatory() {
            if n > 0 {
                assert(cands[0].0 < cands[n].0);
                assert(1 <= cands[0].0);
            }
        }
    }
}

} // verus!
