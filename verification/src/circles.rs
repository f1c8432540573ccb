//! The sliding window: the bytes most recently emitted, up to a fixed
//! number of them, held in a ring.

use vstd::prelude::*;

verus! {

/// The last `cap` elements of `s`, or all of `s` where it has no more.
pub open spec fn tail_cap(s: Seq<u8>, cap: int) -> Seq<u8> {
    if s.len() > cap {
        s.subrange(s.len() - cap, s.len() as int)
    } else {
        s
    }
}

/// The bytes that a copy of `run` bytes from `dist` back appends to the
/// window `w`, byte by byte: each byte copied is in the window before the
/// next is read, so a run longer than its distance repeats itself.
pub open spec fn copied(w: Seq<u8>, cap: int, dist: int, run: int) -> Seq<u8>
    decreases run,
{
    if run <= 0 {
        Seq::empty()
    } else {
        let b = w[w.len() - dist];
        seq![b] + copied(tail_cap(w.push(b), cap), cap, dist, run - 1)
    }
}

/// Cutting to the last `cap` before appending changes nothing after the
/// next cut.
pub proof fn lemma_tail_cap_append(s: Seq<u8>, t: Seq<u8>, cap: int)
    requires
        cap >= 0,
    ensures
        tail_cap(tail_cap(s, cap) + t, cap) == tail_cap(s + t, cap),
{
    assert(tail_cap(tail_cap(s, cap) + t, cap) =~= tail_cap(s + t, cap));
}

/// A copy gives as many bytes as its run, and each of them is the byte
/// `dist` places before it in the window followed by the copy.
pub proof fn lemma_copied_bytes(w: Seq<u8>, cap: int, dist: int, run: int)
    requires
        1 <= dist <= w.len(),
        w.len() <= cap,
        0 <= run,
    ensures
        copied(w, cap, dist, run).len() == run,
        forall|c: int|
            0 <= c < run ==> #[trigger] copied(w, cap, dist, run)[c] == (w + copied(
                w,
                cap,
                dist,
                run,
            ))[w.len() + c - dist],
    decreases run,
{
    if run > 0 {
        let b = w[w.len() - dist];
        let next = tail_cap(w.push(b), cap);
        let rest = copied(next, cap, dist, run - 1);
        let all = copied(w, cap, dist, run);
        lemma_copied_bytes(next, cap, dist, run - 1);
        assert(all =~= seq![b] + rest);
        assert forall|c: int| 0 <= c < run implies #[trigger] all[c] == (w + all)[w.len() + c
            - dist] by {
            if c > 0 {
                assert(rest[c - 1] == (next + rest)[next.len() + c - 1 - dist]);
                let idx = next.len() + c - 1 - dist;
                if w.len() < cap {
                    assert(next =~= w.push(b));
                    assert(w.push(b) + rest =~= w + all);
                } else {
                    if idx < cap {
                        assert(next[idx] == w.push(b)[idx + 1]);
                    }
                }
            }
        }
    }
}

/// A ring of the bytes most recently appended.
pub struct CircularBuffer {
    data: Vec<u8>,
    idx: usize,
    filled: usize,
}

impl CircularBuffer {
    /// How many bytes the window holds at most.
    pub closed spec fn capacity(&self) -> int {
        self.data@.len() as int
    }

    /// The ring is not empty of slots and its cursor and count lie in it.
    pub closed spec fn wf(&self) -> bool {
        &&& self.data@.len() > 0
        &&& self.idx < self.data@.len()
        &&& self.filled <= self.data@.len()
    }

    /// The slot of the byte appended `d` appends ago.
    spec fn slot(&self, d: int) -> int {
        if d <= self.idx {
            self.idx - d
        } else {
            self.idx + self.data@.len() - d
        }
    }

    /// The bytes in the window, the oldest first.
    pub closed spec fn recent(&self) -> Seq<u8> {
        Seq::new(self.filled as nat, |i: int| self.data@[self.slot(self.filled - i)])
    }

    /// A window has room for a byte, and holds no more than it has room
    /// for.
    pub proof fn lemma_bounds(&self)
        requires
            self.wf(),
        ensures
            0 < self.capacity(),
            self.recent().len() <= self.capacity(),
    {
    }

    /// An empty window for `cap` bytes.
    pub fn with_capacity(cap: usize) -> (r: Self)
        requires
            cap > 0,
        ensures
            r.wf(),
            r.capacity() == cap,
            r.recent() == Seq::<u8>::empty(),
    {
        let r = CircularBuffer { data: vec![0u8; cap], idx: 0, filled: 0 };
        assert(r.recent() =~= Seq::<u8>::empty());
        r
    }

    /// How many bytes are in the window.
    pub fn len(&self) -> (n: usize)
        requires
            self.wf(),
        ensures
            n == self.recent().len(),
            n <= self.capacity(),
    {
        self.filled
    }

    /// Appends a byte; the oldest leaves where the window is full.
    pub fn append(&mut self, val: u8)
        requires
            old(self).wf(),
        ensures
            final(self).wf(),
            final(self).capacity() == old(self).capacity(),
            final(self).recent() == tail_cap(old(self).recent().push(val), old(self).capacity()),
    {
        let ghost before = *self;
        let cap = self.data.len();
        self.data.set(self.idx, val);
        self.idx = if self.idx + 1 == cap {
            0
        } else {
            self.idx + 1
        };
        if self.filled < cap {
            self.filled = self.filled + 1;
        }
        proof {
            let want = tail_cap(before.recent().push(val), before.capacity());
            assert(self.recent().len() == want.len());
            assert forall|i: int| 0 <= i < want.len() implies self.recent()[i] == want[i] by {
                let d = self.filled - i;
                if d == 1 {
                    assert(self.slot(d) == before.idx);
                } else {
                    assert(self.slot(d) == before.slot(d - 1));
                    assert(before.slot(d - 1) != before.idx);
                }
            }
            assert(self.recent() =~= want);
        }
    }

    /// The byte appended `dist` appends ago.
    pub fn get_at_dist(&self, dist: u16) -> (b: u8)
        requires
            self.wf(),
            1 <= dist <= self.recent().len(),
        ensures
            b == self.recent()[self.recent().len() - dist],
    {
        let d = dist as usize;
        let at = if d <= self.idx {
            self.idx - d
        } else {
            self.idx + (self.data.len() - d)
        };
        assert(at == self.slot(d as int));
        self.data[at]
    }

    /// Appends the bytes of a slice, in order.
    pub fn extend(&mut self, bytes: &[u8])
        requires
            old(self).wf(),
        ensures
            final(self).wf(),
            final(self).capacity() == old(self).capacity(),
            final(self).recent() == tail_cap(old(self).recent() + bytes@, old(self).capacity()),
    {
        let ghost start = self.recent();
        let ghost cap = self.capacity();
        let mut i: usize = 0;
        assert(start + bytes@.subrange(0, 0) =~= start);
        while i < bytes.len()
            invariant
                i <= bytes@.len(),
                self.wf(),
                self.capacity() == cap,
                self.recent() == tail_cap(start + bytes@.subrange(0, i as int), cap),
            decreases bytes@.len() - i,
        {
            proof {
                lemma_tail_cap_append(
                    start + bytes@.subrange(0, i as int),
                    seq![bytes@[i as int]],
                    cap,
                );
                assert((start + bytes@.subrange(0, i as int)) + seq![bytes@[i as int]] =~= start
                    + bytes@.subrange(0, i + 1));
                assert(self.recent().push(bytes@[i as int]) =~= self.recent() + seq![
                    bytes@[i as int],
                ]);
            }
            self.append(bytes[i]);
            i += 1;
        }
        assert(bytes@.subrange(0, i as int) =~= bytes@);
    }

    /// Copies `run` bytes from `dist` back, byte by byte, to the window
    /// and to `out`.
    pub fn copy(&mut self, dist: u16, run: u16, out: &mut Vec<u8>)
        requires
            old(self).wf(),
            1 <= dist <= old(self).recent().len(),
        ensures
            final(self).wf(),
            final(self).capacity() == old(self).capacity(),
            final(out)@ == old(out)@ + copied(
                old(self).recent(),
                old(self).capacity(),
                dist as int,
                run as int,
            ),
            final(self).recent() == tail_cap(
                old(self).recent() + copied(
                    old(self).recent(),
                    old(self).capacity(),
                    dist as int,
                    run as int,
                ),
                old(self).capacity(),
            ),
    {
        let ghost start = self.recent();
        let ghost cap = self.capacity();
        let ghost out_start = out@;
        let ghost done = Seq::<u8>::empty();
        let mut i: u16 = 0;
        assert(start + done =~= start);
        assert(out_start + done =~= out_start);
        assert(done + copied(start, cap, dist as int, run as int) =~= copied(
            start,
            cap,
            dist as int,
            run as int,
        ));
        while i < run
            invariant
                i <= run,
                self.wf(),
                self.capacity() == cap,
                1 <= dist <= self.recent().len(),
                out@ == out_start + done,
                self.recent() == tail_cap(start + done, cap),
                copied(start, cap, dist as int, run as int) == done + copied(
                    self.recent(),
                    cap,
                    dist as int,
                    run - i,
                ),
            decreases run - i,
        {
            let b = self.get_at_dist(dist);
            proof {
                let w = self.recent();
                lemma_tail_cap_append(start + done, seq![b], cap);
                assert(w.push(b) =~= w + seq![b]);
                assert((start + done) + seq![b] =~= start + done.push(b));
                assert(done + (seq![b] + copied(
                    tail_cap(w.push(b), cap),
                    cap,
                    dist as int,
                    run - i - 1,
                )) =~= done.push(b) + copied(
                    tail_cap(w.push(b), cap),
                    cap,
                    dist as int,
                    run - i - 1,
                ));
                assert(out@.push(b) =~= out_start + done.push(b));
                done = done.push(b);
            }
            self.append(b);
            out.push(b);
            i += 1;
        }
        proof {
            assert(done + Seq::<u8>::empty() =~= done);
        }
    }
}

} // verus!
