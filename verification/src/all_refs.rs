//! The index of back-references: for every three bytes of the history and
//! the block, the places where they occur, and from it the references that
//! are open at a position of the block.

use vstd::prelude::*;
use std::collections::HashMap;
use itertools::Itertools;
use crate::{u16_from, usize_from};

verus! {

broadcast use vstd::std_specs::hash::group_hash_axioms;

/// Three bytes in a row: what the index is keyed by.
pub type Key = (u8, u8, u8);

/// The index: for each packed key, the places where it occurs.
pub type BackMap = HashMap<u32, Vec<usize>>;

/// A key as one number, the first byte highest.
pub open spec fn packed_key(k: Key) -> u32 {
    (k.0 as int * 65536 + k.1 as int * 256 + k.2 as int) as u32
}

/// The three bytes of `s` that start at `p`.
pub open spec fn key_at(s: Seq<u8>, p: int) -> Key
    recommends
        0 <= p,
        p + 2 < s.len(),
{
    (s[p], s[p + 1], s[p + 2])
}

/// Different keys pack to different numbers.
pub proof fn lemma_packed_key_injective(a: Key, b: Key)
    requires
        packed_key(a) == packed_key(b),
    ensures
        a == b,
{
}

/// Packs a key into one number.
pub fn pack_key(k: Key) -> (r: u32)
    ensures
        r == packed_key(k),
{
    (k.0 as u32) * 65536 + (k.1 as u32) * 256 + (k.2 as u32)
}

/// The first three bytes of a slice.
pub fn key_from_bytes(from: &[u8]) -> (k: Key)
    requires
        from.len() >= 3,
    ensures
        k == key_at(from@, 0),
{
    (from[0], from[1], from[2])
}

/// No element is smaller than one before it.
pub open spec fn sorted(s: Seq<usize>) -> bool {
    forall|i: int, j: int| 0 <= i <= j < s.len() ==> s[i] <= s[j]
}

/// Each element is larger than the one before it.
pub open spec fn strictly_increasing(s: Seq<usize>) -> bool {
    forall|i: int, j: int| 0 <= i < j < s.len() ==> s[i] < s[j]
}

/// The elements of `s` that lie in `[start, end]`, in their order.
pub open spec fn within(s: Seq<usize>, start: usize, end: usize) -> Seq<usize> {
    s.filter(|v: usize| start <= v && v <= end)
}

/// A sequence that is below `start` up to `i`, inside `[start, end]` from
/// `i` up to `j`, and above `end` from `j` on, has `s[i..j]` as its elements
/// within `[start, end]`.
pub proof fn lemma_within_is_subrange(s: Seq<usize>, start: usize, end: usize, i: int, j: int)
    requires
        0 <= i <= j <= s.len(),
        forall|n: int| 0 <= n < i ==> s[n] < start,
        forall|n: int| i <= n < j ==> start <= s[n] && s[n] <= end,
        forall|n: int| j <= n < s.len() ==> s[n] > end,
    ensures
        within(s, start, end) == s.subrange(i, j),
    decreases s.len(),
{
    reveal(Seq::filter);
    let p = |v: usize| start <= v && v <= end;
    if s.len() == 0 {
        assert(s.subrange(i, j) =~= s);
    } else {
        let pre = s.drop_last();
        if j == s.len() {
            if i == j {
                lemma_within_is_subrange(pre, start, end, i - 1, i - 1);
                assert(!p(s.last()));
                assert(pre.subrange(i - 1, i - 1) =~= s.subrange(i, j));
            } else {
                lemma_within_is_subrange(pre, start, end, i, j - 1);
                assert(p(s.last()));
                assert(pre.subrange(i, j - 1).push(s.last()) =~= s.subrange(i, j));
            }
        } else {
            lemma_within_is_subrange(pre, start, end, i, j);
            assert(!p(s.last()));
            assert(pre.subrange(i, j) =~= s.subrange(i, j));
        }
    }
}

/// The first index below `limit` whose element is not less than `x`, or
/// `limit` if there is none.
fn lower_bound(range: &[usize], limit: usize, x: usize) -> (idx: usize)
    requires
        limit <= range.len(),
    ensures
        idx <= limit,
        sorted(range@) ==> forall|n: int| 0 <= n < idx ==> range[n] < x,
        sorted(range@) ==> forall|n: int| idx <= n < limit ==> range[n] >= x,
{
    let mut lo: usize = 0;
    let mut hi: usize = limit;
    while lo < hi
        invariant
            lo <= hi <= limit <= range.len(),
            sorted(range@) ==> forall|n: int| 0 <= n < lo ==> range[n] < x,
            sorted(range@) ==> forall|n: int| hi <= n < limit ==> range[n] >= x,
        decreases hi - lo,
    {
        let mid: usize = lo + (hi - lo) / 2;
        if range[mid] < x {
            lo = mid + 1;
        } else {
            hi = mid;
        }
    }
    lo
}

/// The first index whose element is greater than `x`, or the length if
/// there is none.
fn upper_bound(range: &[usize], x: usize) -> (idx: usize)
    ensures
        idx <= range.len(),
        sorted(range@) ==> forall|n: int| 0 <= n < idx ==> range[n] <= x,
        sorted(range@) ==> forall|n: int| idx <= n < range.len() ==> range[n] > x,
{
    let mut lo: usize = 0;
    let mut hi: usize = range.len();
    while lo < hi
        invariant
            lo <= hi <= range.len(),
            sorted(range@) ==> forall|n: int| 0 <= n < lo ==> range[n] <= x,
            sorted(range@) ==> forall|n: int| hi <= n < range.len() ==> range[n] > x,
        decreases hi - lo,
    {
        let mid: usize = lo + (hi - lo) / 2;
        if range[mid] <= x {
            lo = mid + 1;
        } else {
            hi = mid;
        }
    }
    lo
}

/// The bounds `(i, j)` of the part of a slice that two binary searches find
/// for `[start, end]`.
fn sub_range_bounds(start: usize, end: usize, range: &[usize]) -> (b: (usize, usize))
    ensures
        b.0 <= b.1 <= range.len(),
        sorted(range@) ==> forall|n: int| 0 <= n < b.0 ==> range[n] < start,
        sorted(range@) ==> forall|n: int| b.0 <= n < b.1 ==> start <= range[n] && range[n] <= end,
        sorted(range@) ==> forall|n: int| b.1 <= n < range.len() ==> range[n] > end,
{
    let end_idx = upper_bound(range, end);
    let start_idx = lower_bound(range, end_idx, start);
    (start_idx, end_idx)
}

/// The part of a sorted slice whose elements lie in `[start, end]`, found
/// by two binary searches. Of a slice that is not sorted it returns some
/// part of it.
pub fn sub_range_inclusive(start: usize, end: usize, range: &[usize]) -> (r: &[usize])
    ensures
        sorted(range@) ==> r@ == within(range@, start, end),
        exists|i: int, j: int| 0 <= i <= j <= range.len() && r@ == range@.subrange(i, j),
{
    let (start_idx, end_idx) = sub_range_bounds(start, end, range);
    proof {
        if sorted(range@) {
            lemma_within_is_subrange(range@, start, end, start_idx as int, end_idx as int);
        }
    }
    &range[start_idx..end_idx]
}

/// The buckets of `m` hold the first `n` places of `full`, each under the
/// key found there, and every bucket is strictly increasing.
pub open spec fn indexes(m: Map<u32, Vec<usize>>, full: Seq<u8>, n: int) -> bool {
    &&& forall|k: u32| #[trigger] m.contains_key(k) ==> strictly_increasing(m[k]@)
    &&& forall|k: u32, i: int|
        m.contains_key(k) && 0 <= i < m[k]@.len() ==> (#[trigger] m[k]@[i]) < n && packed_key(
            key_at(full, m[k]@[i] as int),
        ) == k
    &&& forall|p: int|
        0 <= p < n ==> m.contains_key(#[trigger] packed_key(key_at(full, p))) && m[packed_key(
            key_at(full, p),
        )]@.contains(p as usize)
}

/// The number of places of `full` at which three bytes start.
pub open spec fn key_count(full: Seq<u8>) -> int {
    if full.len() >= 3 {
        full.len() - 2
    } else {
        0
    }
}

/// `m` is the index of `full`: a place is in the bucket of a key exactly
/// if the key stands there, and every bucket is strictly increasing.
pub open spec fn is_index_of(m: Map<u32, Vec<usize>>, full: Seq<u8>) -> bool {
    indexes(m, full, key_count(full))
}

/// Every run of three bytes of the history followed by the block, in
/// order. Calls `Itertools::tuple_windows` on the chained bytes; the
/// contract states that the window at `i` holds the bytes at `i`, `i + 1`
/// and `i + 2`, and that there are no windows of fewer than three bytes.
#[verifier::external_body]
fn windows_of_three(preroll: &[u8], data: &[u8]) -> (r: Vec<Key>)
    requires
        preroll@.len() + data@.len() <= usize::MAX,
    ensures
        r@.len() == key_count(preroll@ + data@),
        forall|i: int| 0 <= i < r@.len() ==> r@[i] == key_at(preroll@ + data@, i),
{
    preroll.iter().chain(data).cloned().tuple_windows::<Key>().collect()
}

/// Builds the index of the history followed by the block.
pub fn whole_map(preroll: &[u8], data: &[u8]) -> (map: BackMap)
    requires
        preroll@.len() + data@.len() <= usize::MAX,
    ensures
        is_index_of(map@, preroll@ + data@),
{
    let keys = windows_of_three(preroll, data);
    let ghost full = preroll@ + data@;
    let mut map: BackMap = HashMap::with_capacity(32 * 1024);
    let mut pos: usize = 0;
    while pos < keys.len()
        invariant
            pos <= keys@.len(),
            keys@.len() == key_count(full),
            forall|i: int| 0 <= i < keys@.len() ==> keys@[i] == key_at(full, i),
            indexes(map@, full, pos as int),
        decreases keys@.len() - pos,
    {
        let k = pack_key(keys[pos]);
        let ghost before = map@;
        let mut bucket = match map.remove(&k) {
            Some(b) => b,
            None => Vec::new(),
        };
        let ghost old_bucket = bucket@;
        bucket.push(pos);
        map.insert(k, bucket);
        proof {
            let after = map@;
            assert(forall|i: int| 0 <= i < old_bucket.len() ==> old_bucket[i] < pos) by {
                if before.contains_key(k) {
                    assert(forall|i: int|
                        0 <= i < before[k]@.len() ==> (#[trigger] before[k]@[i]) < pos);
                }
            }
            assert(strictly_increasing(after[k]@)) by {
                if before.contains_key(k) {
                    assert(strictly_increasing(before[k]@));
                }
            }
            assert forall|q: u32| #[trigger] after.contains_key(q) implies strictly_increasing(
                after[q]@,
            ) by {
                if q != k {
                    assert(before.contains_key(q));
                }
            }
            assert forall|q: u32, i: int|
                after.contains_key(q) && 0 <= i < after[q]@.len() implies (#[trigger] after[q]@[i])
                < pos + 1 && packed_key(key_at(full, after[q]@[i] as int)) == q by {
                if q != k {
                    assert(before.contains_key(q));
                    assert(before[q]@[i] < pos);
                } else if i < old_bucket.len() {
                    assert(before.contains_key(k));
                    assert(before[k]@[i] < pos);
                }
            }
            assert forall|p: int| 0 <= p < pos + 1 implies after.contains_key(
                #[trigger] packed_key(key_at(full, p)),
            ) && after[packed_key(key_at(full, p))]@.contains(p as usize) by {
                let q = packed_key(key_at(full, p));
                if p == pos {
                    assert(after[k]@[old_bucket.len() as int] == pos);
                } else if q == k {
                    assert(before[k]@.contains(p as usize));
                    let i = choose|i: int| 0 <= i < before[k]@.len() && before[k]@[i] == p as usize;
                    assert(after[k]@[i] == p as usize);
                } else {
                    assert(before[q]@.contains(p as usize));
                }
            }
        }
        pos += 1;
    }
    map
}

/// The places in `[lo, hi]` of `full` at which the key `k` stands, the
/// highest first.
pub open spec fn offsets_desc(full: Seq<u8>, k: u32, lo: int, hi: int) -> Seq<int>
    decreases hi - lo + 1,
{
    if hi < lo {
        Seq::empty()
    } else if packed_key(key_at(full, hi)) == k {
        seq![hi] + offsets_desc(full, k, lo, hi - 1)
    } else {
        offsets_desc(full, k, lo, hi - 1)
    }
}

/// The byte that stands `dist` places before place `data_pos` of the
/// block, in the history followed by the block.
pub open spec fn byte_at_dist(preroll: Seq<u8>, data: Seq<u8>, data_pos: int, dist: int) -> u8
    recommends
        0 < dist <= preroll.len() + data_pos,
        data_pos <= data.len(),
{
    (preroll + data)[preroll.len() + data_pos - dist]
}

/// The byte that the byte `c` places after `data_pos` is held against when
/// a run at distance `dist` is measured: the byte `dist` places before it
/// while the run has not reached its own start, and after that the byte
/// at `c mod dist` of the run itself.
pub open spec fn compared_with(
    preroll: Seq<u8>,
    data: Seq<u8>,
    data_pos: int,
    dist: int,
    c: int,
) -> u8
    recommends
        0 < dist,
{
    if c < dist {
        byte_at_dist(preroll, data, data_pos, dist - c)
    } else {
        data[data_pos + c % dist]
    }
}

/// The first place from `c` on, below `limit`, at which the run at distance
/// `dist` breaks; `limit` if there is none.
pub open spec fn run_from(
    preroll: Seq<u8>,
    data: Seq<u8>,
    data_pos: int,
    dist: int,
    c: int,
    limit: int,
) -> int
    decreases limit - c,
{
    if c >= limit {
        limit
    } else if data[data_pos + c] != compared_with(preroll, data, data_pos, dist, c) {
        c
    } else {
        run_from(preroll, data, data_pos, dist, c + 1, limit)
    }
}

/// How many bytes a run at `data_pos` may cover: what is left of the
/// block, and no more than 258.
pub open spec fn window_len(data: Seq<u8>, data_pos: int) -> int {
    if data.len() - data_pos < 258 {
        data.len() - data_pos
    } else {
        258
    }
}

/// The length of the run at `data_pos` that copies from `dist` places back.
/// The first three bytes are taken to agree.
pub open spec fn run_length(preroll: Seq<u8>, data: Seq<u8>, data_pos: int, dist: int) -> int {
    run_from(
        preroll,
        data,
        data_pos,
        dist,
        if dist < 3 {
            dist
        } else {
            3
        },
        window_len(data, data_pos),
    )
}

/// Whether three bytes of the block start at `data_pos`.
pub open spec fn has_key(data: Seq<u8>, data_pos: int) -> bool {
    data_pos + 2 < data.len()
}

/// The lowest place of the history followed by the block that a reference
/// at `abs` may reach.
pub open spec fn window_start(abs: int) -> int {
    if abs > 32768 {
        abs - 32768
    } else {
        0
    }
}

/// The references open at `data_pos`, the nearest first: one for each
/// place in the 32768 bytes before it at which the three bytes at
/// `data_pos` stand, as its distance and the length of its run.
pub open spec fn refs_at(preroll: Seq<u8>, data: Seq<u8>, data_pos: int) -> Seq<(u16, u16)>
    recommends
        has_key(data, data_pos),
{
    let abs = preroll.len() + data_pos;
    offsets_desc(
        preroll + data,
        packed_key(key_at(data, data_pos)),
        window_start(abs),
        abs - 1,
    ).map_values(
        |off: int| ((abs - off) as u16, run_length(preroll, data, data_pos, abs - off) as u16),
    )
}

/// What is listed in `offsets_desc` lies in `[lo, hi]` and has the key.
pub proof fn lemma_offsets_desc_members(full: Seq<u8>, k: u32, lo: int, hi: int)
    ensures
        offsets_desc(full, k, lo, hi).len() <= (if hi < lo { 0 } else { hi - lo + 1 }),
        forall|i: int|
            0 <= i < offsets_desc(full, k, lo, hi).len() ==> {
                let off = #[trigger] offsets_desc(full, k, lo, hi)[i];
                lo <= off <= hi && packed_key(key_at(full, off)) == k
            },
        forall|i: int, j: int|
            0 <= i < j < offsets_desc(full, k, lo, hi).len() ==> offsets_desc(full, k, lo, hi)[i]
                > offsets_desc(full, k, lo, hi)[j],
    decreases hi - lo + 1,
{
    if hi >= lo {
        lemma_offsets_desc_members(full, k, lo, hi - 1);
    }
}

/// A strictly increasing list of exactly the places in `[lo, hi]` that
/// have the key is `offsets_desc` read backwards.
pub proof fn lemma_offsets_desc_of_bucket(full: Seq<u8>, k: u32, lo: int, hi: int, s: Seq<usize>)
    requires
        strictly_increasing(s),
        forall|i: int|
            0 <= i < s.len() ==> lo <= (#[trigger] s[i]) <= hi && packed_key(
                key_at(full, s[i] as int),
            ) == k,
        forall|p: int|
            lo <= p <= hi && #[trigger] packed_key(key_at(full, p)) == k ==> exists|i: int|
                0 <= i < s.len() && s[i] == p,
    ensures
        offsets_desc(full, k, lo, hi).len() == s.len(),
        forall|i: int|
            0 <= i < s.len() ==> #[trigger] offsets_desc(full, k, lo, hi)[i] == s[s.len() - 1
                - i] as int,
    decreases hi - lo + 1,
{
    if hi < lo {
        if s.len() > 0 {
            assert(lo <= s[0] <= hi);
        }
    } else if packed_key(key_at(full, hi)) == k {
        let w = choose|i: int| 0 <= i < s.len() && s[i] == hi;
        if w < s.len() - 1 {
            assert(s[w] < s[s.len() - 1]);
            assert(s[s.len() - 1] <= hi);
        }
        let t = s.drop_last();
        assert forall|p: int|
            lo <= p <= hi - 1 && #[trigger] packed_key(key_at(full, p)) == k implies exists|
            i: int,
        | 0 <= i < t.len() && t[i] == p by {
            let i = choose|i: int| 0 <= i < s.len() && s[i] == p;
            assert(i != s.len() - 1);
            assert(t[i] == p);
        }
        assert forall|i: int| 0 <= i < t.len() implies lo <= (#[trigger] t[i]) <= hi - 1
            && packed_key(key_at(full, t[i] as int)) == k by {
            assert(t[i] == s[i]);
            assert(s[i] < s[s.len() - 1]);
        }
        lemma_offsets_desc_of_bucket(full, k, lo, hi - 1, t);
        let rest = offsets_desc(full, k, lo, hi - 1);
        assert forall|i: int| 0 <= i < s.len() implies #[trigger] offsets_desc(full, k, lo, hi)[i]
            == s[s.len() - 1 - i] as int by {
            if i > 0 {
                assert(offsets_desc(full, k, lo, hi)[i] == rest[i - 1]);
                assert(rest[i - 1] == t[t.len() - 1 - (i - 1)] as int);
            }
        }
    } else {
        assert forall|i: int| 0 <= i < s.len() implies lo <= (#[trigger] s[i]) <= hi - 1
            && packed_key(key_at(full, s[i] as int)) == k by {
            assert(s[i] != hi);
        }
        lemma_offsets_desc_of_bucket(full, k, lo, hi - 1, s);
    }
}

/// Every place in `[lo, hi]` that has the key is listed in
/// `offsets_desc`.
pub proof fn lemma_offsets_desc_complete(full: Seq<u8>, k: u32, lo: int, hi: int, p: int)
    requires
        lo <= p <= hi,
        packed_key(key_at(full, p)) == k,
    ensures
        offsets_desc(full, k, lo, hi).contains(p),
    decreases hi - lo + 1,
{
    let all = offsets_desc(full, k, lo, hi);
    if p == hi {
        assert(all[0] == p);
    } else {
        lemma_offsets_desc_complete(full, k, lo, hi - 1, p);
        let rest = offsets_desc(full, k, lo, hi - 1);
        let j = choose|j: int| 0 <= j < rest.len() && rest[j] == p;
        if packed_key(key_at(full, hi)) == k {
            assert(all[j + 1] == p);
        } else {
            assert(all[j] == p);
        }
    }
}

/// A run never breaks before `c` nor after `limit`.
pub proof fn lemma_run_from_bounds(
    preroll: Seq<u8>,
    data: Seq<u8>,
    data_pos: int,
    dist: int,
    c: int,
    limit: int,
)
    ensures
        c <= limit ==> c <= run_from(preroll, data, data_pos, dist, c, limit) <= limit,
        c >= limit ==> run_from(preroll, data, data_pos, dist, c, limit) == limit,
    decreases limit - c,
{
    if c < limit {
        lemma_run_from_bounds(preroll, data, data_pos, dist, c + 1, limit);
    }
}

/// Where three bytes start at `data_pos` and the same three bytes start
/// `dist` places before it, the run at that distance has at least three
/// bytes and at most 258.
pub proof fn lemma_run_length_bounds(preroll: Seq<u8>, data: Seq<u8>, data_pos: int, dist: int)
    requires
        0 <= data_pos,
        has_key(data, data_pos),
        0 < dist <= preroll.len() + data_pos,
        key_at(preroll + data, preroll.len() + data_pos - dist) == key_at(data, data_pos),
    ensures
        3 <= run_length(preroll, data, data_pos, dist) <= 258,
        run_length(preroll, data, data_pos, dist) <= data.len() - data_pos,
{
    let full = preroll + data;
    let abs = preroll.len() + data_pos;
    let limit = window_len(data, data_pos);
    assert(full[abs] == data[data_pos]);
    assert(full[abs + 1] == data[data_pos + 1]);
    assert(full[abs + 2] == data[data_pos + 2]);
    lemma_run_from_bounds(preroll, data, data_pos, dist, 3, limit);
    if dist == 1 {
        assert(1int % 1 == 0 && 2int % 1 == 0);
        assert(run_from(preroll, data, data_pos, dist, 2, limit) == run_from(
            preroll,
            data,
            data_pos,
            dist,
            3,
            limit,
        ));
        assert(run_from(preroll, data, data_pos, dist, 1, limit) == run_from(
            preroll,
            data,
            data_pos,
            dist,
            2,
            limit,
        ));
    } else if dist == 2 {
        assert(2int % 2 == 0);
        assert(run_from(preroll, data, data_pos, dist, 2, limit) == run_from(
            preroll,
            data,
            data_pos,
            dist,
            3,
            limit,
        ));
    }
}

/// Every reference open at a position spans between 1 and 32768 bytes and
/// runs for between 3 and 258, and no further than the block.
pub proof fn lemma_refs_at_bounds(preroll: Seq<u8>, data: Seq<u8>, data_pos: int)
    requires
        0 <= data_pos,
        has_key(data, data_pos),
    ensures
        forall|i: int|
            0 <= i < refs_at(preroll, data, data_pos).len() ==> {
                let r = #[trigger] refs_at(preroll, data, data_pos)[i];
                &&& 1 <= r.0 <= 32768
                &&& r.0 <= preroll.len() + data_pos
                &&& 3 <= r.1 <= 258
                &&& r.1 <= data.len() - data_pos
                &&& r.1 == run_length(preroll, data, data_pos, r.0 as int)
                &&& key_at(preroll + data, preroll.len() + data_pos - r.0) == key_at(data, data_pos)
            },
        forall|i: int, j: int|
            0 <= i < j < refs_at(preroll, data, data_pos).len() ==> refs_at(
                preroll,
                data,
                data_pos,
            )[i].0 < refs_at(preroll, data, data_pos)[j].0,
{
    let full = preroll + data;
    let abs = preroll.len() + data_pos;
    let k = packed_key(key_at(data, data_pos));
    let offs = offsets_desc(full, k, window_start(abs), abs - 1);
    lemma_offsets_desc_members(full, k, window_start(abs), abs - 1);
    assert forall|i: int| 0 <= i < refs_at(preroll, data, data_pos).len() implies {
        let r = #[trigger] refs_at(preroll, data, data_pos)[i];
        &&& 1 <= r.0 <= 32768
        &&& r.0 <= preroll.len() + data_pos
        &&& 3 <= r.1 <= 258
        &&& r.1 <= data.len() - data_pos
        &&& r.1 == run_length(preroll, data, data_pos, r.0 as int)
        &&& key_at(preroll + data, preroll.len() + data_pos - r.0) == key_at(data, data_pos)
    } by {
        let off = offs[i];
        assert(window_start(abs) <= off <= abs - 1);
        lemma_packed_key_injective(key_at(full, off), key_at(data, data_pos));
        lemma_run_length_bounds(preroll, data, data_pos, abs - off);
    }
    assert forall|i: int, j: int| 0 <= i < j < refs_at(preroll, data, data_pos).len() implies refs_at(
        preroll,
        data,
        data_pos,
    )[i].0 < refs_at(preroll, data, data_pos)[j].0 by {
        assert(offs[i] > offs[j]);
        assert(window_start(abs) <= offs[i] <= abs - 1);
        assert(window_start(abs) <= offs[j] <= abs - 1);
    }
}

/// The index of a block and of the history before it.
pub struct AllRefs<'p, 'd> {
    preroll: &'p [u8],
    pub data: &'d [u8],
    map: BackMap,
}

impl<'p, 'd> AllRefs<'p, 'd> {
    /// The history that was indexed.
    pub closed spec fn preroll_view(&self) -> Seq<u8> {
        self.preroll@
    }

    /// The block that was indexed.
    pub closed spec fn data_view(&self) -> Seq<u8> {
        self.data@
    }

    /// The map is the index of the history followed by the block.
    pub closed spec fn wf(&self) -> bool {
        &&& self.preroll@.len() + self.data@.len() <= usize::MAX
        &&& is_index_of(self.map@, self.preroll@ + self.data@)
    }

    /// Indexes a block and the history before it.
    pub fn new(preroll: &'p [u8], data: &'d [u8]) -> (r: Self)
        requires
            preroll@.len() + data@.len() <= usize::MAX,
        ensures
            r.wf(),
            r.preroll_view() == preroll@,
            r.data_view() == data@,
    {
        Self { preroll, data, map: whole_map(preroll, data) }
    }

    /// The length of the block.
    pub fn data_len(&self) -> (n: usize)
        ensures
            n == self.data_view().len(),
    {
        self.data.len()
    }

    /// The length of the history.
    pub fn preroll_len(&self) -> (n: usize)
        ensures
            n == self.preroll_view().len(),
    {
        self.preroll.len()
    }

    /// The byte of the block at `data_pos`.
    pub fn byte(&self, data_pos: usize) -> (b: u8)
        requires
            data_pos < self.data_view().len(),
        ensures
            b == self.data_view()[data_pos as int],
    {
        self.data[data_pos]
    }

    /// The three bytes at `data_pos`, or `None` where fewer are left.
    pub fn key(&self, data_pos: usize) -> (r: Option<Key>)
        ensures
            r.is_some() == has_key(self.data_view(), data_pos as int),
            r matches Some(k) ==> k == key_at(self.data_view(), data_pos as int),
    {
        let len = self.data.len();
        if data_pos < len && len - data_pos > 2 {
            Some(key_from_bytes(&self.data[data_pos..len]))
        } else {
            None
        }
    }

    /// The byte `dist` places before `data_pos`, taken from the block or,
    /// where that reaches before its start, from the history.
    pub fn get_at_dist(&self, data_pos: usize, dist: u16) -> (b: u8)
        requires
            0 < dist <= self.preroll_view().len() + data_pos,
            data_pos <= self.data_view().len(),
        ensures
            b == byte_at_dist(self.preroll_view(), self.data_view(), data_pos as int, dist as int),
    {
        let pos = data_pos;
        let dist = usize_from(dist);

        if dist <= pos {
            self.data[pos - dist]
        } else {
            self.preroll[self.preroll.len() - (dist - pos)]
        }
    }

    /// The length of the run at `data_pos` that copies from `dist` places
    /// back, its first three bytes taken to agree.
    pub fn possible_run_length_at(&self, data_pos: usize, dist: u16) -> (run: u16)
        requires
            0 < dist <= self.preroll_view().len() + data_pos,
            data_pos <= self.data_view().len(),
        ensures
            run == run_length(
                self.preroll_view(),
                self.data_view(),
                data_pos as int,
                dist as int,
            ),
    {
        let len = self.data.len();
        let remaining = len - data_pos;
        let limit: u16 = if remaining < 258 {
            remaining as u16
        } else {
            258
        };
        let bound: u16 = if dist < limit {
            dist
        } else {
            limit
        };
        let ghost pre = self.preroll@;
        let ghost dat = self.data@;
        let ghost dp = data_pos as int;
        let ghost d = dist as int;
        let ghost lim = limit as int;

        let mut cur: u16 = 3;
        while cur < bound
            invariant
                3 <= cur,
                cur <= bound || bound < 3,
                bound <= dist,
                bound <= limit,
                lim == limit,
                d == dist,
                dp == data_pos,
                pre == self.preroll_view(),
                dat == self.data_view(),
                limit <= 258,
                data_pos + limit <= len,
                len == self.data_view().len(),
                0 < dist <= self.preroll_view().len() + data_pos,
                3 <= bound ==> run_length(pre, dat, dp, d) == run_from(
                    pre,
                    dat,
                    dp,
                    d,
                    cur as int,
                    lim,
                ),
            decreases bound - cur,
        {
            if self.data[data_pos + cur as usize] != self.get_at_dist(data_pos, dist - cur) {
                return cur;
            }
            cur += 1;
        }

        let mut cur: u16 = dist;
        proof {
            lemma_run_from_bounds(pre, dat, dp, d, d, lim);
        }
        while cur < limit
            invariant
                dist <= cur,
                0 < dist,
                lim == limit,
                d == dist,
                dp == data_pos,
                pre == self.preroll_view(),
                dat == self.data_view(),
                limit <= 258,
                data_pos + limit <= len,
                len == self.data_view().len(),
                run_length(pre, dat, dp, d) == run_from(pre, dat, dp, d, cur as int, lim),
            decreases limit - cur,
        {
            if self.data[data_pos + (cur % dist) as usize] != self.data[data_pos + cur as usize] {
                return cur;
            }
            cur += 1;
        }

        limit
    }

    /// The part of the bucket of the key at `data_pos` that lies in the
    /// window before it; `None` where there is no such bucket.
    fn span(&self, data_pos: usize) -> (r: Option<&[usize]>)
        requires
            self.wf(),
            has_key(self.data_view(), data_pos as int),
        ensures
            ({
                let abs = self.preroll_view().len() + data_pos;
                let offs = offsets_desc(
                    self.preroll_view() + self.data_view(),
                    packed_key(key_at(self.data_view(), data_pos as int)),
                    window_start(abs),
                    abs - 1,
                );
                match r {
                    Some(s) => offs.len() == s@.len() && forall|i: int|
                        0 <= i < s@.len() ==> #[trigger] offs[i] == s@[s@.len() - 1 - i] as int,
                    None => offs.len() == 0,
                }
            }),
    {
        let k = match self.key(data_pos) {
            Some(key) => pack_key(key),
            None => {
                return None;
            },
        };
        let pos = self.preroll.len() + data_pos;
        let ghost full = self.preroll@ + self.data@;
        if pos == 0 {
            return None;
        }
        let lo: usize = if pos > 32768 {
            pos - 32768
        } else {
            0
        };
        let hi: usize = pos - 1;
        match self.map.get(&k) {
            Some(v) => {
                let whole = v.as_slice();
                assert(sorted(whole@)) by {
                    assert(strictly_increasing(self.map@[k]@));
                }
                let (i, j) = sub_range_bounds(lo, hi, whole);
                let s = &whole[i..j];
                proof {
                    let b = whole@;
                    assert(strictly_increasing(b));
                    assert forall|n: int| 0 <= n < s@.len() implies lo <= (#[trigger] s@[n]) <= hi
                        && packed_key(key_at(full, s@[n] as int)) == k by {
                        assert(s@[n] == self.map@[k]@[i + n]);
                    }
                    assert forall|p: int|
                        lo <= p <= hi && #[trigger] packed_key(key_at(full, p))
                            == k implies exists|n: int| 0 <= n < s@.len() && s@[n] == p by {
                        assert(b.contains(p as usize));
                        let m = choose|m: int| 0 <= m < b.len() && b[m] == p as usize;
                        assert(i <= m < j);
                        assert(s@[m - i] == p);
                    }
                    lemma_offsets_desc_of_bucket(full, k, lo as int, hi as int, s@);
                }
                Some(s)
            },
            None => {
                proof {
                    let e = Seq::<usize>::empty();
                    assert forall|p: int|
                        lo <= p <= hi && #[trigger] packed_key(key_at(full, p))
                            == k implies exists|n: int| 0 <= n < e.len() && e[n] == p by {
                        assert(self.map@.contains_key(packed_key(key_at(full, p))));
                    }
                    lemma_offsets_desc_of_bucket(full, k, lo as int, hi as int, e);
                }
                None
            },
        }
    }

    /// The reference that `off`, a place of the index, gives at `data_pos`.
    fn ref_to(&self, data_pos: usize, off: usize) -> (r: (u16, u16))
        requires
            data_pos <= self.data_view().len(),
            off < self.preroll_view().len() + data_pos <= usize::MAX,
            self.preroll_view().len() + data_pos - off <= 32768,
        ensures
            ({
                let abs = self.preroll_view().len() + data_pos;
                r == (
                    (abs - off) as u16,
                    run_length(
                        self.preroll_view(),
                        self.data_view(),
                        data_pos as int,
                        abs - off,
                    ) as u16,
                )
            }),
    {
        let pos = self.preroll.len() + data_pos;
        let dist = u16_from(pos - off);
        let run = self.possible_run_length_at(data_pos, dist);
        (dist, run)
    }

    /// The references open at `data_pos`, the nearest first; `None` where
    /// fewer than three bytes are left of the block.
    pub fn at(&self, data_pos: usize) -> (r: Option<Vec<(u16, u16)>>)
        requires
            self.wf(),
        ensures
            r.is_some() == has_key(self.data_view(), data_pos as int),
            r matches Some(v) ==> v@ == refs_at(
                self.preroll_view(),
                self.data_view(),
                data_pos as int,
            ),
    {
        if self.key(data_pos).is_none() {
            return None;
        }
        let ghost abs = self.preroll@.len() + data_pos;
        let ghost refs = refs_at(self.preroll@, self.data@, data_pos as int);
        let ghost offs = offsets_desc(
            self.preroll@ + self.data@,
            packed_key(key_at(self.data@, data_pos as int)),
            window_start(abs),
            abs - 1,
        );
        proof {
            lemma_offsets_desc_members(
                self.preroll@ + self.data@,
                packed_key(key_at(self.data@, data_pos as int)),
                window_start(abs),
                abs - 1,
            );
        }
        let mut out: Vec<(u16, u16)> = Vec::new();
        match self.span(data_pos) {
            Some(s) => {
                let mut n: usize = s.len();
                while n > 0
                    invariant
                        self.wf(),
                        has_key(self.data_view(), data_pos as int),
                        n <= s@.len(),
                        abs == self.preroll_view().len() + data_pos,
                        offs.len() == s@.len(),
                        forall|i: int|
                            0 <= i < s@.len() ==> #[trigger] offs[i] == s@[s@.len() - 1 - i] as int,
                        forall|i: int|
                            0 <= i < offs.len() ==> window_start(abs) <= (#[trigger] offs[i]) <= abs
                                - 1,
                        refs == refs_at(self.preroll_view(), self.data_view(), data_pos as int),
                        refs.len() == offs.len(),
                        forall|i: int|
                            0 <= i < offs.len() ==> #[trigger] refs[i] == (
                                (abs - offs[i]) as u16,
                                run_length(
                                    self.preroll_view(),
                                    self.data_view(),
                                    data_pos as int,
                                    abs - offs[i],
                                ) as u16,
                            ),
                        out@.len() == s@.len() - n,
                        forall|i: int| 0 <= i < out@.len() ==> out@[i] == refs[i],
                    decreases n,
                {
                    n -= 1;
                    let ghost i = s@.len() - 1 - n;
                    assert(offs[i] == s@[n as int] as int);
                    assert(window_start(abs) <= offs[i] <= abs - 1);
                    let c = self.ref_to(data_pos, s[n]);
                    assert(c == refs[i]);
                    out.push(c);
                }
                assert(out@ =~= refs);
            },
            None => {
                assert(out@ =~= refs);
            },
        }
        Some(out)
    }

    /// The nearest reference open at `data_pos`, or `None` where there is
    /// none.
    pub fn first_at(&self, data_pos: usize) -> (r: Option<(u16, u16)>)
        requires
            self.wf(),
            has_key(self.data_view(), data_pos as int),
        ensures
            ({
                let refs = refs_at(self.preroll_view(), self.data_view(), data_pos as int);
                match r {
                    Some(c) => refs.len() > 0 && c == refs[0],
                    None => refs.len() == 0,
                }
            }),
    {
        let ghost abs = self.preroll@.len() + data_pos;
        proof {
            lemma_offsets_desc_members(
                self.preroll@ + self.data@,
                packed_key(key_at(self.data@, data_pos as int)),
                window_start(abs),
                abs - 1,
            );
        }
        match self.span(data_pos) {
            Some(s) => {
                if s.len() == 0 {
                    None
                } else {
                    let ghost offs = offsets_desc(
                        self.preroll@ + self.data@,
                        packed_key(key_at(self.data@, data_pos as int)),
                        window_start(abs),
                        abs - 1,
                    );
                    assert(offs[0] == s@[s@.len() - 1] as int);
                    assert(window_start(abs) <= offs[0] <= abs - 1);
                    Some(self.ref_to(data_pos, s[s.len() - 1]))
                }
            },
            None => None,
        }
    }
}

/// A reference that runs as long as the data lets it is among the open
/// ones: where the three bytes at `data_pos` also stand `dist` places
/// before it, inside the window, the reference over `dist` with the run
/// found there is one of those open at `data_pos`.
pub proof fn lemma_longest_reference_is_open(
    preroll: Seq<u8>,
    data: Seq<u8>,
    data_pos: int,
    dist: int,
)
    requires
        0 <= data_pos,
        has_key(data, data_pos),
        1 <= dist <= 32768,
        dist <= preroll.len() + data_pos,
        key_at(preroll + data, preroll.len() + data_pos - dist) == key_at(data, data_pos),
    ensures
        refs_at(preroll, data, data_pos).contains(
            (dist as u16, run_length(preroll, data, data_pos, dist) as u16),
        ),
{
    let abs = preroll.len() + data_pos;
    let k = packed_key(key_at(data, data_pos));
    let offs = offsets_desc(preroll + data, k, window_start(abs), abs - 1);
    lemma_offsets_desc_complete(preroll + data, k, window_start(abs), abs - 1, abs - dist);
    let j = choose|j: int| 0 <= j < offs.len() && offs[j] == abs - dist;
    assert(refs_at(preroll, data, data_pos)[j] == (
        dist as u16,
        run_length(preroll, data, data_pos, dist) as u16,
    ));
}

} // verus!
