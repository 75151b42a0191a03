//! Sorted lists of closed address intervals, the representation behind an
//! address set.

use vstd::prelude::*;

verus! {

/// A closed interval of addresses `start..=end`.
#[derive(Clone, Copy, Debug, PartialEq, Eq, Structural)]
pub struct Range {
    pub start: u128,
    pub end: u128,
}

/// `a` lies in the interval `r`.
pub open spec fn in_range(r: Range, a: int) -> bool {
    r.start <= a <= r.end
}

/// Some interval of `rs` holds `a`.
pub open spec fn covers(rs: Seq<Range>, a: int) -> bool {
    exists|i: int| 0 <= i < rs.len() && in_range(#[trigger] rs[i], a)
}

/// The set of addresses that the intervals hold.
pub open spec fn addresses(rs: Seq<Range>) -> Set<int> {
    Set::new(|a: int| covers(rs, a))
}

/// Every interval is non-empty and ends at or below `max`.
pub open spec fn bounded(rs: Seq<Range>, max: int) -> bool {
    forall|i: int| 0 <= i < rs.len() ==> #[trigger] rs[i].start <= rs[i].end <= max
}

/// Intervals come in increasing order, with at least one address between
/// any two of them.
pub open spec fn separated(rs: Seq<Range>) -> bool {
    forall|i: int, j: int| 0 <= i < j < rs.len() ==> #[trigger] rs[i].end + 1 < #[trigger] rs[j].start
}

/// The canonical form: bounded, sorted, neither overlapping nor adjacent.
pub open spec fn canonical(rs: Seq<Range>, max: int) -> bool {
    bounded(rs, max) && separated(rs)
}

pub proof fn lemma_covers_take_skip(rs: Seq<Range>, k: int, a: int)
    requires
        0 <= k <= rs.len(),
    ensures
        covers(rs, a) <==> (covers(rs.take(k), a) || covers(rs.skip(k), a)),
{
    if covers(rs, a) {
        let i = choose|i: int| 0 <= i < rs.len() && in_range(#[trigger] rs[i], a);
        if i < k {
            assert(rs.take(k)[i] == rs[i]);
        } else {
            assert(rs.skip(k)[i - k] == rs[i]);
        }
    }
    if covers(rs.take(k), a) {
        let i = choose|i: int| 0 <= i < rs.take(k).len() && in_range(#[trigger] rs.take(k)[i], a);
        assert(rs[i] == rs.take(k)[i]);
    }
    if covers(rs.skip(k), a) {
        let i = choose|i: int| 0 <= i < rs.skip(k).len() && in_range(#[trigger] rs.skip(k)[i], a);
        assert(rs[i + k] == rs.skip(k)[i]);
    }
}

proof fn lemma_covers_push(rs: Seq<Range>, r: Range, a: int)
    ensures
        covers(rs.push(r), a) <==> (covers(rs, a) || in_range(r, a)),
{
    let s = rs.push(r);
    if covers(s, a) {
        let i = choose|i: int| 0 <= i < s.len() && in_range(#[trigger] s[i], a);
        if i < rs.len() {
            assert(rs[i] == s[i]);
        }
    }
    if covers(rs, a) {
        let i = choose|i: int| 0 <= i < rs.len() && in_range(#[trigger] rs[i], a);
        assert(s[i] == rs[i]);
    }
    if in_range(r, a) {
        assert(s[rs.len() as int] == r);
    }
}

pub proof fn lemma_covers_concat(x: Seq<Range>, y: Seq<Range>, a: int)
    ensures
        covers(x + y, a) <==> (covers(x, a) || covers(y, a)),
{
    let s = x + y;
    lemma_covers_take_skip(s, x.len() as int, a);
    assert(s.take(x.len() as int) =~= x);
    assert(s.skip(x.len() as int) =~= y);
}

proof fn lemma_insert_cover(rs: Seq<Range>, first: int, merged_end: int, r: Range, cur: Range, out: Seq<Range>)
    requires
        0 <= first <= merged_end <= rs.len(),
        out == rs.take(first).push(cur) + rs.subrange(merged_end, rs.len() as int),
        forall|a: int|
            in_range(cur, a) <==> (in_range(r, a) || covers(rs.subrange(first, merged_end), a)),
    ensures
        forall|a: int| #[trigger] covers(out, a) <==> (covers(rs, a) || in_range(r, a)),
{
    assert forall|a: int| covers(out, a) <==> (covers(rs, a) || in_range(r, a)) by {
        let prefix = rs.take(first);
        let mid = rs.subrange(first, merged_end);
        let tail = rs.subrange(merged_end, rs.len() as int);
        lemma_covers_concat(prefix.push(cur), tail, a);
        lemma_covers_push(prefix, cur, a);
        assert(rs =~= prefix + (mid + tail));
        lemma_covers_concat(prefix, mid + tail, a);
        lemma_covers_concat(mid, tail, a);
    }
}

/// Adds the interval `r` to the canonical list `rs`, merging it with every
/// interval that it overlaps or touches.
pub fn insert_range(rs: &Vec<Range>, r: Range, Ghost(max): Ghost<int>) -> (out: Vec<Range>)
    requires
        canonical(rs@, max),
        r.start <= r.end <= max,
    ensures
        canonical(out@, max),
        forall|a: int| #[trigger] covers(out@, a) <==> (covers(rs@, a) || in_range(r, a)),
{
    let n = rs.len();
    let mut out: Vec<Range> = Vec::new();
    let mut i: usize = 0;
    while i < n && rs[i].end < r.start && r.start - rs[i].end > 1
        invariant
            0 <= i <= n,
            n == rs.len(),
            canonical(rs@, max),
            out@ == rs@.take(i as int),
            forall|j: int| 0 <= j < i ==> #[trigger] rs@[j].end + 1 < r.start,
        decreases n - i,
    {
        out.push(rs[i]);
        i = i + 1;
        assert(out@ =~= rs@.take(i as int));
    }
    let first = i;
    let mut cur = r;
    while i < n && (rs[i].start <= cur.end || rs[i].start - cur.end == 1)
        invariant
            first <= i <= n,
            n == rs.len(),
            canonical(rs@, max),
            out@ == rs@.take(first as int),
            forall|j: int| 0 <= j < first ==> #[trigger] rs@[j].end + 1 < r.start,
            first < n ==> rs@[first as int].end + 1 >= r.start,
            cur.start <= cur.end <= max,
            cur.start <= r.start,
            r.end <= cur.end,
            i == first ==> cur == r,
            i > first ==> cur.start <= rs@[first as int].start,
            i > first ==> cur.end >= rs@[i - 1].end,
            forall|j: int| 0 <= j < first ==> #[trigger] rs@[j].end + 1 < cur.start,
            forall|a: int|
                in_range(cur, a) <==> (in_range(r, a) || covers(
                    rs@.subrange(first as int, i as int),
                    a,
                )),
        decreases n - i,
    {
        let next = rs[i];
        let ghost old_cur = cur;
        let new_start = if next.start < cur.start {
            next.start
        } else {
            cur.start
        };
        let new_end = if next.end > cur.end {
            next.end
        } else {
            cur.end
        };
        cur = Range { start: new_start, end: new_end };
        proof {
            if i > first {
                assert(rs@[first as int].end + 1 < rs@[i as int].start);
            }
            assert forall|j: int| 0 <= j < first implies #[trigger] rs@[j].end + 1 < cur.start by {
                if j < first {
                    assert(rs@[j].end + 1 < rs@[first as int].start);
                }
            }
            assert forall|a: int|
                in_range(cur, a) <==> (in_range(r, a) || covers(
                    rs@.subrange(first as int, i + 1),
                    a,
                )) by {
                let s = rs@.subrange(first as int, i + 1);
                assert(s =~= rs@.subrange(first as int, i as int).push(next));
                lemma_covers_push(rs@.subrange(first as int, i as int), next, a);
            }
        }
        i = i + 1;
    }
    let ghost merged_end = i;
    let ghost prefix = out@;
    out.push(cur);
    proof {
        assert forall|p: int, q: int| 0 <= p < q < out@.len() implies #[trigger] out@[p].end + 1
            < #[trigger] out@[q].start by {
            if q < out@.len() - 1 {
                assert(out@[p] == rs@[p]);
                assert(out@[q] == rs@[q]);
            }
        }
    }
    while i < n
        invariant
            merged_end <= i <= n,
            n == rs.len(),
            canonical(rs@, max),
            cur.start <= cur.end <= max,
            merged_end < n ==> cur.end + 1 < rs@[merged_end as int].start,
            out@ == prefix.push(cur) + rs@.subrange(merged_end as int, i as int),
            canonical(out@, max),
            i > merged_end ==> out@.last() == rs@[i - 1],
            i == merged_end ==> out@.last() == cur,
            first <= merged_end,
            prefix == rs@.take(first as int),
            forall|a: int|
                in_range(cur, a) <==> (in_range(r, a) || covers(
                    rs@.subrange(first as int, merged_end as int),
                    a,
                )),
        decreases n - i,
    {
        let ghost before = out@;
        out.push(rs[i]);
        proof {
            assert(out@ =~= prefix.push(cur) + rs@.subrange(merged_end as int, i + 1));
            if i > merged_end {
                assert(rs@[i - 1].end + 1 < rs@[i as int].start);
            }
            assert forall|p: int, q: int| 0 <= p < q < out@.len() implies #[trigger] out@[p].end
                + 1 < #[trigger] out@[q].start by {
                if q < out@.len() - 1 {
                    assert(out@[p] == before[p]);
                    assert(out@[q] == before[q]);
                } else {
                    assert(out@[p] == before[p]);
                    if p < before.len() - 1 {
                        assert(before[p].end + 1 < before.last().start);
                    }
                }
            }
        }
        i = i + 1;
    }
    proof {
        lemma_insert_cover(rs@, first as int, merged_end as int, r, cur, out@);
    }
    out
}

/// The addresses of `src` that no interval of `other` holds, walking both
/// sorted lists once.
pub fn subtract_ranges(src: &Vec<Range>, other: &Vec<Range>, Ghost(max): Ghost<int>) -> (out: Vec<
    Range,
>)
    requires
        canonical(src@, max),
        canonical(other@, max),
    ensures
        canonical(out@, max),
        forall|a: int| #[trigger] covers(out@, a) <==> (covers(src@, a) && !covers(other@, a)),
{
    let n = src.len();
    let m = other.len();
    let mut out: Vec<Range> = Vec::new();
    let mut first_possible: usize = 0;
    let mut k: usize = 0;
    while k < n
        invariant
            0 <= k <= n,
            n == src.len(),
            m == other.len(),
            canonical(src@, max),
            canonical(other@, max),
            canonical(out@, max),
            0 <= first_possible <= m,
            k < n ==> forall|j: int| 0 <= j < first_possible ==> #[trigger] other@[j].end < src@[k as int].start,
            k < n && out@.len() > 0 ==> out@.last().end + 1 < src@[k as int].start,
            forall|a: int| covers(out@, a) <==> (covers(src@.take(k as int), a) && !covers(other@, a)),
        decreases n - k,
    {
        let source = src[k];
        while first_possible < m && other[first_possible].end < source.start
            invariant
                0 <= first_possible <= m,
                m == other.len(),
                canonical(other@, max),
                forall|j: int| 0 <= j < first_possible ==> #[trigger] other@[j].end < source.start,
            decreases m - first_possible,
        {
            proof {
                assert forall|j: int| 0 <= j < first_possible + 1 implies #[trigger] other@[j].end < source.start by {
                }
            }
            first_possible = first_possible + 1;
        }
        let mut cursor: Option<u128> = Some(source.start);
        let mut index = first_possible;
        let ghost base = out@;
        while index < m && other[index].start <= source.end
            invariant
                first_possible <= index <= m,
                m == other.len(),
                canonical(other@, max),
                canonical(out@, max),
                k < n,
                n == src.len(),
                source == src@[k as int],
                source.start <= source.end <= max,
                cursor matches Some(c) ==> source.start <= c <= source.end,
                cursor matches Some(c) ==> forall|j: int| 0 <= j < index ==> #[trigger] other@[j].end < c,
                cursor matches Some(c) ==> (out@.len() > 0 ==> out@.last().end + 1 < c),
                out@.len() > 0 ==> out@.last().end <= source.end || out@ == base,
                base.len() > 0 ==> base.last().end + 1 < source.start,
                partly_subtracted(out@, base, other@, source.start as int, done_bound(cursor, source)),
            ensures
                cursor is Some ==> !(index < m && other@[index as int].start <= source.end),
            decreases m - index,
        {
            let removed = other[index];
            let current = match cursor {
                Some(c) => c,
                None => break,
            };
            if removed.end < current {
                index = index + 1;
                continue;
            }
            let ghost top = out@;
            assert(cursor == Some(current));
            assert(done_bound(cursor, source) == current);
            let ghost piece = Range { start: current, end: (removed.start as int - 1) as u128 };
            if removed.start > current {
                out.push(Range { start: current, end: removed.start - 1 });
                proof {
                    assert forall|p: int, q: int| 0 <= p < q < out@.len() implies #[trigger] out@[p].end
                        + 1 < #[trigger] out@[q].start by {
                        if q < out@.len() - 1 {
                            assert(out@[p] == top[p]);
                            assert(out@[q] == top[q]);
                        } else {
                            assert(out@[p] == top[p]);
                            if p < top.len() - 1 {
                                assert(top[p].end + 1 < top.last().start);
                            }
                        }
                    }
                }
            }
            let ghost mid_done: int = if removed.start > current {
                removed.start as int
            } else {
                current as int
            };
            proof {
                assert(other@[index as int] == removed);
                assert forall|a: int| removed.start <= a <= removed.end implies covers(other@, a) by {
                    assert(in_range(other@[index as int], a));
                }
                assert forall|a: int| current <= a < mid_done implies !covers(other@, a) by {
                    if covers(other@, a) {
                        let j = choose|j: int| 0 <= j < other@.len() && in_range(#[trigger] other@[j], a);
                        if j > index {
                            assert(other@[index as int].end + 1 < other@[j].start);
                        }
                    }
                }
                if removed.start > current {
                    assert(out@ == top.push(piece));
                    lemma_subtracted_push(top, base, other@, source.start as int, piece);
                } else {
                    lemma_subtracted_extend(out@, base, other@, source.start as int, current as int, mid_done);
                }
            }
            if removed.end >= source.end {
                cursor = None;
                proof {
                    lemma_subtracted_extend(out@, base, other@, source.start as int, mid_done, source.end + 1);
                }
                break;
            }
            let next = if current > removed.end + 1 {
                current
            } else {
                removed.end + 1
            };
            cursor = Some(next);
            proof {
                lemma_subtracted_extend(out@, base, other@, source.start as int, mid_done, next as int);
                assert forall|j: int| 0 <= j < index + 1 implies #[trigger] other@[j].end < next by {
                    if j < index {
                        assert(other@[j].end < current);
                    }
                }
            }
            index = index + 1;
        }
        let ghost inner_out = out@;
        match cursor {
            Some(start) => {
                proof {
                    assert forall|a: int| start <= a <= source.end implies !covers(other@, a) by {
                        if covers(other@, a) {
                            let j = choose|j: int| 0 <= j < other@.len() && in_range(#[trigger] other@[j], a);
                            if j >= index {
                                if j > index {
                                    assert(other@[index as int].end + 1 < other@[j].start);
                                }
                            }
                        }
                    }
                }
                out.push(Range { start, end: source.end });
                proof {
                    assert forall|p: int, q: int| 0 <= p < q < out@.len() implies #[trigger] out@[p].end
                        + 1 < #[trigger] out@[q].start by {
                        if q < out@.len() - 1 {
                            assert(out@[p] == inner_out[p]);
                            assert(out@[q] == inner_out[q]);
                        } else {
                            assert(out@[p] == inner_out[p]);
                            if p < inner_out.len() - 1 {
                                assert(inner_out[p].end + 1 < inner_out.last().start);
                            }
                        }
                    }
                    lemma_subtracted_push(inner_out, base, other@, source.start as int, Range { start, end: source.end });
                }
            },
            None => {},
        }
        proof {
            assert(src@.take(k + 1) =~= src@.take(k as int).push(source));
            assert(partly_subtracted(out@, base, other@, source.start as int, source.end + 1));
            assert forall|a: int| covers(out@, a) <==> (covers(src@.take(k + 1), a) && !covers(other@, a)) by {
                lemma_covers_push(src@.take(k as int), source, a);
                assert(covers(out@, a) <==> (covers(base, a) || (source.start <= a < source.end + 1 && !covers(other@, a))));
            }
            if k + 1 < n {
                assert(source.end + 1 < src@[k + 1].start);
                assert forall|j: int| 0 <= j < first_possible implies #[trigger] other@[j].end < src@[k + 1].start by {
                }
            }
        }
        k = k + 1;
    }
    proof {
        assert(src@.take(n as int) =~= src@);
    }
    out
}

/// How far into `source` the walk in `subtract_ranges` has got: every
/// address below the bound has been handled.
proof fn lemma_subtracted_extend(out: Seq<Range>, base: Seq<Range>, other: Seq<Range>, lo: int, mid: int, hi: int)
    requires
        partly_subtracted(out, base, other, lo, mid),
        lo <= mid <= hi,
        forall|a: int| mid <= a < hi ==> covers(other, a),
    ensures
        partly_subtracted(out, base, other, lo, hi),
{
}

proof fn lemma_subtracted_push(out: Seq<Range>, base: Seq<Range>, other: Seq<Range>, lo: int, piece: Range)
    requires
        partly_subtracted(out, base, other, lo, piece.start as int),
        lo <= piece.start <= piece.end,
        forall|a: int| piece.start <= a <= piece.end ==> !covers(other, a),
    ensures
        partly_subtracted(out.push(piece), base, other, lo, piece.end + 1),
{
    assert forall|a: int| #[trigger] covers(out.push(piece), a) <==> (covers(base, a) || (lo <= a < piece.end + 1 && !covers(other, a))) by {
        lemma_covers_push(out, piece, a);
        assert(covers(out, a) <==> (covers(base, a) || (lo <= a < piece.start && !covers(other, a))));
        if piece.start <= a <= piece.end {
            assert(!covers(other, a));
            assert(in_range(piece, a));
            assert(covers(out.push(piece), a));
            assert(lo <= a < piece.end + 1 && !covers(other, a));
        } else if a < piece.start {
            assert(!in_range(piece, a));
        } else {
            assert(!in_range(piece, a));
            assert(covers(out.push(piece), a) <==> covers(base, a));
        }
    }
}

/// `out` holds `base` and, of the addresses `lo..hi`, those that `other`
/// does not hold.
pub open spec fn partly_subtracted(out: Seq<Range>, base: Seq<Range>, other: Seq<Range>, lo: int, hi: int) -> bool {
    forall|a: int| #[trigger] covers(out, a) <==> (covers(base, a) || (lo <= a < hi && !covers(other, a)))
}

pub open spec fn done_bound(cursor: Option<u128>, source: Range) -> int {
    match cursor {
        Some(c) => c as int,
        None => source.end + 1,
    }
}

/// The two intervals share an address.
pub open spec fn overlap(x: Range, y: Range) -> bool {
    x.start <= y.end && y.start <= x.end
}

/// Whether some address lies in both lists, walking them side by side.
pub fn ranges_intersect(xs: &Vec<Range>, ys: &Vec<Range>, Ghost(max): Ghost<int>) -> (res: bool)
    requires
        canonical(xs@, max),
        canonical(ys@, max),
    ensures
        res <==> exists|a: int| covers(xs@, a) && covers(ys@, a),
{
    let mut left: usize = 0;
    let mut right: usize = 0;
    while left < xs.len() && right < ys.len()
        invariant
            0 <= left <= xs.len(),
            0 <= right <= ys.len(),
            canonical(xs@, max),
            canonical(ys@, max),
            forall|i: int, j: int|
                0 <= i < left && 0 <= j < ys@.len() ==> !overlap(#[trigger] xs@[i], #[trigger] ys@[j]),
            forall|i: int, j: int|
                0 <= i < xs@.len() && 0 <= j < right ==> !overlap(#[trigger] xs@[i], #[trigger] ys@[j]),
        decreases xs.len() - left + ys.len() - right,
    {
        let a = xs[left];
        let b = ys[right];
        if a.end < b.start {
            proof {
                assert forall|i: int, j: int|
                    0 <= i < left + 1 && 0 <= j < ys@.len() implies !overlap(#[trigger] xs@[i], #[trigger] ys@[j]) by {
                    if i == left && j > right {
                        assert(ys@[right as int].end + 1 < ys@[j].start);
                    }
                }
            }
            left = left + 1;
        } else if b.end < a.start {
            proof {
                assert forall|i: int, j: int|
                    0 <= i < xs@.len() && 0 <= j < right + 1 implies !overlap(#[trigger] xs@[i], #[trigger] ys@[j]) by {
                    if j == right && i > left {
                        assert(xs@[left as int].end + 1 < xs@[i].start);
                    }
                }
            }
            right = right + 1;
        } else {
            proof {
                let w: int = if a.start < b.start { b.start as int } else { a.start as int };
                assert(in_range(xs@[left as int], w));
                assert(in_range(ys@[right as int], w));
                assert(covers(xs@, w) && covers(ys@, w));
            }
            return true;
        }
    }
    proof {
        assert forall|a: int| !(covers(xs@, a) && covers(ys@, a)) by {
            if covers(xs@, a) && covers(ys@, a) {
                let i = choose|i: int| 0 <= i < xs@.len() && in_range(#[trigger] xs@[i], a);
                let j = choose|j: int| 0 <= j < ys@.len() && in_range(#[trigger] ys@[j], a);
                assert(overlap(xs@[i], ys@[j]));
            }
        }
    }
    false
}

/// Whether the canonical list `rs` holds `value`, by binary search.
pub fn ranges_contain(rs: &Vec<Range>, value: u128, Ghost(max): Ghost<int>) -> (res: bool)
    requires
        canonical(rs@, max),
    ensures
        res == covers(rs@, value as int),
{
    let mut lo: usize = 0;
    let mut hi: usize = rs.len();
    while lo < hi
        invariant
            0 <= lo <= hi <= rs.len(),
            canonical(rs@, max),
            forall|i: int| 0 <= i < lo ==> #[trigger] rs@[i].end < value,
            forall|i: int| hi <= i < rs@.len() ==> #[trigger] rs@[i].start > value,
        decreases hi - lo,
    {
        let mid = lo + (hi - lo) / 2;
        let r = rs[mid];
        if r.end < value {
            proof {
                assert forall|i: int| 0 <= i < mid + 1 implies #[trigger] rs@[i].end < value by {
                    if i < mid {
                        assert(rs@[i].end + 1 < rs@[mid as int].start);
                    }
                }
            }
            lo = mid + 1;
        } else if r.start > value {
            proof {
                assert forall|i: int| mid <= i < rs@.len() implies #[trigger] rs@[i].start > value by {
                    if i > mid {
                        assert(rs@[mid as int].end + 1 < rs@[i].start);
                    }
                }
            }
            hi = mid;
        } else {
            proof {
                assert(in_range(rs@[mid as int], value as int));
            }
            return true;
        }
    }
    false
}

/// Brings any list of non-empty intervals below `max` into canonical form,
/// holding the same addresses.
pub fn normalize(ranges: Vec<Range>, Ghost(max): Ghost<int>) -> (out: Vec<Range>)
    requires
        bounded(ranges@, max),
    ensures
        canonical(out@, max),
        forall|a: int| #[trigger] covers(out@, a) <==> covers(ranges@, a),
{
    let mut out: Vec<Range> = Vec::new();
    let mut i: usize = 0;
    while i < ranges.len()
        invariant
            0 <= i <= ranges.len(),
            bounded(ranges@, max),
            canonical(out@, max),
            forall|a: int| covers(out@, a) <==> covers(ranges@.take(i as int), a),
        decreases ranges.len() - i,
    {
        let r = ranges[i];
        let next = insert_range(&out, r, Ghost(max));
        proof {
            assert(ranges@.take(i + 1) =~= ranges@.take(i as int).push(r));
            assert forall|a: int| covers(next@, a) <==> covers(ranges@.take(i + 1), a) by {
                lemma_covers_push(ranges@.take(i as int), r, a);
            }
        }
        out = next;
        i = i + 1;
    }
    proof {
        assert(ranges@.take(ranges.len() as int) =~= ranges@);
    }
    out
}

/// Two canonical lists that hold the same addresses are the same list: the
/// canonical form of an address set is unique.
pub proof fn lemma_canonical_unique(xs: Seq<Range>, ys: Seq<Range>, max: int)
    requires
        canonical(xs, max),
        canonical(ys, max),
        forall|a: int| covers(xs, a) <==> covers(ys, a),
    ensures
        xs == ys,
    decreases xs.len() + ys.len(),
{
    if xs.len() == 0 || ys.len() == 0 {
        if xs.len() > 0 {
            assert(in_range(xs[0], xs[0].start as int));
            assert(covers(xs, xs[0].start as int));
        }
        if ys.len() > 0 {
            assert(in_range(ys[0], ys[0].start as int));
            assert(covers(ys, ys[0].start as int));
        }
        assert(xs =~= ys);
    } else {
        let x = xs[0];
        let y = ys[0];
        lemma_first_is_lowest(xs, max);
        lemma_first_is_lowest(ys, max);
        assert(in_range(xs[0], x.start as int));
        assert(covers(xs, x.start as int));
        assert(in_range(ys[0], y.start as int));
        assert(covers(ys, y.start as int));
        assert(x.start == y.start);
        if x.end < y.end {
            let p = x.end + 1;
            assert(in_range(ys[0], p));
            assert(covers(ys, p));
            lemma_gap_after_first(xs, max);
        }
        if y.end < x.end {
            let p = y.end + 1;
            assert(in_range(xs[0], p));
            assert(covers(xs, p));
            lemma_gap_after_first(ys, max);
        }
        assert(x == y);
        let xr = xs.skip(1);
        let yr = ys.skip(1);
        assert forall|a: int| covers(xr, a) <==> covers(yr, a) by {
            lemma_covers_take_skip(xs, 1, a);
            lemma_covers_take_skip(ys, 1, a);
            assert(xs.take(1) =~= seq![x]);
            assert(ys.take(1) =~= seq![y]);
            lemma_covers_single(x, a);
            lemma_rest_above_first(xs, max, a);
            lemma_rest_above_first(ys, max, a);
        }
        lemma_canonical_suffix(xs, max);
        lemma_canonical_suffix(ys, max);
        lemma_canonical_unique(xr, yr, max);
        assert(xs =~= seq![x] + xr);
        assert(ys =~= seq![y] + yr);
    }
}

proof fn lemma_covers_single(r: Range, a: int)
    ensures
        covers(seq![r], a) <==> in_range(r, a),
{
    if in_range(r, a) {
        assert(seq![r][0] == r);
    }
}

pub proof fn lemma_first_is_lowest(rs: Seq<Range>, max: int)
    requires
        canonical(rs, max),
        rs.len() > 0,
    ensures
        forall|a: int| covers(rs, a) ==> rs[0].start <= a,
{
    assert forall|a: int| covers(rs, a) implies rs[0].start <= a by {
        let i = choose|i: int| 0 <= i < rs.len() && in_range(#[trigger] rs[i], a);
        if i > 0 {
            assert(rs[0].end + 1 < rs[i].start);
        }
    }
}

pub proof fn lemma_gap_after_first(rs: Seq<Range>, max: int)
    requires
        canonical(rs, max),
        rs.len() > 0,
    ensures
        !covers(rs, rs[0].end + 1),
{
    if covers(rs, rs[0].end + 1) {
        let i = choose|i: int| 0 <= i < rs.len() && in_range(#[trigger] rs[i], rs[0].end + 1);
        if i > 0 {
            assert(rs[0].end + 1 < rs[i].start);
        }
    }
}

pub proof fn lemma_rest_above_first(rs: Seq<Range>, max: int, a: int)
    requires
        canonical(rs, max),
        rs.len() > 0,
    ensures
        covers(rs.skip(1), a) ==> a > rs[0].end + 1,
{
    if covers(rs.skip(1), a) {
        let i = choose|i: int| 0 <= i < rs.skip(1).len() && in_range(#[trigger] rs.skip(1)[i], a);
        assert(rs.skip(1)[i] == rs[i + 1]);
        assert(rs[0].end + 1 < rs[i + 1].start);
    }
}

pub proof fn lemma_canonical_suffix(rs: Seq<Range>, max: int)
    requires
        canonical(rs, max),
        rs.len() > 0,
    ensures
        canonical(rs.skip(1), max),
{
    let r = rs.skip(1);
    assert forall|i: int| 0 <= i < r.len() implies #[trigger] r[i].start <= r[i].end <= max by {
        assert(r[i] == rs[i + 1]);
        assert(rs[i + 1].start <= rs[i + 1].end <= max);
    }
    assert forall|i: int, j: int| 0 <= i < j < r.len() implies #[trigger] r[i].end + 1 < #[trigger] r[j].start by {
        assert(r[i] == rs[i + 1]);
        assert(r[j] == rs[j + 1]);
    }
}

} // verus!
