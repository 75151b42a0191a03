//! The text form of an address set uses as few prefixes as any list of
//! prefixes that covers exactly the same addresses.

use crate::blocks::{aligned, block_last, fits, interval_blocks, largest_fit, lemma_aligned_smaller,
    lemma_largest_fit_fits};
use crate::blocks::lemma_aligned_block_inside;
use crate::family::IpFamily;
use crate::ipset::{spans_blocks, IpSet};
use crate::prefix::{cidr_range, valid_cidr, Cidr};
use crate::ranges::{addresses, lemma_canonical_unique};
use crate::ranges::{canonical, covers, in_range, lemma_canonical_suffix, lemma_covers_take_skip, Range};
use vstd::arithmetic::power2::{lemma_pow2_pos, pow2};
use vstd::prelude::*;

verus! {

/// The block `(start, host)` holds the address `a`.
pub open spec fn block_has(block: (int, nat), a: int) -> bool {
    block.0 <= a <= block_last(block.0, block.1)
}

/// A prefix of a family with `bits`-bit addresses, as a block.
pub open spec fn valid_block(block: (int, nat), bits: nat) -> bool {
    0 <= block.0 && block.1 <= bits && aligned(block.0, block.1)
}

/// Some block of the list holds `a`.
pub open spec fn blocks_cover(blocks: Seq<(int, nat)>, a: int) -> bool {
    exists|i: int| 0 <= i < blocks.len() && block_has(#[trigger] blocks[i], a)
}

/// The blocks that begin after `limit`, in order.
pub open spec fn after(blocks: Seq<(int, nat)>, limit: int) -> Seq<(int, nat)>
    decreases blocks.len(),
{
    if blocks.len() == 0 {
        seq![]
    } else if blocks[0].0 > limit {
        seq![blocks[0]] + after(blocks.skip(1), limit)
    } else {
        after(blocks.skip(1), limit)
    }
}

/// The blocks that begin at or before `limit`, in order.
pub open spec fn upto(blocks: Seq<(int, nat)>, limit: int) -> Seq<(int, nat)>
    decreases blocks.len(),
{
    if blocks.len() == 0 {
        seq![]
    } else if blocks[0].0 <= limit {
        seq![blocks[0]] + upto(blocks.skip(1), limit)
    } else {
        upto(blocks.skip(1), limit)
    }
}

proof fn lemma_split(blocks: Seq<(int, nat)>, limit: int)
    ensures
        after(blocks, limit).len() + upto(blocks, limit).len() == blocks.len(),
        forall|x: (int, nat)|
            #![trigger after(blocks, limit).contains(x)]
            #![trigger blocks.contains(x)]
            after(blocks, limit).contains(x) <==> (blocks.contains(x) && x.0 > limit),
        forall|x: (int, nat)|
            #![trigger upto(blocks, limit).contains(x)]
            #![trigger blocks.contains(x)]
            upto(blocks, limit).contains(x) <==> (blocks.contains(x) && x.0 <= limit),
    decreases blocks.len(),
{
    broadcast use vstd::seq_lib::group_seq_properties;

    if blocks.len() > 0 {
        let first = seq![blocks[0]];
        let rest = blocks.skip(1);
        lemma_split(rest, limit);
        assert(blocks =~= first + rest);
        assert forall|x: (int, nat)| #[trigger] first.contains(x) <==> x == blocks[0] by {
            assert(first[0] == blocks[0]);
        }
    }
}

proof fn lemma_cover_contains(blocks: Seq<(int, nat)>, a: int)
    ensures
        blocks_cover(blocks, a) <==> exists|x: (int, nat)| blocks.contains(x) && block_has(x, a),
{
    if blocks_cover(blocks, a) {
        let i = choose|i: int| 0 <= i < blocks.len() && block_has(#[trigger] blocks[i], a);
        assert(blocks.contains(blocks[i]));
    }
    if exists|x: (int, nat)| blocks.contains(x) && block_has(x, a) {
        let x = choose|x: (int, nat)| blocks.contains(x) && block_has(x, a);
        let i = choose|i: int| 0 <= i < blocks.len() && blocks[i] == x;
        assert(block_has(blocks[i], a));
    }
}

/// `x` and `y` are multiples of `m` with `x < y`, so `x + m <= y`.
proof fn lemma_next_multiple(x: int, y: int, m: int)
    requires
        m > 0,
        x >= 0,
        y >= 0,
        x % m == 0,
        y % m == 0,
        x < y,
    ensures
        x + m <= y,
{
    let qx = x / m;
    let qy = y / m;
    assert(x == m * qx) by (nonlinear_arith)
        requires
            m > 0,
            x % m == 0,
            qx == x / m,
    ;
    assert(y == m * qy) by (nonlinear_arith)
        requires
            m > 0,
            y % m == 0,
            qy == y / m,
    ;
    assert(qx < qy) by (nonlinear_arith)
        requires
            m > 0,
            x == m * qx,
            y == m * qy,
            x < y,
    ;
    assert(x + m <= y) by (nonlinear_arith)
        requires
            m > 0,
            x == m * qx,
            y == m * qy,
            qx + 1 <= qy,
    ;
}

/// The end of an aligned block is aligned to every size up to its own.
proof fn lemma_block_end_aligned(start: int, host: nat, k: nat)
    requires
        start >= 0,
        aligned(start, host),
        k <= host,
    ensures
        aligned(start + pow2(host), k),
{
    let p = pow2(host) as int;
    lemma_pow2_pos(host);
    let q = start / p;
    assert(start == p * q) by (nonlinear_arith)
        requires
            p > 0,
            start % p == 0,
            q == start / p,
    ;
    assert((start + p) % p == 0) by (nonlinear_arith)
        requires
            p > 0,
            start == p * q,
    {
        assert(start + p == p * (q + 1));
        vstd::arithmetic::div_mod::lemma_mod_multiples_basic(q + 1, p);
        assert((q + 1) * p == p * (q + 1));
    }
    lemma_aligned_smaller(start + p, host, k);
}

proof fn lemma_no_larger_fit(start: int, end: int, k: nat, top: nat)
    requires
        largest_fit(start, end, top) < k <= top,
    ensures
        !fits(start, end, k),
    decreases top,
{
    if top > 0 && !fits(start, end, top) && k < top {
        lemma_no_larger_fit(start, end, k, (top - 1) as nat);
    }
}

/// A prefix that lies in `start..=end` and meets the first largest block
/// of that interval lies inside that block: aligned blocks nest, and no
/// larger block fits at `start`.
proof fn lemma_nested(start: int, end: int, bits: nat, block: (int, nat))
    requires
        0 <= start <= end,
        valid_block(block, bits),
        start <= block.0 <= block_last(start, largest_fit(start, end, bits)),
        block_last(block.0, block.1) <= end,
    ensures
        block_last(block.0, block.1) <= block_last(start, largest_fit(start, end, bits)),
{
    let h = largest_fit(start, end, bits);
    lemma_largest_fit_fits(start, end, bits);
    lemma_pow2_pos(h);
    lemma_pow2_pos(block.1);
    let k = block.1;
    if k <= h {
        lemma_block_end_aligned(start, h, k);
        lemma_next_multiple(block.0, start + pow2(h), pow2(k) as int);
    } else {
        lemma_aligned_smaller(block.0, k, h);
        if block.0 > start {
            lemma_next_multiple(start, block.0, pow2(h) as int);
        }
        assert(block.0 == start);
        assert(fits(start, end, k));
        lemma_no_larger_fit(start, end, k, bits);
    }
}

/// Any list of prefixes inside `start..=end` that covers the interval has
/// at least as many prefixes as its largest-block decomposition.
pub proof fn lemma_interval_minimal(start: int, end: int, bits: nat, cover: Seq<(int, nat)>)
    requires
        0 <= start <= end,
        forall|i: int| 0 <= i < cover.len() ==> valid_block(#[trigger] cover[i], bits),
        forall|i: int| 0 <= i < cover.len() ==> start <= #[trigger] cover[i].0 && block_last(
            cover[i].0,
            cover[i].1,
        ) <= end,
        forall|a: int| start <= a <= end ==> blocks_cover(cover, a),
    ensures
        cover.len() >= interval_blocks(start, end, bits).len(),
    decreases end - start,
{
    let h = largest_fit(start, end, bits);
    let last = block_last(start, h);
    lemma_largest_fit_fits(start, end, bits);
    lemma_pow2_pos(h);
    assert(blocks_cover(cover, start));
    let first = choose|i: int| 0 <= i < cover.len() && block_has(#[trigger] cover[i], start);
    lemma_split(cover, last);
    assert(cover.contains(cover[first]));
    assert(upto(cover, last).contains(cover[first]));
    if last < end {
        let rest = after(cover, last);
        assert forall|i: int| 0 <= i < rest.len() implies valid_block(#[trigger] rest[i], bits) && last + 1
            <= rest[i].0 && block_last(rest[i].0, rest[i].1) <= end by {
            assert(rest.contains(rest[i]));
            let j = choose|j: int| 0 <= j < cover.len() && cover[j] == rest[i];
            assert(valid_block(cover[j], bits));
            assert(start <= cover[j].0);
        }
        assert forall|a: int| last + 1 <= a <= end implies blocks_cover(rest, a) by {
            assert(blocks_cover(cover, a));
            let j = choose|j: int| 0 <= j < cover.len() && block_has(#[trigger] cover[j], a);
            let b = cover[j];
            assert(valid_block(b, bits));
            if b.0 <= last {
                lemma_nested(start, end, bits, b);
            }
            assert(cover.contains(b));
            assert(rest.contains(b));
            lemma_cover_contains(rest, a);
        }
        lemma_interval_minimal(last + 1, end, bits, rest);
        let bs = interval_blocks(start, end, bits);
        assert(bs == seq![(start, h)] + interval_blocks(last + 1, end, bits));
    }
}

/// Any list of prefixes of the family that covers exactly the addresses of
/// canonical intervals has at least as many prefixes as the intervals'
/// largest-block decomposition.
pub proof fn lemma_spans_minimal(spans: Seq<Range>, max: int, bits: nat, cover: Seq<(int, nat)>)
    requires
        canonical(spans, max),
        forall|i: int| 0 <= i < cover.len() ==> valid_block(#[trigger] cover[i], bits),
        forall|i: int, a: int| 0 <= i < cover.len() && #[trigger] block_has(cover[i], a) ==> covers(spans, a),
        forall|a: int| covers(spans, a) ==> blocks_cover(cover, a),
    ensures
        cover.len() >= spans_blocks(spans, bits).len(),
    decreases spans.len(),
{
    if spans.len() > 0 {
        let r = spans[0];
        let s = r.start as int;
        let e = r.end as int;
        let rest = spans.skip(1);
        crate::ranges::lemma_first_is_lowest(spans, max);
        crate::ranges::lemma_gap_after_first(spans, max);
        lemma_split(cover, e);
        let inside = upto(cover, e);
        let outside = after(cover, e);
        assert forall|i: int| 0 <= i < inside.len() implies valid_block(#[trigger] inside[i], bits) && s
            <= inside[i].0 && block_last(inside[i].0, inside[i].1) <= e by {
            assert(inside.contains(inside[i]));
            let j = choose|j: int| 0 <= j < cover.len() && cover[j] == inside[i];
            let b = cover[j];
            lemma_pow2_pos(b.1);
            assert(block_has(b, b.0));
            assert(covers(spans, b.0));
            if block_last(b.0, b.1) > e {
                assert(block_has(b, e + 1));
            }
        }
        assert forall|a: int| s <= a <= e implies blocks_cover(inside, a) by {
            assert(in_range(spans[0], a));
            assert(covers(spans, a));
            let j = choose|j: int| 0 <= j < cover.len() && block_has(#[trigger] cover[j], a);
            assert(cover.contains(cover[j]));
            assert(inside.contains(cover[j]));
            lemma_cover_contains(inside, a);
        }
        lemma_interval_minimal(s, e, bits, inside);
        assert forall|i: int| 0 <= i < outside.len() implies valid_block(#[trigger] outside[i], bits) by {
            assert(outside.contains(outside[i]));
        }
        assert forall|i: int, a: int| 0 <= i < outside.len() && #[trigger] block_has(outside[i], a) implies covers(
            rest,
            a,
        ) by {
            assert(outside.contains(outside[i]));
            let j = choose|j: int| 0 <= j < cover.len() && cover[j] == outside[i];
            assert(block_has(cover[j], a));
            assert(covers(spans, a));
            lemma_covers_take_skip(spans, 1, a);
            assert(spans.take(1) =~= seq![r]);
            if covers(seq![r], a) {
                let k = choose|k: int| 0 <= k < 1 && in_range(#[trigger] seq![r][k], a);
                assert(seq![r][k] == r);
            }
        }
        assert forall|a: int| covers(rest, a) implies blocks_cover(outside, a) by {
            lemma_covers_take_skip(spans, 1, a);
            crate::ranges::lemma_rest_above_first(spans, max, a);
            let j = choose|j: int| 0 <= j < cover.len() && block_has(#[trigger] cover[j], a);
            let b = cover[j];
            assert(cover.contains(b));
            if b.0 <= e {
                assert(inside.contains(b));
                let m = choose|m: int| 0 <= m < inside.len() && inside[m] == b;
                assert(block_last(inside[m].0, inside[m].1) <= e);
            }
            assert(outside.contains(b));
            lemma_cover_contains(outside, a);
        }
        lemma_canonical_suffix(spans, max);
        lemma_spans_minimal(rest, max, bits, outside);
    }
}

/// Some prefix of the list holds `a`.
pub open spec fn cidrs_cover(cover: Seq<Cidr>, a: int) -> bool {
    exists|i: int| 0 <= i < cover.len() && in_range(cidr_range(#[trigger] cover[i]), a)
}

/// The text form of a set is as short as can be: every list of prefixes of
/// the set's family that together hold exactly the set's addresses has at
/// least as many prefixes as the text form has lines (`to_text` and
/// `prefix_count` count those lines as the length of
/// `spans_blocks(set.spans(), set@.0.bit_width())`).
pub proof fn lemma_text_is_minimal(set: &IpSet, cover: Seq<Cidr>)
    requires
        set.wf(),
        forall|i: int| 0 <= i < cover.len() ==> valid_cidr(#[trigger] cover[i]) && cover[i].family == set@.0,
        forall|a: int| set@.1.contains(a) <==> cidrs_cover(cover, a),
    ensures
        cover.len() >= spans_blocks(set.spans(), set@.0.bit_width()).len(),
{
    let family = set@.0;
    let bits = family.bit_width();
    let max = family.max_address();
    let spans = set.spans();
    set.lemma_view();
    crate::blocks::lemma_pow2_128();
    let blocks = Seq::new(
        cover.len(),
        |i: int| (cover[i].address as int, (bits - cover[i].prefix_len) as nat),
    );
    assert forall|i: int| 0 <= i < cover.len() implies #[trigger] blocks[i] == (
        cidr_range(cover[i]).start as int,
        (bits - cover[i].prefix_len) as nat,
    ) && cidr_range(cover[i]).end as int == block_last(blocks[i].0, blocks[i].1) by {
        let c = cover[i];
        let host = (bits - c.prefix_len) as nat;
        assert(valid_cidr(c));
        assert(pow2(bits) == max + 1) by {
            match family {
                IpFamily::V4 => {},
                IpFamily::V6 => {},
            }
        }
        lemma_aligned_block_inside(c.address as int, host, bits);
        lemma_pow2_pos(host);
        let last = block_last(c.address as int, host);
        assert(0 <= last <= max);
        assert(last as u128 as int == last);
    }
    assert forall|i: int| 0 <= i < blocks.len() implies valid_block(#[trigger] blocks[i], bits) by {
        assert(valid_cidr(cover[i]));
    }
    assert forall|i: int, a: int| 0 <= i < blocks.len() && #[trigger] block_has(blocks[i], a) implies covers(
        spans,
        a,
    ) by {
        assert(in_range(cidr_range(cover[i]), a));
        assert(cidrs_cover(cover, a));
        assert(addresses(spans).contains(a));
    }
    assert forall|a: int| covers(spans, a) implies blocks_cover(blocks, a) by {
        assert(addresses(spans).contains(a));
        assert(cidrs_cover(cover, a));
        let i = choose|i: int| 0 <= i < cover.len() && in_range(cidr_range(#[trigger] cover[i]), a);
        assert(block_has(blocks[i], a));
    }
    lemma_spans_minimal(spans, max, bits, blocks);
}

/// The text form depends on the addresses alone: two sets of one family
/// that hold the same addresses have the same canonical intervals, and so
/// the same text and the same prefix count.
pub proof fn lemma_same_addresses_same_form(x: &IpSet, y: &IpSet)
    requires
        x.wf(),
        y.wf(),
        x@ == y@,
    ensures
        x.spans() == y.spans(),
{
    x.lemma_view();
    y.lemma_view();
    assert forall|a: int| covers(x.spans(), a) <==> covers(y.spans(), a) by {
        assert(addresses(x.spans()).contains(a) == covers(x.spans(), a));
        assert(addresses(y.spans()).contains(a) == covers(y.spans(), a));
    }
    lemma_canonical_unique(x.spans(), y.spans(), x@.0.max_address());
}

} // verus!
