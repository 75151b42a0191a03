//! What the text form of an address set is made of: the blocks cover the
//! set exactly, each block is one line, and reading the lines back as a
//! prefix list gives the set again.

use crate::blocks::{aligned, block_last, interval_blocks, largest_fit, lemma_largest_fit_fits};
use crate::family::IpFamily;
use crate::ipset::{
    apply_effects, blocks_text, cidr_effects, cidr_line_effect, range_set, spans_blocks,
    LineEffect,
};
use crate::prefix::{cidr_range, ipnet_parse, is_prefix_char, is_prefix_text, network_of, prefix_text, Cidr};
use crate::ranges::{addresses, canonical, covers, in_range, lemma_covers_take_skip, Range};
use crate::text::{
    is_white_space, lemma_line_len, lines, strip_bom, strip_cr, trim, trim_end, trim_start,
};
use vstd::arithmetic::power2::lemma_pow2_pos;
use vstd::prelude::*;

verus! {

/// The addresses of the block of `2^host` addresses at `start`.
pub open spec fn block_set(block: (int, nat)) -> Set<int> {
    Set::new(|a: int| block.0 <= a <= block_last(block.0, block.1))
}

/// The addresses of a sequence of blocks together.
pub open spec fn blocks_set(blocks: Seq<(int, nat)>) -> Set<int>
    decreases blocks.len(),
{
    if blocks.len() == 0 {
        Set::empty()
    } else {
        block_set(blocks[0]).union(blocks_set(blocks.skip(1)))
    }
}

/// A block of the family that ipnet displays as one prefix and reads back
/// as the same prefix.
pub open spec fn good_block(family: IpFamily, block: (int, nat)) -> bool {
    &&& 0 <= block.0 <= family.max_address()
    &&& block.1 <= family.bit_width()
    &&& aligned(block.0, block.1)
    &&& block_last(block.0, block.1) <= family.max_address()
    &&& is_prefix_text(prefix_text(family, block.0, block.1))
    &&& ipnet_parse(prefix_text(family, block.0, block.1)) == Some(
        (family == IpFamily::V6, block.0 as u128, (family.bit_width() - block.1) as u8),
    )
}

/// The prefix that a good block reads back as.
pub open spec fn block_cidr(family: IpFamily, block: (int, nat)) -> Cidr {
    Cidr { family, address: block.0 as u128, prefix_len: (family.bit_width() - block.1) as u8 }
}

pub proof fn lemma_blocks_set_concat(x: Seq<(int, nat)>, y: Seq<(int, nat)>)
    ensures
        blocks_set(x + y) == blocks_set(x).union(blocks_set(y)),
    decreases x.len(),
{
    if x.len() == 0 {
        assert(x + y =~= y);
        assert(blocks_set(x).union(blocks_set(y)) =~= blocks_set(y));
    } else {
        assert((x + y).skip(1) =~= x.skip(1) + y);
        assert((x + y)[0] == x[0]);
        lemma_blocks_set_concat(x.skip(1), y);
        assert(blocks_set(x + y) =~= blocks_set(x).union(blocks_set(y)));
    }
}

/// The largest-block decomposition of `start..=end` covers exactly that
/// interval, and each of its blocks is aligned and within it.
pub proof fn lemma_interval_blocks(start: int, end: int, bits: nat)
    requires
        0 <= start <= end,
    ensures
        blocks_set(interval_blocks(start, end, bits)) == Set::new(|a: int| start <= a <= end),
        forall|i: int|
            0 <= i < interval_blocks(start, end, bits).len() ==> {
                let b = #[trigger] interval_blocks(start, end, bits)[i];
                &&& start <= b.0
                &&& b.1 <= bits
                &&& aligned(b.0, b.1)
                &&& block_last(b.0, b.1) <= end
            },
    decreases end - start,
{
    let host = largest_fit(start, end, bits);
    let last = block_last(start, host);
    lemma_largest_fit_fits(start, end, bits);
    lemma_pow2_pos(host);
    let bs = interval_blocks(start, end, bits);
    if last >= end {
        assert(bs == seq![(start, host)]);
        assert(bs.skip(1) =~= seq![]);
        assert(blocks_set(bs.skip(1)) =~= Set::empty());
        assert(bs[0] == (start, host));
        assert(last == end);
        assert(blocks_set(bs) =~= Set::new(|a: int| start <= a <= end));
    } else {
        lemma_interval_blocks(last + 1, end, bits);
        let rest = interval_blocks(last + 1, end, bits);
        assert(bs == seq![(start, host)] + rest);
        assert(bs.skip(1) =~= rest);
        assert(bs[0] == (start, host));
        assert(blocks_set(bs) =~= Set::new(|a: int| start <= a <= end));
        assert forall|i: int| 0 <= i < bs.len() implies {
            let b = #[trigger] bs[i];
            &&& start <= b.0
            &&& b.1 <= bits
            &&& aligned(b.0, b.1)
            &&& block_last(b.0, b.1) <= end
        } by {
            if i > 0 {
                assert(bs[i] == rest[i - 1]);
            }
        }
    }
}

/// The blocks of canonical intervals cover exactly the intervals' addresses.
pub proof fn lemma_spans_blocks(spans: Seq<Range>, max: int, bits: nat)
    requires
        canonical(spans, max),
    ensures
        blocks_set(spans_blocks(spans, bits)) == addresses(spans),
        forall|i: int|
            0 <= i < spans_blocks(spans, bits).len() ==> {
                let b = #[trigger] spans_blocks(spans, bits)[i];
                &&& 0 <= b.0
                &&& b.1 <= bits
                &&& aligned(b.0, b.1)
                &&& block_last(b.0, b.1) <= max
            },
    decreases spans.len(),
{
    if spans.len() == 0 {
        assert(addresses(spans) =~= Set::empty());
        assert(spans_blocks(spans, bits) =~= seq![]);
    } else {
        let r = spans[0];
        let rest = spans.skip(1);
        crate::ranges::lemma_canonical_suffix(spans, max);
        lemma_spans_blocks(rest, max, bits);
        lemma_interval_blocks(r.start as int, r.end as int, bits);
        let first = interval_blocks(r.start as int, r.end as int, bits);
        let tail = spans_blocks(rest, bits);
        lemma_blocks_set_concat(first, tail);
        assert forall|a: int| addresses(spans).contains(a) <==> blocks_set(spans_blocks(spans, bits)).contains(a) by {
            lemma_covers_take_skip(spans, 1, a);
            assert(spans.take(1) =~= seq![r]);
            if covers(seq![r], a) {
                let i = choose|i: int| 0 <= i < 1 && in_range(#[trigger] seq![r][i], a);
                assert(seq![r][i] == r);
            }
            if in_range(r, a) {
                assert(seq![r][0] == r);
            }
        }
        assert(blocks_set(spans_blocks(spans, bits)) =~= addresses(spans));
        let all = spans_blocks(spans, bits);
        assert(all == first + tail);
        assert forall|i: int| 0 <= i < all.len() implies {
            let b = #[trigger] all[i];
            &&& 0 <= b.0
            &&& b.1 <= bits
            &&& aligned(b.0, b.1)
            &&& block_last(b.0, b.1) <= max
        } by {
            if i < first.len() {
                assert(all[i] == first[i]);
            } else {
                assert(all[i] == tail[i - first.len()]);
            }
        }
    }
}

/// The lines of the text of good blocks are the blocks' prefixes.
pub proof fn lemma_blocks_text_lines(family: IpFamily, blocks: Seq<(int, nat)>)
    requires
        forall|i: int| 0 <= i < blocks.len() ==> good_block(family, #[trigger] blocks[i]),
    ensures
        lines(blocks_text(family, blocks)) == Seq::new(
            blocks.len(),
            |i: int| prefix_text(family, blocks[i].0, blocks[i].1),
        ),
    decreases blocks.len(),
{
    if blocks.len() == 0 {
        assert(blocks_text(family, blocks) =~= seq![]);
        assert(lines(blocks_text(family, blocks)) =~= Seq::new(
            blocks.len(),
            |i: int| prefix_text(family, blocks[i].0, blocks[i].1),
        ));
    } else {
        let b = blocks[0];
        let pt = prefix_text(family, b.0, b.1);
        assert(good_block(family, b));
        let rest = blocks.skip(1);
        assert forall|i: int| 0 <= i < rest.len() implies good_block(family, #[trigger] rest[i]) by {
            assert(rest[i] == blocks[i + 1]);
        }
        lemma_blocks_text_lines(family, rest);
        let rest_text = blocks_text(family, rest);
        let s = blocks_text(family, blocks);
        assert(s == pt + seq!['\n'] + rest_text);
        assert forall|i: int| 0 <= i < pt.len() implies s[i] != '\n' by {
            assert(s[i] == pt[i]);
            assert(is_prefix_char(pt[i]));
        }
        assert(s[pt.len() as int] == '\n');
        lemma_line_len(s, pt.len() as int);
        assert(s.take(pt.len() as int) =~= pt);
        assert(is_prefix_char(pt.last()));
        assert(strip_cr(pt) == pt);
        assert(s.skip(pt.len() + 1 as int) =~= rest_text);
        assert(lines(s) == seq![pt] + lines(rest_text));
        assert(lines(s) =~= Seq::new(
            blocks.len(),
            |i: int| prefix_text(family, blocks[i].0, blocks[i].1),
        ));
    }
}

proof fn lemma_trim_start_noop(s: Seq<char>)
    requires
        s.len() > 0,
        !is_white_space(s[0]),
    ensures
        trim_start(s) == s,
{
}

proof fn lemma_trim_end_noop(s: Seq<char>)
    requires
        s.len() > 0,
        !is_white_space(s.last()),
    ensures
        trim_end(s) == s,
{
}

/// A displayed prefix, read as a line of a prefix list of its family, adds
/// exactly its block.
pub proof fn lemma_good_block_line(family: IpFamily, block: (int, nat), index: int)
    requires
        good_block(family, block),
    ensures
        cidr_line_effect(prefix_text(family, block.0, block.1), index, family) == LineEffect::Add(
            block_cidr(family, block),
        ),
        range_set(cidr_range(block_cidr(family, block))) == block_set(block),
{
    let pt = prefix_text(family, block.0, block.1);
    assert(is_prefix_char(pt[0]));
    assert(is_prefix_char(pt.last()));
    assert(strip_bom(pt) == pt);
    lemma_trim_start_noop(pt);
    lemma_trim_end_noop(pt);
    assert(trim(pt) == pt);
    let bits = family.bit_width();
    assert((bits - ((bits - block.1) as u8)) as nat == block.1);
    assert(network_of(pt, family) == Ok::<Cidr, crate::prefix::PrefixFault>(block_cidr(family, block)));
    let c = block_cidr(family, block);
    assert(c.address as int == block.0);
    assert((family.bit_width() - c.prefix_len) as nat == block.1);
    assert(cidr_range(c).start as int == block.0);
    lemma_pow2_pos(block.1);
    assert(0 <= block_last(block.0, block.1) <= 0xffff_ffff_ffff_ffff_ffff_ffff_ffff_ffff);
    assert(cidr_range(c).end as int == block_last(block.0, block.1));
    assert(range_set(cidr_range(c)) =~= block_set(block));
}

/// Reading the text of good blocks as a prefix list adds the blocks one
/// after the other.
pub proof fn lemma_blocks_text_reads_back(family: IpFamily, blocks: Seq<(int, nat)>)
    requires
        forall|i: int| 0 <= i < blocks.len() ==> good_block(family, #[trigger] blocks[i]),
    ensures
        apply_effects(cidr_effects(blocks_text(family, blocks), family)) == Ok::<
            Set<int>,
            (int, crate::prefix::PrefixFault),
        >(blocks_set(blocks)),
{
    lemma_blocks_text_lines(family, blocks);
    let text = blocks_text(family, blocks);
    let effects = cidr_effects(text, family);
    assert(effects.len() == blocks.len());
    assert forall|i: int| 0 <= i < effects.len() implies #[trigger] effects[i] == LineEffect::Add(
        block_cidr(family, blocks[i]),
    ) by {
        assert(lines(text)[i] == prefix_text(family, blocks[i].0, blocks[i].1));
        lemma_good_block_line(family, blocks[i], i);
    }
    lemma_apply_adds(family, blocks, effects);
}

proof fn lemma_apply_adds(family: IpFamily, blocks: Seq<(int, nat)>, effects: Seq<LineEffect>)
    requires
        forall|i: int| 0 <= i < blocks.len() ==> good_block(family, #[trigger] blocks[i]),
        effects.len() == blocks.len(),
        forall|i: int| 0 <= i < effects.len() ==> #[trigger] effects[i] == LineEffect::Add(
            block_cidr(family, blocks[i]),
        ),
    ensures
        apply_effects(effects) == Ok::<Set<int>, (int, crate::prefix::PrefixFault)>(
            blocks_set(blocks),
        ),
    decreases blocks.len(),
{
    if blocks.len() == 0 {
        assert(blocks_set(blocks) =~= Set::empty());
    } else {
        let n = blocks.len() - 1;
        let front = blocks.drop_last();
        assert forall|i: int| 0 <= i < front.len() implies good_block(family, #[trigger] front[i]) by {
            assert(front[i] == blocks[i]);
        }
        assert forall|i: int| 0 <= i < effects.drop_last().len() implies #[trigger] effects.drop_last()[i]
            == LineEffect::Add(block_cidr(family, front[i])) by {
            assert(effects.drop_last()[i] == effects[i]);
            assert(front[i] == blocks[i]);
        }
        lemma_apply_adds(family, front, effects.drop_last());
        assert(effects.last() == LineEffect::Add(block_cidr(family, blocks[n])));
        lemma_good_block_line(family, blocks[n], n);
        assert(blocks =~= front + seq![blocks[n]]);
        lemma_blocks_set_concat(front, seq![blocks[n]]);
        assert(seq![blocks[n]].skip(1) =~= seq![]);
        assert(seq![blocks[n]][0] == blocks[n]);
        assert(blocks_set(seq![blocks[n]].skip(1)) =~= Set::empty());
        assert(blocks_set(seq![blocks[n]]) =~= block_set(blocks[n]));
    }
}

} // verus!
