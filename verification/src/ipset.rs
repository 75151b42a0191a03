//! Sets of IPv4 or IPv6 addresses, held as canonical interval lists, with
//! the set operations, the prefix-list and rule-file readers and the
//! minimal prefix text.

use crate::blocks::{
    aligned, block_end, interval_blocks, largest_block, lemma_largest_fit_fits,
    lemma_pow2_128,
};
use crate::family::{IpAddress, IpFamily};
use crate::prefix::{
    cidr_range, format_prefix, network_of, network_range, parse_network,
    prefix_text, valid_cidr, Cidr, PrefixFault,
};
use crate::ranges::{
    addresses, canonical, covers, in_range, insert_range, lemma_canonical_unique, normalize,
    ranges_contain, ranges_intersect, subtract_ranges, Range,
};
use crate::text::{
    is_white_space, lines, split_lines, str_chars, strip_bom, strip_bom_chars, trim, trim_chars,
};
use crate::text_form::{good_block, lemma_blocks_text_lines, lemma_blocks_text_reads_back, lemma_spans_blocks};
use vstd::arithmetic::power2::{lemma_pow2_pos, pow2};
use vstd::prelude::*;

verus! {

/// Why building or combining address sets failed.
#[derive(Clone, Debug, Eq, PartialEq)]
pub enum IpSetError {
    /// Line `line` (counted from 1) of the input named `label` is refused.
    Line { label: String, line: usize, fault: PrefixFault },
    /// An IPv4 set and an IPv6 set were combined.
    MixedFamilies,
    /// A prefix of one family was offered to a set of the other.
    PrefixFamily { set: IpFamily, prefix: IpFamily },
}

/// A set of addresses of one family.
#[derive(Clone, Debug, Eq, PartialEq)]
pub struct IpSet {
    family: IpFamily,
    ranges: Vec<Range>,
}

impl View for IpSet {
    type V = (IpFamily, Set<int>);

    closed spec fn view(&self) -> (IpFamily, Set<int>) {
        (self.family, addresses(self.ranges@))
    }
}

/// The addresses of an interval.
pub open spec fn range_set(r: Range) -> Set<int> {
    Set::new(|a: int| in_range(r, a))
}

/// Every address of a family.
pub open spec fn universe_set(family: IpFamily) -> Set<int> {
    Set::new(|a: int| 0 <= a <= family.max_address())
}

/// What a line of an input does to the set being built.
pub enum LineEffect {
    Skip,
    Add(Cidr),
    Remove(Cidr),
    Fail(PrefixFault),
}

/// A line of a plain prefix list: blank lines are skipped, a comment or an
/// exclusion rule is refused, anything else must be a prefix of the family.
/// The first line may begin with byte order marks.
pub open spec fn cidr_line_effect(line: Seq<char>, index: int, family: IpFamily) -> LineEffect {
    let t = trim(
        if index == 0 {
            strip_bom(line)
        } else {
            line
        },
    );
    if t.len() == 0 {
        LineEffect::Skip
    } else if t[0] == '#' || t[0] == '!' {
        LineEffect::Fail(PrefixFault::NotPlainCidr)
    } else {
        match network_of(t, family) {
            Ok(cidr) => LineEffect::Add(cidr),
            Err(fault) => LineEffect::Fail(fault),
        }
    }
}

/// A line of a rule file: blank lines and `#` comments are skipped, `!CIDR`
/// removes a prefix, a bare prefix adds one.
pub open spec fn rule_line_effect(line: Seq<char>, family: IpFamily) -> LineEffect {
    let t = trim(line);
    if t.len() == 0 || t[0] == '#' {
        LineEffect::Skip
    } else {
        let remove = t[0] == '!';
        let cidr = if remove {
            t.drop_first()
        } else {
            t
        };
        if cidr.len() == 0 || is_white_space(cidr[0]) {
            LineEffect::Fail(PrefixFault::InvalidRule)
        } else {
            match network_of(cidr, family) {
                Ok(c) => if remove {
                    LineEffect::Remove(c)
                } else {
                    LineEffect::Add(c)
                },
                Err(fault) => LineEffect::Fail(fault),
            }
        }
    }
}

/// The effects of the lines of a plain prefix list, in order.
pub open spec fn cidr_effects(input: Seq<char>, family: IpFamily) -> Seq<LineEffect> {
    Seq::new(lines(input).len(), |i: int| cidr_line_effect(lines(input)[i], i, family))
}

/// The effects of the lines of a rule file, in order.
pub open spec fn rule_effects(input: Seq<char>, family: IpFamily) -> Seq<LineEffect> {
    Seq::new(lines(input).len(), |i: int| rule_line_effect(lines(input)[i], family))
}

proof fn lemma_cr_line_effects(line: Seq<char>, index: int, family: IpFamily)
    ensures
        cidr_line_effect(crate::text::strip_cr(line), index, family) == cidr_line_effect(line, index, family),
        rule_line_effect(crate::text::strip_cr(line), family) == rule_line_effect(line, family),
{
    if line.len() > 0 && line.last() == '\r' {
        assert(is_white_space('\r'));
        crate::text::lemma_trim_drop_white(line);
        crate::text::lemma_strip_bom_drop_last(line);
        crate::text::lemma_trim_drop_white(strip_bom(line));
    }
}

/// A prefix list or rule file reads the same with or without a line break
/// after its last line.
pub proof fn lemma_final_break_optional(input: Seq<char>, family: IpFamily)
    requires
        input.len() > 0,
        input.last() != '\n',
    ensures
        apply_effects(cidr_effects(input.push('\n'), family)) == apply_effects(cidr_effects(input, family)),
        apply_effects(rule_effects(input.push('\n'), family)) == apply_effects(rule_effects(input, family)),
{
    crate::text::lemma_final_break(input);
    let x = lines(input);
    let y = lines(input.push('\n'));
    let n = x.len() - 1;
    lemma_cr_line_effects(x[n], n, family);
    assert(y[n] == crate::text::strip_cr(x[n]));
    assert(cidr_effects(input.push('\n'), family) =~= cidr_effects(input, family)) by {
        assert forall|i: int| 0 <= i < x.len() implies cidr_line_effect(y[i], i, family) == cidr_line_effect(
            x[i],
            i,
            family,
        ) by {
            if i < n {
                assert(y[i] == x[i]);
            }
        }
    }
    assert(rule_effects(input.push('\n'), family) =~= rule_effects(input, family)) by {
        assert forall|i: int| 0 <= i < x.len() implies rule_line_effect(y[i], family) == rule_line_effect(
            x[i],
            family,
        ) by {
            if i < n {
                assert(y[i] == x[i]);
            }
        }
    }
}

/// Applies line effects in order to the empty set: the resulting addresses,
/// or the index of the first refused line and why it was refused.
pub open spec fn apply_effects(effects: Seq<LineEffect>) -> Result<Set<int>, (int, PrefixFault)>
    decreases effects.len(),
{
    if effects.len() == 0 {
        Ok(Set::empty())
    } else {
        match apply_effects(effects.drop_last()) {
            Err(e) => Err(e),
            Ok(acc) => match effects.last() {
                LineEffect::Skip => Ok(acc),
                LineEffect::Add(c) => Ok(acc.union(range_set(cidr_range(c)))),
                LineEffect::Remove(c) => Ok(acc.difference(range_set(cidr_range(c)))),
                LineEffect::Fail(fault) => Err((effects.len() - 1, fault)),
            },
        }
    }
}

/// The line of text for the block of `2^host` addresses at `start`.
pub open spec fn block_line(family: IpFamily, block: (int, nat)) -> Seq<char> {
    prefix_text(family, block.0, block.1) + seq!['\n']
}

/// The lines for a sequence of blocks.
pub open spec fn blocks_text(family: IpFamily, blocks: Seq<(int, nat)>) -> Seq<char>
    decreases blocks.len(),
{
    if blocks.len() == 0 {
        seq![]
    } else {
        block_line(family, blocks[0]) + blocks_text(family, blocks.skip(1))
    }
}

/// The largest-block decompositions of the intervals, one after the other.
pub open spec fn spans_blocks(spans: Seq<Range>, bits: nat) -> Seq<(int, nat)>
    decreases spans.len(),
{
    if spans.len() == 0 {
        seq![]
    } else {
        interval_blocks(spans[0].start as int, spans[0].end as int, bits) + spans_blocks(
            spans.skip(1),
            bits,
        )
    }
}

/// The text form of the canonical intervals of a set: one prefix per line,
/// in address order, each interval split into the largest aligned blocks.
pub open spec fn set_text(family: IpFamily, spans: Seq<Range>) -> Seq<char> {
    blocks_text(family, spans_blocks(spans, family.bit_width()))
}

/// The canonical intervals of an address set of the family: sorted,
/// neither overlapping nor adjacent, and holding exactly `addrs`.
pub open spec fn canonical_spans(family: IpFamily, addrs: Set<int>) -> Seq<Range> {
    choose|spans: Seq<Range>| canonical(spans, family.max_address()) && addresses(spans) == addrs
}

/// The text form of an address set of the family.
pub open spec fn canonical_text(family: IpFamily, addrs: Set<int>) -> Seq<char> {
    set_text(family, canonical_spans(family, addrs))
}

/// Once a prefix of the lines is refused, so is the whole input, at the
/// same line.
proof fn lemma_apply_effects_error(effects: Seq<LineEffect>, k: int)
    requires
        0 <= k <= effects.len(),
        apply_effects(effects.take(k)) is Err,
    ensures
        apply_effects(effects) == apply_effects(effects.take(k)),
    decreases effects.len() - k,
{
    if k < effects.len() {
        assert(effects.take(k + 1).drop_last() =~= effects.take(k));
        lemma_apply_effects_error(effects, k + 1);
    } else {
        assert(effects.take(k) =~= effects);
    }
}

proof fn lemma_blocks_text_concat(family: IpFamily, x: Seq<(int, nat)>, y: Seq<(int, nat)>)
    ensures
        blocks_text(family, x + y) == blocks_text(family, x) + blocks_text(family, y),
    decreases x.len(),
{
    if x.len() == 0 {
        assert(x + y =~= y);
        assert(blocks_text(family, x) =~= seq![]);
    } else {
        assert((x + y).skip(1) =~= x.skip(1) + y);
        assert((x + y)[0] == x[0]);
        lemma_blocks_text_concat(family, x.skip(1), y);
    }
}

impl IpSet {
    /// The set's intervals are canonical for its family.
    pub closed spec fn wf(&self) -> bool {
        canonical(self.ranges@, self.family.max_address())
    }

    /// The canonical intervals of the set, lowest first.
    pub closed spec fn spans(&self) -> Seq<Range> {
        self.ranges@
    }

    /// What the closed views of a set say about each other.
    pub proof fn lemma_view(&self)
        requires
            self.wf(),
        ensures
            canonical(self.spans(), self@.0.max_address()),
            self@.1 == addresses(self.spans()),
            forall|a: int| self@.1.contains(a) ==> 0 <= a <= self@.0.max_address(),
    {
        assert forall|a: int| self@.1.contains(a) implies 0 <= a <= self@.0.max_address() by {
            let i = choose|i: int| 0 <= i < self.ranges@.len() && in_range(#[trigger] self.ranges@[i], a);
        }
    }

    /// The set's intervals are the canonical intervals of its addresses,
    /// so its text form is the text form of its addresses.
    pub proof fn lemma_spans_canonical(&self)
        requires
            self.wf(),
        ensures
            self.spans() == canonical_spans(self@.0, self@.1),
            set_text(self@.0, self.spans()) == canonical_text(self@.0, self@.1),
    {
        let max = self.family.max_address();
        let spans = canonical_spans(self@.0, self@.1);
        assert(canonical(self.ranges@, max) && addresses(self.ranges@) == self@.1);
        assert(canonical(spans, max) && addresses(spans) == self@.1);
        assert forall|a: int| covers(spans, a) <==> covers(self.ranges@, a) by {
            assert(addresses(spans).contains(a) == covers(spans, a));
            assert(addresses(self.ranges@).contains(a) == covers(self.ranges@, a));
        }
        lemma_canonical_unique(spans, self.ranges@, max);
    }

    /// The empty set of a family.
    pub fn empty(family: IpFamily) -> (set: Self)
        ensures
            set.wf(),
            set@ == (family, Set::<int>::empty()),
    {
        let set = IpSet { family, ranges: Vec::new() };
        proof {
            assert(set@.1 =~= Set::<int>::empty());
        }
        set
    }

    /// Every address of a family.
    pub fn universe(family: IpFamily) -> (set: Self)
        ensures
            set.wf(),
            set@ == (family, universe_set(family)),
    {
        let end: u128 = match family {
            IpFamily::V4 => 0xffff_ffff,
            IpFamily::V6 => u128::MAX,
        };
        let mut ranges: Vec<Range> = Vec::new();
        ranges.push(Range { start: 0, end });
        let set = IpSet { family, ranges };
        proof {
            assert forall|a: int| set@.1.contains(a) <==> universe_set(family).contains(a) by {
                if 0 <= a <= family.max_address() {
                    assert(in_range(set.ranges@[0], a));
                }
            }
            assert(set@.1 =~= universe_set(family));
        }
        set
    }

    fn require_same_family(&self, other: &Self) -> (res: Result<(), IpSetError>)
        ensures
            res is Ok <==> self@.0 == other@.0,
            res matches Err(e) ==> e == IpSetError::MixedFamilies,
    {
        if self.family != other.family {
            return Err(IpSetError::MixedFamilies);
        }
        Ok(())
    }

    fn require_network_family(&self, network: Cidr) -> (res: Result<(), IpSetError>)
        ensures
            res is Ok <==> self@.0 == network.family,
            res matches Err(e) ==> e == (IpSetError::PrefixFamily {
                set: self@.0,
                prefix: network.family,
            }),
    {
        if self.family != network.family {
            return Err(IpSetError::PrefixFamily { set: self.family, prefix: network.family });
        }
        Ok(())
    }

    /// The set with every address of `other` added; the two sets must be of
    /// one family.
    pub fn union(&self, other: &Self) -> (res: Result<Self, IpSetError>)
        requires
            self.wf(),
            other.wf(),
        ensures
            self@.0 == other@.0 ==> (res matches Ok(set) && set.wf() && set@ == (
                self@.0,
                self@.1.union(other@.1),
            )),
            self@.0 != other@.0 ==> res == Err::<Self, IpSetError>(IpSetError::MixedFamilies),
    {
        self.require_same_family(other)?;
        let mut ranges: Vec<Range> = Vec::new();
        let mut i: usize = 0;
        while i < self.ranges.len()
            invariant
                0 <= i <= self.ranges.len(),
                ranges@ == self.ranges@.take(i as int),
            decreases self.ranges.len() - i,
        {
            ranges.push(self.ranges[i]);
            i = i + 1;
            assert(ranges@ =~= self.ranges@.take(i as int));
        }
        let mut j: usize = 0;
        while j < other.ranges.len()
            invariant
                0 <= j <= other.ranges.len(),
                ranges@ == self.ranges@ + other.ranges@.take(j as int),
            decreases other.ranges.len() - j,
        {
            ranges.push(other.ranges[j]);
            j = j + 1;
            assert(ranges@ =~= self.ranges@ + other.ranges@.take(j as int));
        }
        let ghost max = self.family.max_address();
        proof {
            assert(self.ranges@.take(self.ranges@.len() as int) =~= self.ranges@);
            assert(other.ranges@.take(other.ranges@.len() as int) =~= other.ranges@);
            assert forall|k: int| 0 <= k < ranges@.len() implies #[trigger] ranges@[k].start
                <= ranges@[k].end <= max by {
                if k >= self.ranges@.len() {
                    assert(ranges@[k] == other.ranges@[k - self.ranges@.len()]);
                }
            }
        }
        let merged = normalize(ranges, Ghost(max));
        let set = IpSet { family: self.family, ranges: merged };
        proof {
            assert forall|a: int| set@.1.contains(a) <==> self@.1.union(other@.1).contains(a) by {
                crate::ranges::lemma_covers_concat(self.ranges@, other.ranges@, a);
            }
            assert(set@.1 =~= self@.1.union(other@.1));
        }
        Ok(set)
    }

    /// The set without the addresses of `other`; the two sets must be of one
    /// family.
    pub fn subtract(&self, other: &Self) -> (res: Result<Self, IpSetError>)
        requires
            self.wf(),
            other.wf(),
        ensures
            self@.0 == other@.0 ==> (res matches Ok(set) && set.wf() && set@ == (
                self@.0,
                self@.1.difference(other@.1),
            )),
            self@.0 != other@.0 ==> res == Err::<Self, IpSetError>(IpSetError::MixedFamilies),
    {
        self.require_same_family(other)?;
        let ranges = subtract_ranges(&self.ranges, &other.ranges, Ghost(self.family.max_address()));
        let set = IpSet { family: self.family, ranges };
        proof {
            assert(set@.1 =~= self@.1.difference(other@.1));
        }
        Ok(set)
    }

    /// Whether the sets share an address; the two sets must be of one
    /// family.
    pub fn intersects(&self, other: &Self) -> (res: Result<bool, IpSetError>)
        requires
            self.wf(),
            other.wf(),
        ensures
            self@.0 == other@.0 ==> res == Ok::<bool, IpSetError>(
                !self@.1.disjoint(other@.1),
            ),
            self@.0 != other@.0 ==> res == Err::<bool, IpSetError>(IpSetError::MixedFamilies),
    {
        self.require_same_family(other)?;
        let found = ranges_intersect(&self.ranges, &other.ranges, Ghost(self.family.max_address()));
        proof {
            if found {
                let a = choose|a: int| covers(self.ranges@, a) && covers(other.ranges@, a);
                assert(self@.1.contains(a) && other@.1.contains(a));
            } else {
                assert forall|a: int| !(self@.1.contains(a) && other@.1.contains(a)) by {
                }
            }
        }
        Ok(found)
    }

    /// Whether the address is in the set; an address of the other family
    /// never is.
    pub fn contains(&self, address: IpAddress) -> (res: bool)
        requires
            self.wf(),
        ensures
            res == match address {
                IpAddress::V4(a) => self@.0 == IpFamily::V4 && self@.1.contains(a as int),
                IpAddress::V6(a) => self@.0 == IpFamily::V6 && self@.1.contains(a as int),
            },
    {
        let value: u128 = match (self.family, address) {
            (IpFamily::V4, IpAddress::V4(a)) => a as u128,
            (IpFamily::V6, IpAddress::V6(a)) => a,
            _ => return false,
        };
        ranges_contain(&self.ranges, value, Ghost(self.family.max_address()))
    }

    /// Reads a plain list of prefixes of one family, one per line. Blank
    /// lines are skipped, white space around a prefix and byte order marks
    /// at the start are ignored; a comment, an exclusion rule, text that is
    /// not a prefix, a prefix of the other family and a prefix with host bits
    /// set are refused, naming the first such line.
    pub fn parse_cidrs(input: &str, family: IpFamily, label: &str) -> (res: Result<Self, IpSetError>)
        ensures
            match apply_effects(cidr_effects(input@, family)) {
                Ok(addrs) => res matches Ok(set) && set.wf() && set@ == (family, addrs),
                Err((index, fault)) => res matches Err(IpSetError::Line { label: l, line, fault: f })
                    && l@ == label@ && line == index + 1 && f == fault,
            },
    {
        let chars = str_chars(input);
        let input_lines = split_lines(&chars);
        let ghost effects = cidr_effects(input@, family);
        let mut set = IpSet::empty(family);
        let mut index: usize = 0;
        proof {
            assert(effects.take(0) =~= seq![]);
        }
        while index < input_lines.len()
            invariant
                0 <= index <= input_lines.len(),
                input_lines@.len() == lines(input@).len(),
                chars@ == input@,
                forall|i: int| 0 <= i < input_lines@.len() ==> #[trigger] input_lines@[i]@ == lines(input@)[i],
                effects == cidr_effects(input@, family),
                set.wf(),
                set@.0 == family,
                apply_effects(effects.take(index as int)) == Ok::<Set<int>, (int, PrefixFault)>(set@.1),
            decreases input_lines.len() - index,
        {
            let raw = &input_lines[index];
            let line = if index == 0 {
                let stripped = strip_bom_chars(raw.as_slice());
                trim_chars(stripped.as_slice())
            } else {
                trim_chars(raw.as_slice())
            };
            let ghost effect = effects[index as int];
            proof {
                assert(effect == cidr_line_effect(lines(input@)[index as int], index as int, family));
                assert(effects.take(index + 1).drop_last() =~= effects.take(index as int));
                assert(effects.take(index + 1).last() == effect);
            }
            if line.len() == 0 {
                index = index + 1;
                continue;
            }
            if line[0] == '#' || line[0] == '!' {
                proof {
                    lemma_apply_effects_error(effects, index + 1);
                }
                return Err(IpSetError::Line { label: label.to_owned(), line: index + 1, fault: PrefixFault::NotPlainCidr });
            }
            let network = match parse_network(line.as_slice(), family) {
                Ok(network) => network,
                Err(fault) => {
                    proof {
                        lemma_apply_effects_error(effects, index + 1);
                    }
                    return Err(IpSetError::Line { label: label.to_owned(), line: index + 1, fault });
                },
            };
            let ghost before = set@.1;
            match set.add_network(network) {
                Ok(()) => {},
                Err(e) => {
                    return Err(e);
                },
            }
            index = index + 1;
        }
        proof {
            assert(effects.take(index as int) =~= effects);
        }
        Ok(set)
    }

    /// Reads a rule file of one family. Rules apply in order: blank lines
    /// and `#` comments are skipped, a prefix adds its addresses, `!` with a
    /// prefix right after it removes them. A rule that is not of that form,
    /// or whose prefix is refused, is reported with its line.
    pub fn parse_rules(input: &str, family: IpFamily, label: &str) -> (res: Result<Self, IpSetError>)
        ensures
            match apply_effects(rule_effects(input@, family)) {
                Ok(addrs) => res matches Ok(set) && set.wf() && set@ == (family, addrs),
                Err((index, fault)) => res matches Err(IpSetError::Line { label: l, line, fault: f })
                    && l@ == label@ && line == index + 1 && f == fault,
            },
    {
        let chars = str_chars(input);
        let input_lines = split_lines(&chars);
        let ghost effects = rule_effects(input@, family);
        let mut set = IpSet::empty(family);
        let mut index: usize = 0;
        proof {
            assert(effects.take(0) =~= seq![]);
        }
        while index < input_lines.len()
            invariant
                0 <= index <= input_lines.len(),
                input_lines@.len() == lines(input@).len(),
                chars@ == input@,
                forall|i: int| 0 <= i < input_lines@.len() ==> #[trigger] input_lines@[i]@ == lines(input@)[i],
                effects == rule_effects(input@, family),
                set.wf(),
                set@.0 == family,
                apply_effects(effects.take(index as int)) == Ok::<Set<int>, (int, PrefixFault)>(set@.1),
            decreases input_lines.len() - index,
        {
            let line = trim_chars(input_lines[index].as_slice());
            let ghost effect = effects[index as int];
            proof {
                assert(effect == rule_line_effect(lines(input@)[index as int], family));
                assert(effects.take(index + 1).drop_last() =~= effects.take(index as int));
                assert(effects.take(index + 1).last() == effect);
            }
            if line.len() == 0 || line[0] == '#' {
                index = index + 1;
                continue;
            }
            let remove = line[0] == '!';
            let mut cidr: Vec<char> = Vec::new();
            let mut j: usize = if remove {
                1
            } else {
                0
            };
            let skip = j;
            while j < line.len()
                invariant
                    skip <= j <= line.len(),
                    skip == 0 || skip == 1,
                    cidr@ == line@.subrange(skip as int, j as int),
                decreases line.len() - j,
            {
                cidr.push(line[j]);
                j = j + 1;
                assert(cidr@ =~= line@.subrange(skip as int, j as int));
            }
            proof {
                if remove {
                    assert(cidr@ =~= line@.drop_first());
                } else {
                    assert(cidr@ =~= line@);
                }
            }
            if cidr.len() == 0 || crate::text::char_is_whitespace(cidr[0]) {
                proof {
                    lemma_apply_effects_error(effects, index + 1);
                }
                return Err(IpSetError::Line { label: label.to_owned(), line: index + 1, fault: PrefixFault::InvalidRule });
            }
            let network = match parse_network(cidr.as_slice(), family) {
                Ok(network) => network,
                Err(fault) => {
                    proof {
                        lemma_apply_effects_error(effects, index + 1);
                    }
                    return Err(IpSetError::Line { label: label.to_owned(), line: index + 1, fault });
                },
            };
            if remove {
                match set.remove_network(network) {
                    Ok(()) => {},
                    Err(e) => {
                        return Err(e);
                    },
                }
            } else {
                match set.add_network(network) {
                    Ok(()) => {},
                    Err(e) => {
                        return Err(e);
                    },
                }
            }
            index = index + 1;
        }
        proof {
            assert(effects.take(index as int) =~= effects);
        }
        Ok(set)
    }

    /// The set as text: one prefix per line, in address order, each maximal
    /// interval of the set split into the largest aligned blocks. Read back
    /// as a prefix list, the text gives the same addresses, one line per
    /// block.
    pub fn to_text(&self) -> (res: Result<String, IpSetError>)
        requires
            self.wf(),
        ensures
            res matches Ok(text) && text@ == set_text(self@.0, self.spans()),
            res matches Ok(text) && text@ == canonical_text(self@.0, self@.1),
            res matches Ok(text) && apply_effects(cidr_effects(text@, self@.0)) == Ok::<
                Set<int>,
                (int, PrefixFault),
            >(self@.1),
            res matches Ok(text) && lines(text@).len() == spans_blocks(
                self.spans(),
                self@.0.bit_width(),
            ).len(),
    {
        let family = self.family;
        let bits = family.bits();
        let ghost max = family.max_address();
        let ghost spans = self.ranges@;
        let ghost all_blocks = spans_blocks(spans, bits as nat);
        let ghost total = set_text(family, spans);
        let ghost mut emitted: Seq<(int, nat)> = seq![];
        let mut output = String::new();
        let mut k: usize = 0;
        proof {
            lemma_pow2_128();
            assert(spans.skip(0) =~= spans);
            assert(output@ + blocks_text(family, spans_blocks(spans.skip(0), bits as nat)) =~= total);
            assert(emitted + spans_blocks(spans.skip(0), bits as nat) =~= all_blocks);
        }
        while k < self.ranges.len()
            invariant
                0 <= k <= self.ranges.len(),
                spans == self.ranges@,
                canonical(spans, max),
                max == family.max_address(),
                bits as nat == family.bit_width(),
                family == self.family,
                total == set_text(family, spans),
                all_blocks == spans_blocks(spans, bits as nat),
                pow2(bits as nat) == max + 1,
                output@ + blocks_text(family, spans_blocks(spans.skip(k as int), bits as nat)) == total,
                emitted + spans_blocks(spans.skip(k as int), bits as nat) == all_blocks,
                forall|i: int| 0 <= i < emitted.len() ==> good_block(family, #[trigger] emitted[i]),
            decreases self.ranges.len() - k,
        {
            let range = self.ranges[k];
            let ghost rest_blocks = spans_blocks(spans.skip(k + 1), bits as nat);
            let ghost rest = blocks_text(family, rest_blocks);
            proof {
                assert(spans.skip(k as int)[0] == range);
                assert(spans.skip(k as int).skip(1) =~= spans.skip(k + 1));
                lemma_blocks_text_concat(
                    family,
                    interval_blocks(range.start as int, range.end as int, bits as nat),
                    rest_blocks,
                );
                assert(range.start <= range.end <= max);
                assert(emitted + (interval_blocks(range.start as int, range.end as int, bits as nat)
                    + rest_blocks) == all_blocks);
            }
            let mut start = range.start;
            loop
                invariant_except_break
                    output@ + blocks_text(family, interval_blocks(start as int, range.end as int, bits as nat))
                        + rest == total,
                    emitted + (interval_blocks(start as int, range.end as int, bits as nat) + rest_blocks)
                        == all_blocks,
                invariant
                    range.start <= start <= range.end,
                    range.end <= max,
                    max == family.max_address(),
                    bits as nat == family.bit_width(),
                    pow2(bits as nat) == max + 1,
                    forall|i: int| 0 <= i < emitted.len() ==> good_block(family, #[trigger] emitted[i]),
                ensures
                    output@ + rest == total,
                    emitted + rest_blocks == all_blocks,
                decreases range.end - start,
            {
                let host = largest_block(start, range.end, bits);
                proof {
                    lemma_largest_fit_fits(start as int, range.end as int, bits as nat);
                    lemma_pow2_pos(host as nat);
                }
                let end = block_end(start, host);
                let piece = format_prefix(family, start, host);
                let ghost before = output@;
                let ghost before_emitted = emitted;
                output.append(piece.as_str());
                proof {
                    reveal_strlit("\n");
                }
                output.append("\n");
                proof {
                    let block = (start as int, host as nat);
                    assert(good_block(family, block));
                    emitted = emitted.push(block);
                    assert forall|i: int| 0 <= i < emitted.len() implies good_block(family, #[trigger] emitted[i]) by {
                        if i < before_emitted.len() {
                            assert(emitted[i] == before_emitted[i]);
                        }
                    }
                    let blocks = interval_blocks(start as int, range.end as int, bits as nat);
                    let tail = if end >= range.end {
                        Seq::<(int, nat)>::empty()
                    } else {
                        interval_blocks(end + 1, range.end as int, bits as nat)
                    };
                    assert(blocks == seq![block] + tail);
                    assert(blocks[0] == block);
                    assert(blocks.skip(1) =~= tail);
                    assert(emitted + (tail + rest_blocks) =~= before_emitted + (blocks + rest_blocks));
                    assert(output@ =~= before + block_line(family, block));
                    assert(output@ + blocks_text(family, tail) + rest =~= before + blocks_text(family, blocks) + rest);
                    if end >= range.end {
                        assert(blocks_text(family, tail) =~= seq![]);
                        assert(output@ + rest =~= output@ + blocks_text(family, tail) + rest);
                        assert(emitted + rest_blocks =~= emitted + (tail + rest_blocks));
                    } else {
                        assert(output@ + blocks_text(family, interval_blocks(end + 1, range.end as int, bits as nat)) + rest == total);
                    }
                }
                if end == range.end {
                    break;
                }
                start = end + 1;
            }
            k = k + 1;
        }
        proof {
            assert(spans.skip(k as int) =~= seq![]);
            assert(output@ =~= total);
            assert(emitted =~= all_blocks);
            lemma_blocks_text_reads_back(family, all_blocks);
            lemma_blocks_text_lines(family, all_blocks);
            lemma_spans_blocks(spans, max, bits as nat);
            self.lemma_spans_canonical();
        }
        Ok(output)
    }

    /// The number of lines of the text form.
    pub fn prefix_count(&self) -> (res: Result<usize, IpSetError>)
        requires
            self.wf(),
        ensures
            res matches Ok(n) && n == spans_blocks(self.spans(), self@.0.bit_width()).len(),
    {
        let text = self.to_text()?;
        let chars = str_chars(text.as_str());
        let text_lines = split_lines(&chars);
        Ok(text_lines.len())
    }

    /// Adds the addresses of a prefix of the set's family.
    fn add_network(&mut self, network: Cidr) -> (res: Result<(), IpSetError>)
        requires
            old(self).wf(),
            valid_cidr(network),
        ensures
            final(self).wf(),
            old(self)@.0 == network.family ==> res is Ok && final(self)@ == (
                old(self)@.0,
                old(self)@.1.union(range_set(cidr_range(network))),
            ),
            old(self)@.0 != network.family ==> res == Err::<(), IpSetError>(
                IpSetError::PrefixFamily { set: old(self)@.0, prefix: network.family },
            ) && *final(self) == *old(self),
    {
        self.require_network_family(network)?;
        let range = network_range(network);
        let ranges = insert_range(&self.ranges, range, Ghost(self.family.max_address()));
        proof {
            assert forall|a: int| addresses(ranges@).contains(a) <==> addresses(self.ranges@).union(range_set(range)).contains(a) by {
                assert(covers(ranges@, a) <==> (covers(self.ranges@, a) || in_range(range, a)));
                assert(addresses(ranges@).contains(a) == covers(ranges@, a));
                assert(range_set(range).contains(a) == in_range(range, a));
            }
            assert(addresses(ranges@) =~= addresses(self.ranges@).union(range_set(range)));
        }
        self.ranges = ranges;
        Ok(())
    }

    /// Removes the addresses of a prefix of the set's family.
    fn remove_network(&mut self, network: Cidr) -> (res: Result<(), IpSetError>)
        requires
            old(self).wf(),
            valid_cidr(network),
        ensures
            final(self).wf(),
            old(self)@.0 == network.family ==> res is Ok && final(self)@ == (
                old(self)@.0,
                old(self)@.1.difference(range_set(cidr_range(network))),
            ),
            old(self)@.0 != network.family ==> res == Err::<(), IpSetError>(
                IpSetError::PrefixFamily { set: old(self)@.0, prefix: network.family },
            ) && *final(self) == *old(self),
    {
        self.require_network_family(network)?;
        let range = network_range(network);
        let mut removal_ranges: Vec<Range> = Vec::new();
        removal_ranges.push(range);
        let removal = IpSet { family: self.family, ranges: removal_ranges };
        proof {
            assert forall|a: int| removal@.1.contains(a) <==> range_set(range).contains(a) by {
                if in_range(range, a) {
                    assert(in_range(removal.ranges@[0], a));
                }
            }
            assert(removal@.1 =~= range_set(range));
        }
        let reduced = self.subtract(&removal)?;
        *self = reduced;
        Ok(())
    }
}

} // verus!
