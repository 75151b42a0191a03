//! Generating the route tables from a checked snapshot: the address sets of
//! each family, their text files, and the manifest of the output.

use crate::family::IpFamily;
use crate::ipset::{apply_effects, canonical_text, cidr_effects, rule_effects, universe_set, IpSet, IpSetError};
use crate::paths::{final_name, has_final_name, OutputError, OutputProbe};
use crate::prefix::PrefixFault;
use crate::source::{sha256, sha256_hex, source_family, source_file, source_name, str_eq, Snapshot, SOURCE_COUNT};
use crate::text::{lines, split_lines, str_chars, utf8_str};
use vstd::prelude::*;
use vstd::utf8::{decode_utf8, encode_utf8, valid_utf8};

verus! {

/// The schema version that outputs are written with.
pub const OUTPUT_SCHEMA_VERSION: u32 = 2;

/// The schema version of older outputs, which may be replaced too.
pub const LEGACY_OUTPUT_SCHEMA_VERSION: u32 = 1;

/// The generator named in output manifests.
pub const GENERATOR_ID: &'static str = "chnroute";

/// How many files an output holds, besides its manifest.
pub const OUTPUT_FILE_COUNT: usize = 24;

/// IPv4 private-use space (RFC 1918).
pub const PRIVATE_V4: &'static str = "# IPv4 private-use address space (RFC 1918)
10.0.0.0/8
172.16.0.0/12
192.168.0.0/16
";

/// IPv6 unique local addresses (RFC 4193).
pub const PRIVATE_V6: &'static str = "# IPv6 unique local addresses (RFC 4193)
fc00::/7
";

/// IPv4 addresses that are not ordinary public destinations, private
/// space excluded (IANA special-purpose registry, 2025-10-09).
pub const SPECIAL_V4: &'static str = "# IPv4 addresses that are neither private nor ordinary public destinations
# IANA IPv4 Special-Purpose Address Space, updated 2025-10-09
0.0.0.0/8
100.64.0.0/10
127.0.0.0/8
169.254.0.0/16
# IETF protocol assignments, except the two globally reachable anycast addresses
192.0.0.0/24
!192.0.0.9/32
!192.0.0.10/32
192.0.2.0/24
198.51.100.0/24
203.0.113.0/24
192.88.99.0/24
198.18.0.0/15
224.0.0.0/4
240.0.0.0/4
";

/// IPv6 addresses that are not ordinary public destinations, private
/// space excluded (IANA special-purpose registry, 2025-10-09).
pub const SPECIAL_V6: &'static str = "# IPv6 addresses that are neither private nor ordinary public destinations
# IANA IPv6 Special-Purpose Address Space, updated 2025-10-09
::/0
# potential global unicast space
!2000::/3
# unique local addresses are private
!fc00::/7
# globally reachable IPv4/IPv6 translation prefix
!64:ff9b::/96
# IETF protocol assignments, except the globally reachable blocks
2001::/23
!2001:1::1/128
!2001:1::2/128
!2001:1::3/128
!2001:3::/32
!2001:4:112::/48
!2001:20::/28
!2001:30::/28
# documentation
2001:db8::/32
3fff::/20
# 6to4, whose global reachability is not applicable
2002::/16
";

/// Where to read the snapshot and where to write the route tables.
#[derive(Clone, Debug)]
pub struct GenerateOptions {
    pub input: String,
    pub output: String,
}

/// What a generation produced.
#[derive(Clone, Debug)]
pub struct GenerateResult {
    pub repository: &'static str,
    pub commit: String,
    pub file_count: usize,
    pub prefix_count: usize,
    pub output: String,
}

/// Why a generation failed.
#[derive(Clone, Debug)]
pub enum GenerateError {
    /// No input directory was named.
    EmptyInput,
    /// The output path does not name a directory of its own.
    BadOutput,
    /// A built-in rule file is refused.
    Rules(IpSetError),
    /// The built-in private and special sets of the family overlap.
    Overlap(IpFamily),
    /// The snapshot lacks the named file.
    MissingSource(&'static str),
    /// The named file of the snapshot is not UTF-8.
    SourceNotUtf8(&'static str),
    /// A file of the snapshot is refused.
    Source(IpSetError),
    /// The existing output must not be replaced.
    Output(OutputError),
    /// The prefix counts add up to more than a `usize` holds.
    PrefixCountOverflow,
    /// Sets of different families were combined.
    Internal(IpSetError),
}

/// `GenerateError` over the mathematical text of its fields.
pub enum GenerateFault {
    EmptyInput,
    BadOutput,
    Rules { label: Seq<char>, line: int, fault: PrefixFault },
    Overlap(IpFamily),
    MissingSource(Seq<char>),
    SourceNotUtf8(Seq<char>),
    Source { label: Seq<char>, line: int, fault: PrefixFault },
    Output(OutputError),
    PrefixCountOverflow,
    Internal,
}

impl View for GenerateError {
    type V = GenerateFault;

    open spec fn view(&self) -> GenerateFault {
        match self {
            GenerateError::EmptyInput => GenerateFault::EmptyInput,
            GenerateError::BadOutput => GenerateFault::BadOutput,
            GenerateError::Rules(IpSetError::Line { label, line, fault }) => GenerateFault::Rules {
                label: label@,
                line: *line as int,
                fault: *fault,
            },
            GenerateError::Overlap(family) => GenerateFault::Overlap(*family),
            GenerateError::MissingSource(name) => GenerateFault::MissingSource(name@),
            GenerateError::SourceNotUtf8(name) => GenerateFault::SourceNotUtf8(name@),
            GenerateError::Source(IpSetError::Line { label, line, fault }) => GenerateFault::Source {
                label: label@,
                line: *line as int,
                fault: *fault,
            },
            GenerateError::Output(e) => GenerateFault::Output(*e),
            GenerateError::PrefixCountOverflow => GenerateFault::PrefixCountOverflow,
            _ => GenerateFault::Internal,
        }
    }
}

/// The options name an input directory and an output directory of its
/// own.
pub open spec fn options_error(options: GenerateOptions) -> Option<GenerateError> {
    if options.input@.len() == 0 {
        Some(GenerateError::EmptyInput)
    } else if final_name(options.output@) is None {
        Some(GenerateError::BadOutput)
    } else {
        None
    }
}

/// Checks the options of a generation.
pub fn validate_options(options: &GenerateOptions) -> (res: Result<(), GenerateError>)
    ensures
        match options_error(*options) {
            Some(e) => res matches Err(err) && err@ == e@,
            None => res is Ok,
        },
{
    let input = str_chars(options.input.as_str());
    if input.len() == 0 {
        return Err(GenerateError::EmptyInput);
    }
    if !has_final_name(options.output.as_str()) {
        return Err(GenerateError::BadOutput);
    }
    Ok(())
}

/// Where an output file comes from.
pub open spec fn rules_label(private: bool) -> Seq<char> {
    if private {
        "built-in private rules"@
    } else {
        "built-in special rules"@
    }
}

/// The addresses that a built-in rule file gives, or why it is refused.
pub open spec fn rules_result(label: Seq<char>, rules: Seq<char>, family: IpFamily) -> Result<Set<int>, GenerateFault> {
    match apply_effects(rule_effects(rules, family)) {
        Ok(addrs) => Ok(addrs),
        Err((index, fault)) => Err(GenerateFault::Rules { label, line: index + 1, fault }),
    }
}

/// The addresses that the snapshot's file at `index` lists, or why it
/// cannot be read.
pub open spec fn source_result(files: Seq<Vec<u8>>, index: int) -> Result<Set<int>, GenerateFault> {
    if index >= files.len() {
        Err(GenerateFault::MissingSource(source_name(index)))
    } else if !valid_utf8(files[index]@) {
        Err(GenerateFault::SourceNotUtf8(source_name(index)))
    } else {
        match apply_effects(cidr_effects(decode_utf8(files[index]@), source_family(index))) {
            Ok(addrs) => Ok(addrs),
            Err((line, fault)) => Err(GenerateFault::Source { label: source_name(index), line: line + 1, fault }),
        }
    }
}

/// The addresses of the first `count` data sets of a family, whose files
/// start at `offset` and come every second index, read in order.
pub open spec fn collect_sources(files: Seq<Vec<u8>>, offset: int, count: nat) -> Result<Seq<Set<int>>, GenerateFault>
    decreases count,
{
    if count == 0 {
        Ok(seq![])
    } else {
        match collect_sources(files, offset, (count - 1) as nat) {
            Err(e) => Err(e),
            Ok(sets) => match source_result(files, offset + 2 * (count - 1)) {
                Err(e) => Err(e),
                Ok(addrs) => Ok(sets.push(addrs)),
            },
        }
    }
}

/// The index of a family's first file.
pub open spec fn family_offset(family: IpFamily) -> int {
    match family {
        IpFamily::V4 => 0,
        IpFamily::V6 => 1,
    }
}

/// The eight address sets of a family, in output order: mainland China,
/// the public addresses outside it, the three large operators, the other
/// operators together, private space and special space. Public addresses
/// outside China are every address minus private, special and China.
pub open spec fn family_sets(
    files: Seq<Vec<u8>>,
    family: IpFamily,
    private_rules: Seq<char>,
    special_rules: Seq<char>,
) -> Result<Seq<Set<int>>, GenerateFault> {
    match rules_result(rules_label(true), private_rules, family) {
        Err(e) => Err(e),
        Ok(private) => match rules_result(rules_label(false), special_rules, family) {
            Err(e) => Err(e),
            Ok(special) => if !private.disjoint(special) {
                Err(GenerateFault::Overlap(family))
            } else {
                match collect_sources(files, family_offset(family), 8) {
                    Err(e) => Err(e),
                    Ok(s) => Ok(
                        seq![
                            s[0],
                            universe_set(family).difference(private).difference(special).difference(s[0]),
                            s[1],
                            s[2],
                            s[3],
                            s[4].union(s[5]).union(s[6]).union(s[7]),
                            private,
                            special,
                        ],
                    ),
                }
            },
        },
    }
}

/// The upstream list `stem` of a family: `stem.txt` for IPv4,
/// `stem6.txt` for IPv6.
pub open spec fn list_name(stem: Seq<char>, family: IpFamily) -> Seq<char> {
    match family {
        IpFamily::V4 => stem + ".txt"@,
        IpFamily::V6 => stem + "6.txt"@,
    }
}

/// The addresses that the snapshot's file at `index` lists, when it can be
/// read.
pub open spec fn listed(files: Seq<Vec<u8>>, index: int) -> Set<int> {
    source_result(files, index)->Ok_0
}

proof fn lemma_list_names(family: IpFamily)
    ensures
        source_name(family_offset(family)) == list_name("china"@, family),
        source_name(family_offset(family) + 2) == list_name("chinanet"@, family),
        source_name(family_offset(family) + 4) == list_name("cmcc"@, family),
        source_name(family_offset(family) + 6) == list_name("unicom"@, family),
        source_name(family_offset(family) + 8) == list_name("cernet"@, family),
        source_name(family_offset(family) + 10) == list_name("cstnet"@, family),
        source_name(family_offset(family) + 12) == list_name("drpeng"@, family),
        source_name(family_offset(family) + 14) == list_name("googlecn"@, family),
{
    reveal_strlit(".txt");
    reveal_strlit("6.txt");
    reveal_strlit("china");
    reveal_strlit("chinanet");
    reveal_strlit("cmcc");
    reveal_strlit("unicom");
    reveal_strlit("cernet");
    reveal_strlit("cstnet");
    reveal_strlit("drpeng");
    reveal_strlit("googlecn");
    reveal_strlit("china.txt");
    reveal_strlit("china6.txt");
    reveal_strlit("chinanet.txt");
    reveal_strlit("chinanet6.txt");
    reveal_strlit("cmcc.txt");
    reveal_strlit("cmcc6.txt");
    reveal_strlit("unicom.txt");
    reveal_strlit("unicom6.txt");
    reveal_strlit("cernet.txt");
    reveal_strlit("cernet6.txt");
    reveal_strlit("cstnet.txt");
    reveal_strlit("cstnet6.txt");
    reveal_strlit("drpeng.txt");
    reveal_strlit("drpeng6.txt");
    reveal_strlit("googlecn.txt");
    reveal_strlit("googlecn6.txt");
    match family {
        IpFamily::V4 => {
            assert(source_name(0) =~= list_name("china"@, family));
            assert(source_name(2) =~= list_name("chinanet"@, family));
            assert(source_name(4) =~= list_name("cmcc"@, family));
            assert(source_name(6) =~= list_name("unicom"@, family));
            assert(source_name(8) =~= list_name("cernet"@, family));
            assert(source_name(10) =~= list_name("cstnet"@, family));
            assert(source_name(12) =~= list_name("drpeng"@, family));
            assert(source_name(14) =~= list_name("googlecn"@, family));
        },
        IpFamily::V6 => {
            assert(source_name(1) =~= list_name("china"@, family));
            assert(source_name(3) =~= list_name("chinanet"@, family));
            assert(source_name(5) =~= list_name("cmcc"@, family));
            assert(source_name(7) =~= list_name("unicom"@, family));
            assert(source_name(9) =~= list_name("cernet"@, family));
            assert(source_name(11) =~= list_name("cstnet"@, family));
            assert(source_name(13) =~= list_name("drpeng"@, family));
            assert(source_name(15) =~= list_name("googlecn"@, family));
        },
    }
}

/// Each table of a family is read from the upstream lists it is named
/// after: `chnroute` from `china`, `china-telecom` from `chinanet`,
/// `china-mobile` from `cmcc`, `china-unicom` from `unicom`, and
/// `china-other` from `cernet`, `cstnet`, `drpeng` and `googlecn`
/// together; `private` and `special` are the built-in rules, and
/// `non-chnroute` is every address of the family but those and China's.
/// Every one of these lists was read without error.
pub proof fn lemma_family_tables(
    files: Seq<Vec<u8>>,
    family: IpFamily,
    private_rules: Seq<char>,
    special_rules: Seq<char>,
)
    requires
        family_sets(files, family, private_rules, special_rules) is Ok,
    ensures
        ({
            let sets = family_sets(files, family, private_rules, special_rules)->Ok_0;
            let o = family_offset(family);
            &&& sets.len() == 8
            &&& forall|j: int| 0 <= j < 8 ==> #[trigger] source_result(files, o + 2 * j) is Ok
            &&& base_name(0) == "chnroute"@ && source_name(o) == list_name("china"@, family)
                && sets[0] == listed(files, o)
            &&& base_name(2) == "china-telecom"@ && source_name(o + 2) == list_name("chinanet"@, family)
                && sets[2] == listed(files, o + 2)
            &&& base_name(3) == "china-mobile"@ && source_name(o + 4) == list_name("cmcc"@, family)
                && sets[3] == listed(files, o + 4)
            &&& base_name(4) == "china-unicom"@ && source_name(o + 6) == list_name("unicom"@, family)
                && sets[4] == listed(files, o + 6)
            &&& base_name(5) == "china-other"@ && source_name(o + 8) == list_name("cernet"@, family)
                && source_name(o + 10) == list_name("cstnet"@, family) && source_name(o + 12) == list_name(
                "drpeng"@,
                family,
            ) && source_name(o + 14) == list_name("googlecn"@, family) && sets[5] == listed(files, o + 8).union(
                listed(files, o + 10),
            ).union(listed(files, o + 12)).union(listed(files, o + 14))
            &&& base_name(6) == "private"@ && rules_result(rules_label(true), private_rules, family) == Ok::<
                Set<int>,
                GenerateFault,
            >(sets[6])
            &&& base_name(7) == "special"@ && rules_result(rules_label(false), special_rules, family) == Ok::<
                Set<int>,
                GenerateFault,
            >(sets[7])
            &&& base_name(1) == "non-chnroute"@ && sets[1] == universe_set(family).difference(sets[6]).difference(
                sets[7],
            ).difference(sets[0])
        }),
{
    reveal_with_fuel(collect_sources, 9);
    lemma_list_names(family);
    let o = family_offset(family);
    let c = collect_sources(files, o, 8);
    assert(c is Ok);
    assert(collect_sources(files, o, 7) is Ok);
    assert(collect_sources(files, o, 6) is Ok);
    assert(collect_sources(files, o, 5) is Ok);
    assert(collect_sources(files, o, 4) is Ok);
    assert(collect_sources(files, o, 3) is Ok);
    assert(collect_sources(files, o, 2) is Ok);
    assert(collect_sources(files, o, 1) is Ok);
    assert forall|j: int| 0 <= j < 8 implies #[trigger] source_result(files, o + 2 * j) is Ok by {
        if j == 0 {
            assert(source_result(files, o + 2 * 0) is Ok);
        }
    }
}

/// The base name of the output set at `k`.
pub open spec fn base_name(k: int) -> Seq<char> {
    if k == 0 {
        "chnroute"@
    } else if k == 1 {
        "non-chnroute"@
    } else if k == 2 {
        "china-telecom"@
    } else if k == 3 {
        "china-mobile"@
    } else if k == 4 {
        "china-unicom"@
    } else if k == 5 {
        "china-other"@
    } else if k == 6 {
        "private"@
    } else {
        "special"@
    }
}

fn base(k: usize) -> (name: &'static str)
    requires
        k < 8,
    ensures
        name@ == base_name(k as int),
{
    if k == 0 {
        "chnroute"
    } else if k == 1 {
        "non-chnroute"
    } else if k == 2 {
        "china-telecom"
    } else if k == 3 {
        "china-mobile"
    } else if k == 4 {
        "china-unicom"
    } else if k == 5 {
        "china-other"
    } else if k == 6 {
        "private"
    } else {
        "special"
    }
}

/// An address set with the base name of its output files.
pub struct GeneratedSet {
    pub base: &'static str,
    pub set: IpSet,
}

/// Reads the snapshot's file at `index` as a prefix list of its family.
pub fn source_set(snapshot: &Snapshot, index: usize) -> (res: Result<IpSet, GenerateError>)
    requires
        index < SOURCE_COUNT,
    ensures
        match source_result(snapshot.files@, index as int) {
            Ok(addrs) => res matches Ok(set) && set.wf() && set@ == (source_family(index as int), addrs),
            Err(f) => res matches Err(e) && e@ == f,
        },
{
    let source = source_file(index);
    if index >= snapshot.files.len() {
        return Err(GenerateError::MissingSource(source.name));
    }
    let text = match utf8_str(snapshot.files[index].as_slice()) {
        Some(text) => text,
        None => {
            return Err(GenerateError::SourceNotUtf8(source.name));
        },
    };
    match IpSet::parse_cidrs(text, source.family, source.name) {
        Ok(set) => Ok(set),
        Err(e) => Err(GenerateError::Source(e)),
    }
}

fn rules_set(rules: &str, family: IpFamily, label: &str) -> (res: Result<IpSet, GenerateError>)
    ensures
        match rules_result(label@, rules@, family) {
            Ok(addrs) => res matches Ok(set) && set.wf() && set@ == (family, addrs),
            Err(f) => res matches Err(e) && e@ == f,
        },
{
    match IpSet::parse_rules(rules, family, label) {
        Ok(set) => Ok(set),
        Err(e) => Err(GenerateError::Rules(e)),
    }
}

fn generated_set(base: &'static str, set: IpSet) -> (g: GeneratedSet)
    ensures
        g.base == base,
        g.set == set,
{
    GeneratedSet { base, set }
}

/// Builds the eight address sets of a family from the built-in rules and
/// the snapshot.
pub fn build_family(
    snapshot: &Snapshot,
    family: IpFamily,
    private_rules: &str,
    special_rules: &str,
) -> (res: Result<Vec<GeneratedSet>, GenerateError>)
    ensures
        match family_sets(snapshot.files@, family, private_rules@, special_rules@) {
            Ok(sets) => res matches Ok(out) && out@.len() == 8 && forall|k: int|
                0 <= k < 8 ==> (#[trigger] out@[k]).base@ == base_name(k) && out@[k].set.wf() && out@[k].set@
                    == (family, sets[k]),
            Err(f) => res matches Err(e) && e@ == f,
        },
        res matches Ok(out) ==> {
            let o = family_offset(family);
            &&& out@[0].set@.1 == listed(snapshot.files@, o)
            &&& out@[2].set@.1 == listed(snapshot.files@, o + 2)
            &&& out@[3].set@.1 == listed(snapshot.files@, o + 4)
            &&& out@[4].set@.1 == listed(snapshot.files@, o + 6)
            &&& out@[5].set@.1 == listed(snapshot.files@, o + 8).union(listed(snapshot.files@, o + 10)).union(
                listed(snapshot.files@, o + 12),
            ).union(listed(snapshot.files@, o + 14))
        },
{
    let offset: usize = match family {
        IpFamily::V4 => 0,
        IpFamily::V6 => 1,
    };
    proof {
        reveal_with_fuel(collect_sources, 9);
    }
    let private = match rules_set(private_rules, family, "built-in private rules") {
        Ok(set) => set,
        Err(e) => {
            return Err(e);
        },
    };
    let special = match rules_set(special_rules, family, "built-in special rules") {
        Ok(set) => set,
        Err(e) => {
            return Err(e);
        },
    };
    let overlap = match private.intersects(&special) {
        Ok(b) => b,
        Err(e) => {
            return Err(GenerateError::Internal(e));
        },
    };
    if overlap {
        return Err(GenerateError::Overlap(family));
    }
    let china = match source_set(snapshot, offset) {
        Ok(set) => set,
        Err(e) => {
            return Err(e);
        },
    };
    let telecom = match source_set(snapshot, offset + 2) {
        Ok(set) => set,
        Err(e) => {
            return Err(e);
        },
    };
    let mobile = match source_set(snapshot, offset + 4) {
        Ok(set) => set,
        Err(e) => {
            return Err(e);
        },
    };
    let unicom = match source_set(snapshot, offset + 6) {
        Ok(set) => set,
        Err(e) => {
            return Err(e);
        },
    };
    let mut other = IpSet::empty(family);
    let cernet = match source_set(snapshot, offset + 8) {
        Ok(set) => set,
        Err(e) => {
            return Err(e);
        },
    };
    other = match other.union(&cernet) {
        Ok(set) => set,
        Err(e) => {
            return Err(GenerateError::Internal(e));
        },
    };
    let cstnet = match source_set(snapshot, offset + 10) {
        Ok(set) => set,
        Err(e) => {
            return Err(e);
        },
    };
    other = match other.union(&cstnet) {
        Ok(set) => set,
        Err(e) => {
            return Err(GenerateError::Internal(e));
        },
    };
    let drpeng = match source_set(snapshot, offset + 12) {
        Ok(set) => set,
        Err(e) => {
            return Err(e);
        },
    };
    other = match other.union(&drpeng) {
        Ok(set) => set,
        Err(e) => {
            return Err(GenerateError::Internal(e));
        },
    };
    let googlecn = match source_set(snapshot, offset + 14) {
        Ok(set) => set,
        Err(e) => {
            return Err(e);
        },
    };
    other = match other.union(&googlecn) {
        Ok(set) => set,
        Err(e) => {
            return Err(GenerateError::Internal(e));
        },
    };
    let universe = IpSet::universe(family);
    let step1 = match universe.subtract(&private) {
        Ok(s) => s,
        Err(e) => {
            return Err(GenerateError::Internal(e));
        },
    };
    let step2 = match step1.subtract(&special) {
        Ok(s) => s,
        Err(e) => {
            return Err(GenerateError::Internal(e));
        },
    };
    let non_chnroute = match step2.subtract(&china) {
        Ok(s) => s,
        Err(e) => {
            return Err(GenerateError::Internal(e));
        },
    };
    proof {
        assert(Set::<int>::empty().union(cernet@.1) =~= cernet@.1);
    }
    let mut out: Vec<GeneratedSet> = Vec::new();
    out.push(generated_set(base(0), china));
    out.push(generated_set(base(1), non_chnroute));
    out.push(generated_set(base(2), telecom));
    out.push(generated_set(base(3), mobile));
    out.push(generated_set(base(4), unicom));
    out.push(generated_set(base(5), other));
    out.push(generated_set(base(6), private));
    out.push(generated_set(base(7), special));
    proof {
        lemma_family_tables(snapshot.files@, family, private_rules@, special_rules@);
    }
    Ok(out)
}

/// An output file: its name, the families of its prefixes and its text.
pub struct GeneratedFile {
    pub name: String,
    pub address_family: Vec<u8>,
    pub text: String,
}

fn family_list(v4: bool, v6: bool) -> (list: Vec<u8>)
    ensures
        list@ == (if v4 && v6 {
            seq![4u8, 6u8]
        } else if v4 {
            seq![4u8]
        } else {
            seq![6u8]
        }),
{
    let mut list: Vec<u8> = Vec::new();
    if v4 {
        list.push(4);
    }
    if v6 || !v4 {
        list.push(6);
    }
    proof {
        if v4 && v6 {
            assert(list@ =~= seq![4u8, 6u8]);
        } else if v4 {
            assert(list@ =~= seq![4u8]);
        } else {
            assert(list@ =~= seq![6u8]);
        }
    }
    list
}

/// The output file `base` + `suffix` + `.txt`.
pub fn generated(base: &str, suffix: &str, address_family: Vec<u8>, text: String) -> (file: GeneratedFile)
    ensures
        file.name@ == base@ + suffix@ + ".txt"@,
        file.address_family@ == address_family@,
        file.text@ == text@,
{
    let mut name = base.to_owned();
    name.append(suffix);
    name.append(".txt");
    GeneratedFile { name, address_family, text }
}

/// The text of the output set at `k` of the family's sets.
pub open spec fn output_text(family: IpFamily, sets: Seq<Set<int>>, k: int) -> Seq<char> {
    canonical_text(family, sets[k])
}

/// The output files, three per set: the IPv4 file `base.txt`, the IPv6
/// file `base6.txt`, and `base46.txt`, which is the IPv4 text followed by
/// the IPv6 text.
pub open spec fn files_are(files: Seq<GeneratedFile>, v4: Seq<Set<int>>, v6: Seq<Set<int>>) -> bool {
    &&& files.len() == OUTPUT_FILE_COUNT
    &&& forall|k: int|
        0 <= k < 8 ==> {
            &&& (#[trigger] files[3 * k]).name@ == base_name(k) + ""@ + ".txt"@
            &&& files[3 * k].address_family@ == seq![4u8]
            &&& files[3 * k].text@ == output_text(IpFamily::V4, v4, k)
            &&& files[3 * k + 1].name@ == base_name(k) + "6"@ + ".txt"@
            &&& files[3 * k + 1].address_family@ == seq![6u8]
            &&& files[3 * k + 1].text@ == output_text(IpFamily::V6, v6, k)
            &&& files[3 * k + 2].name@ == base_name(k) + "46"@ + ".txt"@
            &&& files[3 * k + 2].address_family@ == seq![4u8, 6u8]
            &&& files[3 * k + 2].text@ == output_text(IpFamily::V4, v4, k) + output_text(IpFamily::V6, v6, k)
        }
}

/// Builds every output file of the snapshot, IPv4 sets from the IPv4 files
/// and built-in rules, IPv6 sets likewise.
pub fn build_files(snapshot: &Snapshot) -> (res: Result<Vec<GeneratedFile>, GenerateError>)
    ensures
        match family_sets(snapshot.files@, IpFamily::V4, PRIVATE_V4@, SPECIAL_V4@) {
            Err(f) => res matches Err(e) && e@ == f,
            Ok(v4) => match family_sets(snapshot.files@, IpFamily::V6, PRIVATE_V6@, SPECIAL_V6@) {
                Err(f) => res matches Err(e) && e@ == f,
                Ok(v6) => res matches Ok(files) && files_are(files@, v4, v6),
            },
        },
{
    let ipv4 = match build_family(snapshot, IpFamily::V4, PRIVATE_V4, SPECIAL_V4) {
        Ok(sets) => sets,
        Err(e) => {
            return Err(e);
        },
    };
    let ipv6 = match build_family(snapshot, IpFamily::V6, PRIVATE_V6, SPECIAL_V6) {
        Ok(sets) => sets,
        Err(e) => {
            return Err(e);
        },
    };
    let ghost v4 = family_sets(snapshot.files@, IpFamily::V4, PRIVATE_V4@, SPECIAL_V4@)->Ok_0;
    let ghost v6 = family_sets(snapshot.files@, IpFamily::V6, PRIVATE_V6@, SPECIAL_V6@)->Ok_0;
    let mut files: Vec<GeneratedFile> = Vec::new();
    let mut k: usize = 0;
    while k < 8
        invariant
            0 <= k <= 8,
            ipv4@.len() == 8,
            ipv6@.len() == 8,
            forall|j: int|
                0 <= j < 8 ==> (#[trigger] ipv4@[j]).base@ == base_name(j) && ipv4@[j].set.wf() && ipv4@[j].set@
                    == (IpFamily::V4, v4[j]),
            forall|j: int|
                0 <= j < 8 ==> (#[trigger] ipv6@[j]).base@ == base_name(j) && ipv6@[j].set.wf() && ipv6@[j].set@
                    == (IpFamily::V6, v6[j]),
            files@.len() == 3 * k,
            forall|j: int|
                0 <= j < k ==> {
                    &&& (#[trigger] files@[3 * j]).name@ == base_name(j) + ""@ + ".txt"@
                    &&& files@[3 * j].address_family@ == seq![4u8]
                    &&& files@[3 * j].text@ == output_text(IpFamily::V4, v4, j)
                    &&& files@[3 * j + 1].name@ == base_name(j) + "6"@ + ".txt"@
                    &&& files@[3 * j + 1].address_family@ == seq![6u8]
                    &&& files@[3 * j + 1].text@ == output_text(IpFamily::V6, v6, j)
                    &&& files@[3 * j + 2].name@ == base_name(j) + "46"@ + ".txt"@
                    &&& files@[3 * j + 2].address_family@ == seq![4u8, 6u8]
                    &&& files@[3 * j + 2].text@ == output_text(IpFamily::V4, v4, j) + output_text(
                        IpFamily::V6,
                        v6,
                        j,
                    )
                },
        decreases 8 - k,
    {
        let ipv4_text = match ipv4[k].set.to_text() {
            Ok(text) => text,
            Err(e) => {
                return Err(GenerateError::Internal(e));
            },
        };
        let ipv6_text = match ipv6[k].set.to_text() {
            Ok(text) => text,
            Err(e) => {
                return Err(GenerateError::Internal(e));
            },
        };
        let mut combined = ipv4_text.clone();
        combined.append(ipv6_text.as_str());
        let name = ipv4[k].base;
        let ghost before = files@;
        files.push(generated(name, "", family_list(true, false), ipv4_text));
        files.push(generated(name, "6", family_list(false, true), ipv6_text));
        files.push(generated(name, "46", family_list(true, true), combined));
        proof {
            assert forall|j: int| 0 <= j < k + 1 implies {
                &&& (#[trigger] files@[3 * j]).name@ == base_name(j) + ""@ + ".txt"@
                &&& files@[3 * j].address_family@ == seq![4u8]
                &&& files@[3 * j].text@ == output_text(IpFamily::V4, v4, j)
                &&& files@[3 * j + 1].name@ == base_name(j) + "6"@ + ".txt"@
                &&& files@[3 * j + 1].address_family@ == seq![6u8]
                &&& files@[3 * j + 1].text@ == output_text(IpFamily::V6, v6, j)
                &&& files@[3 * j + 2].name@ == base_name(j) + "46"@ + ".txt"@
                &&& files@[3 * j + 2].address_family@ == seq![4u8, 6u8]
                &&& files@[3 * j + 2].text@ == output_text(IpFamily::V4, v4, j) + output_text(IpFamily::V6, v6, j)
            } by {
                if j < k {
                    assert(files@[3 * j] == before[3 * j]);
                    assert(files@[3 * j + 1] == before[3 * j + 1]);
                    assert(files@[3 * j + 2] == before[3 * j + 2]);
                }
            }
        }
        k = k + 1;
    }
    Ok(files)
}

/// The sources of an output, as its manifest records them.
#[derive(Clone, Debug)]
pub struct OutputSource {
    pub repository: String,
    pub commit: String,
}

/// What an output manifest records of one file.
#[derive(Clone, Debug)]
pub struct OutputFileManifest {
    pub name: String,
    pub sha256: String,
    pub bytes: u64,
    pub prefixes: usize,
    pub address_family: Vec<u8>,
}

/// The manifest of an output directory. `files` lists one entry per file
/// name, in the order of the names.
#[derive(Clone, Debug)]
pub struct OutputManifest {
    pub schema_version: u32,
    pub generator: String,
    pub source: OutputSource,
    pub files: Vec<OutputFileManifest>,
}

/// An output manifest of this program, of the current or the older schema.
pub open spec fn output_compatible(manifest: OutputManifest) -> bool {
    &&& (manifest.schema_version == LEGACY_OUTPUT_SCHEMA_VERSION || manifest.schema_version == OUTPUT_SCHEMA_VERSION)
    &&& manifest.generator@ == GENERATOR_ID@
}

/// What was found where the output goes decides whether it may be
/// replaced.
pub open spec fn output_replaceable(probe: OutputProbe<OutputManifest>) -> Result<(), OutputError> {
    match probe {
        OutputProbe::Missing => Ok(()),
        OutputProbe::EmptyDirectory => Ok(()),
        OutputProbe::Symlink => Err(OutputError::Symlink),
        OutputProbe::NotDirectory => Err(OutputError::NotDirectory),
        OutputProbe::Unowned => Err(OutputError::Unowned),
        OutputProbe::Owned(manifest) => if output_compatible(manifest) {
            Ok(())
        } else {
            Err(OutputError::Incompatible)
        },
    }
}

/// A generation never writes over what it does not own: a symbolic link,
/// a file, a directory without a manifest, or an output of another
/// generator or of an unknown schema is kept, with the reason; nothing
/// there, an empty directory, or an output of this program of either
/// schema may be replaced.
pub proof fn lemma_foreign_output_kept(probe: OutputProbe<OutputManifest>)
    ensures
        probe is Symlink ==> output_replaceable(probe) == Err::<(), OutputError>(OutputError::Symlink),
        probe is NotDirectory ==> output_replaceable(probe) == Err::<(), OutputError>(OutputError::NotDirectory),
        probe is Unowned ==> output_replaceable(probe) == Err::<(), OutputError>(OutputError::Unowned),
        (probe matches OutputProbe::Owned(m) && (m.generator@ != GENERATOR_ID@ || (m.schema_version != 1
            && m.schema_version != 2))) ==> output_replaceable(probe) == Err::<(), OutputError>(
            OutputError::Incompatible,
        ),
        (probe is Missing || probe is EmptyDirectory || (probe matches OutputProbe::Owned(m) && m.generator@
            == GENERATOR_ID@ && (m.schema_version == 1 || m.schema_version == 2))) ==> output_replaceable(probe)
            is Ok,
{
}

/// Decides about the output directory of a generation: nothing there, an
/// empty directory or an output of this program may be replaced.
pub fn check_output(probe: &OutputProbe<OutputManifest>) -> (res: Result<(), OutputError>)
    ensures
        res == output_replaceable(*probe),
{
    match probe {
        OutputProbe::Missing => Ok(()),
        OutputProbe::EmptyDirectory => Ok(()),
        OutputProbe::Symlink => Err(OutputError::Symlink),
        OutputProbe::NotDirectory => Err(OutputError::NotDirectory),
        OutputProbe::Unowned => Err(OutputError::Unowned),
        OutputProbe::Owned(manifest) => {
            let schema = manifest.schema_version;
            if (schema == LEGACY_OUTPUT_SCHEMA_VERSION || schema == OUTPUT_SCHEMA_VERSION) && str_eq(
                manifest.generator.as_str(),
                GENERATOR_ID,
            ) {
                Ok(())
            } else {
                Err(OutputError::Incompatible)
            }
        },
    }
}

/// The manifest entry of an output file: its digest and size as UTF-8
/// bytes, its number of lines, and its families.
pub open spec fn describes(entry: OutputFileManifest, file: GeneratedFile) -> bool {
    &&& entry.name@ == file.name@
    &&& entry.sha256@ == sha256_hex(encode_utf8(file.text@))
    &&& entry.bytes == encode_utf8(file.text@).len()
    &&& entry.prefixes == lines(file.text@).len()
    &&& entry.address_family@ == file.address_family@
}

fn describe(file: &GeneratedFile) -> (entry: OutputFileManifest)
    ensures
        describes(entry, *file),
{
    let bytes = file.text.as_str().as_bytes();
    let chars = str_chars(file.text.as_str());
    let text_lines = split_lines(&chars);
    let mut families: Vec<u8> = Vec::new();
    let mut i: usize = 0;
    while i < file.address_family.len()
        invariant
            0 <= i <= file.address_family.len(),
            families@ == file.address_family@.take(i as int),
        decreases file.address_family.len() - i,
    {
        families.push(file.address_family[i]);
        i = i + 1;
        assert(families@ =~= file.address_family@.take(i as int));
    }
    assert(families@ =~= file.address_family@);
    OutputFileManifest {
        name: file.name.clone(),
        sha256: sha256(bytes),
        bytes: bytes.len() as u64,
        prefixes: text_lines.len(),
        address_family: families,
    }
}

/// The manifest of the output made of these files from the snapshot.
pub fn output_manifest(snapshot: &Snapshot, files: &Vec<GeneratedFile>) -> (manifest: OutputManifest)
    ensures
        manifest.schema_version == OUTPUT_SCHEMA_VERSION,
        manifest.generator@ == GENERATOR_ID@,
        manifest.source.repository@ == snapshot.manifest.source.repository@,
        manifest.source.commit@ == snapshot.manifest.source.commit@,
        manifest.files@.len() == files@.len(),
        forall|i: int| 0 <= i < files@.len() ==> describes(#[trigger] manifest.files@[i], files@[i]),
{
    let mut entries: Vec<OutputFileManifest> = Vec::new();
    let mut i: usize = 0;
    while i < files.len()
        invariant
            0 <= i <= files.len(),
            entries@.len() == i,
            forall|j: int| 0 <= j < i ==> describes(#[trigger] entries@[j], files@[j]),
        decreases files.len() - i,
    {
        entries.push(describe(&files[i]));
        i = i + 1;
    }
    OutputManifest {
        schema_version: OUTPUT_SCHEMA_VERSION,
        generator: GENERATOR_ID.to_owned(),
        source: OutputSource {
            repository: snapshot.manifest.source.repository.clone(),
            commit: snapshot.manifest.source.commit.clone(),
        },
        files: entries,
    }
}

/// The sum of the entries' line counts.
pub open spec fn output_prefix_total(files: Seq<OutputFileManifest>) -> int
    decreases files.len(),
{
    if files.len() == 0 {
        0
    } else {
        output_prefix_total(files.drop_last()) + files.last().prefixes
    }
}

/// What a generation reports for the output with this manifest.
pub fn generate_result(manifest: &OutputManifest, output: String) -> (res: Result<GenerateResult, GenerateError>)
    ensures
        output_prefix_total(manifest.files@) <= usize::MAX ==> (res matches Ok(r) && r.repository@
            == crate::source::REPOSITORY_ID@ && r.commit@ == manifest.source.commit@ && r.file_count
            == manifest.files@.len() && r.prefix_count == output_prefix_total(manifest.files@) && r.output == output),
        output_prefix_total(manifest.files@) > usize::MAX ==> (res matches Err(e) && e is PrefixCountOverflow),
{
    let mut total: usize = 0;
    let mut i: usize = 0;
    while i < manifest.files.len()
        invariant
            0 <= i <= manifest.files.len(),
            total == output_prefix_total(manifest.files@.take(i as int)),
        decreases manifest.files.len() - i,
    {
        proof {
            assert(manifest.files@.take(i + 1).drop_last() =~= manifest.files@.take(i as int));
        }
        let prefixes = manifest.files[i].prefixes;
        if total > usize::MAX - prefixes {
            proof {
                lemma_output_total_grows(manifest.files@, i + 1);
            }
            return Err(GenerateError::PrefixCountOverflow);
        }
        total = total + prefixes;
        i = i + 1;
    }
    proof {
        assert(manifest.files@.take(i as int) =~= manifest.files@);
    }
    Ok(GenerateResult {
        repository: crate::source::REPOSITORY_ID,
        commit: manifest.source.commit.clone(),
        file_count: manifest.files.len(),
        prefix_count: total,
        output,
    })
}

/// Everything a generation writes: the files, their manifest, and the
/// report of the run.
pub struct GeneratedOutput {
    pub files: Vec<GeneratedFile>,
    pub manifest: OutputManifest,
    pub result: GenerateResult,
}

/// The manifest of these files from the snapshot: the current schema, this
/// program as generator, the snapshot's repository and commit, and one
/// entry per file, in order.
pub open spec fn manifest_for(manifest: OutputManifest, snapshot: Snapshot, files: Seq<GeneratedFile>) -> bool {
    &&& manifest.schema_version == OUTPUT_SCHEMA_VERSION
    &&& manifest.generator@ == GENERATOR_ID@
    &&& manifest.source.repository@ == snapshot.manifest.source.repository@
    &&& manifest.source.commit@ == snapshot.manifest.source.commit@
    &&& manifest.files@.len() == files.len()
    &&& forall|i: int| 0 <= i < files.len() ==> describes(#[trigger] manifest.files@[i], files[i])
}

/// The output of a generation from the snapshot, with the address sets
/// `v4` and `v6`, written to `output`.
pub open spec fn planned(out: GeneratedOutput, snapshot: Snapshot, v4: Seq<Set<int>>, v6: Seq<Set<int>>, output: Seq<char>) -> bool {
    &&& files_are(out.files@, v4, v6)
    &&& manifest_for(out.manifest, snapshot, out.files@)
    &&& out.result.repository@ == crate::source::REPOSITORY_ID@
    &&& out.result.commit@ == snapshot.manifest.source.commit@
    &&& out.result.file_count == OUTPUT_FILE_COUNT
    &&& out.result.prefix_count == output_prefix_total(out.manifest.files@)
    &&& out.result.output@ == output
}

/// Decides, before anything is written, what a generation from the checked
/// snapshot writes to `output`: refused when what is there must not be
/// replaced, when the address sets cannot be built, or when the line
/// counts of the files add up to more than a `usize` holds.
pub fn plan_output(snapshot: &Snapshot, probe: &OutputProbe<OutputManifest>, output: String) -> (res: Result<
    GeneratedOutput,
    GenerateError,
>)
    ensures
        match output_replaceable(*probe) {
            Err(e) => res matches Err(GenerateError::Output(x)) && x == e,
            Ok(_) => match family_sets(snapshot.files@, IpFamily::V4, PRIVATE_V4@, SPECIAL_V4@) {
                Err(f) => res matches Err(e) && e@ == f,
                Ok(v4) => match family_sets(snapshot.files@, IpFamily::V6, PRIVATE_V6@, SPECIAL_V6@) {
                    Err(f) => res matches Err(e) && e@ == f,
                    Ok(v6) => match res {
                        Ok(out) => planned(out, *snapshot, v4, v6, output@) && output_prefix_total(
                            out.manifest.files@,
                        ) <= usize::MAX,
                        Err(e) => e is PrefixCountOverflow && exists|files: Seq<GeneratedFile>, m: OutputManifest|
                            files_are(files, v4, v6) && #[trigger] manifest_for(m, *snapshot, files)
                                && output_prefix_total(m.files@) > usize::MAX,
                    },
                },
            },
        },
{
    match check_output(probe) {
        Ok(()) => {},
        Err(e) => {
            return Err(GenerateError::Output(e));
        },
    }
    let files = match build_files(snapshot) {
        Ok(files) => files,
        Err(e) => {
            return Err(e);
        },
    };
    let manifest = output_manifest(snapshot, &files);
    match generate_result(&manifest, output) {
        Ok(result) => Ok(GeneratedOutput { files, manifest, result }),
        Err(e) => {
            assert(manifest_for(manifest, *snapshot, files@));
            assert(output_prefix_total(manifest.files@) > usize::MAX);
            Err(e)
        },
    }
}

/// An output of the older schema written by this program may be replaced;
/// what replaces it is of the current schema.
pub proof fn lemma_legacy_output_replaceable(manifest: OutputManifest, out: GeneratedOutput, snapshot: Snapshot, v4: Seq<Set<int>>, v6: Seq<Set<int>>, output: Seq<char>)
    requires
        manifest.schema_version == LEGACY_OUTPUT_SCHEMA_VERSION,
        manifest.generator@ == GENERATOR_ID@,
        planned(out, snapshot, v4, v6, output),
    ensures
        output_replaceable(OutputProbe::Owned(manifest)) is Ok,
        out.manifest.schema_version == OUTPUT_SCHEMA_VERSION,
{
}

proof fn lemma_output_total_grows(files: Seq<OutputFileManifest>, k: int)
    requires
        0 <= k <= files.len(),
    ensures
        output_prefix_total(files.take(k)) <= output_prefix_total(files),
    decreases files.len() - k,
{
    if k < files.len() {
        assert(files.take(k + 1).drop_last() =~= files.take(k));
        lemma_output_total_grows(files, k + 1);
    } else {
        assert(files.take(k) =~= files);
    }
}

} // verus!
