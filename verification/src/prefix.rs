//! CIDR prefixes: reading them from text and writing them back, through the
//! `ipnet` crate, and the checks that a prefix in a list must pass.

use crate::blocks::{aligned, block_end, block_last, is_aligned, lemma_aligned_block_inside, lemma_pow2_128};
use crate::display::decimal;
use crate::family::IpFamily;
use crate::ranges::Range;
use ipnet::{IpNet, Ipv4Net, Ipv6Net};
use vstd::prelude::*;

verus! {

/// What parsing the text as an `ipnet::IpNet` gives: `None` when it is
/// refused, else whether the prefix is IPv6, its address as a number, and its
/// prefix length.
pub uninterp spec fn ipnet_parse(text: Seq<char>) -> Option<(bool, u128, u8)>;

/// The text that `ipnet::IpNet::V4` displays for an IPv4 address and
/// prefix length: the four bytes of the address in decimal, most
/// significant first, separated by `.`, then `/` and the length in
/// decimal.
pub open spec fn ipv4_net_text(address: u32, prefix_len: u8) -> Seq<char> {
    let a = address as nat;
    decimal(a / 0x100_0000) + seq!['.'] + decimal((a / 0x1_0000) % 256) + seq!['.'] + decimal((a / 256) % 256)
        + seq!['.'] + decimal(a % 256) + seq!['/'] + decimal(prefix_len as nat)
}

/// The text that `ipnet::IpNet::V6` displays for an IPv6 address and
/// prefix length.
pub uninterp spec fn ipv6_net_text(address: u128, prefix_len: u8) -> Seq<char>;

/// The characters that the display of a prefix is made of: decimal and
/// lower-case hexadecimal digits, `.`, `:` and `/`.
pub open spec fn is_prefix_char(c: char) -> bool {
    ||| '0' <= c <= '9'
    ||| 'a' <= c <= 'f'
    ||| c == '.'
    ||| c == ':'
    ||| c == '/'
}

/// Text made only of the characters that a displayed prefix uses.
pub open spec fn is_prefix_text(text: Seq<char>) -> bool {
    text.len() > 0 && forall|i: int| 0 <= i < text.len() ==> is_prefix_char(#[trigger] text[i])
}

/// `<ipnet::IpNet as FromStr>::from_str` on the characters. ipnet's own
/// parser only builds a prefix through `Ipv4Net::new` or `Ipv6Net::new`,
/// so an IPv4 prefix is at most 32 long and an IPv6 one at most 128; the
/// address of an IPv4 prefix is a 32-bit number.
#[verifier::external_body]
fn parse_ip_net(text: &[char]) -> (res: Option<(bool, u128, u8)>)
    ensures
        res == ipnet_parse(text@),
        res matches Some((v6, address, prefix_len)) ==> if v6 {
            prefix_len <= 128
        } else {
            prefix_len <= 32 && address <= 0xffff_ffff
        },
{
    let text: String = text.iter().collect();
    match text.parse::<IpNet>() {
        Ok(IpNet::V4(net)) => Some((false, u32::from(net.addr()) as u128, net.prefix_len())),
        Ok(IpNet::V6(net)) => Some((true, u128::from(net.addr()), net.prefix_len())),
        Err(_) => None,
    }
}

/// `IpNet::V4(Ipv4Net::new(address, prefix_len)).to_string()`: ipnet writes
/// the address as `std::net::Ipv4Addr` displays it, four decimal bytes
/// joined by `.`, then `/` and the length. The text uses only digits, `.`
/// and `/`, and ipnet parses it back to the same prefix.
#[verifier::external_body]
fn format_ipv4_net(address: u32, prefix_len: u8) -> (text: String)
    requires
        prefix_len <= 32,
    ensures
        text@ == ipv4_net_text(address, prefix_len),
        is_prefix_text(text@),
        ipnet_parse(text@) == Some((false, address as u128, prefix_len)),
{
    IpNet::V4(Ipv4Net::new(address.into(), prefix_len).unwrap()).to_string()
}

/// `IpNet::V6(Ipv6Net::new(address, prefix_len)).to_string()`. The display
/// is `address/prefix_len` with the address in the lower-case text form of
/// `std::net::Ipv6Addr`, so it uses only hexadecimal digits, `.`, `:` and
/// `/`, and ipnet parses it back to the same prefix.
#[verifier::external_body]
fn format_ipv6_net(address: u128, prefix_len: u8) -> (text: String)
    requires
        prefix_len <= 128,
    ensures
        text@ == ipv6_net_text(address, prefix_len),
        is_prefix_text(text@),
        ipnet_parse(text@) == Some((true, address, prefix_len)),
{
    IpNet::V6(Ipv6Net::new(address.into(), prefix_len).unwrap()).to_string()
}

/// A prefix of a given family: its first address and its length.
#[derive(Clone, Copy, Debug, Eq, PartialEq, Structural)]
pub struct Cidr {
    pub family: IpFamily,
    pub address: u128,
    pub prefix_len: u8,
}

/// Why a line does not hold a usable prefix.
#[derive(Clone, Copy, Debug, Eq, PartialEq, Structural)]
pub enum PrefixFault {
    /// A plain prefix list holds a comment or an exclusion rule.
    NotPlainCidr,
    /// An exclusion mark with nothing, or white space, after it.
    InvalidRule,
    /// The text is not a prefix.
    NotCidr,
    /// The prefix belongs to the other address family.
    WrongFamily { expected: IpFamily, found: IpFamily },
    /// The address has bits set past the prefix length.
    HostBitsSet,
}

/// The family that ipnet reports for a parsed prefix.
pub open spec fn parsed_family(v6: bool) -> IpFamily {
    if v6 {
        IpFamily::V6
    } else {
        IpFamily::V4
    }
}

/// What a prefix text means for a list of the given family: the prefix, or
/// why it is refused.
pub open spec fn network_of(text: Seq<char>, family: IpFamily) -> Result<Cidr, PrefixFault> {
    match ipnet_parse(text) {
        None => Err(PrefixFault::NotCidr),
        Some((v6, address, prefix_len)) => {
            let found = parsed_family(v6);
            if found != family {
                Err(PrefixFault::WrongFamily { expected: family, found })
            } else if !aligned(address as int, (family.bit_width() - prefix_len) as nat) {
                Err(PrefixFault::HostBitsSet)
            } else {
                Ok(Cidr { family, address, prefix_len })
            }
        },
    }
}

/// A prefix as ipnet gives it: within its family's limits.
pub open spec fn valid_cidr(cidr: Cidr) -> bool {
    &&& cidr.prefix_len <= cidr.family.bit_width()
    &&& cidr.address <= cidr.family.max_address()
    &&& aligned(cidr.address as int, (cidr.family.bit_width() - cidr.prefix_len) as nat)
}

/// The addresses of a prefix, as an interval.
pub open spec fn cidr_range(cidr: Cidr) -> Range {
    Range {
        start: cidr.address,
        end: block_last(cidr.address as int, (cidr.family.bit_width() - cidr.prefix_len) as nat) as u128,
    }
}

/// Reads `line` as a prefix of `family` whose host bits are zero.
pub fn parse_network(line: &[char], family: IpFamily) -> (res: Result<Cidr, PrefixFault>)
    ensures
        res == network_of(line@, family),
        res matches Ok(cidr) ==> valid_cidr(cidr),
{
    match parse_ip_net(line) {
        None => Err(PrefixFault::NotCidr),
        Some((v6, address, prefix_len)) => {
            let found = if v6 {
                IpFamily::V6
            } else {
                IpFamily::V4
            };
            if found != family {
                return Err(PrefixFault::WrongFamily { expected: family, found });
            }
            let host = family.bits() - prefix_len;
            if !is_aligned(address, host) {
                return Err(PrefixFault::HostBitsSet);
            }
            Ok(Cidr { family, address, prefix_len })
        },
    }
}

/// The interval of addresses that a prefix covers.
pub fn network_range(cidr: Cidr) -> (range: Range)
    requires
        valid_cidr(cidr),
    ensures
        range == cidr_range(cidr),
        range.start <= range.end <= cidr.family.max_address(),
{
    let host = cidr.family.bits() - cidr.prefix_len;
    proof {
        lemma_pow2_128();
        lemma_aligned_block_inside(cidr.address as int, host as nat, cidr.family.bit_width());
        vstd::arithmetic::power2::lemma_pow2_pos(host as nat);
    }
    let end = block_end(cidr.address, host);
    Range { start: cidr.address, end }
}

/// The text of the prefix `start/(bits - host)` of the family, as ipnet
/// displays it.
pub open spec fn prefix_text(family: IpFamily, start: int, host: nat) -> Seq<char> {
    match family {
        IpFamily::V4 => ipv4_net_text(start as u32, (32 - host) as u8),
        IpFamily::V6 => ipv6_net_text(start as u128, (128 - host) as u8),
    }
}

/// Writes the prefix of `2^host` addresses at `start`.
pub fn format_prefix(family: IpFamily, start: u128, host: u8) -> (text: String)
    requires
        host as nat <= family.bit_width(),
        start <= family.max_address(),
    ensures
        text@ == prefix_text(family, start as int, host as nat),
        is_prefix_text(text@),
        ipnet_parse(text@) == Some((family == IpFamily::V6, start, (family.bit_width() - host) as u8)),
{
    match family {
        IpFamily::V4 => format_ipv4_net(start as u32, 32 - host),
        IpFamily::V6 => format_ipv6_net(start, 128 - host),
    }
}

} // verus!
