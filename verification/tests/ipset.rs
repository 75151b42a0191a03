use chnroute::family::{IpAddress, IpFamily};
use chnroute::ipset::{IpSet, IpSetError};
use chnroute::prefix::PrefixFault;

fn addr(text: &str) -> IpAddress {
    if text.contains(':') {
        let net: ipnet::Ipv6Net = format!("{text}/128").parse().unwrap();
        IpAddress::V6(u128::from(net.addr()))
    } else {
        let net: ipnet::Ipv4Net = format!("{text}/32").parse().unwrap();
        IpAddress::V4(u32::from(net.addr()))
    }
}

#[test]
fn merges_adjacent_prefixes_into_minimal_output() {
    let set = IpSet::parse_cidrs(
        "10.0.0.0/9\n10.128.0.0/9\n192.0.2.0/25\n192.0.2.128/25\n",
        IpFamily::V4,
        "test",
    )
    .unwrap();

    assert_eq!(set.to_text().unwrap(), "10.0.0.0/8\n192.0.2.0/24\n");
}

#[test]
fn applies_ordered_add_and_remove_rules() {
    let set = IpSet::parse_rules(
        "192.0.0.0/24\n!192.0.0.9/32\n!192.0.0.10/32\n",
        IpFamily::V4,
        "test",
    )
    .unwrap();

    assert!(set.contains(addr("192.0.0.8")));
    assert!(!set.contains(addr("192.0.0.9")));
    assert!(!set.contains(addr("192.0.0.10")));
    assert!(set.contains(addr("192.0.0.11")));
}

#[test]
fn subtracts_sets_without_crossing_address_families() {
    let removed = IpSet::parse_cidrs("10.0.0.0/8\n192.168.0.0/16\n", IpFamily::V4, "test").unwrap();
    let public = IpSet::universe(IpFamily::V4).subtract(&removed).unwrap();

    assert!(!public.contains(addr("10.0.0.1")));
    assert!(!public.contains(addr("192.168.1.1")));
    assert!(public.contains(addr("8.8.8.8")));
    assert!(public.subtract(&IpSet::universe(IpFamily::V6)).is_err());
}

#[test]
fn represents_the_complete_ipv6_space() {
    let set = IpSet::universe(IpFamily::V6);
    assert_eq!(set.to_text().unwrap(), "::/0\n");
}

#[test]
fn rejects_wrong_family_and_host_bits() {
    assert!(IpSet::parse_cidrs("2001:db8::/32\n", IpFamily::V4, "test").is_err());
    assert!(IpSet::parse_cidrs("192.0.2.1/24\n", IpFamily::V4, "test").is_err());
}

#[test]
fn reports_the_refused_line_and_why() {
    let error = IpSet::parse_cidrs("10.0.0.0/8\n\n2001:db8::/32\n", IpFamily::V4, "upstream").unwrap_err();
    assert_eq!(
        error,
        IpSetError::Line {
            label: "upstream".to_owned(),
            line: 3,
            fault: PrefixFault::WrongFamily { expected: IpFamily::V4, found: IpFamily::V6 },
        }
    );
    let error = IpSet::parse_cidrs("192.0.2.1/24\n", IpFamily::V4, "x").unwrap_err();
    assert_eq!(
        error,
        IpSetError::Line { label: "x".to_owned(), line: 1, fault: PrefixFault::HostBitsSet }
    );
    let error = IpSet::parse_cidrs("not a prefix\n", IpFamily::V4, "x").unwrap_err();
    assert_eq!(error, IpSetError::Line { label: "x".to_owned(), line: 1, fault: PrefixFault::NotCidr });
}

#[test]
fn plain_lists_refuse_comments_and_rules() {
    for input in ["# comment\n", "!10.0.0.0/8\n"] {
        let error = IpSet::parse_cidrs(input, IpFamily::V4, "x").unwrap_err();
        assert_eq!(
            error,
            IpSetError::Line { label: "x".to_owned(), line: 1, fault: PrefixFault::NotPlainCidr }
        );
    }
}

#[test]
fn plain_lists_allow_blank_lines_white_space_and_a_byte_order_mark() {
    let set = IpSet::parse_cidrs("\u{feff} 10.0.0.0/8 \r\n\n\t192.168.0.0/16\n", IpFamily::V4, "x").unwrap();
    assert_eq!(set.to_text().unwrap(), "10.0.0.0/8\n192.168.0.0/16\n");
}

#[test]
fn rule_files_skip_comments_and_refuse_a_detached_exclusion() {
    let set = IpSet::parse_rules("# comment\n\n10.0.0.0/8\n", IpFamily::V4, "rules").unwrap();
    assert_eq!(set.to_text().unwrap(), "10.0.0.0/8\n");
    let error = IpSet::parse_rules("10.0.0.0/8\n! 10.0.0.0/9\n", IpFamily::V4, "rules").unwrap_err();
    assert_eq!(
        error,
        IpSetError::Line { label: "rules".to_owned(), line: 2, fault: PrefixFault::InvalidRule }
    );
    let error = IpSet::parse_rules("!\n", IpFamily::V4, "rules").unwrap_err();
    assert_eq!(
        error,
        IpSetError::Line { label: "rules".to_owned(), line: 1, fault: PrefixFault::InvalidRule }
    );
}

#[test]
fn splits_intervals_into_the_largest_aligned_blocks() {
    let set = IpSet::parse_rules("10.0.0.0/8\n!10.0.0.0/32\n", IpFamily::V4, "x").unwrap();
    let text = set.to_text().unwrap();
    assert_eq!(text.lines().count(), 24);
    assert!(text.starts_with("10.0.0.1/32\n10.0.0.2/31\n10.0.0.4/30\n"));
    assert!(text.ends_with("10.64.0.0/10\n10.128.0.0/9\n"));
    assert_eq!(set.prefix_count().unwrap(), 24);
    let back = IpSet::parse_cidrs(&text, IpFamily::V4, "back").unwrap();
    assert_eq!(back, set);
}

#[test]
fn text_depends_on_the_addresses_only() {
    let a = IpSet::parse_cidrs("10.0.0.0/9\n10.128.0.0/9\n", IpFamily::V4, "a").unwrap();
    let b = IpSet::parse_rules("10.0.0.0/8\n!10.1.0.0/16\n10.1.0.0/17\n10.1.128.0/17\n", IpFamily::V4, "b").unwrap();
    assert_eq!(a.to_text().unwrap(), b.to_text().unwrap());
    assert_eq!(a.prefix_count().unwrap(), 1);
}

#[test]
fn union_and_intersection_follow_the_addresses() {
    let a = IpSet::parse_cidrs("10.0.0.0/9\n", IpFamily::V4, "a").unwrap();
    let b = IpSet::parse_cidrs("10.128.0.0/9\n", IpFamily::V4, "b").unwrap();
    let c = IpSet::parse_cidrs("10.200.0.0/16\n", IpFamily::V4, "c").unwrap();
    assert_eq!(a.union(&b).unwrap().to_text().unwrap(), "10.0.0.0/8\n");
    assert!(!a.intersects(&b).unwrap());
    assert!(b.intersects(&c).unwrap());
    assert_eq!(a.union(&IpSet::empty(IpFamily::V6)).unwrap_err(), IpSetError::MixedFamilies);
    assert_eq!(a.intersects(&IpSet::empty(IpFamily::V6)).unwrap_err(), IpSetError::MixedFamilies);
    assert_eq!(IpSet::empty(IpFamily::V4).to_text().unwrap(), "");
    assert_eq!(IpSet::universe(IpFamily::V4).to_text().unwrap(), "0.0.0.0/0\n");
}

#[test]
fn contains_never_holds_an_address_of_the_other_family() {
    assert!(!IpSet::universe(IpFamily::V4).contains(addr("::1")));
    assert!(!IpSet::universe(IpFamily::V6).contains(addr("127.0.0.1")));
    assert!(IpSet::universe(IpFamily::V6).contains(addr("::1")));
}

#[test]
fn family_numbers() {
    assert_eq!(IpFamily::V4.number(), 4);
    assert_eq!(IpFamily::V6.number(), 6);
    assert_eq!(IpFamily::V4.bits(), 32);
    assert_eq!(IpFamily::V6.bits(), 128);
}

#[test]
fn ipv6_text_uses_the_compressed_form() {
    let set = IpSet::parse_cidrs("2001:db8::/33\n2001:db8:8000::/33\n", IpFamily::V6, "x").unwrap();
    assert_eq!(set.to_text().unwrap(), "2001:db8::/32\n");
}
