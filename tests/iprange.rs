use std::str::FromStr;

use ripcal::iprange::{Ipv4Range, Ipv4Subnet, RangeError};
use ripcal::mask::{count_suffix_zero_bits, make_mask};
use ripcal::merge::merge_ranges;
use ripcal::text::addr_to_string;

fn addr(a: u8, b: u8, c: u8, d: u8) -> u32 {
    u32::from_be_bytes([a, b, c, d])
}

fn range(s: &str) -> Ipv4Range {
    Ipv4Range::from_str(s).unwrap()
}

fn subnet(s: &str) -> Ipv4Subnet {
    Ipv4Subnet::from_str(s).unwrap()
}

fn texts(subs: &[Ipv4Subnet]) -> Vec<String> {
    subs.iter().map(|s| s.to_string()).collect()
}

#[test]
fn instantiate_types() {
    assert!(Ipv4Range::from_str("192.168.1.0-192.168.0.255").is_err());
    assert!(Ipv4Range::from_str("127.0.0.1").is_err());
    assert_eq!(
        Ipv4Range::from_str("255.255.255.255/32").unwrap(),
        Ipv4Range::from_str("255.255.255.255-255.255.255.255").unwrap()
    );
}

#[test]
fn range_to_subnet_conversion() {
    let r: Ipv4Range = Ipv4Range::from_str("192.168.1.0 - 192.168.1.1").unwrap();
    let s: Ipv4Subnet = Ipv4Subnet::from_str("192.168.1.0/31").unwrap();
    assert_eq!(r.to_subnets(), vec![s]);

    let r: Ipv4Range = Ipv4Range::from_str("0.0.0.0 - 255.255.255.255").unwrap();
    let s: Ipv4Subnet = Ipv4Subnet::from_str("0.0.0.0/0").unwrap();
    assert_eq!(r.to_subnets(), vec![s]);
}

#[test]
fn parse_errors_by_kind() {
    assert_eq!(Ipv4Range::parse_range("192.168.1.0-192.168.0.255"), Err(RangeError::InvalidRange));
    assert_eq!(Ipv4Range::parse_range("127.0.0.1"), Err(RangeError::UnrecognizedFormat));
    assert_eq!(Ipv4Range::parse_range("10.0.0.0/33"), Err(RangeError::InvalidPrefix));
    assert_eq!(Ipv4Range::parse_range("10.0.0.0/300"), Err(RangeError::InvalidPrefix));
    assert_eq!(Ipv4Range::parse_range("10.0.0.0/x"), Err(RangeError::UnrecognizedFormat));
    assert_eq!(Ipv4Range::parse_range("10.0.0.0/"), Err(RangeError::UnrecognizedFormat));
    assert_eq!(Ipv4Range::parse_range("10.0.0/8"), Err(RangeError::UnrecognizedFormat));
    assert_eq!(Ipv4Range::parse_range("10.0.0.0.0/8"), Err(RangeError::UnrecognizedFormat));
    assert_eq!(Ipv4Range::parse_range("256.0.0.0/8"), Err(RangeError::UnrecognizedFormat));
    assert_eq!(Ipv4Range::parse_range("01.0.0.0/8"), Err(RangeError::UnrecognizedFormat));
    assert_eq!(Ipv4Range::parse_range("1.2.3.4 -"), Err(RangeError::UnrecognizedFormat));
    assert_eq!(Ipv4Range::parse_range(""), Err(RangeError::UnrecognizedFormat));
    assert_eq!(Ipv4Subnet::parse_subnet("1.2.3.4"), Err(RangeError::UnrecognizedFormat));
    assert_eq!(Ipv4Subnet::parse_subnet("1.2.3.4/40"), Err(RangeError::InvalidPrefix));
}

#[test]
fn parse_accepted_forms() {
    let r = range("192.168.18.77/24");
    assert_eq!((r.start(), r.end()), (addr(192, 168, 18, 0), addr(192, 168, 18, 255)));
    let r = range("10.0.0.1/+8");
    assert_eq!((r.start(), r.end()), (addr(10, 0, 0, 0), addr(10, 255, 255, 255)));
    let r = range(" 10.0.0.1 \t-\u{a0}10.0.0.9 ");
    assert_eq!((r.start(), r.end()), (addr(10, 0, 0, 1), addr(10, 0, 0, 9)));
    let r = range("0.0.0.0/0");
    assert_eq!((r.start(), r.end()), (0, u32::MAX));
    let s = subnet("10.1.2.3/16");
    assert_eq!((s.addr(), s.prefix()), (addr(10, 1, 2, 3), 16));
}

#[test]
fn subnet_keeps_address_and_masks_bounds() {
    let s = Ipv4Subnet::from_addr_prefix(addr(172, 16, 5, 200), 20).unwrap();
    assert_eq!(s.addr(), addr(172, 16, 5, 200));
    assert_eq!(s.start_addr(), addr(172, 16, 0, 0));
    assert_eq!(s.end_addr(), addr(172, 16, 15, 255));
    assert_eq!(Ipv4Subnet::from_addr_prefix(0, 33), Err(RangeError::InvalidPrefix));
    assert_eq!(Ipv4Range::from_addr_prefix(0, 33), Err(RangeError::InvalidPrefix));
    let r = Ipv4Range::from_subnet(&s);
    assert_eq!((r.start(), r.end()), (addr(172, 16, 0, 0), addr(172, 16, 15, 255)));
}

#[test]
fn from_bounds_checks_order() {
    assert_eq!(Ipv4Range::from_bounds(5, 4), Err(RangeError::InvalidRange));
    let r = Ipv4Range::from_bounds(4, 4).unwrap();
    assert_eq!((r.start(), r.end()), (4, 4));
}

#[test]
fn update_end_rejects_end_below_start() {
    let mut r = Ipv4Range::from_bounds(10, 20).unwrap();
    assert!(!r.update_end(9));
    assert_eq!((r.start(), r.end()), (10, 20));
    assert!(r.update_end(10));
    assert_eq!((r.start(), r.end()), (10, 10));
    assert!(r.update_end(u32::MAX));
    assert_eq!(r.end(), u32::MAX);
}

#[test]
fn masks_at_the_boundaries() {
    assert_eq!(make_mask(0), 0);
    assert_eq!(make_mask(1), 0x8000_0000);
    assert_eq!(make_mask(24), 0xffff_ff00);
    assert_eq!(make_mask(31), 0xffff_fffe);
    assert_eq!(make_mask(32), 0xffff_ffff);
}

#[test]
fn trailing_zero_count_is_capped() {
    assert_eq!(count_suffix_zero_bits(0), 32);
    assert_eq!(count_suffix_zero_bits(1), 0);
    assert_eq!(count_suffix_zero_bits(8), 3);
    assert_eq!(count_suffix_zero_bits(0x8000_0000), 31);
    assert_eq!(count_suffix_zero_bits(0x1_0000_0000), 32);
}

#[test]
fn covering_subnet_uses_longest_common_prefix() {
    let s = Ipv4Subnet::from_range(&range("192.168.1.0 - 192.168.1.1"));
    assert_eq!(s.to_string(), "192.168.1.0/31");
    let s = Ipv4Subnet::from_range(&range("0.0.0.0 - 255.255.255.255"));
    assert_eq!(s.to_string(), "0.0.0.0/0");
    let s = Ipv4Subnet::from_range(&range("10.0.0.1 - 10.0.0.6"));
    assert_eq!(s.to_string(), "10.0.0.1/29");
    let s = Ipv4Subnet::from_range(&range("10.0.0.7 - 10.0.0.7"));
    assert_eq!(s.to_string(), "10.0.0.7/32");
    assert_eq!(range("127.0.0.0 - 128.0.0.0").get_prefix(), 0);
}

#[test]
fn decomposition_of_unaligned_range() {
    let subs = range("10.0.0.1 - 10.0.0.6").to_subnets();
    assert_eq!(texts(&subs), vec!["10.0.0.1/32", "10.0.0.2/31", "10.0.0.4/31", "10.0.0.6/32"]);
}

#[test]
fn decomposition_edge_cases() {
    assert_eq!(texts(&range("10.0.0.5 - 10.0.0.5").to_subnets()), vec!["10.0.0.5/32"]);
    assert_eq!(texts(&range("10.0.0.3 - 10.0.0.4").to_subnets()), vec!["10.0.0.3/32", "10.0.0.4/32"]);
    assert_eq!(
        texts(&range("255.255.255.254 - 255.255.255.255").to_subnets()),
        vec!["255.255.255.254/31"]
    );
    let subs = range("0.0.0.0 - 255.255.255.254").to_subnets();
    assert_eq!(subs.len(), 32);
    assert_eq!(subs[0].to_string(), "0.0.0.0/1");
    assert_eq!(subs[31].to_string(), "255.255.255.254/32");
}

#[test]
fn decomposition_tiles_and_cannot_be_joined() {
    let r = range("10.3.7.9 - 10.9.200.17");
    let subs = r.to_subnets();
    assert_eq!(subs[0].start_addr(), r.start());
    assert_eq!(subs[subs.len() - 1].end_addr(), r.end());
    for w in subs.windows(2) {
        assert_eq!(w[0].end_addr() as u64 + 1, w[1].start_addr() as u64);
        let joinable = w[0].prefix() == w[1].prefix()
            && w[0].prefix() > 0
            && w[0].start_addr() % (1u32 << (33 - w[0].prefix() as u32)) == 0;
        assert!(!joinable);
    }
    for s in &subs {
        assert_eq!(s.addr(), s.start_addr());
    }
}

#[test]
fn subnet_round_trip() {
    let s = subnet("10.1.2.3/16");
    let subs = Ipv4Range::from_subnet(&s).to_subnets();
    assert_eq!(texts(&subs), vec!["10.1.0.0/16"]);
    let s = subnet("0.0.0.0/0");
    assert_eq!(Ipv4Range::from_subnet(&s).to_subnets(), vec![s]);
}

#[test]
fn merge_joins_adjacent_ranges() {
    let mut v = vec![range("10.0.0.2-10.0.0.5"), range("10.0.0.0-10.0.0.1")];
    v.sort();
    merge_ranges(&mut v);
    assert_eq!(v, vec![range("10.0.0.0-10.0.0.5")]);
}

#[test]
fn merge_overlaps_gaps_and_containment() {
    let mut v = vec![
        range("10.0.0.0-10.0.0.10"),
        range("10.0.0.3-10.0.0.4"),
        range("10.0.0.8-10.0.0.20"),
        range("10.0.0.22-10.0.0.30"),
        range("255.255.255.0-255.255.255.255"),
        range("255.255.255.255/32"),
    ];
    merge_ranges(&mut v);
    let out: Vec<String> = v.iter().map(|r| r.to_string()).collect();
    assert_eq!(out, vec!["10.0.0.0 - 10.0.0.20", "10.0.0.22 - 10.0.0.30", "255.255.255.0 - 255.255.255.255"]);
}

#[test]
fn merge_keeps_merged_list() {
    let merged = vec![range("1.0.0.0-1.0.0.5"), range("1.0.0.7-1.0.0.9"), range("2.0.0.0/8")];
    let mut v = merged.clone();
    merge_ranges(&mut v);
    assert_eq!(v, merged);
    let mut empty: Vec<Ipv4Range> = Vec::new();
    merge_ranges(&mut empty);
    assert!(empty.is_empty());
    let mut one = vec![range("3.0.0.0/8")];
    merge_ranges(&mut one);
    assert_eq!(one, vec![range("3.0.0.0/8")]);
}

#[test]
fn text_forms() {
    assert_eq!(range("192.168.1.0-192.168.1.1").to_string(), "192.168.1.0 - 192.168.1.1");
    assert_eq!(subnet("10.1.2.3/16").to_string(), "10.1.2.3/16");
    assert_eq!(addr_to_string(0), "0.0.0.0");
    assert_eq!(addr_to_string(u32::MAX), "255.255.255.255");
    assert_eq!(addr_to_string(addr(1, 20, 100, 9)), "1.20.100.9");
}
