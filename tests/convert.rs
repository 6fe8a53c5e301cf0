use std::str::FromStr;

use ripcal::convert::{
    get_output_type, ipaddr_to_string, output_line, process_ipaddress, swap_bytes, Config, InputType,
};
use ripcal::iprange::{Ipv4Range, Ipv4Subnet};
use ripcal::merge::{process_ranges, ranges_to_subnets, sort_ranges};
use ripcal::text::{range_list_to_string, subnet_list_to_string};

fn range(s: &str) -> Ipv4Range {
    Ipv4Range::from_str(s).unwrap()
}

fn ok(a: &str, config: &Config) -> String {
    process_ipaddress(a, config).unwrap()
}

fn err(a: &str) -> String {
    process_ipaddress(a, &Config::default_config()).unwrap_err()
}

#[test]
fn default_config_values() {
    let c = Config::default_config();
    assert!(!c.reverse_bytes);
    assert!(!c.filter_mode);
    assert_eq!(c.output_type, None);
}

#[test]
fn output_type_follows_input() {
    assert_eq!(get_output_type(InputType::IpQuad, None), InputType::HexaDecimal);
    assert_eq!(get_output_type(InputType::DecaDecimal, None), InputType::IpQuad);
    assert_eq!(get_output_type(InputType::HexaDecimal, None), InputType::IpQuad);
    assert_eq!(get_output_type(InputType::IpQuad, Some(InputType::DecaDecimal)), InputType::DecaDecimal);
}

#[test]
fn address_in_each_form() {
    assert_eq!(ipaddr_to_string(0xc0a8_0101, InputType::DecaDecimal, false), "3232235777");
    assert_eq!(ipaddr_to_string(0xc0a8_0101, InputType::HexaDecimal, false), "0xc0a80101");
    assert_eq!(ipaddr_to_string(0xc0a8_0101, InputType::IpQuad, false), "192.168.1.1");
    assert_eq!(ipaddr_to_string(0xc0a8_0101, InputType::IpQuad, true), "1.1.168.192");
    assert_eq!(ipaddr_to_string(0xc0a8_0101, InputType::DecaDecimal, true), "16885952");
    assert_eq!(ipaddr_to_string(0, InputType::HexaDecimal, false), "0x0");
    assert_eq!(ipaddr_to_string(u32::MAX, InputType::DecaDecimal, false), "4294967295");
}

#[test]
fn bytes_reverse() {
    assert_eq!(swap_bytes(0x0102_0304), 0x0403_0201);
    assert_eq!(swap_bytes(0xff00_0000), 0x0000_00ff);
}

#[test]
fn single_addresses_convert() {
    let c = Config::default_config();
    assert_eq!(ok("192.168.1.1", &c), "0xc0a80101");
    assert_eq!(ok("3232235777", &c), "192.168.1.1");
    assert_eq!(ok("+3232235777", &c), "192.168.1.1");
    assert_eq!(ok("0xc0a80101", &c), "192.168.1.1");
    assert_eq!(ok("c0a80101", &c), "192.168.1.1");
    assert_eq!(ok("C0A80101", &c), "192.168.1.1");
    let c = Config { output_type: Some(InputType::DecaDecimal), ..Config::default_config() };
    assert_eq!(ok("192.168.1.1", &c), "3232235777");
    let c = Config { reverse_bytes: true, ..Config::default_config() };
    assert_eq!(ok("192.168.1.1", &c), "0x101a8c0");
}

#[test]
fn invalid_inputs_are_named() {
    assert_eq!(err("4294967296"), "Invalid IP address: 4294967296");
    assert_eq!(err("0x100000000"), "Invalid IP address: 0x100000000");
    assert_eq!(err("zz"), "Invalid IP address: zz");
    assert_eq!(err("10.0.0.9-10.0.0.1"), "Invalid IP range: 10.0.0.9-10.0.0.1");
    assert_eq!(err("1.2.3.4/33"), "Invalid IP subnet: 1.2.3.4/33");
    assert_eq!(err("1.2.3/8"), "Invalid IP subnet: 1.2.3/8");
}

#[test]
fn subnets_and_ranges_are_summarised() {
    let c = Config::default_config();
    assert_eq!(
        ok("192.168.18.77/24", &c),
        "192.168.18.77/24\n192.168.18.77/24 = 192.168.18.0 - 192.168.18.255"
    );
    assert_eq!(ok("10.0.0.1 - 10.0.0.6", &c), "10.0.0.1/29\n10.0.0.1/29 = 10.0.0.0 - 10.0.0.7");
    assert_eq!(ok("0.0.0.0-255.255.255.255", &c), "0.0.0.0/0\n0.0.0.0/0 = 0.0.0.0 - 255.255.255.255");
}

#[test]
fn output_lines() {
    let c = Config::default_config();
    assert_eq!(output_line("0xc0a80101", "192.168.1.1", &c), "192.168.1.1 = 0xc0a80101");
    let c = Config { reverse_bytes: true, ..Config::default_config() };
    assert_eq!(output_line("0x101a8c0", "192.168.1.1", &c), "Reverse 192.168.1.1 = 0x101a8c0");
    let c = Config { filter_mode: true, reverse_bytes: true, ..Config::default_config() };
    assert_eq!(output_line("0x101a8c0", "192.168.1.1", &c), "0x101a8c0");
}

#[test]
fn sorting_orders_by_start_then_end() {
    let mut v = vec![range("10.0.0.5-10.0.0.9"), range("10.0.0.1-10.0.0.3"), range("10.0.0.1-10.0.0.2")];
    sort_ranges(&mut v);
    assert_eq!(v, vec![range("10.0.0.1-10.0.0.2"), range("10.0.0.1-10.0.0.3"), range("10.0.0.5-10.0.0.9")]);
}

#[test]
fn ranges_merge_and_decompose() {
    let mut v = vec![range("10.0.0.4-10.0.0.6"), range("10.0.0.0/30"), range("10.0.0.10-10.0.0.10")];
    let subs = process_ranges(&mut v);
    assert_eq!(range_list_to_string(&v), "[10.0.0.0 - 10.0.0.6, 10.0.0.10 - 10.0.0.10]");
    assert_eq!(subnet_list_to_string(&subs), "[10.0.0.0/30, 10.0.0.4/31, 10.0.0.6/32, 10.0.0.10/32]");
}

#[test]
fn decompositions_are_concatenated() {
    let v = vec![range("10.0.0.3-10.0.0.4"), range("192.168.0.0/16")];
    let subs = ranges_to_subnets(&v);
    assert_eq!(subnet_list_to_string(&subs), "[10.0.0.3/32, 10.0.0.4/32, 192.168.0.0/16]");
}

#[test]
fn empty_and_single_lists() {
    assert_eq!(subnet_list_to_string(&Vec::<Ipv4Subnet>::new()), "[]");
    assert_eq!(range_list_to_string(&Vec::<Ipv4Range>::new()), "[]");
    assert_eq!(range_list_to_string(&vec![range("1.2.3.4/32")]), "[1.2.3.4 - 1.2.3.4]");
}

#[test]
fn merged_ranges_hold_each_address_once() {
    let input = vec![
        range("0.0.0.3-0.0.0.9"),
        range("0.0.0.0-0.0.0.4"),
        range("0.0.0.12-0.0.0.12"),
        range("0.0.0.10-0.0.0.10"),
        range("0.0.0.20-0.0.0.25"),
    ];
    let mut merged = input.clone();
    process_ranges(&mut merged);
    for x in 0u32..32 {
        let in_input = input.iter().any(|r| r.start() <= x && x <= r.end());
        let holders = merged.iter().filter(|r| r.start() <= x && x <= r.end()).count();
        assert_eq!(holders, if in_input { 1 } else { 0 });
    }
    for w in merged.windows(2) {
        assert!(w[0].end() as u64 + 1 < w[1].start() as u64);
    }
}
