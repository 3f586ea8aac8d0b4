use compare_sets::ip::{ip_to_u32, is_ip, parse_ip};
use compare_sets::text::chars_of;

fn ip(s: &str) -> bool {
    is_ip(&s.to_string())
}

#[test]
fn broadcast_address_is_ip_with_largest_value() {
    assert!(ip("255.255.255.255"));
    assert_eq!(ip_to_u32("255.255.255.255"), 4294967295);
}

#[test]
fn octet_out_of_range_is_not_ip() {
    assert!(!ip("10.0.0.256"));
    assert!(!ip("1.2.3.256"));
    assert!(!ip("256.0.0.0"));
    assert!(!ip("1.999.3.4"));
}

#[test]
fn host_name_is_not_ip() {
    assert!(!ip("host.example.com"));
    assert!(!ip("a.b.c.d"));
    assert!(!ip("alpha"));
}

#[test]
fn wrong_number_of_parts_is_not_ip() {
    assert!(!ip("1.2.3"));
    assert!(!ip("1.2.3.4.5"));
    assert!(!ip("1"));
    assert!(!ip(""));
    assert!(!ip("..."));
}

#[test]
fn empty_part_is_not_ip() {
    assert!(!ip("1..2.3"));
    assert!(!ip(".1.2.3"));
    assert!(!ip("1.2.3."));
    assert!(!ip("1.2.3.4."));
}

#[test]
fn leading_zeros_are_accepted() {
    assert!(ip("01.2.3.4"));
    assert_eq!(ip_to_u32("01.2.3.4"), 16909060);
    assert!(ip("000000000000000000000001.002.0003.00004"));
    assert_eq!(ip_to_u32("000000000000000000000001.002.0003.00004"), 16909060);
    assert!(ip("0.0.0.0"));
    assert_eq!(ip_to_u32("0.0.0.0"), 0);
}

#[test]
fn sign_or_blank_is_not_ip() {
    assert!(!ip("+1.2.3.4"));
    assert!(!ip("1.+2.3.4"));
    assert!(!ip("-1.2.3.4"));
    assert!(!ip(" 1.2.3.4"));
    assert!(!ip("1.2.3.4 "));
    assert!(!ip("1. 2.3.4"));
    assert!(!ip("1.2.3.4\n"));
}

#[test]
fn digits_of_other_scripts_are_not_ip() {
    assert!(!ip("\u{0661}.2.3.4"));
    assert!(!ip("1.2.3.\u{ff14}"));
}

#[test]
fn very_long_octet_is_not_ip() {
    assert!(!ip("99999999999999999999999999.1.1.1"));
    assert!(!ip("1.1.1.4294967297"));
    assert_eq!(ip_to_u32("1.1.1.4294967297"), 0);
}

#[test]
fn ordering_value_is_big_endian() {
    assert_eq!(ip_to_u32("0.0.0.1"), 1);
    assert_eq!(ip_to_u32("0.0.1.0"), 256);
    assert_eq!(ip_to_u32("0.1.0.0"), 65536);
    assert_eq!(ip_to_u32("1.0.0.0"), 16777216);
    assert_eq!(ip_to_u32("1.2.3.4"), 16909060);
    assert_eq!(ip_to_u32("10.0.0.1"), 167772161);
    assert_eq!(ip_to_u32("192.168.1.10"), 3232235786);
}

#[test]
fn ordering_value_of_other_text_is_zero() {
    assert_eq!(ip_to_u32("host.example.com"), 0);
    assert_eq!(ip_to_u32("10.0.0.256"), 0);
    assert_eq!(ip_to_u32(""), 0);
    assert_eq!(ip_to_u32("1.2.3"), 0);
}

#[test]
fn parse_ip_gives_number_or_none() {
    assert_eq!(parse_ip(&chars_of("1.2.3.4")), Some(16909060));
    assert_eq!(parse_ip(&chars_of("255.255.255.255")), Some(u32::MAX));
    assert_eq!(parse_ip(&chars_of("0.0.0.0")), Some(0));
    assert_eq!(parse_ip(&chars_of("1.2.3")), None);
    assert_eq!(parse_ip(&chars_of("1.2.3.x")), None);
    assert_eq!(parse_ip(&vec![]), None);
}

#[test]
fn every_pair_of_octets_gives_its_number() {
    for a in [0u32, 1, 9, 10, 99, 100, 199, 200, 249, 250, 255] {
        for b in [0u32, 7, 128, 255] {
            let s = format!("{}.{}.{}.{}", a, b, b, a);
            assert!(is_ip(&s));
            assert_eq!(ip_to_u32(&s), (a << 24) + (b << 16) + (b << 8) + a);
        }
    }
    for a in [256u32, 260, 300, 1000, 25500] {
        let s = format!("{}.0.0.0", a);
        assert!(!is_ip(&s));
        let t = format!("0.0.0.{}", a);
        assert!(!is_ip(&t));
    }
}

#[test]
fn chars_of_gives_the_characters_in_order() {
    assert_eq!(chars_of("a.b"), vec!['a', '.', 'b']);
    assert_eq!(chars_of(""), Vec::<char>::new());
    assert_eq!(chars_of("h\u{e9}\u{3000}"), vec!['h', '\u{e9}', '\u{3000}']);
}
