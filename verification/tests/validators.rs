//! The value validators, the decimal parser and the email check.

use vyos_config::auth::check_email;
use vyos_config::model::ValidationRule;
use vyos_config::validate::{check_value, parse_i64};

#[test]
fn ipv4_accepts_dotted_quads() {
    let rule = ValidationRule::IpAddress;
    assert!(check_value(&rule, "192.168.1.1"));
    assert!(check_value(&rule, "0.0.0.0"));
    assert!(check_value(&rule, "255.255.255.255"));
}

#[test]
fn ipv4_rejects_malformed_addresses() {
    let rule = ValidationRule::IpAddress;
    assert!(!check_value(&rule, ""));
    assert!(!check_value(&rule, "192.168.1"));
    assert!(!check_value(&rule, "192.168.1.1.1"));
    assert!(!check_value(&rule, "192.168.1.256"));
    assert!(!check_value(&rule, "192.168..1"));
    assert!(!check_value(&rule, "a.b.c.d"));
    assert!(!check_value(&rule, "1234.1.1.1"));
}

#[test]
fn cidr_accepts_prefixed_addresses() {
    let rule = ValidationRule::Cidr;
    assert!(check_value(&rule, "192.168.1.1/24"));
    assert!(check_value(&rule, "10.0.0.0/8"));
    assert!(check_value(&rule, "0.0.0.0/0"));
    assert!(check_value(&rule, "172.16.0.0/32"));
}

#[test]
fn cidr_rejects_bad_prefixes() {
    let rule = ValidationRule::Cidr;
    assert!(!check_value(&rule, "192.168.1.1"));
    assert!(!check_value(&rule, "192.168.1.1/33"));
    assert!(!check_value(&rule, "192.168.1.1/"));
    assert!(!check_value(&rule, "192.168.1.256/24"));
    assert!(!check_value(&rule, "192.168.1.1/24/12"));
}

#[test]
fn mac_accepts_colon_separated_pairs() {
    let rule = ValidationRule::MacAddress;
    assert!(check_value(&rule, "00:11:22:aa:bb:cc"));
    assert!(check_value(&rule, "FF:EE:DD:CC:BB:AA"));
}

#[test]
fn mac_rejects_malformed_addresses() {
    let rule = ValidationRule::MacAddress;
    assert!(!check_value(&rule, "00:11:22:aa:bb"));
    assert!(!check_value(&rule, "00-11-22-aa-bb-cc"));
    assert!(!check_value(&rule, "00:11:22:aa:bb:cg"));
    assert!(!check_value(&rule, ""));
}

#[test]
fn port_accepts_the_full_range() {
    let rule = ValidationRule::Port;
    assert!(check_value(&rule, "0"));
    assert!(check_value(&rule, "22"));
    assert!(check_value(&rule, "65535"));
}

#[test]
fn port_rejects_out_of_range_values() {
    let rule = ValidationRule::Port;
    assert!(!check_value(&rule, "65536"));
    assert!(!check_value(&rule, "123456"));
    assert!(!check_value(&rule, "-1"));
    assert!(!check_value(&rule, "2a"));
    assert!(!check_value(&rule, ""));
}

#[test]
fn boolean_accepts_only_the_two_literals() {
    let rule = ValidationRule::Boolean;
    assert!(check_value(&rule, "true"));
    assert!(check_value(&rule, "false"));
    assert!(!check_value(&rule, "True"));
    assert!(!check_value(&rule, "1"));
    assert!(!check_value(&rule, ""));
}

#[test]
fn enumeration_checks_membership() {
    let rule = ValidationRule::Enum {
        values: vec!["dhcp".to_string(), "static".to_string()],
    };
    assert!(check_value(&rule, "dhcp"));
    assert!(check_value(&rule, "static"));
    assert!(!check_value(&rule, "bootp"));
    assert!(!check_value(&rule, ""));
}

#[test]
fn integer_rule_enforces_bounds() {
    let rule = ValidationRule::Integer {
        min: Some(1),
        max: Some(1500),
    };
    assert!(check_value(&rule, "1"));
    assert!(check_value(&rule, "1500"));
    assert!(!check_value(&rule, "0"));
    assert!(!check_value(&rule, "1501"));
    assert!(!check_value(&rule, "abc"));
    assert!(check_value(&ValidationRule::Integer { min: None, max: None }, "-42"));
}

#[test]
fn string_rule_enforces_length_and_fragment() {
    let rule = ValidationRule::String {
        min_length: Some(2),
        max_length: Some(5),
        pattern: Some("th".to_string()),
    };
    assert!(check_value(&rule, "eth0"));
    assert!(!check_value(&rule, "e"));
    assert!(!check_value(&rule, "ethernet"));
    assert!(!check_value(&rule, "abc"));
}

#[test]
fn parse_i64_round_trips_the_limits() {
    assert_eq!(parse_i64("0"), Some(0));
    assert_eq!(parse_i64("-1"), Some(-1));
    assert_eq!(parse_i64("9223372036854775807"), Some(i64::MAX));
    assert_eq!(parse_i64("-9223372036854775808"), Some(i64::MIN));
    assert_eq!(parse_i64("9223372036854775808"), None);
    assert_eq!(parse_i64("-9223372036854775809"), None);
    assert_eq!(parse_i64(""), None);
    assert_eq!(parse_i64("-"), None);
    assert_eq!(parse_i64("12a"), None);
    assert_eq!(parse_i64("007"), Some(7));
}

#[test]
fn email_check_wants_local_part_and_dotted_domain() {
    assert!(check_email("valid@example.com"));
    assert!(!check_email("invalid-email"));
    assert!(!check_email("@example.com"));
    assert!(!check_email("user@nodot"));
    assert!(!check_email("user@"));
}
