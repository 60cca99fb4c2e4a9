//! Input-line parsing, number formatting, and text helpers.

use proxyscan::candidate::{candidate_lines, parse_proxy_line, record_line, ProxyRecord};
use proxyscan::numbers::{parse_u16, u16_to_string};
use proxyscan::text::{find_char, find_last_char, split_char, str_eq, str_le, trim};

#[test]
fn parse_valid_line() {
    let c = parse_proxy_line("5.5.5.5,8080,ID,ACME").expect("well-formed line");
    assert_eq!(c.ip, "5.5.5.5");
    assert_eq!(c.port, 8080u16);
    assert_eq!(c.country_hint, "ID");
    assert_eq!(c.org_hint, "ACME");
}

#[test]
fn parse_bad_port_is_rejected() {
    assert!(parse_proxy_line("1.2.3.4,notaport,ID,Foo").is_none());
}

#[test]
fn parse_short_line_is_rejected() {
    assert!(parse_proxy_line("1.2.3.4").is_none());
}

#[test]
fn parse_extra_fields_ignored() {
    let c = parse_proxy_line("1.2.3.4,80,US,Acme,extra,junk").expect("four fields suffice");
    assert_eq!(c.port, 80u16);
    assert_eq!(c.org_hint, "Acme");
}

#[test]
fn parse_port_edge_cases() {
    assert_eq!(parse_u16("0"), Some(0u16));
    assert_eq!(parse_u16("65535"), Some(65535u16));
    assert_eq!(parse_u16("65536"), None);
    assert_eq!(parse_u16("70000"), None);
    assert_eq!(parse_u16("+80"), Some(80u16));
    assert_eq!(parse_u16("+"), None);
    assert_eq!(parse_u16(""), None);
    assert_eq!(parse_u16("8 0"), None);
    assert_eq!(parse_u16("008"), Some(8u16));
}

#[test]
fn candidate_lines_skip_comments_and_blanks() {
    let content = "# header comment\n1.1.1.1,80,US,A\n\n   \n  2.2.2.2,81,ID,B  \n#tail\n";
    let lines = candidate_lines(content);
    assert_eq!(lines, vec!["1.1.1.1,80,US,A".to_string(), "2.2.2.2,81,ID,B".to_string()]);
}

#[test]
fn malformed_lines_are_dropped_without_crashing() {
    let content = "1.2.3.4,notaport,ID,Foo\n1.2.3.4\n5.5.5.5,8080,ID,ACME\n";
    let mut kept = Vec::new();
    for line in candidate_lines(content) {
        if let Some(c) = parse_proxy_line(&line) {
            kept.push(c);
        }
    }
    assert_eq!(kept.len(), 1);
    assert_eq!(kept[0].ip, "5.5.5.5");
}

#[test]
fn u16_to_string_exact() {
    assert_eq!(u16_to_string(0), "0");
    assert_eq!(u16_to_string(7), "7");
    assert_eq!(u16_to_string(80), "80");
    assert_eq!(u16_to_string(8080), "8080");
    assert_eq!(u16_to_string(65535), "65535");
}

#[test]
fn record_line_exact() {
    let rec = ProxyRecord {
        ip: "1.2.3.4".to_string(),
        port: 80,
        country: "US".to_string(),
        org: "Acme Inc.".to_string(),
    };
    assert_eq!(record_line(&rec), "1.2.3.4,80,US,Acme Inc.");
}

#[test]
fn text_helpers() {
    assert_eq!(trim("  a b\t\n"), "a b");
    assert_eq!(trim("   "), "");
    assert_eq!(trim("x"), "x");
    assert_eq!(split_char("a,b,,c", ','), vec!["a", "b", "", "c"]);
    assert_eq!(split_char("", ','), vec![""]);
    assert_eq!(find_char("abca", 'a'), Some(0));
    assert_eq!(find_last_char("abca", 'a'), Some(3));
    assert_eq!(find_char("abc", 'z'), None);
    assert!(str_eq("same", "same"));
    assert!(!str_eq("same", "sama"));
    assert!(str_le("AB", "AC"));
    assert!(str_le("AB", "AB"));
    assert!(str_le("AB", "ABC"));
    assert!(!str_le("B", "AZ"));
}
