//! Deduplication, the two orderings, the summary, and sanitization.

use proxyscan::candidate::ProxyRecord;
use proxyscan::results::{
    country_summary, remove_duplicates, sort_az_countries, sort_priority_countries,
};
use proxyscan::sanitize::clean_org_name;

fn rec(ip: &str, port: u16, country: &str, org: &str) -> ProxyRecord {
    ProxyRecord {
        ip: ip.to_string(),
        port,
        country: country.to_string(),
        org: org.to_string(),
    }
}

fn priority() -> Vec<String> {
    vec!["ID".to_string(), "MY".to_string(), "SG".to_string(), "HK".to_string()]
}

#[test]
fn duplicates_first_seen_wins() {
    let input = vec![
        rec("5.5.5.5", 8080, "ID", "First Org"),
        rec("6.6.6.6", 80, "US", "Other"),
        rec("5.5.5.5", 8080, "SG", "Second Org"),
    ];
    let out = remove_duplicates(input);
    assert_eq!(out.len(), 2);
    assert_eq!(out[0].ip, "5.5.5.5");
    assert_eq!(out[0].org, "First Org");
    assert_eq!(out[0].country, "ID");
    assert_eq!(out[1].ip, "6.6.6.6");
}

#[test]
fn duplicates_same_ip_different_port_kept() {
    let input = vec![rec("5.5.5.5", 8080, "ID", "A"), rec("5.5.5.5", 8081, "ID", "B")];
    let out = remove_duplicates(input);
    assert_eq!(out.len(), 2);
}

#[test]
fn output_pairs_are_unique() {
    let input = vec![
        rec("1.1.1.1", 1, "A", "x"),
        rec("1.1.1.1", 1, "B", "y"),
        rec("1.1.1.1", 2, "C", "z"),
        rec("1.1.1.1", 1, "D", "w"),
        rec("2.2.2.2", 1, "E", "v"),
    ];
    let out = remove_duplicates(input);
    for i in 0..out.len() {
        for j in (i + 1)..out.len() {
            assert!(out[i].ip != out[j].ip || out[i].port != out[j].port);
        }
    }
    assert_eq!(out.len(), 3);
}

#[test]
fn az_sort_is_nondecreasing_and_stable() {
    let mut v = vec![
        rec("1.1.1.1", 1, "US", "u1"),
        rec("2.2.2.2", 2, "DE", "d1"),
        rec("3.3.3.3", 3, "US", "u2"),
        rec("4.4.4.4", 4, "AT", "a1"),
    ];
    sort_az_countries(&mut v);
    let countries: Vec<&str> = v.iter().map(|r| r.country.as_str()).collect();
    assert_eq!(countries, vec!["AT", "DE", "US", "US"]);
    for w in v.windows(2) {
        assert!(w[0].country <= w[1].country);
    }
    // ties keep arrival order
    assert_eq!(v[2].org, "u1");
    assert_eq!(v[3].org, "u2");
}

#[test]
fn priority_sort_order() {
    let mut v = vec![
        rec("1.1.1.1", 1, "US", "u"),
        rec("2.2.2.2", 2, "HK", "h"),
        rec("3.3.3.3", 3, "DE", "d"),
        rec("4.4.4.4", 4, "ID", "i1"),
        rec("5.5.5.5", 5, "SG", "s"),
        rec("6.6.6.6", 6, "ID", "i2"),
        rec("7.7.7.7", 7, "AT", "a"),
    ];
    let pl = priority();
    sort_priority_countries(&mut v, &pl);
    let countries: Vec<&str> = v.iter().map(|r| r.country.as_str()).collect();
    assert_eq!(countries, vec!["ID", "ID", "SG", "HK", "AT", "DE", "US"]);
    // ties among one priority country keep arrival order
    assert_eq!(v[0].org, "i1");
    assert_eq!(v[1].org, "i2");
    // every priority record before every non-priority record
    let first_other = countries.iter().position(|c| !pl.iter().any(|p| p == c)).unwrap();
    for c in &countries[first_other..] {
        assert!(!pl.iter().any(|p| p == c));
    }
}

#[test]
fn summary_counts_and_order() {
    let v = vec![
        rec("1.1.1.1", 1, "US", "u"),
        rec("2.2.2.2", 2, "ID", "i"),
        rec("3.3.3.3", 3, "US", "u"),
        rec("4.4.4.4", 4, "HK", "h"),
        rec("5.5.5.5", 5, "DE", "d"),
        rec("6.6.6.6", 6, "ID", "i"),
    ];
    let summary = country_summary(&v, &priority());
    let expect = vec![
        ("ID".to_string(), 2usize),
        ("HK".to_string(), 1usize),
        ("DE".to_string(), 1usize),
        ("US".to_string(), 2usize),
    ];
    assert_eq!(summary, expect);
}

#[test]
fn summary_empty_input() {
    let v: Vec<ProxyRecord> = Vec::new();
    assert_eq!(country_summary(&v, &priority()), Vec::<(String, usize)>::new());
}

#[test]
fn sorts_handle_empty_and_single() {
    let mut v: Vec<ProxyRecord> = Vec::new();
    sort_az_countries(&mut v);
    assert!(v.is_empty());
    sort_priority_countries(&mut v, &priority());
    assert!(v.is_empty());
    let mut one = vec![rec("1.1.1.1", 1, "US", "u")];
    sort_az_countries(&mut one);
    assert_eq!(one.len(), 1);
    assert_eq!(one[0].country, "US");
}

#[test]
fn dedup_handles_empty() {
    let out = remove_duplicates(Vec::new());
    assert!(out.is_empty());
}

#[test]
fn priority_sort_all_priority() {
    let mut v = vec![
        rec("1.1.1.1", 1, "HK", "h"),
        rec("2.2.2.2", 2, "ID", "i"),
        rec("3.3.3.3", 3, "MY", "m"),
    ];
    sort_priority_countries(&mut v, &priority());
    let countries: Vec<&str> = v.iter().map(|r| r.country.as_str()).collect();
    assert_eq!(countries, vec!["ID", "MY", "HK"]);
}

#[test]
fn sanitization_keeps_allowlist_only() {
    assert_eq!(clean_org_name("ACME Corp.©®"), "ACME Corp.");
    assert_eq!(clean_org_name("A\u{0}B\tC-D,E.F"), "AB\tC-D,E.F");
    assert_eq!(clean_org_name("<script>"), "script");
    assert_eq!(clean_org_name(""), "");
}

#[test]
fn sanitization_is_idempotent() {
    for raw in ["ACME Corp.©®", "  spaced  out  ", "\u{1}\u{2}weird\u{3}", "já-pô, ltd."] {
        let once = clean_org_name(raw);
        let twice = clean_org_name(&once);
        assert_eq!(once, twice);
    }
}
