//! Cookie sessions, request text, response splitting, JSON salvage, and the
//! liveness decision.

use proxyscan::candidate::Candidate;
use proxyscan::cookies::CookieJar;
use proxyscan::http::{build_request, handle_response, split_response, ProbeError};
use proxyscan::json::parse_json_response;
use proxyscan::probe::{evaluate_metadata_body, original_ip_of_body, outcome_from_fields};

fn candidate() -> Candidate {
    Candidate {
        ip: "5.5.5.5".to_string(),
        port: 8080,
        country_hint: "ID".to_string(),
        org_hint: "ACME".to_string(),
    }
}

#[test]
fn cookie_jar_collects_set_cookie_lines() {
    let mut jar = CookieJar::new();
    assert!(jar.is_empty());
    assert_eq!(jar.to_header(), "");
    jar.add_from_headers(
        "HTTP/1.1 200 OK\r\nSet-Cookie: a=1; Path=/; HttpOnly\r\nContent-Type: text/html\r\nSET-COOKIE: b=2\r\nset-cookie:   c=3  ",
    );
    assert!(!jar.is_empty());
    assert_eq!(jar.to_header(), "Cookie: a=1; b=2; c=3\r\n");
}

#[test]
fn cookie_jar_keeps_duplicates_in_order() {
    let mut jar = CookieJar::new();
    jar.add_from_headers("Set-Cookie: a=1\r\nSet-Cookie: a=2");
    assert_eq!(jar.to_header(), "Cookie: a=1; a=2\r\n");
}

#[test]
fn request_text_exact() {
    let mut jar = CookieJar::new();
    jar.add_from_headers("Set-Cookie: s=xyz; Path=/");
    let req = build_request("speed.cloudflare.com", "/meta", &jar, false);
    let expected = "GET /meta HTTP/1.1\r\nHost: speed.cloudflare.com\r\nUser-Agent: Mozilla/5.0 (X11; Linux x86_64) AppleWebKit/537.36 (KHTML, like Gecko) Chrome/143.0.0.0 Safari/537.36\r\nAccept: */*\r\nAccept-Language: en-US,en;q=0.8\r\nAccept-Encoding: gzip, deflate, br\r\nConnection: close\r\nCookie: s=xyz\r\n\r\n";
    assert_eq!(req, expected);
}

#[test]
fn request_text_meta_headers_present() {
    let jar = CookieJar::new();
    let req = build_request("speed.cloudflare.com", "/meta", &jar, true);
    assert!(req.starts_with("GET /meta HTTP/1.1\r\nHost: speed.cloudflare.com\r\n"));
    assert!(req.contains("Sec-Fetch-Mode: cors\r\n"));
    assert!(req.contains("Referer: https://speed.cloudflare.com/\r\n"));
    assert!(req.ends_with("\r\n\r\n"));
    assert!(!req.contains("Cookie:"));
}

#[test]
fn split_response_at_first_separator() {
    let raw = b"HTTP/1.1 200 OK\r\nA: b\r\n\r\nbody\r\n\r\nrest";
    let (head, body) = split_response(raw).expect("separator present");
    assert_eq!(head, b"HTTP/1.1 200 OK\r\nA: b");
    assert_eq!(body, b"body\r\n\r\nrest");
}

#[test]
fn split_response_without_separator() {
    assert!(split_response(b"HTTP/1.1 200 OK\r\nA: b").is_none());
}

#[test]
fn handle_response_splits_and_collects_cookies() {
    let mut jar = CookieJar::new();
    let raw = b"HTTP/1.1 200 OK\r\nSet-Cookie: t=1; Max-Age=3\r\n\r\n{\"x\":1}";
    let (head, body) = handle_response(&mut jar, raw).expect("well-formed response");
    assert_eq!(head, "HTTP/1.1 200 OK\r\nSet-Cookie: t=1; Max-Age=3");
    assert_eq!(body, "{\"x\":1}");
    assert_eq!(jar.to_header(), "Cookie: t=1\r\n");
}

#[test]
fn handle_response_malformed() {
    let mut jar = CookieJar::new();
    let r = handle_response(&mut jar, b"no separator here");
    assert_eq!(r, Err(ProbeError::MalformedResponse));
    assert!(jar.is_empty());
}

#[test]
fn json_extraction_tolerates_junk() {
    let doc = parse_json_response("garbage{\"clientIp\":\"9.9.9.9\"}trailing").expect(
        "salvageable",
    );
    assert_eq!(doc, "{\"clientIp\":\"9.9.9.9\"}");
    let v: serde_json::Value = serde_json::from_str(&doc).expect("doc parses");
    assert_eq!(v.get("clientIp").and_then(|x| x.as_str()), Some("9.9.9.9"));
    let (ip, country) = original_ip_of_body("garbage{\"clientIp\":\"9.9.9.9\"}trailing")
        .expect("salvageable");
    assert_eq!(ip, "9.9.9.9");
    assert_eq!(country, None);
}

#[test]
fn json_direct_parse() {
    let doc = parse_json_response(" {\"clientIp\":\"1.2.3.4\",\"n\":5} ").expect("valid");
    assert_eq!(doc, "{\"clientIp\":\"1.2.3.4\",\"n\":5}");
    let (ip, country) = original_ip_of_body(
        "{\"clientIp\":\"1.2.3.4\",\"country\":\"DE\"}",
    )
    .expect("valid");
    assert_eq!(ip, "1.2.3.4");
    assert_eq!(country, Some("DE".to_string()));
}

#[test]
fn original_ip_requires_client_ip() {
    let r = original_ip_of_body("{\"country\":\"DE\"}");
    assert_eq!(r, Err(ProbeError::MissingClientIp));
    let r = original_ip_of_body("not json");
    assert_eq!(r, Err(ProbeError::InvalidJson));
    // a non-string clientIp counts as absent
    let r = original_ip_of_body("{\"clientIp\":5}");
    assert_eq!(r, Err(ProbeError::MissingClientIp));
}

#[test]
fn json_rejects_hopeless_bodies() {
    assert_eq!(parse_json_response("").map(|_| ()), Err(ProbeError::InvalidJson));
    assert_eq!(parse_json_response("   ").map(|_| ()), Err(ProbeError::InvalidJson));
    assert_eq!(parse_json_response("no braces").map(|_| ()), Err(ProbeError::InvalidJson));
    assert_eq!(parse_json_response("}{").map(|_| ()), Err(ProbeError::InvalidJson));
    assert_eq!(parse_json_response("{not json}").map(|_| ()), Err(ProbeError::InvalidJson));
}

#[test]
fn outcome_fallbacks() {
    let o = outcome_from_fields(
        Some("9.9.9.9".to_string()),
        None,
        None,
        "ID",
        "Acme\u{1}<Noise>!",
    )
    .expect("client ip present");
    assert_eq!(o.client_ip, "9.9.9.9");
    assert_eq!(o.country, "ID");
    assert_eq!(o.organization, "AcmeNoise");
}

#[test]
fn outcome_missing_client_ip() {
    let r = outcome_from_fields(None, Some("ID".to_string()), None, "ID", "Acme");
    assert!(matches!(r, Err(ProbeError::MissingClientIp)));
}

#[test]
fn accepted_candidate_yields_enriched_record() {
    let body = "{\"clientIp\":\"5.5.5.5\",\"country\":\"ID\",\"asOrganization\":\"ACME Corp.\"}";
    let rec = evaluate_metadata_body(body, &candidate(), "1.1.1.1").expect("live candidate");
    assert_eq!(rec.ip, "5.5.5.5");
    assert_eq!(rec.port, 8080u16);
    assert_eq!(rec.country, "ID");
    assert_eq!(rec.org, "ACME Corp.");
}

#[test]
fn same_client_ip_yields_no_record() {
    let body = "{\"clientIp\":\"1.1.1.1\",\"country\":\"ID\",\"asOrganization\":\"ACME\"}";
    let r = evaluate_metadata_body(body, &candidate(), "1.1.1.1");
    assert_eq!(r.map(|_| ()), Err(ProbeError::SameClientIp));
}

#[test]
fn missing_client_ip_yields_no_record() {
    let body = "{\"country\":\"ID\"}";
    let r = evaluate_metadata_body(body, &candidate(), "1.1.1.1");
    assert_eq!(r.map(|_| ()), Err(ProbeError::MissingClientIp));
}

#[test]
fn unparseable_body_yields_no_record() {
    let r = evaluate_metadata_body("<html>dead proxy</html>", &candidate(), "1.1.1.1");
    assert_eq!(r.map(|_| ()), Err(ProbeError::InvalidJson));
}

#[test]
fn metadata_org_is_sanitized() {
    let body = "{\"clientIp\":\"5.5.5.5\",\"asOrganization\":\"A©CM™E, Ltd.\"}";
    let rec = evaluate_metadata_body(body, &candidate(), "1.1.1.1").expect("live candidate");
    assert_eq!(rec.org, "ACME, Ltd.");
    assert_eq!(rec.country, "ID");
}
