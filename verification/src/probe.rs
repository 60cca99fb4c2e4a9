//! The per-candidate session protocol's decisions: what the metadata
//! response means for one candidate. The binary around the library drives
//! the two network requests; every choice made on the returned values
//! stands here.
//!
//! Landing-step policy: a failed landing request is advisory only — its
//! sole purpose is cookie priming — so the metadata step proceeds
//! regardless of the landing outcome.

use vstd::prelude::*;

verus! {

use crate::candidate::{Candidate, ProxyRecord};
use crate::http::ProbeError;
use crate::json::{field_str_of, json_salvage, parse_json_response, parse_string_field};
use crate::sanitize::{clean_org_name, lemma_sanitize_idempotent, sanitize_spec};
use crate::text::str_eq;

/// The authoritative fields of one metadata response, after the file hints
/// have filled any gaps.
pub struct ProbeOutcome {
    pub client_ip: String,
    pub country: String,
    pub organization: String,
}

/// Combines the extracted JSON fields with the candidate's file hints:
/// `clientIp` is required, `country` falls back to the hint, the
/// organization falls back to its hint and is sanitized either way.
pub fn outcome_from_fields(
    client_ip: Option<String>,
    country: Option<String>,
    org: Option<String>,
    country_hint: &str,
    org_hint: &str,
) -> (r: Result<ProbeOutcome, ProbeError>)
    ensures
        match client_ip {
            None => r == Err::<ProbeOutcome, ProbeError>(ProbeError::MissingClientIp),
            Some(ip) => r matches Ok(o) && o.client_ip@ == ip@ && o.country@ == (match country {
                Some(c) => c@,
                None => country_hint@,
            }) && o.organization@ == sanitize_spec(
                match org {
                    Some(g) => g@,
                    None => org_hint@,
                },
            ),
        },
{
    match client_ip {
        None => Err(ProbeError::MissingClientIp),
        Some(ip) => {
            let country_val = match country {
                Some(c) => c,
                None => country_hint.to_owned(),
            };
            let org_val = match org {
                Some(g) => clean_org_name(g.as_str()),
                None => clean_org_name(org_hint),
            };
            Ok(ProbeOutcome { client_ip: ip, country: country_val, organization: org_val })
        },
    }
}

/// The sole liveness criterion: the metadata endpoint must have seen a
/// client IP other than the caller's own. Equal means the candidate is not
/// relaying; different yields the accepted record, built from the
/// candidate's address and the outcome's country and organization.
pub fn decide_liveness(outcome: ProbeOutcome, original_ip: &str, cand: &Candidate) -> (r: Option<
    ProxyRecord,
>)
    ensures
        outcome.client_ip@ == original_ip@ ==> r is None,
        outcome.client_ip@ != original_ip@ ==> (r matches Some(rec) && rec.ip@ == cand.ip@
            && rec.port == cand.port && rec.country@ == outcome.country@ && rec.org@
            == outcome.organization@),
{
    if str_eq(outcome.client_ip.as_str(), original_ip) {
        None
    } else {
        Some(
            ProxyRecord {
                ip: cand.ip.clone(),
                port: cand.port,
                country: outcome.country,
                org: outcome.organization,
            },
        )
    }
}

/// Reads the caller's own client IP, and country when given, from the
/// untunneled metadata response at scan startup. It succeeds exactly when
/// the body yields a JSON document whose `clientIp` is a string, and
/// returns that field; startup treats either failure as fatal.
pub fn original_ip_of_body(body: &str) -> (r: Result<(String, Option<String>), ProbeError>)
    ensures
        match json_salvage(body@) {
            None => r == Err::<(String, Option<String>), ProbeError>(ProbeError::InvalidJson),
            Some(doc) => match field_str_of(doc, "clientIp"@) {
                None => r == Err::<(String, Option<String>), ProbeError>(
                    ProbeError::MissingClientIp,
                ),
                Some(ip) => r matches Ok(p) && p.0@ == ip && (match field_str_of(
                    doc,
                    "country"@,
                ) {
                    Some(c) => p.1 matches Some(s) && s@ == c,
                    None => p.1 is None,
                }),
            },
        },
{
    let doc = match parse_json_response(body) {
        Ok(d) => d,
        Err(e) => {
            return Err(e);
        },
    };
    match parse_string_field(doc.as_str(), "clientIp") {
        Some(ip) => Ok((ip, parse_string_field(doc.as_str(), "country"))),
        None => Err(ProbeError::MissingClientIp),
    }
}

/// Evaluates one metadata response body for a candidate: parses the JSON,
/// extracts the fields, and applies the liveness criterion. A body with a
/// salvageable document whose `clientIp` is a string and differs from the
/// caller's own IP yields exactly the record built from the candidate's
/// address and the document's country and sanitized organization, with the
/// file hints filling absent fields; every other body rejects the
/// candidate, with the error saying why.
pub fn evaluate_metadata_body(body: &str, cand: &Candidate, original_ip: &str) -> (r: Result<
    ProxyRecord,
    ProbeError,
>)
    ensures
        match json_salvage(body@) {
            None => r == Err::<ProxyRecord, ProbeError>(ProbeError::InvalidJson),
            Some(doc) => match field_str_of(doc, "clientIp"@) {
                None => r == Err::<ProxyRecord, ProbeError>(ProbeError::MissingClientIp),
                Some(ip) => if ip == original_ip@ {
                    r == Err::<ProxyRecord, ProbeError>(ProbeError::SameClientIp)
                } else {
                    r matches Ok(rec) && rec.ip@ == cand.ip@ && rec.port == cand.port
                        && rec.country@ == (match field_str_of(doc, "country"@) {
                        Some(c) => c,
                        None => cand.country_hint@,
                    }) && rec.org@ == sanitize_spec(
                        match field_str_of(doc, "asOrganization"@) {
                            Some(g) => g,
                            None => cand.org_hint@,
                        },
                    )
                },
            },
        },
        r matches Ok(rec) ==> rec.org@ == sanitize_spec(rec.org@),
{
    let doc = match parse_json_response(body) {
        Ok(d) => d,
        Err(e) => {
            return Err(e);
        },
    };
    let client_ip = parse_string_field(doc.as_str(), "clientIp");
    let country = parse_string_field(doc.as_str(), "country");
    let org = parse_string_field(doc.as_str(), "asOrganization");
    let ghost org_src = match &org {
        Some(g) => g@,
        None => cand.org_hint@,
    };
    let outcome = match outcome_from_fields(
        client_ip,
        country,
        org,
        cand.country_hint.as_str(),
        cand.org_hint.as_str(),
    ) {
        Ok(o) => o,
        Err(e) => {
            return Err(e);
        },
    };
    proof {
        lemma_sanitize_idempotent(org_src);
    }
    match decide_liveness(outcome, original_ip, cand) {
        Some(rec) => Ok(rec),
        None => Err(ProbeError::SameClientIp),
    }
}

} // verus!
