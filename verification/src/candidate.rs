//! Candidates and accepted records: input-line parsing and output-line
//! formatting.

use vstd::prelude::*;

verus! {

use crate::numbers::{dec_str, parse_u16, parse_u16_spec, u16_to_string};
use crate::text::{lines_of, lines_spec, push_char, split_char, split_char_spec, trim, trim_spec};

/// A candidate proxy parsed from one input line, before probing.
pub struct Candidate {
    pub ip: String,
    pub port: u16,
    pub country_hint: String,
    pub org_hint: String,
}

/// The accepted, enriched result for one live candidate.
pub struct ProxyRecord {
    pub ip: String,
    pub port: u16,
    pub country: String,
    pub org: String,
}

impl Clone for ProxyRecord {
    fn clone(&self) -> (r: Self)
        ensures
            r == *self,
    {
        ProxyRecord {
            ip: self.ip.clone(),
            port: self.port,
            country: self.country.clone(),
            org: self.org.clone(),
        }
    }
}

/// What one input line denotes: `ip,port,country,org` with at least four
/// comma-separated fields and a port `str::parse::<u16>` accepts; fields
/// past the fourth are ignored.
pub open spec fn parse_line_spec(line: Seq<char>) -> Option<(Seq<char>, u16, Seq<char>, Seq<char>)> {
    let parts = split_char_spec(line, ',');
    if parts.len() < 4 {
        None
    } else {
        match parse_u16_spec(parts[1]) {
            Some(p) => Some((parts[0], p, parts[2], parts[3])),
            None => None,
        }
    }
}

/// Parses one candidate line; a malformed line gives `None`.
pub fn parse_proxy_line(line: &str) -> (r: Option<Candidate>)
    ensures
        match r {
            Some(c) => parse_line_spec(line@) == Some(
                (c.ip@, c.port, c.country_hint@, c.org_hint@),
            ),
            None => parse_line_spec(line@) is None,
        },
{
    let parts = split_char(line, ',');
    if parts.len() < 4 {
        return None;
    }
    proof {
        assert(parts.deep_view()[1] == parts@[1]@);
    }
    match parse_u16(parts[1].as_str()) {
        Some(p) => {
            let c = Candidate {
                ip: parts[0].clone(),
                port: p,
                country_hint: parts[2].clone(),
                org_hint: parts[3].clone(),
            };
            proof {
                assert(parts.deep_view()[0] == parts@[0]@);
                assert(parts.deep_view()[2] == parts@[2]@);
                assert(parts.deep_view()[3] == parts@[3]@);
            }
            Some(c)
        },
        None => None,
    }
}

/// A line survives loading when, after trimming, it is non-empty and not a
/// `#` comment.
pub open spec fn keep_line_spec(l: Seq<char>) -> bool {
    trim_spec(l).len() > 0 && trim_spec(l)[0] != '#'
}

/// The kept lines of an input file, trimmed, in file order.
pub open spec fn candidate_lines_spec(ls: Seq<Seq<char>>) -> Seq<Seq<char>>
    decreases ls.len(),
{
    if ls.len() == 0 {
        Seq::empty()
    } else {
        let rest = candidate_lines_spec(ls.drop_last());
        if keep_line_spec(ls.last()) {
            rest.push(trim_spec(ls.last()))
        } else {
            rest
        }
    }
}

/// Cuts a candidate file into lines and keeps the trimmed, non-empty,
/// non-comment ones.
pub fn candidate_lines(content: &str) -> (r: Vec<String>)
    ensures
        r.deep_view() == candidate_lines_spec(lines_spec(content@)),
{
    let lines = lines_of(content);
    let ghost ls = lines_spec(content@);
    let mut out: Vec<String> = Vec::new();
    let mut i: usize = 0;
    proof {
        assert(ls.take(0) =~~= Seq::<Seq<char>>::empty());
        assert(out.deep_view() =~~= candidate_lines_spec(ls.take(0)));
    }
    while i < lines.len()
        invariant
            0 <= i <= lines.len(),
            lines.deep_view() == ls,
            out.deep_view() == candidate_lines_spec(ls.take(i as int)),
        decreases lines.len() - i,
    {
        let ghost prev = out.deep_view();
        let trimmed = trim(lines[i].as_str());
        let keep = if trimmed.as_str().is_empty() {
            false
        } else {
            trimmed.as_str().get_char(0) != '#'
        };
        if keep {
            out.push(trimmed);
            proof {
                assert(out.deep_view() =~~= prev.push(trim_spec(ls[i as int])));
            }
        }
        i += 1;
        proof {
            let t = ls.take(i as int);
            assert(t.drop_last() =~~= ls.take(i - 1));
            assert(t.last() == ls[i - 1]);
            assert(out.deep_view() =~~= candidate_lines_spec(t));
        }
    }
    proof {
        assert(ls.take(lines.len() as int) =~~= ls);
    }
    out
}

/// The text of one output line: `ip,port,country,org`.
pub open spec fn record_line_spec(ip: Seq<char>, port: u16, country: Seq<char>, org: Seq<char>) -> Seq<char> {
    ip + seq![','] + dec_str(port as int) + seq![','] + country + seq![','] + org
}

/// Formats one accepted record as an output line.
pub fn record_line(rec: &ProxyRecord) -> (r: String)
    ensures
        r@ == record_line_spec(rec.ip@, rec.port, rec.country@, rec.org@),
{
    let mut out = String::new();
    out.append(rec.ip.as_str());
    push_char(&mut out, ',');
    let p = u16_to_string(rec.port);
    out.append(p.as_str());
    push_char(&mut out, ',');
    out.append(rec.country.as_str());
    push_char(&mut out, ',');
    out.append(rec.org.as_str());
    proof {
        assert(out@ =~= record_line_spec(rec.ip@, rec.port, rec.country@, rec.org@));
    }
    out
}

} // verus!
