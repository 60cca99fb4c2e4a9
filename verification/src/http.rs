//! Raw HTTP/1.1 request text and response handling: everything around the
//! socket except the socket itself.

use vstd::prelude::*;

verus! {

use crate::cookies::{cookie_header_spec, cookies_of_block, CookieJar};

/// Why a probe step failed. Any of these means "this candidate is dead" for
/// the step that produced it.
#[derive(Clone, Copy, Debug, PartialEq, Eq, Structural)]
pub enum ProbeError {
    ConnectFailed,
    TlsFailed,
    WriteFailed,
    ReadFailed,
    Timeout,
    MalformedResponse,
    InvalidJson,
    MissingClientIp,
    SameClientIp,
}

/// The fixed header lines every request carries.
pub open spec fn base_header_lines() -> Seq<char> {
    "User-Agent: Mozilla/5.0 (X11; Linux x86_64) AppleWebKit/537.36 (KHTML, like Gecko) Chrome/143.0.0.0 Safari/537.36\r\nAccept: */*\r\nAccept-Language: en-US,en;q=0.8\r\nAccept-Encoding: gzip, deflate, br\r\nConnection: close\r\n"@
}

/// The extra context header lines a metadata request carries.
pub open spec fn meta_header_lines() -> Seq<char> {
    "Referer: https://speed.cloudflare.com/\r\nSec-Fetch-Dest: empty\r\nSec-Fetch-Mode: cors\r\nSec-Fetch-Site: same-origin\r\nSec-Ch-Ua: \"Brave\";v=\"143\", \"Chromium\";v=\"143\", \"Not A(Brand\";v=\"24\"\r\nSec-Ch-Ua-Mobile: ?0\r\nSec-Ch-Ua-Platform: \"Linux\"\r\nSec-Gpc: 1\r\n"@
}

/// The full request text: request line, `Host`, the fixed headers, the
/// cookie header when cookies exist, the metadata context headers when
/// requested, and the blank-line terminator. The request has no body.
pub open spec fn request_text(host: Seq<char>, path: Seq<char>, cs: Seq<Seq<char>>, is_meta: bool) -> Seq<char> {
    "GET "@ + path + " HTTP/1.1\r\nHost: "@ + host + "\r\n"@ + base_header_lines()
        + cookie_header_spec(cs) + (if is_meta {
        meta_header_lines()
    } else {
        Seq::<char>::empty()
    }) + "\r\n"@
}

/// Builds the request text sent for one probe step.
pub fn build_request(host: &str, path: &str, jar: &CookieJar, is_meta: bool) -> (r: String)
    ensures
        r@ == request_text(host@, path@, jar@, is_meta),
{
    let mut out = String::new();
    out.append("GET ");
    out.append(path);
    out.append(" HTTP/1.1\r\nHost: ");
    out.append(host);
    out.append("\r\n");
    out.append(
        "User-Agent: Mozilla/5.0 (X11; Linux x86_64) AppleWebKit/537.36 (KHTML, like Gecko) Chrome/143.0.0.0 Safari/537.36\r\nAccept: */*\r\nAccept-Language: en-US,en;q=0.8\r\nAccept-Encoding: gzip, deflate, br\r\nConnection: close\r\n",
    );
    let cookie = jar.to_header();
    out.append(cookie.as_str());
    if is_meta {
        out.append(
            "Referer: https://speed.cloudflare.com/\r\nSec-Fetch-Dest: empty\r\nSec-Fetch-Mode: cors\r\nSec-Fetch-Site: same-origin\r\nSec-Ch-Ua: \"Brave\";v=\"143\", \"Chromium\";v=\"143\", \"Not A(Brand\";v=\"24\"\r\nSec-Ch-Ua-Mobile: ?0\r\nSec-Ch-Ua-Platform: \"Linux\"\r\nSec-Gpc: 1\r\n",
        );
    }
    out.append("\r\n");
    proof {
        assert(out@ =~= request_text(host@, path@, jar@, is_meta));
    }
    out
}

// ---------------------------------------------------------------------------
// Splitting a raw response at the first `\r\n\r\n`.
// ---------------------------------------------------------------------------

/// Whether the four bytes at `i` are `\r\n\r\n`.
pub open spec fn is_sep_at(b: Seq<u8>, i: int) -> bool {
    b[i] == 13u8 && b[i + 1] == 10u8 && b[i + 2] == 13u8 && b[i + 3] == 10u8
}

/// Index of the first `\r\n\r\n`, if any.
pub open spec fn first_sep(b: Seq<u8>) -> Option<int>
    decreases b.len(),
{
    if b.len() < 4 {
        None
    } else if b[0] == 13u8 && b[1] == 10u8 && b[2] == 13u8 && b[3] == 10u8 {
        Some(0int)
    } else {
        match first_sep(b.drop_first()) {
            Some(j) => Some(j + 1),
            None => None,
        }
    }
}

pub proof fn lemma_first_sep(b: Seq<u8>)
    ensures
        match first_sep(b) {
            Some(i) => 0 <= i && i + 4 <= b.len() && is_sep_at(b, i) && (forall|j: int|
                0 <= j < i ==> !is_sep_at(b, j)),
            None => forall|j: int| 0 <= j <= b.len() - 4 ==> !is_sep_at(b, j),
        },
    decreases b.len(),
{
    if b.len() >= 4 && !(b[0] == 13u8 && b[1] == 10u8 && b[2] == 13u8 && b[3] == 10u8) {
        let d = b.drop_first();
        lemma_first_sep(d);
        assert(forall|j: int| 0 <= j < d.len() ==> #[trigger] d[j] == b[j + 1]);
        match first_sep(d) {
            Some(i) => {
                assert(is_sep_at(b, i + 1));
                assert forall|j: int| 0 <= j < i + 1 implies !is_sep_at(b, j) by {
                    if j >= 1 {
                        assert(!is_sep_at(d, j - 1));
                    }
                }
            },
            None => {
                assert forall|j: int| 0 <= j <= b.len() - 4 implies !is_sep_at(b, j) by {
                    if j >= 1 {
                        assert(!is_sep_at(d, j - 1));
                    }
                }
            },
        }
    }
}

/// Copies `b[from..to]` out.
fn bytes_range(b: &[u8], from: usize, to: usize) -> (r: Vec<u8>)
    requires
        from <= to <= b@.len(),
    ensures
        r@ == b@.subrange(from as int, to as int),
{
    let mut out: Vec<u8> = Vec::new();
    let mut i: usize = from;
    while i < to
        invariant
            from <= i <= to <= b@.len(),
            out@ == b@.subrange(from as int, i as int),
        decreases to - i,
    {
        let x = b[i];
        out.push(x);
        i += 1;
        proof {
            assert(b@.subrange(from as int, i as int) =~= b@.subrange(from as int, i - 1).push(
                b@[i - 1],
            ));
        }
    }
    out
}

/// Splits a raw response into header block and body at the first
/// `\r\n\r\n`; `None` when the separator never occurs.
pub fn split_response(resp: &[u8]) -> (r: Option<(Vec<u8>, Vec<u8>)>)
    ensures
        match r {
            Some(hb) => {
                &&& first_sep(resp@) == Some(hb.0@.len() as int)
                &&& hb.0@ == resp@.subrange(0, hb.0@.len() as int)
                &&& hb.1@ == resp@.subrange(hb.0@.len() as int + 4, resp@.len() as int)
            },
            None => first_sep(resp@) is None,
        },
{
    let n = resp.len();
    proof {
        lemma_first_sep(resp@);
    }
    if n < 4 {
        return None;
    }
    let mut i: usize = 0;
    while i <= n - 4
        invariant
            n == resp@.len(),
            n >= 4,
            0 <= i,
            i <= n - 3,
            forall|j: int| 0 <= j < i ==> !is_sep_at(resp@, j),
            match first_sep(resp@) {
                Some(k) => 0 <= k && k + 4 <= resp@.len() && is_sep_at(resp@, k) && (forall|j: int|
                    0 <= j < k ==> !is_sep_at(resp@, j)),
                None => forall|j: int| 0 <= j <= resp@.len() - 4 ==> !is_sep_at(resp@, j),
            },
        decreases n - i,
    {
        if resp[i] == 13u8 && resp[i + 1] == 10u8 && resp[i + 2] == 13u8 && resp[i + 3] == 10u8 {
            proof {
                assert(is_sep_at(resp@, i as int));
                assert(first_sep(resp@) == Some(i as int));
            }
            let head = bytes_range(resp, 0, i);
            let body = bytes_range(resp, i + 4, n);
            return Some((head, body));
        }
        i += 1;
    }
    None
}

/// What `String::from_utf8_lossy` makes of a byte string; a function of the
/// bytes alone.
pub uninterp spec fn lossy_text_of(b: Seq<u8>) -> Seq<char>;

/// Relies on String::from_utf8_lossy: decodes UTF-8, replacing invalid
/// sequences with the replacement character.
#[verifier::external_body]
fn bytes_to_text(b: &[u8]) -> (r: String)
    ensures
        r@ == lossy_text_of(b@),
{
    String::from_utf8_lossy(b).to_string()
}

/// Splits a raw response into header text and body text and absorbs the
/// header block's cookies into the session, as one probe step does after
/// draining the socket.
pub fn handle_response(jar: &mut CookieJar, raw: &[u8]) -> (r: Result<(String, String), ProbeError>)
    ensures
        match first_sep(raw@) {
            Some(i) => {
                &&& r matches Ok(hb)
                &&& (r matches Ok(hb) ==> {
                    &&& hb.0@ == lossy_text_of(raw@.subrange(0, i))
                    &&& hb.1@ == lossy_text_of(raw@.subrange(i + 4, raw@.len() as int))
                    &&& final(jar)@ == old(jar)@ + cookies_of_block(hb.0@)
                })
            },
            None => r == Err::<(String, String), ProbeError>(ProbeError::MalformedResponse)
                && final(jar)@ == old(jar)@,
        },
{
    match split_response(raw) {
        Some((head, body)) => {
            let head_text = bytes_to_text(head.as_slice());
            let body_text = bytes_to_text(body.as_slice());
            jar.add_from_headers(head_text.as_str());
            Ok((head_text, body_text))
        },
        None => Err(ProbeError::MalformedResponse),
    }
}

} // verus!
