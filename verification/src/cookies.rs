//! The cookie session: the ordered cookies one probe sequence accumulates
//! from `Set-Cookie` response headers.

use vstd::prelude::*;

verus! {

use crate::text::{find_char, find_char_spec, join_with, lines_of, lines_spec, trim, trim_spec};

/// ASCII case folding on code points; other characters are untouched.
pub open spec fn lower_u32(u: u32) -> u32 {
    if 65 <= u <= 90 {
        (u + 32) as u32
    } else {
        u
    }
}

/// Two characters match ignoring ASCII case.
pub open spec fn char_eq_ci(a: char, b: char) -> bool {
    lower_u32(a as u32) == lower_u32(b as u32)
}

/// The `set-cookie:` header name, as characters.
pub open spec fn set_cookie_prefix() -> Seq<char> {
    seq!['s', 'e', 't', '-', 'c', 'o', 'o', 'k', 'i', 'e', ':']
}

/// Whether a header line begins with `Set-Cookie:` in any capitalization.
pub open spec fn is_set_cookie_line(l: Seq<char>) -> bool {
    l.len() >= 11 && (forall|k: int| 0 <= k < 11 ==> char_eq_ci(#[trigger] l[k], set_cookie_prefix()[k]))
}

/// The cookie pair kept from one `Set-Cookie` header value: the value,
/// trimmed, up to the first `;`.
pub open spec fn cookie_pair_of(v: Seq<char>) -> Seq<char> {
    let t = trim_spec(v);
    match find_char_spec(t, ';') {
        Some(i) => t.take(i),
        None => t,
    }
}

/// The cookies a header block contributes, one per `Set-Cookie` line, in
/// line order.
pub open spec fn cookies_of_lines(ls: Seq<Seq<char>>) -> Seq<Seq<char>>
    decreases ls.len(),
{
    if ls.len() == 0 {
        Seq::empty()
    } else {
        let rest = cookies_of_lines(ls.drop_last());
        if is_set_cookie_line(ls.last()) {
            rest.push(cookie_pair_of(ls.last().skip(11)))
        } else {
            rest
        }
    }
}

pub open spec fn cookies_of_block(s: Seq<char>) -> Seq<Seq<char>> {
    cookies_of_lines(lines_spec(s))
}

/// The serialized cookie request header: empty without cookies, otherwise
/// one `Cookie:` line ending in `\r\n`.
pub open spec fn cookie_header_spec(cs: Seq<Seq<char>>) -> Seq<char> {
    if cs.len() == 0 {
        Seq::empty()
    } else {
        "Cookie: "@ + join_with(cs, "; "@) + "\r\n"@
    }
}

/// The ordered cookie set for one candidate's probe sequence.
pub struct CookieJar {
    pub cookies: Vec<String>,
}

impl View for CookieJar {
    type V = Seq<Seq<char>>;

    open spec fn view(&self) -> Seq<Seq<char>> {
        self.cookies.deep_view()
    }
}

fn prefix_char(k: usize) -> (c: char)
    requires
        k < 11,
    ensures
        c == set_cookie_prefix()[k as int],
{
    if k == 0 {
        's'
    } else if k == 1 {
        'e'
    } else if k == 2 {
        't'
    } else if k == 3 {
        '-'
    } else if k == 4 {
        'c'
    } else if k == 5 {
        'o'
    } else if k == 6 {
        'o'
    } else if k == 7 {
        'k'
    } else if k == 8 {
        'i'
    } else if k == 9 {
        'e'
    } else {
        ':'
    }
}

/// Decides whether a header line is a `Set-Cookie` line, ignoring ASCII case.
fn line_is_set_cookie(l: &str) -> (r: bool)
    ensures
        r == is_set_cookie_line(l@),
{
    let n = l.unicode_len();
    if n < 11 {
        return false;
    }
    let mut k: usize = 0;
    while k < 11
        invariant
            n == l@.len(),
            n >= 11,
            0 <= k <= 11,
            forall|j: int| 0 <= j < k ==> char_eq_ci(#[trigger] l@[j], set_cookie_prefix()[j]),
        decreases 11 - k,
    {
        let c = l.get_char(k);
        let p = prefix_char(k);
        let cu = c as u32;
        let pu = p as u32;
        let cl = if 65 <= cu && cu <= 90 {
            cu + 32
        } else {
            cu
        };
        let pl = if 65 <= pu && pu <= 90 {
            pu + 32
        } else {
            pu
        };
        if cl != pl {
            return false;
        }
        k += 1;
    }
    true
}

impl CookieJar {
    /// An empty cookie session.
    pub fn new() -> (r: Self)
        ensures
            r@ == Seq::<Seq<char>>::empty(),
    {
        let r = Self { cookies: Vec::new() };
        proof {
            assert(r@ =~~= Seq::<Seq<char>>::empty());
        }
        r
    }

    pub fn is_empty(&self) -> (r: bool)
        ensures
            r == (self@.len() == 0),
    {
        self.cookies.len() == 0
    }

    /// Scans a raw header block and appends one cookie per `Set-Cookie`
    /// line: the header value, trimmed, up to its first `;`.
    pub fn add_from_headers(&mut self, headers: &str)
        ensures
            final(self)@ == old(self)@ + cookies_of_block(headers@),
    {
        let lines = lines_of(headers);
        let ghost ls = lines_spec(headers@);
        let ghost start = self@;
        let mut i: usize = 0;
        proof {
            assert(ls.take(0) =~~= Seq::<Seq<char>>::empty());
            assert(self@ =~~= start + cookies_of_lines(ls.take(0)));
        }
        while i < lines.len()
            invariant
                0 <= i <= lines.len(),
                lines.deep_view() == ls,
                self@ == start + cookies_of_lines(ls.take(i as int)),
            decreases lines.len() - i,
        {
            let ghost prev = self@;
            let line = &lines[i];
            if line_is_set_cookie(line.as_str()) {
                let n = line.as_str().unicode_len();
                let value = line.as_str().substring_char(11, n);
                let trimmed = trim(value);
                let pair = match find_char(trimmed.as_str(), ';') {
                    Some(p) => {
                        proof {
                            crate::text::lemma_find_char_spec(trimmed@, ';');
                        }
                        trimmed.as_str().substring_char(0, p).to_owned()
                    },
                    None => trimmed,
                };
                proof {
                    assert(value@ == ls[i as int].skip(11));
                    assert(pair@ == cookie_pair_of(ls[i as int].skip(11)));
                }
                self.cookies.push(pair);
                proof {
                    assert(self@ =~~= prev.push(cookie_pair_of(ls[i as int].skip(11))));
                }
            }
            i += 1;
            proof {
                let t = ls.take(i as int);
                assert(t.drop_last() =~~= ls.take(i - 1));
                assert(t.last() == ls[i - 1]);
                assert(self@ =~~= start + cookies_of_lines(t));
            }
        }
        proof {
            assert(ls.take(lines.len() as int) =~~= ls);
        }
    }

    /// The serialized request header: empty when no cookies, otherwise
    /// `Cookie: ` followed by the cookies joined with `; `, ending `\r\n`.
    pub fn to_header(&self) -> (r: String)
        ensures
            r@ == cookie_header_spec(self@),
    {
        if self.cookies.len() == 0 {
            return String::new();
        }
        let mut joined = String::new();
        joined.append(self.cookies[0].as_str());
        let mut i: usize = 1;
        while i < self.cookies.len()
            invariant
                1 <= i <= self@.len(),
                self@.len() == self.cookies@.len(),
                joined@ == join_with(self@.take(i as int), "; "@),
            decreases self.cookies.len() - i,
        {
            let ghost prevjoin = joined@;
            joined.append("; ");
            joined.append(self.cookies[i].as_str());
            i += 1;
            proof {
                let t = self@.take(i as int);
                assert(t =~~= self@.take(i - 1).push(self@[i - 1]));
                crate::text::lemma_join_with_push(self@.take(i - 1), self@[i - 1], "; "@);
                assert(joined@ =~= prevjoin + "; "@ + self@[i - 1]);
            }
        }
        proof {
            assert(self@.take(self.cookies@.len() as int) =~~= self@);
        }
        let mut out = String::new();
        out.append("Cookie: ");
        out.append(joined.as_str());
        out.append("\r\n");
        proof {
            assert(out@ =~= "Cookie: "@ + join_with(self@, "; "@) + "\r\n"@);
        }
        out
    }
}

} // verus!
