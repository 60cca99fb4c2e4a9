//! Organization-name sanitization.

use vstd::prelude::*;

verus! {

use crate::text::{is_alnum_char, is_white_char, push_char};

/// Characters that sanitization keeps: alphanumerics, whitespace, and the
/// small punctuation allowlist (comma, period, hyphen).
pub open spec fn keep_char(c: char) -> bool {
    is_alnum_char(c) || is_white_char(c) || c == ',' || c == '.' || c == '-'
}

/// The sanitized form of an organization string: the kept characters, in
/// order.
pub open spec fn sanitize_spec(s: Seq<char>) -> Seq<char> {
    s.filter(|c: char| keep_char(c))
}

/// Keeps only alphanumerics, whitespace, commas, periods and hyphens,
/// dropping control characters and other noise.
pub fn clean_org_name(org_name: &str) -> (r: String)
    ensures
        r@ == sanitize_spec(org_name@),
{
    let n = org_name.unicode_len();
    let mut out = String::new();
    let mut i: usize = 0;
    proof {
        reveal(Seq::filter);
        assert(org_name@.take(0) =~= Seq::<char>::empty());
    }
    while i < n
        invariant
            n == org_name@.len(),
            0 <= i <= n,
            out@ == sanitize_spec(org_name@.take(i as int)),
        decreases n - i,
    {
        let c = org_name.get_char(i);
        if c.is_alphanumeric() || c.is_whitespace() || c == ',' || c == '.' || c == '-' {
            push_char(&mut out, c);
        }
        i += 1;
        proof {
            reveal(Seq::filter);
            let t = org_name@.take(i as int);
            assert(t.drop_last() =~= org_name@.take(i - 1));
            assert(t.last() == org_name@[i - 1]);
            assert(out@ == sanitize_spec(t));
        }
    }
    proof {
        reveal(Seq::filter);
        assert(org_name@.take(n as int) =~= org_name@);
        assert(Seq::<char>::empty().filter(|c: char| keep_char(c)) == Seq::<char>::empty());
    }
    out
}

/// Sanitization is idempotent: sanitizing an already-sanitized string yields
/// the same string.
pub proof fn lemma_sanitize_idempotent(s: Seq<char>)
    ensures
        sanitize_spec(sanitize_spec(s)) == sanitize_spec(s),
    decreases s.len(),
{
    reveal(Seq::filter);
    if s.len() == 0 {
    } else {
        let d = s.drop_last();
        lemma_sanitize_idempotent(d);
        if keep_char(s.last()) {
            assert(sanitize_spec(s) == sanitize_spec(d).push(s.last()));
            let w = sanitize_spec(d).push(s.last());
            assert(w.drop_last() =~= sanitize_spec(d));
            assert(w.last() == s.last());
            assert(sanitize_spec(w) == sanitize_spec(sanitize_spec(d)).push(s.last()));
        } else {
            assert(sanitize_spec(s) == sanitize_spec(d));
        }
    }
}

} // verus!
