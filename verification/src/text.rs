//! Character classes, searching, splitting and joining over `Seq<char>`,
//! together with the executable string helpers the rest of the crate uses.

use vstd::prelude::*;

verus! {

// ---------------------------------------------------------------------------
// Unicode character classes.
//
// The White_Space and alphanumeric properties are decided by Unicode tables;
// both are functions of the character alone, so they get names here and the
// standard library is trusted to compute them.
// ---------------------------------------------------------------------------

pub uninterp spec fn is_white_char(c: char) -> bool;

pub uninterp spec fn is_alnum_char(c: char) -> bool;

/// Relies on char::is_whitespace: the White_Space property of the character.
pub assume_specification[ char::is_whitespace ](c: char) -> (r: bool)
    ensures
        r == is_white_char(c),
;

/// Relies on char::is_alphanumeric: the Alphabetic / Nd / Nl / No property of
/// the character.
pub assume_specification[ char::is_alphanumeric ](c: char) -> (r: bool)
    ensures
        r == is_alnum_char(c),
;

// ---------------------------------------------------------------------------
// String building.
// ---------------------------------------------------------------------------

/// Relies on String::push: appends one character to the string.
#[verifier::external_body]
pub(crate) fn push_char(s: &mut String, c: char)
    ensures
        final(s)@ == old(s)@.push(c),
{
    s.push(c);
}

// ---------------------------------------------------------------------------
// Finding the first occurrence of a character.
// ---------------------------------------------------------------------------

/// Index of the first occurrence of `c` in `s`, if any.
pub open spec fn find_char_spec(s: Seq<char>, c: char) -> Option<int>
    decreases s.len(),
{
    if s.len() == 0 {
        None
    } else if s[0] == c {
        Some(0int)
    } else {
        match find_char_spec(s.drop_first(), c) {
            Some(j) => Some(j + 1),
            None => None,
        }
    }
}

/// `find_char_spec` returns the least index holding `c`, or `None` when `c`
/// does not occur.
pub proof fn lemma_find_char_spec(s: Seq<char>, c: char)
    ensures
        match find_char_spec(s, c) {
            Some(i) => 0 <= i < s.len() && s[i] == c && (forall|j: int| 0 <= j < i ==> s[j] != c),
            None => forall|j: int| 0 <= j < s.len() ==> s[j] != c,
        },
    decreases s.len(),
{
    if s.len() != 0 && s[0] != c {
        let d = s.drop_first();
        lemma_find_char_spec(d, c);
        assert(forall|j: int| 1 <= j < s.len() ==> s[j] == #[trigger] d[j - 1]);
        match find_char_spec(d, c) {
            Some(i) => {
                assert forall|j: int| 0 <= j < i + 1 implies s[j] != c by {
                    if j >= 1 {
                        assert(s[j] == d[j - 1]);
                    }
                }
            },
            None => {
                assert forall|j: int| 0 <= j < s.len() implies s[j] != c by {
                    if j >= 1 {
                        assert(s[j] == d[j - 1]);
                    }
                }
            },
        }
    }
}

pub fn find_char(s: &str, c: char) -> (r: Option<usize>)
    ensures
        match r {
            Some(i) => find_char_spec(s@, c) == Some(i as int),
            None => find_char_spec(s@, c) is None,
        },
{
    let n = s.unicode_len();
    let mut i: usize = 0;
    proof {
        lemma_find_char_spec(s@, c);
    }
    while i < n
        invariant
            n == s@.len(),
            0 <= i <= n,
            forall|j: int| 0 <= j < i ==> s@[j] != c,
            match find_char_spec(s@, c) {
                Some(k) => 0 <= k < s@.len() && s@[k] == c && (forall|j: int| 0 <= j < k
                    ==> s@[j] != c),
                None => forall|j: int| 0 <= j < s@.len() ==> s@[j] != c,
            },
        decreases n - i,
    {
        if s.get_char(i) == c {
            return Some(i);
        }
        i += 1;
    }
    None
}

/// Index of the last occurrence of `c` in `s`, if any.
pub open spec fn find_last_char_spec(s: Seq<char>, c: char) -> Option<int>
    decreases s.len(),
{
    if s.len() == 0 {
        None
    } else if s.last() == c {
        Some(s.len() - 1)
    } else {
        find_last_char_spec(s.drop_last(), c)
    }
}

/// `find_last_char_spec` returns the greatest index holding `c`, or `None`
/// when `c` does not occur.
pub proof fn lemma_find_last_char_spec(s: Seq<char>, c: char)
    ensures
        match find_last_char_spec(s, c) {
            Some(i) => 0 <= i < s.len() && s[i] == c && (forall|j: int|
                i < j < s.len() ==> s[j] != c),
            None => forall|j: int| 0 <= j < s.len() ==> s[j] != c,
        },
    decreases s.len(),
{
    if s.len() != 0 && s.last() != c {
        let d = s.drop_last();
        lemma_find_last_char_spec(d, c);
        assert(forall|j: int| 0 <= j < d.len() ==> #[trigger] d[j] == s[j]);
        match find_last_char_spec(d, c) {
            Some(i) => {
                assert forall|j: int| i < j < s.len() implies s[j] != c by {
                    if j < s.len() - 1 {
                        assert(s[j] == d[j]);
                    }
                }
            },
            None => {
                assert forall|j: int| 0 <= j < s.len() implies s[j] != c by {
                    if j < s.len() - 1 {
                        assert(s[j] == d[j]);
                    }
                }
            },
        }
    }
}

pub fn find_last_char(s: &str, c: char) -> (r: Option<usize>)
    ensures
        match r {
            Some(i) => find_last_char_spec(s@, c) == Some(i as int),
            None => find_last_char_spec(s@, c) is None,
        },
{
    let n = s.unicode_len();
    let mut i: usize = n;
    proof {
        lemma_find_last_char_spec(s@, c);
    }
    while i > 0
        invariant
            n == s@.len(),
            0 <= i <= n,
            forall|j: int| i <= j < n ==> s@[j] != c,
            match find_last_char_spec(s@, c) {
                Some(k) => 0 <= k < s@.len() && s@[k] == c && (forall|j: int|
                    k < j < s@.len() ==> s@[j] != c),
                None => forall|j: int| 0 <= j < s@.len() ==> s@[j] != c,
            },
        decreases i,
    {
        if s.get_char(i - 1) == c {
            return Some(i - 1);
        }
        i -= 1;
    }
    None
}

/// Decides whether two strings hold the same characters.
pub fn str_eq(a: &str, b: &str) -> (r: bool)
    ensures
        r == (a@ == b@),
{
    let an = a.unicode_len();
    let bn = b.unicode_len();
    if an != bn {
        return false;
    }
    let mut i: usize = 0;
    while i < an
        invariant
            an == a@.len(),
            an == b@.len(),
            0 <= i <= an,
            forall|j: int| 0 <= j < i ==> a@[j] == b@[j],
        decreases an - i,
    {
        if a.get_char(i) != b.get_char(i) {
            return false;
        }
        i += 1;
    }
    proof {
        assert(a@ =~= b@);
    }
    true
}

// ---------------------------------------------------------------------------
// Splitting on a separator character, and joining.
// ---------------------------------------------------------------------------

/// The pieces of `s` between occurrences of `sep`, in order. Splitting the
/// empty string gives one empty piece, as `str::split` does.
pub open spec fn split_char_spec(s: Seq<char>, sep: char) -> Seq<Seq<char>>
    decreases s.len(),
{
    if s.len() == 0 {
        seq![Seq::<char>::empty()]
    } else if s[0] == sep {
        seq![Seq::<char>::empty()] + split_char_spec(s.drop_first(), sep)
    } else {
        let rest = split_char_spec(s.drop_first(), sep);
        seq![seq![s[0]] + rest[0]] + rest.drop_first()
    }
}

pub proof fn lemma_split_char_spec_len(s: Seq<char>, sep: char)
    ensures
        split_char_spec(s, sep).len() >= 1,
    decreases s.len(),
{
    if s.len() != 0 {
        lemma_split_char_spec_len(s.drop_first(), sep);
    }
}

/// A string free of the separator splits into itself alone.
pub proof fn lemma_split_no_sep(s: Seq<char>, sep: char)
    requires
        forall|j: int| 0 <= j < s.len() ==> s[j] != sep,
    ensures
        split_char_spec(s, sep) == seq![s],
    decreases s.len(),
{
    if s.len() == 0 {
        assert(s =~= Seq::<char>::empty());
    } else {
        let d = s.drop_first();
        assert(forall|j: int| 0 <= j < d.len() ==> #[trigger] d[j] == s[j + 1]);
        lemma_split_no_sep(d, sep);
        assert(seq![s[0]] + d =~= s);
        assert(split_char_spec(d, sep)[0] == d);
        assert(split_char_spec(d, sep).drop_first() =~~= Seq::<Seq<char>>::empty());
        assert(split_char_spec(s, sep) =~~= seq![s]);
    }
}

/// Splitting at the first separator occurrence peels off the prefix.
pub proof fn lemma_split_at_first(s: Seq<char>, sep: char, i: int)
    requires
        0 <= i < s.len(),
        s[i] == sep,
        forall|j: int| 0 <= j < i ==> s[j] != sep,
    ensures
        split_char_spec(s, sep) == seq![s.take(i)] + split_char_spec(s.skip(i + 1), sep),
    decreases i,
{
    if i == 0 {
        assert(s.take(0) =~= Seq::<char>::empty());
        assert(s.skip(1) =~= s.drop_first());
    } else {
        let d = s.drop_first();
        assert(forall|j: int| 0 <= j < d.len() ==> #[trigger] d[j] == s[j + 1]);
        lemma_split_at_first(d, sep, i - 1);
        let tail = split_char_spec(d.skip(i), sep);
        assert((seq![d.take(i - 1)] + tail).drop_first() =~= tail);
        assert(seq![s[0]] + d.take(i - 1) =~= s.take(i));
        assert(d.skip(i) =~= s.skip(i + 1));
        assert(split_char_spec(s, sep) =~= seq![s.take(i)] + split_char_spec(s.skip(i + 1), sep));
    }
}

pub fn split_char(s: &str, sep: char) -> (r: Vec<String>)
    ensures
        r.deep_view() == split_char_spec(s@, sep),
{
    let mut parts: Vec<String> = Vec::new();
    let mut rest: &str = s;
    loop
        invariant
            split_char_spec(s@, sep) == parts.deep_view() + split_char_spec(rest@, sep),
        decreases rest@.len(),
    {
        let ghost prev = parts.deep_view();
        match find_char(rest, sep) {
            Some(i) => {
                proof {
                    lemma_find_char_spec(rest@, sep);
                    lemma_split_at_first(rest@, sep, i as int);
                }
                let piece = rest.substring_char(0, i);
                let n = rest.unicode_len();
                let next = rest.substring_char(i + 1, n);
                parts.push(piece.to_owned());
                proof {
                    assert(parts.deep_view() =~= prev.push(rest@.take(i as int)));
                    assert(prev + split_char_spec(rest@, sep) =~= parts.deep_view()
                        + split_char_spec(next@, sep));
                }
                rest = next;
            },
            None => {
                proof {
                    lemma_find_char_spec(rest@, sep);
                    lemma_split_no_sep(rest@, sep);
                }
                parts.push(rest.to_owned());
                proof {
                    assert(parts.deep_view() =~= prev.push(rest@));
                    assert(parts.deep_view() =~= split_char_spec(s@, sep));
                }
                return parts;
            },
        }
    }
}

// ---------------------------------------------------------------------------
// Trimming whitespace.
// ---------------------------------------------------------------------------

/// Index of the first character that is not whitespace; `s.len()` when all are.
pub open spec fn first_non_white(s: Seq<char>) -> int
    decreases s.len(),
{
    if s.len() == 0 {
        0
    } else if !is_white_char(s[0]) {
        0
    } else {
        1 + first_non_white(s.drop_first())
    }
}

/// Index of the last character that is not whitespace; `-1` when all are.
pub open spec fn last_non_white(s: Seq<char>) -> int
    decreases s.len(),
{
    if s.len() == 0 {
        -1
    } else if !is_white_char(s.last()) {
        s.len() - 1
    } else {
        last_non_white(s.drop_last())
    }
}

/// `s` with leading and trailing whitespace removed.
pub open spec fn trim_spec(s: Seq<char>) -> Seq<char> {
    if last_non_white(s) < first_non_white(s) {
        Seq::empty()
    } else {
        s.subrange(first_non_white(s), last_non_white(s) + 1)
    }
}

pub proof fn lemma_first_non_white(s: Seq<char>)
    ensures
        0 <= first_non_white(s) <= s.len(),
        forall|j: int| 0 <= j < first_non_white(s) ==> is_white_char(s[j]),
        first_non_white(s) < s.len() ==> !is_white_char(s[first_non_white(s)]),
    decreases s.len(),
{
    if s.len() != 0 && is_white_char(s[0]) {
        let d = s.drop_first();
        assert(forall|j: int| 0 <= j < d.len() ==> #[trigger] d[j] == s[j + 1]);
        lemma_first_non_white(d);
        assert forall|j: int| 0 <= j < first_non_white(s) implies is_white_char(s[j]) by {
            if j >= 1 {
                assert(s[j] == d[j - 1]);
            }
        }
    }
}

pub proof fn lemma_last_non_white(s: Seq<char>)
    ensures
        -1 <= last_non_white(s) < s.len(),
        forall|j: int| last_non_white(s) < j < s.len() ==> is_white_char(s[j]),
        last_non_white(s) >= 0 ==> !is_white_char(s[last_non_white(s)]),
    decreases s.len(),
{
    if s.len() != 0 && is_white_char(s.last()) {
        let d = s.drop_last();
        lemma_last_non_white(d);
        assert forall|j: int| last_non_white(s) < j < s.len() implies is_white_char(s[j]) by {
            if j < s.len() - 1 {
                assert(s[j] == d[j]);
            }
        }
    }
}

proof fn lemma_char_cast_injective(a: char, b: char)
    ensures
        (a as u32 == b as u32) == (a == b),
{
}

/// Removes leading and trailing whitespace, as `str::trim` does.
pub fn trim(s: &str) -> (r: String)
    ensures
        r@ == trim_spec(s@),
{
    let n = s.unicode_len();
    let mut lo: usize = 0;
    while lo < n && s.get_char(lo).is_whitespace()
        invariant
            n == s@.len(),
            0 <= lo <= n,
            forall|j: int| 0 <= j < lo ==> is_white_char(s@[j]),
        decreases n - lo,
    {
        lo += 1;
    }
    proof {
        lemma_first_non_white(s@);
        lemma_last_non_white(s@);
    }
    if lo == n {
        proof {
            assert(last_non_white(s@) < first_non_white(s@));
        }
        return String::new();
    }
    assert(lo == first_non_white(s@));
    let mut hi: usize = n;
    while hi > lo && s.get_char(hi - 1).is_whitespace()
        invariant
            n == s@.len(),
            lo <= hi <= n,
            lo < n,
            !is_white_char(s@[lo as int]),
            forall|j: int| hi <= j < n ==> is_white_char(s@[j]),
        decreases hi,
    {
        hi -= 1;
    }
    proof {
        lemma_first_non_white(s@);
        lemma_last_non_white(s@);
        assert(hi - 1 == last_non_white(s@));
    }
    s.substring_char(lo, hi).to_owned()
}

// ---------------------------------------------------------------------------
// Lexicographic order on character sequences (code-point order, the order
// `str` comparison uses).
// ---------------------------------------------------------------------------

pub open spec fn lex_le(a: Seq<char>, b: Seq<char>) -> bool
    decreases a.len(),
{
    if a.len() == 0 {
        true
    } else if b.len() == 0 {
        false
    } else if (a[0] as u32) < (b[0] as u32) {
        true
    } else if a[0] == b[0] {
        lex_le(a.drop_first(), b.drop_first())
    } else {
        false
    }
}

/// The lexicographic order is total.
pub proof fn lemma_lex_le_total(a: Seq<char>, b: Seq<char>)
    ensures
        lex_le(a, b) || lex_le(b, a),
    decreases a.len(),
{
    if a.len() == 0 || b.len() == 0 {
    } else if (a[0] as u32) < (b[0] as u32) {
    } else if a[0] == b[0] {
        lemma_lex_le_total(a.drop_first(), b.drop_first());
    } else {
        lemma_char_cast_injective(a[0], b[0]);
        assert((b[0] as u32) < (a[0] as u32));
        assert(lex_le(b, a));
    }
}

/// The lexicographic order is transitive.
pub proof fn lemma_lex_le_trans(a: Seq<char>, b: Seq<char>, c: Seq<char>)
    requires
        lex_le(a, b),
        lex_le(b, c),
    ensures
        lex_le(a, c),
    decreases a.len(),
{
    if a.len() != 0 && b.len() != 0 && c.len() != 0 && a[0] == b[0] && b[0] == c[0] {
        lemma_lex_le_trans(a.drop_first(), b.drop_first(), c.drop_first());
    }
}

/// Comparing suffixes after an equal prefix compares the whole strings.
proof fn lemma_lex_le_skip(a: Seq<char>, b: Seq<char>, i: int)
    requires
        0 <= i <= a.len(),
        i <= b.len(),
        forall|j: int| 0 <= j < i ==> a[j] == b[j],
    ensures
        lex_le(a, b) == lex_le(a.skip(i), b.skip(i)),
    decreases i,
{
    if i > 0 {
        let a1 = a.drop_first();
        let b1 = b.drop_first();
        assert(forall|j: int| 0 <= j < a1.len() ==> #[trigger] a1[j] == a[j + 1]);
        assert(forall|j: int| 0 <= j < b1.len() ==> #[trigger] b1[j] == b[j + 1]);
        lemma_lex_le_skip(a1, b1, i - 1);
        assert(a1.skip(i - 1) =~= a.skip(i));
        assert(b1.skip(i - 1) =~= b.skip(i));
    } else {
        assert(a.skip(0) =~= a);
        assert(b.skip(0) =~= b);
    }
}

/// Decides `lex_le` on two strings.
pub fn str_le(a: &str, b: &str) -> (r: bool)
    ensures
        r == lex_le(a@, b@),
{
    let an = a.unicode_len();
    let bn = b.unicode_len();
    let mut i: usize = 0;
    loop
        invariant
            an == a@.len(),
            bn == b@.len(),
            0 <= i <= an,
            i <= bn,
            forall|j: int| 0 <= j < i ==> a@[j] == b@[j],
        decreases an - i,
    {
        proof {
            lemma_lex_le_skip(a@, b@, i as int);
        }
        if i == an {
            return true;
        }
        if i == bn {
            assert(!lex_le(a@.skip(i as int), b@.skip(i as int)));
            return false;
        }
        let ca = a.get_char(i);
        let cb = b.get_char(i);
        proof {
            assert(a@.skip(i as int)[0] == a@[i as int]);
            assert(b@.skip(i as int)[0] == b@[i as int]);
        }
        if (ca as u32) < (cb as u32) {
            return true;
        }
        if ca != cb {
            return false;
        }
        i += 1;
    }
}

/// `parts` joined with the separator string `sep` between elements.
pub open spec fn join_with(parts: Seq<Seq<char>>, sep: Seq<char>) -> Seq<char>
    decreases parts.len(),
{
    if parts.len() == 0 {
        Seq::empty()
    } else if parts.len() == 1 {
        parts[0]
    } else {
        parts[0] + sep + join_with(parts.drop_first(), sep)
    }
}

/// Joining one more part appends a separator and the part.
pub proof fn lemma_join_with_push(parts: Seq<Seq<char>>, x: Seq<char>, sep: Seq<char>)
    requires
        parts.len() >= 1,
    ensures
        join_with(parts.push(x), sep) == join_with(parts, sep) + sep + x,
    decreases parts.len(),
{
    let p = parts.push(x);
    assert(p.drop_first() =~~= parts.drop_first().push(x));
    if parts.len() == 1 {
        assert(p.drop_first() =~~= seq![x]);
        assert(join_with(p, sep) == parts[0] + sep + x);
    } else {
        lemma_join_with_push(parts.drop_first(), x, sep);
        assert(join_with(p, sep) == p[0] + sep + join_with(p.drop_first(), sep));
        assert(parts[0] + sep + (join_with(parts.drop_first(), sep) + sep + x) =~= (parts[0]
            + sep + join_with(parts.drop_first(), sep)) + sep + x);
    }
}

// ---------------------------------------------------------------------------
// Header blocks as lines, the way `str::lines` cuts them: split on `'\n'`,
// drop a final empty piece, strip one trailing `'\r'` from each line.
// ---------------------------------------------------------------------------

pub open spec fn strip_cr(l: Seq<char>) -> Seq<char> {
    if l.len() > 0 && l.last() == '\r' {
        l.drop_last()
    } else {
        l
    }
}

pub open spec fn lines_spec(s: Seq<char>) -> Seq<Seq<char>> {
    let parts = split_char_spec(s, '\n');
    let kept = if parts.len() > 0 && parts.last().len() == 0 {
        parts.drop_last()
    } else {
        parts
    };
    kept.map_values(|l: Seq<char>| strip_cr(l))
}

/// Cuts a header block into lines.
pub fn lines_of(s: &str) -> (r: Vec<String>)
    ensures
        r.deep_view() == lines_spec(s@),
{
    let mut parts = split_char(s, '\n');
    let ghost all = split_char_spec(s@, '\n');
    proof {
        lemma_split_char_spec_len(s@, '\n');
    }
    if parts.len() > 0 && parts[parts.len() - 1].as_str().is_empty() {
        parts.pop();
        proof {
            assert(parts.deep_view() =~~= all.drop_last());
        }
    }
    let ghost kept = parts.deep_view();
    let mut out: Vec<String> = Vec::new();
    let mut i: usize = 0;
    while i < parts.len()
        invariant
            0 <= i <= parts.len(),
            parts.deep_view() == kept,
            out.deep_view() == kept.take(i as int).map_values(|l: Seq<char>| strip_cr(l)),
        decreases parts.len() - i,
    {
        let ghost prev = out.deep_view();
        let line = &parts[i];
        let ln = line.as_str().unicode_len();
        if ln > 0 && line.as_str().get_char(ln - 1) == '\r' {
            let stripped = line.as_str().substring_char(0, ln - 1);
            out.push(stripped.to_owned());
            proof {
                assert(line@.drop_last() =~= line@.subrange(0, line@.len() - 1));
            }
        } else {
            out.push(line.clone());
        }
        i += 1;
        proof {
            assert(out.deep_view() =~~= prev.push(strip_cr(kept[i - 1])));
            assert(kept.take(i as int) =~~= kept.take(i - 1).push(kept[i - 1]));
            assert(kept.take(i as int).map_values(|l: Seq<char>| strip_cr(l)) =~~= kept.take(i - 1)
                .map_values(|l: Seq<char>| strip_cr(l)).push(strip_cr(kept[i - 1])));
        }
    }
    proof {
        assert(kept.take(parts.len() as int) =~~= kept);
        assert(out.deep_view() =~~= lines_spec(s@));
    }
    out
}

} // verus!
