//! Decimal parsing and printing for port numbers.

use vstd::prelude::*;

verus! {

use crate::text::push_char;

pub open spec fn is_digit_char(c: char) -> bool {
    48 <= (c as u32) && (c as u32) <= 57
}

pub open spec fn digit_of(c: char) -> int {
    (c as u32) - 48
}

pub open spec fn all_digits(s: Seq<char>) -> bool {
    forall|i: int| 0 <= i < s.len() ==> is_digit_char(#[trigger] s[i])
}

/// The number denoted by a string of decimal digits, most significant first.
pub open spec fn digits_value(s: Seq<char>) -> int
    decreases s.len(),
{
    if s.len() == 0 {
        0
    } else {
        digits_value(s.drop_last()) * 10 + digit_of(s.last())
    }
}

pub proof fn lemma_digits_value_nonneg(s: Seq<char>)
    requires
        all_digits(s),
    ensures
        digits_value(s) >= 0,
    decreases s.len(),
{
    if s.len() != 0 {
        lemma_digits_value_nonneg(s.drop_last());
    }
}

/// A digit string's value only grows as digits are appended.
pub proof fn lemma_digits_prefix_le(s: Seq<char>, k: int)
    requires
        all_digits(s),
        0 <= k <= s.len(),
    ensures
        digits_value(s.take(k)) <= digits_value(s),
    decreases s.len() - k,
{
    if k < s.len() {
        let t = s.take(k + 1);
        assert(t.drop_last() =~= s.take(k));
        lemma_digits_value_nonneg(s.take(k));
        assert(digits_value(t) == digits_value(s.take(k)) * 10 + digit_of(s[k]));
        lemma_digits_prefix_le(s, k + 1);
    } else {
        assert(s.take(k) =~= s);
    }
}

/// What `str::parse::<u16>` accepts: an optional leading `+`, then at least
/// one decimal digit, denoting a value of at most `u16::MAX`.
pub open spec fn parse_u16_spec(s: Seq<char>) -> Option<u16> {
    let t = if s.len() >= 1 && s[0] == '+' {
        s.drop_first()
    } else {
        s
    };
    if t.len() >= 1 && all_digits(t) && digits_value(t) <= 65535 {
        Some(digits_value(t) as u16)
    } else {
        None
    }
}

/// Parses a port number field.
pub fn parse_u16(s: &str) -> (r: Option<u16>)
    ensures
        r == parse_u16_spec(s@),
{
    let n = s.unicode_len();
    let mut i: usize = 0;
    if n >= 1 && s.get_char(0) == '+' {
        i = 1;
    }
    let ghost t = if s@.len() >= 1 && s@[0] == '+' {
        s@.drop_first()
    } else {
        s@
    };
    proof {
        assert(t =~= s@.skip(i as int));
        assert(forall|k: int| 0 <= k < t.len() ==> #[trigger] t[k] == s@[k + i]);
    }
    if i >= n {
        return None;
    }
    let mut acc: u32 = 0;
    let mut j: usize = i;
    while j < n
        invariant
            n == s@.len(),
            i <= j <= n,
            i <= 1,
            t == s@.skip(i as int),
            t.len() == n - i,
            parse_u16_spec(s@) == (if t.len() >= 1 && all_digits(t) && digits_value(t) <= 65535 {
                Some(digits_value(t) as u16)
            } else {
                None::<u16>
            }),
            forall|k: int| 0 <= k < t.len() ==> #[trigger] t[k] == s@[k + i],
            all_digits(t.take(j - i)),
            acc == digits_value(t.take(j - i)),
            acc <= 65535,
        decreases n - j,
    {
        let c = s.get_char(j);
        let cu = c as u32;
        let ghost j0 = j as int;
        let ghost tk = t.take(j0 + 1 - i);
        if cu < 48 || cu > 57 {
            proof {
                assert(t[j0 - i] == s@[j0]);
                assert(!is_digit_char(t[j0 - i]));
                assert(!all_digits(t));
                assert(parse_u16_spec(s@) is None);
            }
            return None;
        }
        proof {
            assert(tk.drop_last() =~= t.take(j0 - i));
            assert(tk.last() == t[j0 - i]);
            assert(t[j0 - i] == s@[j0]);
            assert(digits_value(tk) == digits_value(t.take(j0 - i)) * 10 + digit_of(t[j0 - i]));
            assert forall|k: int| 0 <= k < tk.len() implies is_digit_char(#[trigger] tk[k]) by {
                assert(tk[k] == t.take(j0 - i + 1)[k]);
                if k < j0 - i {
                    assert(tk[k] == t.take(j0 - i)[k]);
                } else {
                    assert(tk[k] == t[j0 - i]);
                }
            }
        }
        acc = acc * 10 + (cu - 48);
        j += 1;
        proof {
            assert(acc == digits_value(tk));
            assert(all_digits(t.take(j - i)));
        }
        if acc > 65535 {
            proof {
                if all_digits(t) {
                    lemma_digits_prefix_le(t, j - i);
                    assert(digits_value(t) > 65535);
                }
                assert(parse_u16_spec(s@) is None);
            }
            return None;
        }
    }
    proof {
        assert(t.take(j - i) =~= t);
    }
    Some(acc as u16)
}

/// The character for one decimal digit.
pub open spec fn digit_char(d: int) -> char {
    if d == 0 {
        '0'
    } else if d == 1 {
        '1'
    } else if d == 2 {
        '2'
    } else if d == 3 {
        '3'
    } else if d == 4 {
        '4'
    } else if d == 5 {
        '5'
    } else if d == 6 {
        '6'
    } else if d == 7 {
        '7'
    } else if d == 8 {
        '8'
    } else {
        '9'
    }
}

/// The decimal representation of a non-negative number, without sign or
/// leading zeroes.
pub open spec fn dec_str(n: int) -> Seq<char>
    decreases n,
{
    if n <= 9 {
        seq![digit_char(n)]
    } else {
        dec_str(n / 10).push(digit_char(n % 10))
    }
}

fn digit_char_exec(d: u32) -> (c: char)
    requires
        d <= 9,
    ensures
        c == digit_char(d as int),
{
    if d == 0 {
        '0'
    } else if d == 1 {
        '1'
    } else if d == 2 {
        '2'
    } else if d == 3 {
        '3'
    } else if d == 4 {
        '4'
    } else if d == 5 {
        '5'
    } else if d == 6 {
        '6'
    } else if d == 7 {
        '7'
    } else if d == 8 {
        '8'
    } else {
        '9'
    }
}

/// Formats a port number in decimal.
pub fn u16_to_string(v: u16) -> (r: String)
    ensures
        r@ == dec_str(v as int),
{
    let mut digits: Vec<char> = Vec::new();
    let mut m: u32 = v as u32;
    if m == 0 {
        digits.push('0');
        proof {
            assert(digits@.reverse() =~= dec_str(v as int));
        }
    } else {
        while m > 0
            invariant
                m >= 0,
                m > 0 ==> dec_str(v as int) == dec_str(m as int) + digits@.reverse(),
                m == 0 ==> dec_str(v as int) == digits@.reverse(),
            decreases m,
        {
            let ghost prev = digits@;
            let ghost m0 = m as int;
            let d = m % 10;
            m = m / 10;
            digits.push(digit_char_exec(d));
            proof {
                assert(digits@ =~= prev.push(digit_char(m0 % 10)));
                assert(digits@.reverse() =~= seq![digit_char(m0 % 10)] + prev.reverse());
                if m0 <= 9 {
                    assert(dec_str(m0) == seq![digit_char(m0)]);
                    assert(dec_str(v as int) =~= digits@.reverse());
                } else {
                    assert(dec_str(m0) == dec_str(m0 / 10).push(digit_char(m0 % 10)));
                    assert(dec_str(m0 / 10).push(digit_char(m0 % 10)) + prev.reverse()
                        =~= dec_str(m0 / 10) + digits@.reverse());
                }
            }
        }
    }
    let mut out = String::new();
    let mut k: usize = digits.len();
    proof {
        assert(out@ =~= digits@.subrange(k as int, digits@.len() as int).reverse());
    }
    while k > 0
        invariant
            k <= digits@.len(),
            dec_str(v as int) == digits@.reverse(),
            out@ == digits@.subrange(k as int, digits@.len() as int).reverse(),
        decreases k,
    {
        let ghost prevout = out@;
        let c = digits[k - 1];
        push_char(&mut out, c);
        k -= 1;
        proof {
            let len = digits@.len() as int;
            assert(digits@.subrange(k as int, len) =~= seq![digits@[k as int]]
                + digits@.subrange(k + 1, len));
            assert(digits@.subrange(k as int, len).reverse() =~= digits@.subrange(
                k + 1,
                len,
            ).reverse().push(digits@[k as int]));
        }
    }
    proof {
        assert(digits@.subrange(0, digits@.len() as int) =~= digits@);
    }
    out
}

} // verus!
