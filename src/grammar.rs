use vstd::prelude::*;
use crate::token::{escape_of, is_digit, unescaped_of, EscapedStringToken};

verus! {

/// Value of a hexadecimal digit.
pub open spec fn hex_digit_value(c: char) -> Option<nat> {
    if '0' <= c && c <= '9' {
        Some((c as nat - '0' as nat) as nat)
    } else if 'a' <= c && c <= 'f' {
        Some((c as nat - 'a' as nat + 10) as nat)
    } else if 'A' <= c && c <= 'F' {
        Some((c as nat - 'A' as nat + 10) as nat)
    } else {
        None
    }
}

/// Value of four hexadecimal digits, if they all are.
pub open spec fn hex4_value(s: Seq<char>) -> Option<nat> {
    if s.len() == 4 && hex_digit_value(s[0]) is Some && hex_digit_value(s[1]) is Some
        && hex_digit_value(s[2]) is Some && hex_digit_value(s[3]) is Some {
        Some(
            hex_digit_value(s[0])->0 * 4096 + hex_digit_value(s[1])->0 * 256 + hex_digit_value(s[2])->0 * 16
                + hex_digit_value(s[3])->0,
        )
    } else {
        None
    }
}

/// Whether a code is a Unicode scalar value, that is, a `char`.
pub open spec fn is_scalar(v: nat) -> bool {
    v <= 0x10FFFF && !(0xD800 <= v && v <= 0xDFFF)
}

/// Value of a run of decimal digits.
pub open spec fn digits_value(s: Seq<char>) -> nat
    decreases s.len(),
{
    if s.len() == 0 {
        0
    } else {
        digits_value(s.drop_last()) * 10 + (s.last() as nat - '0' as nat) as nat
    }
}

/// Value of an integer numeral: digits, after an optional minus sign.
pub open spec fn numeral_value(s: Seq<char>) -> int {
    if s.len() > 0 && s[0] == '-' {
        -digits_value(s.drop_first())
    } else {
        digits_value(s) as int
    }
}

pub open spec fn all_digits(s: Seq<char>) -> bool {
    forall|i: int| 0 <= i < s.len() ==> is_digit(#[trigger] s[i])
}

/// Number of decimal digits at the start of `t`.
pub open spec fn digit_run(t: Seq<char>) -> nat
    decreases t.len(),
{
    if t.len() > 0 && is_digit(t[0]) {
        1 + digit_run(t.drop_first())
    } else {
        0
    }
}

pub proof fn lemma_run_digits(t: Seq<char>, k: nat)
    requires
        k <= digit_run(t),
    ensures
        k <= t.len(),
        all_digits(t.subrange(0, k as int)),
    decreases k,
{
    if k > 0 {
        lemma_run_digits(t.drop_first(), (k - 1) as nat);
        assert forall|i: int| 0 <= i < k implies is_digit(#[trigger] t.subrange(0, k as int)[i]) by {
            if i > 0 {
                assert(t.subrange(0, k as int)[i] == t.drop_first().subrange(0, k - 1)[i - 1]);
            }
        }
    }
}

pub open spec fn sign_len(t: Seq<char>) -> nat {
    if t.len() > 0 && t[0] == '-' {
        1
    } else {
        0
    }
}

/// Length of the integer part at the start of `t`: a lone `0`, or a run of
/// digits (zero when there is none).
pub open spec fn int_len(t: Seq<char>) -> nat {
    if t.len() > 0 && t[0] == '0' {
        1
    } else {
        digit_run(t)
    }
}

/// Where the integer part of the numeral at the start of `t` ends.
pub open spec fn int_end(t: Seq<char>) -> nat {
    sign_len(t) + int_len(t.subrange(sign_len(t) as int, t.len() as int))
}

/// Length of the fraction at the start of `t`: none when a dot has no digit.
pub open spec fn frac_len(t: Seq<char>) -> Option<nat> {
    if t.len() > 0 && t[0] == '.' {
        if digit_run(t.drop_first()) > 0 {
            Some(1 + digit_run(t.drop_first()))
        } else {
            None
        }
    } else {
        Some(0)
    }
}

/// Length of the exponent at the start of `t`: none when it has no digit.
pub open spec fn exp_len(t: Seq<char>) -> Option<nat> {
    if t.len() > 0 && (t[0] == 'e' || t[0] == 'E') {
        let s: nat = if t.len() > 1 && (t[1] == '+' || t[1] == '-') { 1 } else { 0 };
        if digit_run(t.subrange((1 + s) as int, t.len() as int)) > 0 {
            Some(1 + s + digit_run(t.subrange((1 + s) as int, t.len() as int)))
        } else {
            None
        }
    } else {
        Some(0)
    }
}

/// Whether a fraction or an exponent starts at `i`.
pub open spec fn float_mark(t: Seq<char>, i: nat) -> bool {
    i < t.len() && (t[i as int] == '.' || t[i as int] == 'e' || t[i as int] == 'E')
}

/// Length of the numeral at the start of `t`, if one starts there.
pub open spec fn numeral_len(t: Seq<char>) -> Option<nat> {
    let c = int_end(t);
    if int_len(t.subrange(sign_len(t) as int, t.len() as int)) == 0 {
        None
    } else if !float_mark(t, c) {
        Some(c)
    } else {
        match frac_len(t.subrange(c as int, t.len() as int)) {
            None => None,
            Some(f) => match exp_len(t.subrange((c + f) as int, t.len() as int)) {
                None => None,
                Some(e) => Some(c + f + e),
            },
        }
    }
}

/// A character by its code.
pub open spec fn char_of_code(v: nat) -> char {
    v as char
}

/// The escape at the start of `t` (which starts with a backslash): the
/// character it stands for and its length.
pub open spec fn escape_step(t: Seq<char>) -> Option<(char, nat)> {
    if t.len() < 2 {
        None
    } else {
        match escape_of(t[1]) {
            None => None,
            Some(e) => if unescaped_of(e) is Some {
                Some((unescaped_of(e)->0, 2))
            } else if e == EscapedStringToken::Unicode {
                match unicode_step(t.subrange(2, t.len() as int)) {
                    Some((c, _)) => Some((c, 6)),
                    None => None,
                }
            } else {
                None
            },
        }
    }
}

/// The character named by four hexadecimal digits at the start of `t`.
pub open spec fn unicode_step(t: Seq<char>) -> Option<(char, nat)> {
    if t.len() >= 4 {
        match hex4_value(t.subrange(0, 4)) {
            Some(v) => if is_scalar(v) {
                Some((char_of_code(v), 4))
            } else {
                None
            },
            None => None,
        }
    } else {
        None
    }
}

pub open spec fn then_add(c: char, k: nat, rest: Option<(Seq<char>, nat)>) -> Option<(Seq<char>, nat)> {
    match rest {
        Some((s, m)) => Some((seq![c] + s, k + m)),
        None => None,
    }
}

pub open spec fn add_prefix(b: Seq<char>, m: nat, rest: Option<(Seq<char>, nat)>) -> Option<(Seq<char>, nat)> {
    match rest {
        Some((s, k)) => Some((b + s, m + k)),
        None => None,
    }
}

/// The body of a string literal at the start of `t` (after the opening
/// quotation mark): its characters with escapes resolved, and the length
/// read up to and including the closing quotation mark; none when it is
/// malformed or crosses a line break.
pub open spec fn decode_body(t: Seq<char>) -> Option<(Seq<char>, nat)>
    decreases t.len(),
{
    if t.len() == 0 {
        None
    } else if t[0] == '"' {
        Some((seq![], 1))
    } else if t[0] == '\n' {
        None
    } else if t[0] == '\\' {
        match escape_step(t) {
            Some((c, k)) => if 0 < k <= t.len() {
                then_add(c, k, decode_body(t.subrange(k as int, t.len() as int)))
            } else {
                None
            },
            None => None,
        }
    } else {
        then_add(t[0], 1, decode_body(t.drop_first()))
    }
}

/// Whether reading a string body from `t` meets a line break before the
/// closing quotation mark.
pub open spec fn breaks_line(t: Seq<char>) -> bool
    decreases t.len(),
{
    if t.len() == 0 {
        false
    } else if t[0] == '"' {
        false
    } else if t[0] == '\n' {
        true
    } else if t[0] == '\\' {
        match escape_step(t) {
            Some((_, k)) => if 0 < k <= t.len() {
                breaks_line(t.subrange(k as int, t.len() as int))
            } else {
                false
            },
            None => false,
        }
    } else {
        breaks_line(t.drop_first())
    }
}

} // verus!
