//! Terms written as text: hexadecimal (optionally prefixed `0x`) of their
//! binary encoding, or lambda notation, where `λ` or `\` starts an
//! abstraction (an optional name and `.` follow), `(f a)` is an
//! application, and a run of decimal digits is a variable index.

use vstd::prelude::*;
use crate::blc::{decode_result, parse_blc, Term};
use crate::error::{BlcError, SyntaxFault};
use crate::hexcodec::{
    hex_decode, hex_decoded, hex_fault_of, hex_valid, is_ascii_text, is_hex_char,
};

verus! {

/// Unicode's `White_Space` characters.
pub open spec fn is_white_space(c: char) -> bool {
    let u = c as u32;
    (0x09 <= u && u <= 0x0D) || u == 0x20 || u == 0x85 || u == 0xA0 || u == 0x1680 || (0x2000
        <= u && u <= 0x200A) || u == 0x2028 || u == 0x2029 || u == 0x202F || u == 0x205F || u
        == 0x3000
}

/// Whether Unicode counts `c` as a letter or a number.
pub uninterp spec fn is_alphanumeric_char(c: char) -> bool;

/// Relies on `char::is_whitespace`: the Unicode `White_Space` property.
#[verifier::external_body]
fn is_space(c: char) -> (r: bool)
    ensures
        r == is_white_space(c),
{
    c.is_whitespace()
}

/// Relies on `char::is_alphanumeric`: Unicode alphabetic or numeric, which
/// among ASCII characters are the letters and the digits.
#[verifier::external_body]
fn is_alnum(c: char) -> (r: bool)
    ensures
        r == is_alphanumeric_char(c),
        (c as u32) < 128 ==> r == (('a' <= c && c <= 'z') || ('A' <= c && c <= 'Z') || ('0' <= c
            && c <= '9')),
{
    c.is_alphanumeric()
}

/// An ASCII decimal digit.
pub open spec fn is_digit(c: char) -> bool {
    '0' <= c && c <= '9'
}

/// The first position at or after `pos` whose character is not white space.
pub open spec fn skip_ws(cs: Seq<char>, pos: int) -> int
    decreases cs.len() - pos,
{
    if pos < 0 || pos >= cs.len() || !is_white_space(cs[pos]) {
        pos
    } else {
        skip_ws(cs, pos + 1)
    }
}

/// The first position at or after `pos` whose character is not alphanumeric.
pub open spec fn skip_name(cs: Seq<char>, pos: int) -> int
    decreases cs.len() - pos,
{
    if pos < 0 || pos >= cs.len() || !is_alphanumeric_char(cs[pos]) {
        pos
    } else {
        skip_name(cs, pos + 1)
    }
}

/// The first position at or after `pos` whose character is not a digit.
pub open spec fn digits_end(cs: Seq<char>, pos: int) -> int
    decreases cs.len() - pos,
{
    if pos < 0 || pos >= cs.len() || !is_digit(cs[pos]) {
        pos
    } else {
        digits_end(cs, pos + 1)
    }
}

/// The decimal value of the digits `cs[a..b]`.
pub open spec fn digits_value(cs: Seq<char>, a: int, b: int) -> nat
    decreases b - a,
{
    if b <= a {
        0
    } else {
        (digits_value(cs, a, b - 1) * 10 + (cs[b - 1] as int - 48)) as nat
    }
}

/// The term written at `pos` in lambda notation, and the position after
/// it; or the error that parsing meets.
pub open spec fn parse_at(cs: Seq<char>, pos: int) -> Result<(Term, int), BlcError>
    decreases cs.len() - pos,
{
    let p = skip_ws(cs, pos);
    if pos < 0 || p < pos || p >= cs.len() {
        Err(BlcError::UnexpectedEndOfInput { position: p as usize })
    } else if cs[p] == 'λ' || cs[p] == '\\' {
        let q = skip_ws(cs, skip_name(cs, skip_ws(cs, p + 1)));
        let body_pos = if q < cs.len() && cs[q] == '.' {
            q + 1
        } else {
            q
        };
        if p < q <= cs.len() {
            match parse_at(cs, body_pos) {
                Ok((body, e)) => Ok((Term::Abs(Box::new(body)), e)),
                Err(x) => Err(x),
            }
        } else {
            Err(BlcError::UnexpectedEndOfInput { position: q as usize })
        }
    } else if cs[p] == '(' {
        match parse_at(cs, p + 1) {
            Ok((f, e1)) => if p < e1 <= skip_ws(cs, e1) <= cs.len() {
                match parse_at(cs, skip_ws(cs, e1)) {
                    Ok((a, e2)) => {
                        let e3 = skip_ws(cs, e2);
                        if 0 <= e3 < cs.len() && cs[e3] == ')' {
                            Ok((Term::App(Box::new(f), Box::new(a)), e3 + 1))
                        } else {
                            Err(
                                BlcError::MalformedTextSyntax {
                                    position: e3 as usize,
                                    fault: SyntaxFault::MissingCloseParen,
                                },
                            )
                        }
                    },
                    Err(x) => Err(x),
                }
            } else {
                Err(BlcError::UnexpectedEndOfInput { position: e1 as usize })
            },
            Err(x) => Err(x),
        }
    } else if is_digit(cs[p]) {
        let e = digits_end(cs, p);
        let v = digits_value(cs, p, e);
        if v > usize::MAX {
            Err(
                BlcError::MalformedTextSyntax {
                    position: p as usize,
                    fault: SyntaxFault::InvalidNumeral,
                },
            )
        } else {
            Ok((Term::Var(v as usize), e))
        }
    } else {
        Err(
            BlcError::MalformedTextSyntax {
                position: p as usize,
                fault: SyntaxFault::UnexpectedCharacter(cs[p]),
            },
        )
    }
}

/// What parsing lambda notation from the start of `cs` gives; characters
/// after the first term are not read.
pub open spec fn lambda_result(cs: Seq<char>) -> Result<Term, BlcError> {
    match parse_at(cs, 0) {
        Ok((t, _)) => Ok(t),
        Err(x) => Err(x),
    }
}

/// The end of `cs[lo..hi]` once trailing white space is dropped.
pub open spec fn trim_back(cs: Seq<char>, lo: int, hi: int) -> int
    decreases hi - lo,
{
    if hi <= lo || !is_white_space(cs[hi - 1]) {
        hi
    } else {
        trim_back(cs, lo, hi - 1)
    }
}

/// `cs` without leading and trailing white space.
pub open spec fn trimmed(cs: Seq<char>) -> Seq<char> {
    cs.subrange(skip_ws(cs, 0), trim_back(cs, skip_ws(cs, 0), cs.len() as int))
}

/// Starts with `0x`.
pub open spec fn has_hex_prefix(t: Seq<char>) -> bool {
    t.len() >= 2 && t[0] == '0' && t[1] == 'x'
}

/// Text that is read as hexadecimal: prefixed `0x`, or hexadecimal digits only.
pub open spec fn is_hex_form(t: Seq<char>) -> bool {
    has_hex_prefix(t) || forall|i: int| 0 <= i < t.len() ==> is_hex_char(#[trigger] t[i])
}

/// The digits of hexadecimal text, without its `0x` prefix.
pub open spec fn hex_digits_of(t: Seq<char>) -> Seq<char> {
    if has_hex_prefix(t) {
        t.subrange(2, t.len() as int)
    } else {
        t
    }
}

proof fn lemma_skip_ws(cs: Seq<char>, pos: int)
    requires
        0 <= pos <= cs.len(),
    ensures
        pos <= skip_ws(cs, pos) <= cs.len(),
    decreases cs.len() - pos,
{
    if pos < cs.len() && is_white_space(cs[pos]) {
        lemma_skip_ws(cs, pos + 1);
    }
}

proof fn lemma_skip_name(cs: Seq<char>, pos: int)
    requires
        0 <= pos <= cs.len(),
    ensures
        pos <= skip_name(cs, pos) <= cs.len(),
    decreases cs.len() - pos,
{
    if pos < cs.len() && is_alphanumeric_char(cs[pos]) {
        lemma_skip_name(cs, pos + 1);
    }
}

proof fn lemma_digits_end(cs: Seq<char>, pos: int)
    requires
        0 <= pos <= cs.len(),
    ensures
        pos <= digits_end(cs, pos) <= cs.len(),
        forall|k: int| pos <= k < digits_end(cs, pos) ==> is_digit(#[trigger] cs[k]),
        digits_end(cs, pos) < cs.len() ==> !is_digit(cs[digits_end(cs, pos)]),
    decreases cs.len() - pos,
{
    if pos < cs.len() && is_digit(cs[pos]) {
        lemma_digits_end(cs, pos + 1);
    }
}

proof fn lemma_digits_value_mono(cs: Seq<char>, a: int, k: int, b: int)
    requires
        a <= k <= b,
        forall|i: int| a <= i < b ==> is_digit(#[trigger] cs[i]),
    ensures
        digits_value(cs, a, k) <= digits_value(cs, a, b),
    decreases b - k,
{
    if k < b {
        lemma_digits_value_mono(cs, a, k, b - 1);
        assert(is_digit(cs[b - 1]));
    }
}

/// Every term that parses ends after where parsing started.
proof fn lemma_parse_advances(cs: Seq<char>, pos: int)
    requires
        0 <= pos <= cs.len(),
    ensures
        parse_at(cs, pos) matches Ok((_, e)) ==> pos < e <= cs.len(),
    decreases cs.len() - pos,
{
    lemma_skip_ws(cs, pos);
    let p = skip_ws(cs, pos);
    if p < cs.len() {
        if cs[p] == 'λ' || cs[p] == '\\' {
            lemma_skip_ws(cs, p + 1);
            lemma_skip_name(cs, skip_ws(cs, p + 1));
            lemma_skip_ws(cs, skip_name(cs, skip_ws(cs, p + 1)));
            let q = skip_ws(cs, skip_name(cs, skip_ws(cs, p + 1)));
            let body_pos = if q < cs.len() && cs[q] == '.' {
                q + 1
            } else {
                q
            };
            lemma_parse_advances(cs, body_pos);
        } else if cs[p] == '(' {
            lemma_parse_advances(cs, p + 1);
            if let Ok((_, e1)) = parse_at(cs, p + 1) {
                lemma_skip_ws(cs, e1);
                lemma_parse_advances(cs, skip_ws(cs, e1));
                if let Ok((_, e2)) = parse_at(cs, skip_ws(cs, e1)) {
                    lemma_skip_ws(cs, e2);
                }
            }
        } else if is_digit(cs[p]) {
            lemma_digits_end(cs, p);
            assert(cs[p] == cs[p]);
            if digits_end(cs, p) == p {
                assert(false);
            }
        }
    }
}

fn skip_whitespace(chars: &Vec<char>, pos: &mut usize)
    requires
        *old(pos) <= chars@.len(),
    ensures
        *final(pos) == skip_ws(chars@, *old(pos) as int),
{
    while *pos < chars.len() && is_space(chars[*pos])
        invariant
            *pos <= chars@.len(),
            skip_ws(chars@, *pos as int) == skip_ws(chars@, *old(pos) as int),
        decreases chars@.len() - *pos,
    {
        *pos = *pos + 1;
    }
}

fn parse_lambda_term(chars: &Vec<char>, pos: &mut usize) -> (r: Result<Term, BlcError>)
    requires
        *old(pos) <= chars@.len(),
    ensures
        *final(pos) <= chars@.len(),
        match parse_at(chars@, *old(pos) as int) {
            Ok((t, e)) => r == Ok::<Term, BlcError>(t) && *final(pos) == e,
            Err(x) => r == Err::<Term, BlcError>(x),
        },
    decreases chars@.len() - *old(pos),
{
    let ghost cs = chars@;
    let ghost start = *pos as int;
    proof {
        lemma_skip_ws(cs, start);
        lemma_parse_advances(cs, start);
    }
    skip_whitespace(chars, pos);
    let p = *pos;
    if p >= chars.len() {
        return Err(BlcError::UnexpectedEndOfInput { position: p });
    }
    let c = chars[p];
    if c == 'λ' || c == '\\' {
        *pos = p + 1;
        proof {
            lemma_skip_ws(cs, p + 1);
            lemma_skip_name(cs, skip_ws(cs, p + 1));
            lemma_skip_ws(cs, skip_name(cs, skip_ws(cs, p + 1)));
        }
        skip_whitespace(chars, pos);
        while *pos < chars.len() && is_alnum(chars[*pos])
            invariant
                *pos <= cs.len(),
                cs == chars@,
                skip_name(cs, *pos as int) == skip_name(cs, skip_ws(cs, p + 1)),
            decreases cs.len() - *pos,
        {
            *pos = *pos + 1;
        }
        skip_whitespace(chars, pos);
        if *pos < chars.len() && chars[*pos] == '.' {
            *pos = *pos + 1;
        }
        let body = parse_lambda_term(chars, pos)?;
        Ok(Term::Abs(Box::new(body)))
    } else if c == '(' {
        *pos = p + 1;
        proof {
            lemma_parse_advances(cs, p + 1);
        }
        let func = parse_lambda_term(chars, pos)?;
        let ghost e1 = *pos as int;
        proof {
            lemma_skip_ws(cs, e1);
        }
        skip_whitespace(chars, pos);
        let arg = parse_lambda_term(chars, pos)?;
        proof {
            lemma_parse_advances(cs, skip_ws(cs, e1));
            lemma_skip_ws(cs, *pos as int);
        }
        skip_whitespace(chars, pos);
        if *pos < chars.len() && chars[*pos] == ')' {
            *pos = *pos + 1;
            Ok(Term::App(Box::new(func), Box::new(arg)))
        } else {
            Err(
                BlcError::MalformedTextSyntax {
                    position: *pos,
                    fault: SyntaxFault::MissingCloseParen,
                },
            )
        }
    } else if '0' <= c && c <= '9' {
        proof {
            lemma_digits_end(cs, p as int);
        }
        let mut value: usize = 0;
        let mut q: usize = p;
        while q < chars.len() && '0' <= chars[q] && chars[q] <= '9'
            invariant
                cs == chars@,
                *pos == p,
                start == *old(pos) as int,
                p == skip_ws(cs, start),
                0 <= start <= p < cs.len(),
                is_digit(cs[p as int]),
                p <= q <= digits_end(cs, p as int),
                digits_end(cs, p as int) <= cs.len(),
                forall|k: int| p <= k < digits_end(cs, p as int) ==> is_digit(#[trigger] cs[k]),
                digits_end(cs, p as int) < cs.len() ==> !is_digit(cs[digits_end(cs, p as int)]),
                value == digits_value(cs, p as int, q as int),
            decreases cs.len() - q,
        {
            let d = (chars[q] as u32 - 48) as usize;
            if value > (usize::MAX - d) / 10 {
                proof {
                    assert(value * 10 + d > usize::MAX) by (nonlinear_arith)
                        requires
                            value > (usize::MAX - d) / 10,
                            d <= 9,
                    ;
                    assert(digits_value(cs, p as int, q + 1) == value * 10 + d);
                    lemma_digits_value_mono(cs, p as int, q + 1, digits_end(cs, p as int));
                }
                return Err(
                    BlcError::MalformedTextSyntax {
                        position: p,
                        fault: SyntaxFault::InvalidNumeral,
                    },
                );
            }
            value = value * 10 + d;
            q = q + 1;
        }
        *pos = q;
        Ok(Term::Var(value))
    } else {
        Err(
            BlcError::MalformedTextSyntax {
                position: p,
                fault: SyntaxFault::UnexpectedCharacter(c),
            },
        )
    }
}

/// The characters of `text`.
fn text_chars(text: &str) -> (r: Vec<char>)
    ensures
        r@ == text@,
{
    let n = text.unicode_len();
    let mut v: Vec<char> = Vec::new();
    let mut i: usize = 0;
    while i < n
        invariant
            n == text@.len(),
            i <= n,
            v@ == text@.subrange(0, i as int),
        decreases n - i,
    {
        v.push(text.get_char(i));
        i = i + 1;
        assert(v@ =~= text@.subrange(0, i as int));
    }
    assert(v@ =~= text@);
    v
}

/// Parses the term at the start of `text` in lambda notation.
pub fn parse_lambda_text(text: &str) -> (r: Result<Term, BlcError>)
    ensures
        r == lambda_result(text@),
{
    let chars = text_chars(text);
    let mut pos: usize = 0;
    parse_lambda_term(&chars, &mut pos)
}

/// What parsing `s` as text gives: `None` where the trimmed text reads as
/// hexadecimal but is not an even run of hexadecimal digits.
pub open spec fn text_parse(s: Seq<char>) -> Option<Result<Term, BlcError>> {
    let t = trimmed(s);
    if !is_hex_form(t) {
        Some(lambda_result(t))
    } else if hex_valid(hex_digits_of(t)) {
        Some(decode_result(hex_decoded(hex_digits_of(t))))
    } else {
        None
    }
}

/// Parses a term from text: hexadecimal of its binary encoding when the
/// trimmed text starts with `0x` or holds only hexadecimal digits, lambda
/// notation otherwise.
pub fn parse_blc_text(text: &str) -> (r: Result<Term, BlcError>)
    requires
        text@.len() <= usize::MAX / 4,
    ensures
        match text_parse(text@) {
            Some(x) => r == x,
            None => r matches Err(BlcError::InvalidHexEncoding(_)),
        },
        text_parse(text@) is None && is_ascii_text(hex_digits_of(trimmed(text@))) ==> r == Err::<
            Term,
            BlcError,
        >(BlcError::InvalidHexEncoding(hex_fault_of(hex_digits_of(trimmed(text@))))),
{
    let chars = text_chars(text);
    let ghost cs = chars@;
    let mut a: usize = 0;
    proof {
        lemma_skip_ws(cs, 0);
    }
    skip_whitespace(&chars, &mut a);
    let mut b: usize = chars.len();
    while b > a && is_space(chars[b - 1])
        invariant
            a <= b <= cs.len(),
            cs == chars@,
            trim_back(cs, a as int, b as int) == trim_back(cs, a as int, cs.len() as int),
        decreases b,
    {
        b = b - 1;
    }
    let ghost t = trimmed(cs);
    assert(t == cs.subrange(a as int, b as int));
    let prefixed = b - a >= 2 && chars[a] == '0' && chars[a + 1] == 'x';
    let mut all_hex = true;
    let mut i: usize = a;
    while i < b
        invariant
            a <= i <= b <= cs.len(),
            cs == chars@,
            all_hex == forall|k: int| a <= k < i ==> is_hex_char(#[trigger] cs[k]),
        decreases b - i,
    {
        let c = chars[i];
        if !(('0' <= c && c <= '9') || ('a' <= c && c <= 'f') || ('A' <= c && c <= 'F')) {
            all_hex = false;
        }
        i = i + 1;
    }
    assert(all_hex == forall|k: int| 0 <= k < t.len() ==> is_hex_char(#[trigger] t[k])) by {
        if !all_hex {
            let k = choose|k: int| a <= k < b && !is_hex_char(#[trigger] cs[k]);
            assert(t[k - a] == cs[k]);
        } else {
            assert forall|k: int| 0 <= k < t.len() implies is_hex_char(#[trigger] t[k]) by {
                assert(t[k] == cs[k + a]);
            }
        }
    }
    if prefixed || all_hex {
        let digits = if prefixed {
            text.substring_char(a + 2, b)
        } else {
            text.substring_char(a, b)
        };
        assert(digits@ =~= hex_digits_of(t));
        let bytes = match hex_decode(digits) {
            Ok(v) => v,
            Err(f) => {
                return Err(BlcError::InvalidHexEncoding(f));
            },
        };
        parse_blc(bytes.as_slice())
    } else {
        let trimmed_text = text.substring_char(a, b);
        parse_lambda_text(trimmed_text)
    }
}

} // verus!
