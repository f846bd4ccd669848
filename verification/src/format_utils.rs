//! Shared classification and formatting helpers: special-token
//! normalization, numeric parsing of arbitrary input text, and the
//! printf-style precision directive.

use vstd::prelude::*;
use crate::text::chars_of;
use crate::text::trim_chars;
use crate::text::chars_match_lower;
use crate::text::matches_lower;
use crate::text::spec_trim;
use crate::text::strip_commas;
use crate::text::remove_commas;
use crate::text::is_digit_char;
use crate::canon::all_digits;
use crate::canon::str_val;
use crate::canon::digits_of_int;
use crate::canon::PREC_LIMIT;
use crate::value::Decimal;
use crate::value::accepted_number;
use crate::value::num_neg;
use crate::value::num_int_digits;
use crate::value::num_frac_digits;
use crate::canon::trim_zeros_spec;
use crate::value::parse_decimal;

verus! {

/// The recognized textual special values.
pub enum SpecialKind {
    PositiveInfinity,
    NegativeInfinity,
    NotANumber,
}

/// An input item after classification: a finite number, a recognized
/// special token, or text carried through unchanged.
pub enum Classified {
    Numeric(Decimal),
    SpecialToken(SpecialKind),
    Opaque(String),
}

/// The normalized text of a special token.
pub open spec fn special_text(k: SpecialKind) -> Seq<char> {
    match k {
        SpecialKind::PositiveInfinity => "+Inf"@,
        SpecialKind::NegativeInfinity => "-Inf"@,
        SpecialKind::NotANumber => "NaN"@,
    }
}

/// Which special token, if any, the trimmed and case-folded input spells.
pub open spec fn special_kind_spec(s: Seq<char>) -> Option<SpecialKind> {
    let t = spec_trim(s);
    if matches_lower(t, "inf"@) || matches_lower(t, "+inf"@) {
        Some(SpecialKind::PositiveInfinity)
    } else if matches_lower(t, "-inf"@) {
        Some(SpecialKind::NegativeInfinity)
    } else if matches_lower(t, "nan"@) {
        Some(SpecialKind::NotANumber)
    } else {
        None
    }
}

/// The normalized spelling of a special token, if the input is one.
pub open spec fn special_norm_spec(s: Seq<char>) -> Option<Seq<char>> {
    match special_kind_spec(s) {
        Some(k) => Some(special_text(k)),
        None => None,
    }
}

/// Recognizes the special spellings `inf`, `+inf`, `-inf` and `nan`
/// (case-insensitive, surrounding whitespace ignored) and returns their
/// normalized capitalization.
pub fn normalize_special_values(s: &str) -> (r: Option<String>)
    ensures
        (r is Some) <==> (special_norm_spec(s@) is Some),
        r is Some ==> r.unwrap()@ == special_norm_spec(s@).unwrap(),
{
    let cs = chars_of(s);
    let t = trim_chars(&cs);
    if chars_match_lower(&t, "inf") || chars_match_lower(&t, "+inf") {
        Some(String::from_str("+Inf"))
    } else if chars_match_lower(&t, "-inf") {
        Some(String::from_str("-Inf"))
    } else if chars_match_lower(&t, "nan") {
        Some(String::from_str("NaN"))
    } else {
        None
    }
}

/// The classification kind for a special token.
pub fn special_kind_of(s: &str) -> (r: Option<SpecialKind>)
    ensures
        r == special_kind_spec(s@),
{
    let cs = chars_of(s);
    let t = trim_chars(&cs);
    if chars_match_lower(&t, "inf") || chars_match_lower(&t, "+inf") {
        Some(SpecialKind::PositiveInfinity)
    } else if chars_match_lower(&t, "-inf") {
        Some(SpecialKind::NegativeInfinity)
    } else if chars_match_lower(&t, "nan") {
        Some(SpecialKind::NotANumber)
    } else {
        None
    }
}

/// The normalized text of a special token, as a string.
pub fn format_not_finite(k: &SpecialKind) -> (r: String)
    ensures
        r@ == special_text(*k),
{
    match k {
        SpecialKind::PositiveInfinity => String::from_str("+Inf"),
        SpecialKind::NegativeInfinity => String::from_str("-Inf"),
        SpecialKind::NotANumber => String::from_str("NaN"),
    }
}

/// Parses numeric-like text: grouping commas are stripped, then the text is
/// read as an optionally signed decimal number.
pub fn parse_value(value: &str) -> (r: Option<Decimal>)
    ensures
        (r is Some) <==> accepted_number(strip_commas(value@)),
        r is Some ==> r.unwrap().wf(),
        r is Some ==> r.unwrap().neg == num_neg(strip_commas(value@)),
        r is Some ==> r.unwrap().ip@ == digits_of_int(
            str_val(num_int_digits(strip_commas(value@))),
        ),
        r is Some ==> r.unwrap().fp@ == trim_zeros_spec(num_frac_digits(strip_commas(value@))),
        r is Some ==> r.unwrap().ip@.len() + r.unwrap().fp@.len() <= value@.len() + 1,
{
    let cleaned = remove_commas(value);
    let t = chars_of(cleaned.as_str());
    proof {
        crate::text::lemma_strip_commas_shorter(value@);
    }
    parse_decimal(&t)
}

/// Classifies one input item: a recognized special token, a parsed number,
/// or opaque text carried through unchanged.
pub fn classify(s: &str) -> (c: Classified)
    ensures
        match c {
            Classified::SpecialToken(k) => special_kind_spec(s@) == Some(k),
            Classified::Numeric(d) => {
                &&& special_kind_spec(s@) is None
                &&& accepted_number(strip_commas(s@))
                &&& d.wf()
                &&& d.neg == num_neg(strip_commas(s@))
                &&& d.ip@ == digits_of_int(str_val(num_int_digits(strip_commas(s@))))
                &&& d.fp@ == trim_zeros_spec(num_frac_digits(strip_commas(s@)))
                &&& d.ip@.len() + d.fp@.len() <= s@.len() + 1
            },
            Classified::Opaque(o) => {
                &&& special_kind_spec(s@) is None
                &&& !accepted_number(strip_commas(s@))
                &&& o@ == s@
            },
        },
{
    match special_kind_of(s) {
        Some(k) => Classified::SpecialToken(k),
        None => {
            match parse_value(s) {
                Some(d) => Classified::Numeric(d),
                None => Classified::Opaque(String::from_str(s)),
            }
        },
    }
}

/// The fraction-digit count named by a printf-style directive `%.<N>f`,
/// when the whole string has that form and `N` is within the renderer's
/// machine bound; anything else means natural precision.
pub open spec fn format_spec_prec(fs: Seq<char>) -> Option<usize> {
    if fs.len() >= 4 && fs[0] == '%' && fs[1] == '.' && fs.last() == 'f' && all_digits(
        fs.subrange(2, fs.len() - 1),
    ) && str_val(fs.subrange(2, fs.len() - 1)) <= PREC_LIMIT as int {
        Some(str_val(fs.subrange(2, fs.len() - 1)) as usize)
    } else {
        None
    }
}

/// Parses a printf-style precision directive.
pub fn parse_format_spec(fs: &str) -> (r: Option<usize>)
    ensures
        r == format_spec_prec(fs@),
        r is Some ==> r.unwrap() <= PREC_LIMIT,
{
    let cs = chars_of(fs);
    let n = cs.len();
    if n < 4 {
        return None;
    }
    if cs[0] != '%' || cs[1] != '.' {
        return None;
    }
    if cs[n - 1] != 'f' {
        return None;
    }
    let ghost digs = fs@.subrange(2, fs@.len() - 1);
    let mut acc: usize = 0;
    let mut i: usize = 2;
    while i < n - 1
        invariant
            cs@ == fs@,
            n == cs@.len() >= 4,
            2 <= i <= n - 1,
            digs == fs@.subrange(2, fs@.len() - 1),
            forall|j: int| 0 <= j < i - 2 ==> is_digit_char(digs[j]),
            acc as int == str_val(digs.take(i - 2)),
            acc <= PREC_LIMIT,
        decreases n - i,
    {
        let c = cs[i];
        if !(c >= '0' && c <= '9') {
            proof {
                assert(digs[i - 2] == fs@[i as int]);
                assert(!all_digits(digs));
            }
            return None;
        }
        let d = crate::digits::digit_value_of(c);
        proof {
            assert(digs.take(i - 1).drop_last() =~= digs.take(i - 2));
            assert(digs.take(i - 1).last() == digs[i - 2]);
            assert(digs[i - 2] == fs@[i as int]);
        }
        let next: usize = acc * 10 + (d as usize);
        if next > PREC_LIMIT {
            proof {
                assert(str_val(digs.take(i - 1)) > PREC_LIMIT as int);
                if all_digits(digs) {
                    lemma_prefix_le(digs, i - 1);
                }
            }
            return None;
        }
        acc = next;
        i = i + 1;
    }
    proof {
        assert(digs.take(digs.len() as int) =~= digs);
        assert(all_digits(digs));
    }
    Some(acc)
}

/// Renders a parsed number under a printf-style precision directive:
/// `%.<N>f` rounds half to even at `N` fraction digits; any other directive
/// means the canonical rendering.
pub fn apply_printf_style(format_spec: &str, value: &Decimal) -> (r: String)
    requires
        value.wf(),
        value.ip@.len() + value.fp@.len() <= crate::value::MAX_DIGITS,
    ensures
        r@ == crate::value::rendered_text(
            value.neg,
            value.m(),
            value.scale(),
            format_spec_prec(format_spec@),
        ),
{
    let p = parse_format_spec(format_spec);
    let out = value.render_opt(p);
    crate::text::string_from_chars(&out)
}

/// A digit prefix never exceeds the whole digit string in value.
proof fn lemma_prefix_le(s: Seq<char>, i: int)
    requires
        0 <= i <= s.len(),
        all_digits(s),
    ensures
        str_val(s.take(i)) <= str_val(s),
{
    let a = s.take(i);
    let b = s.skip(i);
    assert(s =~= a + b);
    assert(all_digits(a));
    assert(all_digits(b));
    crate::canon::lemma_str_val_split(a, b);
    crate::canon::lemma_str_val_upper(a);
    crate::canon::lemma_str_val_upper(b);
    crate::canon::lemma_pow10_pos(b.len() as nat);
    let va = str_val(a);
    let pw = crate::canon::pow_int(10, b.len() as nat);
    assert(va * pw >= va) by (nonlinear_arith)
        requires
            va >= 0,
            pw >= 1,
    ;
}

} // verus!
