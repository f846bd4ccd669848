//! The grouped-digit formatter (`intcomma`) and the word-scaled magnitude
//! formatter (`intword`).

use vstd::prelude::*;
use crate::text::strip_commas;
use crate::text::group_commas;
use crate::text::group_chars;
use crate::text::string_from_chars;
use crate::text::chars_of;
use crate::canon::str_val;
use crate::canon::pow_int;
use crate::canon::digits_of_int;
use crate::canon::trim_zeros_spec;
use crate::canon::pow10_seq;
use crate::canon::PREC_LIMIT;
use crate::value::Decimal;
use crate::value::MAX_DIGITS;
use crate::value::accepted_number;
use crate::value::num_neg;
use crate::value::num_int_digits;
use crate::value::num_frac_digits;
use crate::value::sign_seq;
use crate::value::frac_suffix;
use crate::value::fixed_int_digits;
use crate::value::fixed_frac_digits;
use crate::value::canon_int_digits;
use crate::value::canon_frac_digits;
use crate::value::rendered_text;
use crate::value::canonical_text;
use crate::format_utils::Classified;
use crate::format_utils::classify;
use crate::format_utils::format_not_finite;
use crate::format_utils::special_kind_spec;
use crate::format_utils::special_text;
use crate::format_utils::format_spec_prec;
use crate::format_utils::parse_format_spec;
use crate::digits::extend_vec;

verus! {

/// Largest input length the formatters accept: a machine bound that keeps
/// every intermediate digit string within the renderers' own bound.
pub const MAX_INPUT: usize = 90000000;

/// The grouped text of a classified number under an optional digit count:
/// sign, comma-grouped integer digits, and the fraction (rounded to the
/// digit count when one is given, as parsed otherwise).
pub open spec fn intcomma_num_text(
    neg: bool,
    ipd: Seq<char>,
    fpd: Seq<char>,
    nd: Option<usize>,
) -> Seq<char> {
    match nd {
        None => sign_seq(neg) + group_commas(ipd) + frac_suffix(fpd),
        Some(p) => {
            let m = str_val(ipd + fpd);
            let sc = fpd.len() as nat;
            sign_seq(neg) + group_commas(fixed_int_digits(m, sc, p as nat)) + (if p == 0 {
                Seq::<char>::empty()
            } else {
                seq!['.'] + fixed_frac_digits(m, sc, p as nat)
            })
        },
    }
}

/// What `intcomma` returns for any input: the normalized token for a special
/// spelling, the input itself when it is not numeric, and otherwise the
/// parsed number with grouped integer digits.
pub open spec fn intcomma_spec(s: Seq<char>, nd: Option<usize>) -> Seq<char> {
    match special_kind_spec(s) {
        Some(k) => special_text(k),
        None => {
            let t = strip_commas(s);
            if !accepted_number(t) {
                s
            } else {
                intcomma_num_text(
                    num_neg(t),
                    digits_of_int(str_val(num_int_digits(t))),
                    trim_zeros_spec(num_frac_digits(t)),
                    nd,
                )
            }
        },
    }
}

/// Formats a number with commas grouping its integer digits every three
/// places, rounding the fraction to `ndigits` places when given.  Special
/// spellings normalize to `+Inf`, `-Inf` and `NaN`; non-numeric input is
/// returned unchanged.
pub fn intcomma(value: &str, ndigits: Option<usize>) -> (r: String)
    requires
        value@.len() <= MAX_INPUT,
        ndigits is Some ==> ndigits.unwrap() <= PREC_LIMIT,
    ensures
        r@ == intcomma_spec(value@, ndigits),
{
    match classify(value) {
        Classified::SpecialToken(k) => format_not_finite(&k),
        Classified::Opaque(o) => o,
        Classified::Numeric(d) => {
            let mut out: Vec<char> = Vec::new();
            if d.neg {
                out.push('-');
            }
            match ndigits {
                None => {
                    let g = group_chars(&d.ip);
                    extend_vec(&mut out, &g);
                    if d.fp.len() > 0 {
                        out.push('.');
                        let fpcopy = crate::digits::subvec(&d.fp, 0, d.fp.len());
                        extend_vec(&mut out, &fpcopy);
                        proof {
                            assert(d.fp@.subrange(0, d.fp@.len() as int) =~= d.fp@);
                            assert(out@ =~= sign_seq(d.neg) + group_commas(d.ip@) + (seq!['.']
                                + d.fp@));
                        }
                    } else {
                        proof {
                            assert(out@ =~= sign_seq(d.neg) + group_commas(d.ip@));
                            assert(frac_suffix(d.fp@) =~= Seq::<char>::empty());
                            assert(out@ =~= sign_seq(d.neg) + group_commas(d.ip@) + frac_suffix(
                                d.fp@,
                            ));
                        }
                    }
                },
                Some(p) => {
                    let (ipd2, fpd2) = d.fixed_parts(p);
                    let g = group_chars(&ipd2);
                    extend_vec(&mut out, &g);
                    if p > 0 {
                        out.push('.');
                        extend_vec(&mut out, &fpd2);
                        proof {
                            assert(out@ =~= sign_seq(d.neg) + group_commas(ipd2@) + (seq!['.']
                                + fpd2@));
                        }
                    } else {
                        proof {
                            assert(out@ =~= sign_seq(d.neg) + group_commas(ipd2@));
                        }
                    }
                },
            }
            string_from_chars(&out)
        },
    }
}

/// The magnitude-bucket exponents: the `i`-th threshold is ten to this
/// power, rising in steps of three up to the decillions and then jumping to
/// the googol.
pub open spec fn pexp(i: int) -> int {
    if i <= 10 {
        3 * (i + 1)
    } else {
        100
    }
}

/// The scale word of the `i`-th bucket.
pub open spec fn scale_word(i: int) -> Seq<char> {
    if i == 0 {
        "thousand"@
    } else if i == 1 {
        "million"@
    } else if i == 2 {
        "billion"@
    } else if i == 3 {
        "trillion"@
    } else if i == 4 {
        "quadrillion"@
    } else if i == 5 {
        "quintillion"@
    } else if i == 6 {
        "sextillion"@
    } else if i == 7 {
        "septillion"@
    } else if i == 8 {
        "octillion"@
    } else if i == 9 {
        "nonillion"@
    } else if i == 10 {
        "decillion"@
    } else {
        "googol"@
    }
}

/// The first bucket from `i` on whose threshold admits an integer part of
/// `l` digits, or 12 when none does.
pub open spec fn word_bucket_from(l: int, i: int) -> int
    decreases 12 - i,
{
    if i >= 12 {
        12
    } else if l <= pexp(i) {
        i
    } else {
        word_bucket_from(l, i + 1)
    }
}

/// The selected bucket for an integer part of `l` digits (`l > 3`): the
/// first index whose threshold the magnitude is below, or 12 past the table.
pub open spec fn word_bucket(l: int) -> int {
    word_bucket_from(l, 1)
}

/// The word-scaled text of a classified number: grouped digits below a
/// thousand, the raw digits past the table, and otherwise the value scaled
/// into its bucket, promoted one bucket when rounding reaches the next
/// threshold.
pub open spec fn intword_num_text(
    neg: bool,
    ipd: Seq<char>,
    fpd: Seq<char>,
    p: Option<usize>,
) -> Seq<char> {
    if ipd.len() <= 3 {
        sign_seq(neg) + group_commas(ipd)
    } else {
        let i = word_bucket(ipd.len() as int);
        if i >= 12 {
            sign_seq(neg) + ipd + frac_suffix(fpd)
        } else {
            let m = str_val(ipd + fpd);
            let sc2 = (fpd.len() + pexp(i - 1)) as nat;
            let ratio = (pexp(i) - pexp(i - 1)) as nat;
            let ipd2 = canon_int_digits(m, sc2);
            let fpd2 = canon_frac_digits(m, sc2);
            let promote = match p {
                Some(pp) => crate::canon::round_scaled(
                    str_val(ipd2 + fpd2),
                    fpd2.len() as nat,
                    pp as nat,
                ) == pow_int(10, (ratio + pp) as nat),
                None => ipd2 == pow10_seq(ratio) && fpd2.len() == 0,
            };
            if promote {
                let sc3 = (fpd.len() + pexp(i)) as nat;
                let ipd3 = canon_int_digits(m, sc3);
                let fpd3 = canon_frac_digits(m, sc3);
                sign_seq(neg) + rendered_text(false, str_val(ipd3 + fpd3), fpd3.len() as nat, p)
                    + seq![' '] + scale_word(i)
            } else {
                sign_seq(neg) + rendered_text(false, str_val(ipd2 + fpd2), fpd2.len() as nat, p)
                    + seq![' '] + scale_word(i - 1)
            }
        }
    }
}

/// What `intword` returns for any input.
pub open spec fn intword_spec(s: Seq<char>, p: Option<usize>) -> Seq<char> {
    match special_kind_spec(s) {
        Some(k) => special_text(k),
        None => {
            let t = strip_commas(s);
            if !accepted_number(t) {
                s
            } else {
                intword_num_text(
                    num_neg(t),
                    digits_of_int(str_val(num_int_digits(t))),
                    trim_zeros_spec(num_frac_digits(t)),
                    p,
                )
            }
        },
    }
}

/// The `i`-th bucket exponent.
fn pexp_at(i: usize) -> (r: usize)
    requires
        i <= 11,
    ensures
        r as int == pexp(i as int),
        r <= 100,
{
    if i <= 10 {
        3 * (i + 1)
    } else {
        100
    }
}

/// The first bucket admitting an integer part of `l` digits.
fn bucket_index(l: usize) -> (i: usize)
    ensures
        1 <= i <= 12,
        i as int == word_bucket(l as int),
{
    let mut i: usize = 1;
    while i < 12 && l > pexp_at(i)
        invariant
            1 <= i <= 12,
            word_bucket(l as int) == word_bucket_from(l as int, i as int),
        decreases 12 - i,
    {
        i = i + 1;
    }
    proof {
        if i < 12 {
            assert(word_bucket_from(l as int, i as int) == i);
        }
    }
    i
}

/// The scale word of the `i`-th bucket.
fn word_str(i: usize) -> (r: &'static str)
    requires
        i <= 11,
    ensures
        r@ == scale_word(i as int),
{
    if i == 0 {
        "thousand"
    } else if i == 1 {
        "million"
    } else if i == 2 {
        "billion"
    } else if i == 3 {
        "trillion"
    } else if i == 4 {
        "quadrillion"
    } else if i == 5 {
        "quintillion"
    } else if i == 6 {
        "sextillion"
    } else if i == 7 {
        "septillion"
    } else if i == 8 {
        "octillion"
    } else if i == 9 {
        "nonillion"
    } else if i == 10 {
        "decillion"
    } else {
        "googol"
    }
}

/// Whether the rounded rendering of `sd` at the directive equals the bucket
/// ratio (ten to `ratio`): the rounding-boundary promotion test.
fn reaches_ratio(sd: &Decimal, ratio: usize, p: Option<usize>) -> (r: bool)
    requires
        sd.wf(),
        ratio <= 100,
        p is Some ==> p.unwrap() <= PREC_LIMIT,
        sd.ip@.len() + sd.fp@.len() <= MAX_DIGITS,
    ensures
        r == match p {
            Some(pp) => crate::canon::round_scaled(sd.m(), sd.scale(), pp as nat) == pow_int(
                10,
                (ratio + pp) as nat,
            ),
            None => sd.ip@ == pow10_seq(ratio as nat) && sd.fp@.len() == 0,
        },
{
    match p {
        Some(pp) => {
            let (i2, f2) = sd.fixed_parts(pp);
            let ghost n2 = crate::canon::round_scaled(sd.m(), sd.scale(), pp as nat);
            let structural = crate::digits::is_pow10_digits(&i2, ratio) && !crate::digits::has_nonzero(
                &f2,
            );
            proof {
                crate::canon::lemma_str_val_upper(sd.ip@ + sd.fp@);
                crate::canon::lemma_round_scaled_nonneg(sd.m(), sd.scale(), pp as nat);
                crate::canon::lemma_pow10_pos(pp as nat);
                crate::canon::lemma_pow10_pos(ratio as nat);
                crate::canon::lemma_pow10_adds(ratio as nat, pp as nat);
                vstd::arithmetic::div_mod::lemma_fundamental_div_mod(n2, pow_int(10, pp as nat));
                crate::canon::lemma_div_nonneg(n2, pow_int(10, pp as nat));
                crate::canon::lemma_digits_of_int(n2 / pow_int(10, pp as nat));
                crate::canon::lemma_pow10_seq_val(ratio as nat);
                if structural {
                    assert(str_val(i2@) == pow_int(10, ratio as nat));
                    crate::canon::lemma_val_zero_iff(f2@);
                    if pp > 0 {
                        assert(str_val(f2@) == n2 % pow_int(10, pp as nat)) by {
                            crate::canon::lemma_digits_of_int(n2 % pow_int(10, pp as nat));
                            crate::canon::lemma_zeros_val(
                                (pp - digits_of_int(n2 % pow_int(10, pp as nat)).len()) as nat,
                            );
                            if digits_of_int(n2 % pow_int(10, pp as nat)).len() < pp {
                                crate::canon::lemma_str_val_split(
                                    crate::canon::zeros(
                                        (pp - digits_of_int(
                                            n2 % pow_int(10, pp as nat),
                                        ).len()) as nat,
                                    ),
                                    digits_of_int(n2 % pow_int(10, pp as nat)),
                                );
                            }
                        }
                        assert(n2 % pow_int(10, pp as nat) == 0);
                    } else {
                        assert(pow_int(10, 0) == 1);
                        assert(n2 % 1 == 0);
                    }
                    assert(n2 == pow_int(10, ratio as nat) * pow_int(10, pp as nat));
                } else {
                    if n2 == pow_int(10, (ratio + pp) as nat) {
                        vstd::arithmetic::div_mod::lemma_fundamental_div_mod_converse_div(
                            n2,
                            pow_int(10, pp as nat),
                            pow_int(10, ratio as nat),
                            0,
                        );
                        vstd::arithmetic::div_mod::lemma_fundamental_div_mod_converse_mod(
                            n2,
                            pow_int(10, pp as nat),
                            pow_int(10, ratio as nat),
                            0,
                        );
                        assert(n2 / pow_int(10, pp as nat) == pow_int(10, ratio as nat));
                        crate::canon::lemma_digits_unique(pow10_seq(ratio as nat));
                        assert(i2@ == pow10_seq(ratio as nat));
                        if pp > 0 {
                            assert(str_val(f2@) == n2 % pow_int(10, pp as nat)) by {
                                crate::canon::lemma_digits_of_int(n2 % pow_int(10, pp as nat));
                                crate::canon::lemma_zeros_val(
                                    (pp - digits_of_int(n2 % pow_int(10, pp as nat)).len()) as nat,
                                );
                                if digits_of_int(n2 % pow_int(10, pp as nat)).len() < pp {
                                    crate::canon::lemma_str_val_split(
                                        crate::canon::zeros(
                                            (pp - digits_of_int(
                                                n2 % pow_int(10, pp as nat),
                                            ).len()) as nat,
                                        ),
                                        digits_of_int(n2 % pow_int(10, pp as nat)),
                                    );
                                }
                            }
                            crate::canon::lemma_val_zero_iff(f2@);
                            assert(crate::canon::all_zeros(f2@));
                        }
                        assert(structural);
                        assert(false);
                    }
                }
            }
            structural
        },
        None => {
            let a = crate::digits::is_pow10_digits(&sd.ip, ratio);
            a && sd.fp.len() == 0
        },
    }
}

/// Converts a number to a word-scaled magnitude string ("1.2 billion"):
/// plain grouped digits below a thousand, the raw digits past the table's
/// last threshold, and otherwise the value scaled into the largest fitting
/// power-of-thousand bucket, promoted one bucket when rounding at the
/// directive's precision reaches the next threshold.  Special spellings
/// normalize to `+Inf`, `-Inf` and `NaN`; non-numeric input is returned
/// unchanged.
pub fn intword(value: &str, format: &str) -> (r: String)
    requires
        value@.len() <= MAX_INPUT,
    ensures
        r@ == intword_spec(value@, format_spec_prec(format@)),
{
    let p = parse_format_spec(format);
    match classify(value) {
        Classified::SpecialToken(k) => format_not_finite(&k),
        Classified::Opaque(o) => o,
        Classified::Numeric(d) => {
            let iplen = d.ip.len();
            if iplen <= 3 {
                let mut out: Vec<char> = Vec::new();
                if d.neg {
                    out.push('-');
                }
                let g = group_chars(&d.ip);
                extend_vec(&mut out, &g);
                proof {
                    assert(out@ =~= sign_seq(d.neg) + group_commas(d.ip@));
                }
                string_from_chars(&out)
            } else {
                let i = bucket_index(iplen);
                if i >= 12 {
                    let mut out: Vec<char> = Vec::new();
                    if d.neg {
                        out.push('-');
                    }
                    let ipcopy = crate::digits::subvec(&d.ip, 0, d.ip.len());
                    extend_vec(&mut out, &ipcopy);
                    proof {
                        assert(d.ip@.subrange(0, d.ip@.len() as int) =~= d.ip@);
                    }
                    if d.fp.len() > 0 {
                        out.push('.');
                        let fpcopy = crate::digits::subvec(&d.fp, 0, d.fp.len());
                        extend_vec(&mut out, &fpcopy);
                        proof {
                            assert(d.fp@.subrange(0, d.fp@.len() as int) =~= d.fp@);
                            assert(out@ =~= sign_seq(d.neg) + d.ip@ + (seq!['.'] + d.fp@));
                        }
                    } else {
                        proof {
                            assert(frac_suffix(d.fp@) =~= Seq::<char>::empty());
                            assert(out@ =~= sign_seq(d.neg) + d.ip@ + frac_suffix(d.fp@));
                        }
                    }
                    string_from_chars(&out)
                } else {
                    let k1 = pexp_at(i - 1);
                    let mut sd = d.div_pow10(k1);
                    sd.neg = false;
                    let ratio = pexp_at(i) - k1;
                    let ghost m = d.m();
                    let ghost sc2 = (d.scale() + k1) as nat;
                    proof {
                        assert(sd.ip@ == canon_int_digits(m, sc2));
                        assert(sd.fp@ == canon_frac_digits(m, sc2));
                        assert(sd.m() == str_val(canon_int_digits(m, sc2) + canon_frac_digits(
                            m,
                            sc2,
                        )));
                        assert(ratio as int == pexp(i as int) - pexp(i as int - 1));
                    }
                    let promote = reaches_ratio(&sd, ratio, p);
                    let rendered: Vec<char>;
                    let iw: usize;
                    if promote {
                        let k2 = pexp_at(i);
                        let mut sd2 = d.div_pow10(k2);
                        sd2.neg = false;
                        let ghost sc3 = (d.scale() + k2) as nat;
                        proof {
                            assert(sd2.ip@ == canon_int_digits(m, sc3));
                            assert(sd2.fp@ == canon_frac_digits(m, sc3));
                        }
                        rendered = sd2.render_opt(p);
                        iw = i;
                    } else {
                        rendered = sd.render_opt(p);
                        iw = i - 1;
                    }
                    let w = word_str(iw);
                    let wv = chars_of(w);
                    let mut out: Vec<char> = Vec::new();
                    if d.neg {
                        out.push('-');
                    }
                    extend_vec(&mut out, &rendered);
                    out.push(' ');
                    extend_vec(&mut out, &wv);
                    proof {
                        assert(out@ =~= sign_seq(d.neg) + rendered@ + seq![' '] + scale_word(
                            iw as int,
                        ));
                    }
                    string_from_chars(&out)
                }
            }
        },
    }
}

} // verus!
