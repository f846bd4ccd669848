//! Library-wide laws, stated and proved over the formatters' specification
//! functions.  The grouping round-trip law stands beside the grouping code
//! in `text`.

use vstd::prelude::*;
use crate::canon::is_digits;
use crate::canon::no_leading_zero;
use crate::canon::str_val;
use crate::canon::pow_int;
use crate::canon::lemma_str_val_lower;
use crate::canon::lemma_str_val_upper;
use crate::canon::lemma_str_val_split;
use crate::number::intcomma_spec;
use crate::number::intword_spec;
use crate::number::word_bucket;
use crate::number::word_bucket_from;
use crate::number::pexp;
use crate::filesize::naturalsize_spec;
use crate::text::spec_trim;
use crate::text::matches_lower;
use crate::text::lower_eq_char;

verus! {

/// Idempotence of the special tokens: feeding an already-normalized token
/// (`+Inf`, `-Inf` or `NaN`) to any of the three formatters returns it
/// unchanged, whatever the precision directive or addressing scheme.
pub proof fn lemma_special_token_fixpoint(
    s: Seq<char>,
    nd: Option<usize>,
    p: Option<usize>,
    binary: bool,
    gnu: bool,
)
    requires
        s == "+Inf"@ || s == "-Inf"@ || s == "NaN"@,
    ensures
        intcomma_spec(s, nd) == s,
        intword_spec(s, p) == s,
        naturalsize_spec(s, binary, gnu, p) == s,
{
    reveal_strlit("+Inf");
    reveal_strlit("-Inf");
    reveal_strlit("NaN");
    reveal_strlit("inf");
    reveal_strlit("+inf");
    reveal_strlit("-inf");
    reveal_strlit("nan");
    if s == "+Inf"@ {
        assert(s.len() == 4);
        assert(!crate::text::is_space_char(s[0]));
        assert(!crate::text::is_space_char(s.last()));
        assert(spec_trim(s) == s);
        assert(lower_eq_char(s[0], "+inf"@[0]));
        assert(lower_eq_char(s[1], "+inf"@[1]));
        assert(lower_eq_char(s[2], "+inf"@[2]));
        assert(lower_eq_char(s[3], "+inf"@[3]));
        assert(matches_lower(s, "+inf"@));
    } else if s == "-Inf"@ {
        assert(s.len() == 4);
        assert(!crate::text::is_space_char(s[0]));
        assert(!crate::text::is_space_char(s.last()));
        assert(spec_trim(s) == s);
        assert(!matches_lower(s, "inf"@));
        assert(!lower_eq_char(s[0], "+inf"@[0]));
        assert(!matches_lower(s, "+inf"@));
        assert(lower_eq_char(s[0], "-inf"@[0]));
        assert(lower_eq_char(s[1], "-inf"@[1]));
        assert(lower_eq_char(s[2], "-inf"@[2]));
        assert(lower_eq_char(s[3], "-inf"@[3]));
        assert(matches_lower(s, "-inf"@));
    } else {
        assert(s.len() == 3);
        assert(!crate::text::is_space_char(s[0]));
        assert(!crate::text::is_space_char(s.last()));
        assert(spec_trim(s) == s);
        assert(!lower_eq_char(s[0], "inf"@[0]));
        assert(!matches_lower(s, "inf"@));
        assert(!matches_lower(s, "+inf"@));
        assert(!matches_lower(s, "-inf"@));
        assert(lower_eq_char(s[0], "nan"@[0]));
        assert(lower_eq_char(s[1], "nan"@[1]));
        assert(lower_eq_char(s[2], "nan"@[2]));
        assert(matches_lower(s, "nan"@));
    }
}

proof fn lemma_word_bucket_from_ge(l: int, i: int)
    requires
        i <= 12,
    ensures
        word_bucket_from(l, i) >= i,
        word_bucket_from(l, i) <= 12,
    decreases 12 - i,
{
    if i < 12 && l > pexp(i) {
        lemma_word_bucket_from_ge(l, i + 1);
    }
}

proof fn lemma_word_bucket_from_mono(l1: int, l2: int, i: int)
    requires
        l1 <= l2,
        i <= 12,
    ensures
        word_bucket_from(l1, i) <= word_bucket_from(l2, i),
    decreases 12 - i,
{
    if i >= 12 {
    } else if l1 <= pexp(i) {
        lemma_word_bucket_from_ge(l2, i);
    } else {
        lemma_word_bucket_from_mono(l1, l2, i + 1);
    }
}

/// Scale monotonicity: for the word-scale formatter, a magnitude no smaller
/// than another never selects an earlier bucket.  The bucket is chosen from
/// the integer digit count, which itself grows with the magnitude.
pub proof fn lemma_scale_monotone(u: Seq<char>, v: Seq<char>)
    requires
        is_digits(u),
        no_leading_zero(u),
        is_digits(v),
        no_leading_zero(v),
        str_val(u) <= str_val(v),
    ensures
        u.len() <= v.len(),
        word_bucket(u.len() as int) <= word_bucket(v.len() as int),
{
    if u.len() > v.len() {
        if u[0] == '0' {
            assert(u.len() == 1);
            assert(false);
        }
        lemma_str_val_lower(u);
        lemma_str_val_upper(v);
        crate::digits::lemma_pow10_mono(v.len() as nat, (u.len() - 1) as nat);
        assert(str_val(u) >= pow_int(10, (u.len() - 1) as nat));
        assert(str_val(v) < pow_int(10, v.len() as nat));
        assert(false);
    }
    lemma_word_bucket_from_mono(u.len() as int, v.len() as int, 1);
}

proof fn lemma_div_at_least(m: int, c: int, d: int)
    requires
        d >= 1,
        m >= c * d,
        c >= 0,
    ensures
        m / d >= c,
{
    vstd::arithmetic::div_mod::lemma_fundamental_div_mod(m, d);
    let q = m / d;
    let r = m % d;
    if q < c {
        assert(false) by (nonlinear_arith)
            requires
                m == d * q + r,
                q <= c - 1,
                r < d,
                d >= 1,
                m >= c * d,
        ;
    }
}

proof fn lemma_div_below(m: int, c: int, d: int)
    requires
        d >= 1,
        0 <= m,
        m < c * d,
    ensures
        m / d <= c - 1,
{
    vstd::arithmetic::div_mod::lemma_fundamental_div_mod(m, d);
    let q = m / d;
    let r = m % d;
    if q > c - 1 {
        assert(false) by (nonlinear_arith)
            requires
                m == d * q + r,
                q >= c,
                r >= 0,
                d >= 1,
                m < c * d,
        ;
    }
}

/// The rounding of a value between two scaled bounds stays between the
/// bounds scaled to the target precision.
proof fn lemma_round_scaled_range(m: int, s: nat, p: nat, lo: int, hi: int)
    requires
        0 <= lo,
        lo * pow_int(10, s) <= m,
        m < hi * pow_int(10, s),
    ensures
        lo * pow_int(10, p) <= crate::canon::round_scaled(m, s, p) <= hi * pow_int(10, p),
{
    crate::canon::lemma_pow10_pos(s);
    crate::canon::lemma_pow10_pos(p);
    if s <= p {
        let e = (p - s) as nat;
        crate::canon::lemma_pow10_adds(s, e);
        crate::canon::lemma_pow10_pos(e);
        assert(pow_int(10, p) == pow_int(10, s) * pow_int(10, e));
        assert((lo * pow_int(10, s)) * pow_int(10, e) <= m * pow_int(10, e)) by (nonlinear_arith)
            requires
                lo * pow_int(10, s) <= m,
                pow_int(10, e) >= 1,
        ;
        assert((lo * pow_int(10, s)) * pow_int(10, e) == lo * (pow_int(10, s) * pow_int(10, e)))
            by (nonlinear_arith);
        assert(m + 1 <= hi * pow_int(10, s));
        assert(m * pow_int(10, e) < (hi * pow_int(10, s)) * pow_int(10, e)) by (nonlinear_arith)
            requires
                m < hi * pow_int(10, s),
                pow_int(10, e) >= 1,
        ;
        assert((hi * pow_int(10, s)) * pow_int(10, e) == hi * (pow_int(10, s) * pow_int(10, e)))
            by (nonlinear_arith);
    } else {
        let k = (s - p) as nat;
        crate::canon::lemma_pow10_pos(k);
        crate::canon::lemma_pow10_adds(p, k);
        assert(pow_int(10, s) == pow_int(10, p) * pow_int(10, k));
        let q = m / pow_int(10, k);
        assert(lo * (pow_int(10, p) * pow_int(10, k)) == (lo * pow_int(10, p)) * pow_int(10, k))
            by (nonlinear_arith);
        lemma_div_at_least(m, lo * pow_int(10, p), pow_int(10, k));
        assert(q >= lo * pow_int(10, p)) by {
            assert(lo * pow_int(10, p) >= 0) by (nonlinear_arith)
                requires
                    lo >= 0,
                    pow_int(10, p) >= 1,
            ;
        }
        assert(hi * (pow_int(10, p) * pow_int(10, k)) == (hi * pow_int(10, p)) * pow_int(10, k))
            by (nonlinear_arith);
        assert(m >= 0) by {
            assert(lo * pow_int(10, s) >= 0) by (nonlinear_arith)
                requires
                    lo >= 0,
                    pow_int(10, s) >= 1,
            ;
        }
        lemma_div_below(m, hi * pow_int(10, p), pow_int(10, k));
        assert(q <= hi * pow_int(10, p) - 1);
        assert(crate::canon::round_scaled(m, s, p) == crate::canon::round_half_even(m, k));
        assert(q <= crate::canon::round_half_even(m, k) <= q + 1);
    }
}

proof fn lemma_word_bucket_prev(l: int, start: int)
    requires
        1 <= start,
        word_bucket_from(l, start) > start,
    ensures
        l > pexp(word_bucket_from(l, start) - 1),
    decreases 12 - start,
{
    if l <= pexp(start) && start < 12 {
        assert(word_bucket_from(l, start) == start);
        assert(false);
    }
    if start >= 12 {
        assert(word_bucket_from(l, start) == 12);
        assert(false);
    }
    assert(word_bucket_from(l, start) == word_bucket_from(l, start + 1));
    if word_bucket_from(l, start + 1) > start + 1 {
        lemma_word_bucket_prev(l, start + 1);
    } else {
        assert(word_bucket_from(l, start + 1) == start + 1);
        assert(l > pexp(start));
    }
}

/// Scale range: in the selected word-scale bucket, the rendered numeric
/// part lies between one and the bucket ratio.  At `pp` fraction digits the
/// rounded scaled integer is at least `10^pp` (a numeric part of at least
/// one) and at most `10^(ratio+pp)` (the threshold ratio itself) — and the
/// formatter hands exactly the threshold case to the next bucket.
pub proof fn lemma_scaled_value_range(ipd: Seq<char>, fpd: Seq<char>, pp: nat)
    requires
        is_digits(ipd),
        no_leading_zero(ipd),
        crate::canon::all_digits(fpd),
        ipd.len() > 3,
        word_bucket(ipd.len() as int) <= 11,
    ensures
        ({
            let i = word_bucket(ipd.len() as int);
            let m = str_val(ipd + fpd);
            let sc2 = (fpd.len() + pexp(i - 1)) as nat;
            let ratio = (pexp(i) - pexp(i - 1)) as nat;
            let ipd2 = crate::value::canon_int_digits(m, sc2);
            let fpd2 = crate::value::canon_frac_digits(m, sc2);
            let m2 = str_val(ipd2 + fpd2);
            let l2 = fpd2.len() as nat;
            &&& pow_int(10, pp) <= crate::canon::round_scaled(m2, l2, pp) <= pow_int(
                10,
                (ratio + pp) as nat,
            )
            &&& pow_int(10, l2) <= m2
            &&& m2 < pow_int(10, ratio) * pow_int(10, l2)
        }),
{
    let l = ipd.len() as int;
    let i = word_bucket(l);
    let sc = fpd.len() as nat;
    let m = str_val(ipd + fpd);
    let sc2 = (sc + pexp(i - 1)) as nat;
    let ratio = (pexp(i) - pexp(i - 1)) as nat;
    // the bucket's thresholds bound the magnitude
    lemma_word_bucket_from_ge(l, 1);
    if i > 1 {
        lemma_word_bucket_prev(l, 1);
    }
    assert(l - 1 >= pexp(i - 1));
    lemma_word_bucket_fits(l, 1);
    assert(l <= pexp(i));
    // bounds on the combined digits
    lemma_str_val_split(ipd, fpd);
    lemma_str_val_lower(ipd);
    lemma_str_val_upper(ipd);
    lemma_str_val_upper(fpd);
    crate::canon::lemma_pow10_pos(sc);
    assert(m >= pow_int(10, (l - 1) as nat) * pow_int(10, sc)) by (nonlinear_arith)
        requires
            m == str_val(ipd) * pow_int(10, sc) + str_val(fpd),
            str_val(ipd) >= pow_int(10, (l - 1) as nat),
            str_val(fpd) >= 0,
            pow_int(10, sc) >= 1,
    ;
    assert(m < pow_int(10, l as nat) * pow_int(10, sc)) by (nonlinear_arith)
        requires
            m == str_val(ipd) * pow_int(10, sc) + str_val(fpd),
            str_val(ipd) <= pow_int(10, l as nat) - 1,
            str_val(fpd) < pow_int(10, sc),
            pow_int(10, sc) >= 1,
    ;
    // move the bounds to the scaled pair
    let lo = pow_int(10, ((l - 1) - pexp(i - 1)) as nat);
    let hi = pow_int(10, (l - pexp(i - 1)) as nat);
    crate::canon::lemma_pow10_adds(((l - 1) - pexp(i - 1)) as nat, sc2);
    crate::canon::lemma_pow10_adds((l - pexp(i - 1)) as nat, sc2);
    crate::canon::lemma_pow10_adds((l - 1) as nat, sc);
    crate::canon::lemma_pow10_adds(l as nat, sc);
    assert(lo * pow_int(10, sc2) == pow_int(10, (l - 1) as nat) * pow_int(10, sc));
    assert(hi * pow_int(10, sc2) == pow_int(10, l as nat) * pow_int(10, sc));
    // the normalized pair carries the same value at its own scale
    let ipd2 = crate::value::canon_int_digits(m, sc2);
    let fpd2 = crate::value::canon_frac_digits(m, sc2);
    let m2 = str_val(ipd2 + fpd2);
    let l2 = fpd2.len() as nat;
    lemma_canon_pair_value(m, sc2);
    let e = (sc2 - l2) as nat;
    assert(m == m2 * pow_int(10, e));
    assert(l2 + e == sc2);
    crate::canon::lemma_pow10_adds(l2, e);
    crate::canon::lemma_pow10_pos(e);
    assert(pow_int(10, sc2) == pow_int(10, l2) * pow_int(10, e));
    assert(lo * pow_int(10, sc2) == (lo * pow_int(10, l2)) * pow_int(10, e)) by (nonlinear_arith)
        requires
            pow_int(10, sc2) == pow_int(10, l2) * pow_int(10, e),
    ;
    assert((lo * pow_int(10, l2)) * pow_int(10, e) <= m2 * pow_int(10, e));
    assert(lo * pow_int(10, l2) <= m2) by (nonlinear_arith)
        requires
            (lo * pow_int(10, l2)) * pow_int(10, e) <= m2 * pow_int(10, e),
            pow_int(10, e) >= 1,
    ;
    assert(hi * pow_int(10, sc2) == (hi * pow_int(10, l2)) * pow_int(10, e)) by (nonlinear_arith)
        requires
            pow_int(10, sc2) == pow_int(10, l2) * pow_int(10, e),
    ;
    assert(m2 * pow_int(10, e) < (hi * pow_int(10, l2)) * pow_int(10, e));
    assert(m2 < hi * pow_int(10, l2)) by (nonlinear_arith)
        requires
            m2 * pow_int(10, e) < (hi * pow_int(10, l2)) * pow_int(10, e),
            pow_int(10, e) >= 1,
    ;
    // round within the bucket
    crate::canon::lemma_pow_pos(10, ((l - 1) - pexp(i - 1)) as nat);
    lemma_round_scaled_range(m2, l2, pp, lo, hi);
    // the unrounded value sits in the bucket too
    crate::canon::lemma_pow10_pos(l2);
    assert(1 * pow_int(10, l2) <= lo * pow_int(10, l2)) by (nonlinear_arith)
        requires
            lo >= 1,
            pow_int(10, l2) >= 1,
    ;
    assert(1 * pow_int(10, l2) == pow_int(10, l2)) by (nonlinear_arith);
    crate::digits::lemma_pow10_mono((l - pexp(i - 1)) as nat, ratio);
    assert(hi * pow_int(10, l2) <= pow_int(10, ratio) * pow_int(10, l2)) by (nonlinear_arith)
        requires
            hi <= pow_int(10, ratio),
            pow_int(10, l2) >= 1,
    ;
    // the bucket bounds sit inside [1, ratio]
    crate::canon::lemma_pow10_pos(pp);
    crate::digits::lemma_pow10_mono(0, ((l - 1) - pexp(i - 1)) as nat);
    crate::digits::lemma_pow10_mono((l - pexp(i - 1)) as nat, ratio);
    assert(pow_int(10, 0) == 1);
    assert(1 * pow_int(10, pp) == pow_int(10, pp)) by (nonlinear_arith);
    assert(lo * pow_int(10, pp) >= 1 * pow_int(10, pp)) by (nonlinear_arith)
        requires
            lo >= 1,
            pow_int(10, pp) >= 1,
    ;
    crate::canon::lemma_pow10_adds(ratio, pp);
    assert(hi * pow_int(10, pp) <= pow_int(10, ratio) * pow_int(10, pp)) by (nonlinear_arith)
        requires
            hi <= pow_int(10, ratio),
            pow_int(10, pp) >= 1,
    ;
}

/// A bucket below the table's end admits its digit count.
/// Ratio never rendered: in the scaled regime of the word formatter, the
/// rendering handed out with a bucket's word never shows that bucket's
/// ratio.  At `pp` fraction digits, a rendering that stays in its bucket is
/// strictly below the ratio whenever the promotion test fails, and a
/// promoted rendering is at most one — so text like "1000.0 thousand" is
/// impossible.
pub proof fn lemma_ratio_never_rendered(ipd: Seq<char>, fpd: Seq<char>, pp: nat)
    requires
        is_digits(ipd),
        no_leading_zero(ipd),
        crate::canon::all_digits(fpd),
        ipd.len() > 3,
        word_bucket(ipd.len() as int) <= 11,
    ensures
        ({
            let i = word_bucket(ipd.len() as int);
            let m = str_val(ipd + fpd);
            let sc2 = (fpd.len() + pexp(i - 1)) as nat;
            let ratio = (pexp(i) - pexp(i - 1)) as nat;
            let ipd2 = crate::value::canon_int_digits(m, sc2);
            let fpd2 = crate::value::canon_frac_digits(m, sc2);
            let m2 = str_val(ipd2 + fpd2);
            let l2 = fpd2.len() as nat;
            let sc3 = (fpd.len() + pexp(i)) as nat;
            let ipd3 = crate::value::canon_int_digits(m, sc3);
            let fpd3 = crate::value::canon_frac_digits(m, sc3);
            let m3 = str_val(ipd3 + fpd3);
            let l3 = fpd3.len() as nat;
            &&& (crate::canon::round_scaled(m2, l2, pp) != pow_int(10, (ratio + pp) as nat)
                ==> crate::canon::round_scaled(m2, l2, pp) < pow_int(10, (ratio + pp) as nat))
            &&& crate::canon::round_scaled(m3, l3, pp) <= pow_int(10, pp)
        }),
{
    let l = ipd.len() as int;
    let i = word_bucket(l);
    let sc = fpd.len() as nat;
    let m = str_val(ipd + fpd);
    // the in-bucket rendering never exceeds the ratio
    lemma_scaled_value_range(ipd, fpd, pp);
    // a promoted value is below one at the next bucket's scale
    let sc3 = (sc + pexp(i)) as nat;
    lemma_word_bucket_fits(l, 1);
    lemma_str_val_split(ipd, fpd);
    lemma_str_val_upper(ipd);
    lemma_str_val_upper(fpd);
    crate::canon::lemma_pow10_pos(sc);
    assert(m < pow_int(10, l as nat) * pow_int(10, sc)) by (nonlinear_arith)
        requires
            m == str_val(ipd) * pow_int(10, sc) + str_val(fpd),
            str_val(ipd) <= pow_int(10, l as nat) - 1,
            str_val(fpd) < pow_int(10, sc),
            pow_int(10, sc) >= 1,
    ;
    crate::digits::lemma_pow10_mono(l as nat, pexp(i) as nat);
    crate::canon::lemma_pow10_adds(pexp(i) as nat, sc);
    assert(pow_int(10, l as nat) * pow_int(10, sc) <= pow_int(10, pexp(i) as nat) * pow_int(
        10,
        sc,
    )) by (nonlinear_arith)
        requires
            pow_int(10, l as nat) <= pow_int(10, pexp(i) as nat),
            pow_int(10, sc) >= 1,
    ;
    assert(m < pow_int(10, sc3));
    lemma_canon_pair_value(m, sc3);
    let fpd3 = crate::value::canon_frac_digits(m, sc3);
    let m3 = str_val(crate::value::canon_int_digits(m, sc3) + fpd3);
    let l3 = fpd3.len() as nat;
    let e3 = (sc3 - l3) as nat;
    assert(m == m3 * pow_int(10, e3));
    crate::canon::lemma_pow10_adds(l3, e3);
    crate::canon::lemma_pow10_pos(e3);
    crate::canon::lemma_pow10_pos(l3);
    assert(m3 >= 0) by (nonlinear_arith)
        requires
            m3 * pow_int(10, e3) >= 0,
            pow_int(10, e3) >= 1,
    ;
    assert(pow_int(10, sc3) == pow_int(10, l3) * pow_int(10, e3));
    assert(m3 * pow_int(10, e3) < pow_int(10, l3) * pow_int(10, e3));
    assert(m3 < pow_int(10, l3)) by (nonlinear_arith)
        requires
            m3 * pow_int(10, e3) < pow_int(10, l3) * pow_int(10, e3),
            pow_int(10, e3) >= 1,
    ;
    assert(0 * pow_int(10, l3) == 0) by (nonlinear_arith);
    assert(1 * pow_int(10, l3) == pow_int(10, l3)) by (nonlinear_arith);
    lemma_round_scaled_range(m3, l3, pp, 0, 1);
    assert(1 * pow_int(10, pp) == pow_int(10, pp)) by (nonlinear_arith);
}

/// The scale-word index the word formatter hands out in its scaled regime
/// at a fixed-precision directive: the selected bucket's predecessor, or
/// the bucket itself when rounding reaches the next threshold (the same
/// promotion test `intword_num_text` makes).
pub open spec fn chosen_scale_index(ipd: Seq<char>, fpd: Seq<char>, pp: nat) -> int {
    let i = word_bucket(ipd.len() as int);
    let m = str_val(ipd + fpd);
    let sc2 = (fpd.len() + pexp(i - 1)) as nat;
    let ratio = (pexp(i) - pexp(i - 1)) as nat;
    let ipd2 = crate::value::canon_int_digits(m, sc2);
    let fpd2 = crate::value::canon_frac_digits(m, sc2);
    if crate::canon::round_scaled(str_val(ipd2 + fpd2), fpd2.len() as nat, pp) == pow_int(
        10,
        (ratio + pp) as nat,
    ) {
        i
    } else {
        i - 1
    }
}

/// The chosen index names exactly the word the formatter's text carries: in
/// the scaled regime with a directive of `pp` digits, the output is the
/// rendering followed by a space and that index's scale word.
pub proof fn lemma_chosen_index_is_worded(neg: bool, ipd: Seq<char>, fpd: Seq<char>, pp: usize)
    requires
        ipd.len() > 3,
        word_bucket(ipd.len() as int) <= 11,
    ensures
        ({
            let i = word_bucket(ipd.len() as int);
            let m = str_val(ipd + fpd);
            let j = chosen_scale_index(ipd, fpd, pp as nat);
            let sce = (fpd.len() + pexp(j)) as nat;
            let ipdj = crate::value::canon_int_digits(m, sce);
            let fpdj = crate::value::canon_frac_digits(m, sce);
            crate::number::intword_num_text(neg, ipd, fpd, Some(pp)) == crate::value::sign_seq(neg)
                + crate::value::rendered_text(
                false,
                str_val(ipdj + fpdj),
                fpdj.len() as nat,
                Some(pp),
            ) + seq![' '] + crate::number::scale_word(j)
        }),
{
    // both sides make the same promotion test, so the equation is
    // definitional
}

/// Natural precision never promotes: without a fixed-precision directive
/// the scaled value is rendered exactly, and it is strictly below the
/// bucket ratio, so the threshold form never appears.
pub proof fn lemma_natural_never_promotes(ipd: Seq<char>, fpd: Seq<char>)
    requires
        is_digits(ipd),
        no_leading_zero(ipd),
        crate::canon::all_digits(fpd),
        ipd.len() > 3,
        word_bucket(ipd.len() as int) <= 11,
    ensures
        ({
            let i = word_bucket(ipd.len() as int);
            let m = str_val(ipd + fpd);
            let sc2 = (fpd.len() + pexp(i - 1)) as nat;
            let ratio = (pexp(i) - pexp(i - 1)) as nat;
            let ipd2 = crate::value::canon_int_digits(m, sc2);
            let fpd2 = crate::value::canon_frac_digits(m, sc2);
            !(ipd2 == crate::canon::pow10_seq(ratio) && fpd2.len() == 0)
        }),
{
    let i = word_bucket(ipd.len() as int);
    let m = str_val(ipd + fpd);
    let sc2 = (fpd.len() + pexp(i - 1)) as nat;
    let ratio = (pexp(i) - pexp(i - 1)) as nat;
    let ipd2 = crate::value::canon_int_digits(m, sc2);
    let fpd2 = crate::value::canon_frac_digits(m, sc2);
    lemma_scaled_value_range(ipd, fpd, 0);
    if ipd2 == crate::canon::pow10_seq(ratio) && fpd2.len() == 0 {
        crate::canon::lemma_pow10_seq_val(ratio);
        assert(ipd2 + fpd2 =~= ipd2);
        assert(str_val(ipd2 + fpd2) == pow_int(10, ratio));
        assert(pow_int(10, 0) == 1);
        assert(pow_int(10, ratio) * 1 == pow_int(10, ratio)) by (nonlinear_arith);
        assert(str_val(ipd2 + fpd2) < pow_int(10, ratio) * pow_int(10, fpd2.len() as nat));
        assert(false);
    }
}

/// Scale monotonicity through promotion: at the same fixed-precision
/// directive, a magnitude no smaller than another (values compared
/// cross-multiplied over their scales) is never handed an earlier scale
/// word — the rounding-boundary promotion included.
pub proof fn lemma_chosen_scale_monotone(
    ua: Seq<char>,
    fa: Seq<char>,
    ub: Seq<char>,
    fb: Seq<char>,
    pp: nat,
)
    requires
        is_digits(ua),
        no_leading_zero(ua),
        crate::canon::all_digits(fa),
        is_digits(ub),
        no_leading_zero(ub),
        crate::canon::all_digits(fb),
        ua.len() > 3,
        ub.len() > 3,
        word_bucket(ua.len() as int) <= 11,
        word_bucket(ub.len() as int) <= 11,
        str_val(ua + fa) * pow_int(10, fb.len() as nat) <= str_val(ub + fb) * pow_int(
            10,
            fa.len() as nat,
        ),
    ensures
        chosen_scale_index(ua, fa, pp) <= chosen_scale_index(ub, fb, pp),
{
    let ma = str_val(ua + fa);
    let sa = fa.len() as nat;
    let mb = str_val(ub + fb);
    let sb = fb.len() as nat;
    lemma_str_val_split(ua, fa);
    lemma_str_val_split(ub, fb);
    lemma_str_val_upper(ua);
    lemma_str_val_upper(fa);
    lemma_str_val_upper(ub);
    lemma_str_val_upper(fb);
    crate::canon::lemma_pow10_pos(sa);
    crate::canon::lemma_pow10_pos(sb);
    // the integer parts compare, so the buckets compare
    assert(str_val(ua) * pow_int(10, sa) <= ma) by (nonlinear_arith)
        requires
            ma == str_val(ua) * pow_int(10, sa) + str_val(fa),
            str_val(fa) >= 0,
    ;
    assert((str_val(ua) * pow_int(10, sa)) * pow_int(10, sb) <= ma * pow_int(10, sb))
        by (nonlinear_arith)
        requires
            str_val(ua) * pow_int(10, sa) <= ma,
            pow_int(10, sb) >= 1,
    ;
    assert((str_val(ua) * pow_int(10, sa)) * pow_int(10, sb) == (str_val(ua) * pow_int(10, sb))
        * pow_int(10, sa)) by (nonlinear_arith);
    assert((str_val(ua) * pow_int(10, sb)) * pow_int(10, sa) <= mb * pow_int(10, sa));
    assert(str_val(ua) * pow_int(10, sb) <= mb) by (nonlinear_arith)
        requires
            (str_val(ua) * pow_int(10, sb)) * pow_int(10, sa) <= mb * pow_int(10, sa),
            pow_int(10, sa) >= 1,
    ;
    assert(mb < (str_val(ub) + 1) * pow_int(10, sb)) by (nonlinear_arith)
        requires
            mb == str_val(ub) * pow_int(10, sb) + str_val(fb),
            str_val(fb) < pow_int(10, sb),
    ;
    assert(str_val(ua) < str_val(ub) + 1) by (nonlinear_arith)
        requires
            str_val(ua) * pow_int(10, sb) <= mb,
            mb < (str_val(ub) + 1) * pow_int(10, sb),
            pow_int(10, sb) >= 1,
    ;
    lemma_scale_monotone(ua, ub);
    lemma_word_bucket_from_ge(ua.len() as int, 1);
    lemma_word_bucket_from_ge(ub.len() as int, 1);
    let ia = word_bucket(ua.len() as int);
    let ib = word_bucket(ub.len() as int);
    if ia == ib && chosen_scale_index(ua, fa, pp) == ia {
        // the smaller magnitude promotes, so the larger one must as well
        let i = ia;
        let kk = pexp(i - 1);
        let sc2a = (sa + kk) as nat;
        let sc2b = (sb + kk) as nat;
        let ratio = (pexp(i) - pexp(i - 1)) as nat;
        let t = pow_int(10, (ratio + pp) as nat);
        let ipd2a = crate::value::canon_int_digits(ma, sc2a);
        let fpd2a = crate::value::canon_frac_digits(ma, sc2a);
        let m2a = str_val(ipd2a + fpd2a);
        let l2a = fpd2a.len() as nat;
        let ipd2b = crate::value::canon_int_digits(mb, sc2b);
        let fpd2b = crate::value::canon_frac_digits(mb, sc2b);
        let m2b = str_val(ipd2b + fpd2b);
        let l2b = fpd2b.len() as nat;
        assert(crate::canon::round_scaled(m2a, l2a, pp) == t);
        // the promotion test is a test of the value, not the representation
        lemma_canon_pair_value(ma, sc2a);
        lemma_canon_pair_value(mb, sc2b);
        let ea = (sc2a - l2a) as nat;
        let eb = (sc2b - l2b) as nat;
        crate::canon::lemma_pow10_pos(ea);
        crate::canon::lemma_pow10_pos(eb);
        assert(m2a >= 0) by (nonlinear_arith)
            requires
                m2a * pow_int(10, ea) == ma,
                ma >= 0,
                pow_int(10, ea) >= 1,
        ;
        assert(m2b >= 0) by (nonlinear_arith)
            requires
                m2b * pow_int(10, eb) == mb,
                mb >= 0,
                pow_int(10, eb) >= 1,
        ;
        crate::canon::lemma_round_scaled_shift_pow(m2a, l2a, pp, ea);
        crate::canon::lemma_round_scaled_shift_pow(m2b, l2b, pp, eb);
        assert((l2a + ea) as nat == sc2a);
        assert((l2b + eb) as nat == sc2b);
        assert(crate::canon::round_scaled(ma, sc2a, pp) == t);
        // lift both to the common scale and compare
        crate::canon::lemma_round_scaled_shift_pow(ma, sc2a, pp, sb);
        crate::canon::lemma_round_scaled_shift_pow(mb, sc2b, pp, sa);
        assert((sc2a + sb) as nat == (sc2b + sa) as nat);
        assert(ma * pow_int(10, sb) >= 0) by (nonlinear_arith)
            requires
                ma >= 0,
                pow_int(10, sb) >= 1,
        ;
        crate::canon::lemma_round_scaled_mono(
            ma * pow_int(10, sb),
            mb * pow_int(10, sa),
            (sc2a + sb) as nat,
            pp,
        );
        assert(crate::canon::round_scaled(mb, sc2b, pp) >= t);
        lemma_scaled_value_range(ub, fb, pp);
        assert(crate::canon::round_scaled(m2b, l2b, pp) <= t);
        assert(crate::canon::round_scaled(m2b, l2b, pp) == t);
    }
}

proof fn lemma_word_bucket_fits(l: int, start: int)
    requires
        1 <= start <= 12,
        word_bucket_from(l, start) < 12,
    ensures
        l <= pexp(word_bucket_from(l, start)),
    decreases 12 - start,
{
    if start >= 12 {
    } else if l <= pexp(start) {
    } else {
        lemma_word_bucket_fits(l, start + 1);
    }
}

/// The canonical integer and fraction parts of `m / 10^sc2` recombine to
/// the same value at the trimmed scale.
proof fn lemma_canon_pair_value(m: int, sc2: nat)
    requires
        m >= 0,
    ensures
        ({
            let ipd2 = crate::value::canon_int_digits(m, sc2);
            let fpd2 = crate::value::canon_frac_digits(m, sc2);
            let l2 = fpd2.len() as nat;
            l2 <= sc2 && m == str_val(ipd2 + fpd2) * pow_int(10, (sc2 - l2) as nat)
        }),
{
    let dpow = pow_int(10, sc2);
    crate::canon::lemma_pow10_pos(sc2);
    vstd::arithmetic::div_mod::lemma_fundamental_div_mod(m, dpow);
    crate::canon::lemma_div_nonneg(m, dpow);
    let q = m / dpow;
    let r = m % dpow;
    crate::canon::lemma_digits_of_int(q);
    crate::canon::lemma_digits_of_int(r);
    let fraw = crate::canon::zero_pad(crate::canon::digits_of_int(r), sc2);
    crate::canon::lemma_zero_pad_val(crate::canon::digits_of_int(r), sc2);
    assert(str_val(fraw) == r);
    assert(crate::canon::all_digits(fraw)) by {
        crate::canon::lemma_zeros_val((sc2 - crate::canon::digits_of_int(r).len()) as nat);
        assert(forall|j: int|
            0 <= j < fraw.len() ==> crate::text::is_digit_char(#[trigger] fraw[j]));
    }
    assert(fraw.len() >= sc2);
    assert(fraw.len() == sc2 || fraw.len() == crate::canon::digits_of_int(r).len());
    crate::canon::lemma_str_val_upper(crate::canon::digits_of_int(r));
    assert(r < dpow);
    if sc2 >= 1 {
        lemma_digits_len_bound(r, sc2);
        assert(fraw.len() == sc2);
    } else {
        assert(pow_int(10, 0) == 1);
        assert(r == 0);
        assert(crate::canon::digits_of_int(0) =~= seq![crate::canon::digit_char_of(0)]);
        assert(fraw =~= seq!['0']);
        assert(seq!['0'].drop_last() =~= Seq::<char>::empty());
        assert(crate::canon::trim_zeros_spec(Seq::<char>::empty()) == Seq::<char>::empty());
        assert(crate::canon::trim_zeros_spec(seq!['0']) == Seq::<char>::empty());
        assert(crate::canon::trim_zeros_spec(fraw).len() == 0);
    }
    let fpd2 = crate::canon::trim_zeros_spec(fraw);
    crate::canon::lemma_trim_zeros_val(fraw);
    let l2 = fpd2.len() as nat;
    assert(l2 <= fraw.len());
    let e = (sc2 - l2) as nat;
    assert(r == str_val(fpd2) * pow_int(10, e) && l2 <= sc2) by {
        if sc2 >= 1 {
            assert(fraw.len() == sc2);
            assert(fraw.len() - l2 == e);
        } else {
            assert(fpd2.len() == 0);
            assert(str_val(fpd2) == 0);
            assert(r == 0);
            assert(pow_int(10, 0) == 1);
            assert(str_val(fpd2) * pow_int(10, e) == 0) by (nonlinear_arith)
                requires
                    str_val(fpd2) == 0,
            ;
        }
    }
    let ipd2 = crate::canon::digits_of_int(q);
    lemma_str_val_split(ipd2, fpd2);
    assert(str_val(ipd2 + fpd2) == q * pow_int(10, l2) + str_val(fpd2));
    crate::canon::lemma_pow10_adds(l2, e);
    assert(pow_int(10, sc2) == pow_int(10, l2) * pow_int(10, e));
    // m = q * 10^sc2 + r = (q * 10^l2 + val(fpd2)) * 10^e
    assert(q * pow_int(10, sc2) == (q * pow_int(10, l2)) * pow_int(10, e)) by (nonlinear_arith)
        requires
            pow_int(10, sc2) == pow_int(10, l2) * pow_int(10, e),
    ;
    assert((q * pow_int(10, l2) + str_val(fpd2)) * pow_int(10, e) == (q * pow_int(10, l2))
        * pow_int(10, e) + str_val(fpd2) * pow_int(10, e)) by (nonlinear_arith);
    assert(pow_int(10, sc2) * q == q * pow_int(10, sc2)) by (nonlinear_arith);
    assert(m == q * pow_int(10, sc2) + r);
    assert(m == (q * pow_int(10, l2) + str_val(fpd2)) * pow_int(10, e));
    assert(m == str_val(ipd2 + fpd2) * pow_int(10, e));
}

/// A value below a power of ten needs no more digits than the exponent.
proof fn lemma_digits_len_bound(r: int, sc2: nat)
    requires
        1 <= sc2,
        0 <= r < pow_int(10, sc2),
    ensures
        crate::canon::digits_of_int(r).len() <= sc2,
{
    crate::canon::lemma_digits_of_int(r);
    let d = crate::canon::digits_of_int(r);
    if r == 0 {
        assert(d =~= seq![crate::canon::digit_char_of(0)]);
    } else {
        if d.len() > sc2 {
            assert(d[0] != '0');
            lemma_str_val_lower(d);
            crate::digits::lemma_pow10_mono(sc2, (d.len() - 1) as nat);
            assert(r >= pow_int(10, sc2));
            assert(false);
        }
    }
}

} // verus!
