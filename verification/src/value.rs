//! The `Decimal` number type: a sign and normalized digit strings for the
//! integer and fractional parts, with a verified parser from decimal text.

use vstd::prelude::*;
use crate::text::is_digit_char;
use crate::canon::all_digits;
use crate::canon::is_digits;
use crate::canon::no_leading_zero;
use crate::canon::str_val;
use crate::canon::pow_int;
use crate::canon::digits_of_int;
use crate::canon::trim_zeros_spec;
use crate::canon::lemma_trim_zeros_is;
use crate::canon::lemma_digits_unique;
use crate::canon::lemma_str_val_split;
use crate::canon::lemma_val_zero_iff;
use crate::canon::lemma_all_zeros_val;
use crate::digits::subvec;
use crate::digits::extend_vec;
use crate::digits::trim_leading_zeros;
use crate::digits::trim_trailing_zeros;

verus! {

/// A finite decimal number: sign, integer digits (no leading zero) and
/// fraction digits (no trailing zero).  Its value is
/// `(-1)^neg * (integer digits . fraction digits)` read in base ten.
pub struct Decimal {
    pub neg: bool,
    pub ip: Vec<char>,
    pub fp: Vec<char>,
}

impl Decimal {
    /// Structural invariant: both parts are digit strings in normal form.
    pub open spec fn wf(&self) -> bool {
        &&& is_digits(self.ip@)
        &&& no_leading_zero(self.ip@)
        &&& all_digits(self.fp@)
        &&& (self.fp@.len() == 0 || self.fp@.last() != '0')
    }

    /// The combined digits read as an integer: the value scaled by ten to
    /// the fraction length.
    pub open spec fn m(&self) -> int {
        str_val(self.ip@ + self.fp@)
    }

    /// The fraction length: the power of ten the combined digits are scaled
    /// by.
    pub open spec fn scale(&self) -> nat {
        self.fp@.len() as nat
    }
}

/// Length of the longest digit prefix of `s`.
pub open spec fn digit_prefix_len(s: Seq<char>) -> int
    decreases s.len(),
{
    if s.len() > 0 && is_digit_char(s[0]) {
        1 + digit_prefix_len(s.skip(1))
    } else {
        0
    }
}

/// `digit_prefix_len` is the unique boundary with digits before it and a
/// non-digit (or the end) at it.
pub proof fn lemma_digit_prefix_is(s: Seq<char>, d: int)
    requires
        0 <= d <= s.len(),
        d < s.len() ==> !is_digit_char(s[d]),
        forall|i: int| 0 <= i < d ==> is_digit_char(s[i]),
    ensures
        digit_prefix_len(s) == d,
    decreases s.len(),
{
    if s.len() == 0 {
    } else if !is_digit_char(s[0]) {
        assert(d == 0);
    } else {
        assert(d >= 1);
        lemma_digit_prefix_is(s.skip(1), d - 1);
        assert(forall|i: int| 1 <= i < s.len() ==> s[i] == s.skip(1)[i - 1]);
    }
}

/// `s` without one leading `+` or `-`, if present.
pub open spec fn strip_sign_any(s: Seq<char>) -> Seq<char> {
    if s.len() > 0 && (s[0] == '+' || s[0] == '-') {
        s.skip(1)
    } else {
        s
    }
}

/// The decimal-number grammar the classifier accepts: an optional sign, then
/// digits, optionally one dot and further digits, with digits on at least
/// one side of the dot.
pub open spec fn accepted_number(u: Seq<char>) -> bool {
    let w = strip_sign_any(u);
    let d1 = digit_prefix_len(w);
    if d1 == w.len() {
        d1 > 0
    } else {
        w[d1] == '.' && all_digits(w.skip(d1 + 1)) && (d1 > 0 || w.len() > d1 + 1)
    }
}

/// Whether the number text carries a minus sign.
pub open spec fn num_neg(u: Seq<char>) -> bool {
    u.len() > 0 && u[0] == '-'
}

/// The digits before the dot (possibly empty).
pub open spec fn num_int_digits(u: Seq<char>) -> Seq<char> {
    let w = strip_sign_any(u);
    w.take(digit_prefix_len(w))
}

/// The digits after the dot (empty when there is no dot).
pub open spec fn num_frac_digits(u: Seq<char>) -> Seq<char> {
    let w = strip_sign_any(u);
    let d1 = digit_prefix_len(w);
    if d1 < w.len() {
        w.skip(d1 + 1)
    } else {
        Seq::empty()
    }
}

/// Upper bound on the digit strings the renderers accept; a machine bound
/// that keeps every intermediate length comfortably inside `usize`.
pub const MAX_DIGITS: usize = 100000000;

/// The sign prefix of a rendered number.
pub open spec fn sign_seq(neg: bool) -> Seq<char> {
    if neg {
        seq!['-']
    } else {
        Seq::empty()
    }
}

/// The fraction suffix of a rendered number: a dot and the digits, or
/// nothing when there are none.
pub open spec fn frac_suffix(fp: Seq<char>) -> Seq<char> {
    if fp.len() == 0 {
        Seq::empty()
    } else {
        seq!['.'] + fp
    }
}

/// The canonical text of a decimal: sign, integer digits, fraction if any.
pub open spec fn canonical_text(neg: bool, ip: Seq<char>, fp: Seq<char>) -> Seq<char> {
    sign_seq(neg) + ip + frac_suffix(fp)
}

/// The integer digits of the value `m / 10^scale` rounded at `p` fractional
/// digits.
pub open spec fn fixed_int_digits(m: int, scale: nat, p: nat) -> Seq<char> {
    digits_of_int(crate::canon::round_scaled(m, scale, p) / pow_int(10, p))
}

/// The `p` fraction digits of the value `m / 10^scale` rounded at `p`
/// fractional digits.
pub open spec fn fixed_frac_digits(m: int, scale: nat, p: nat) -> Seq<char> {
    if p == 0 {
        Seq::empty()
    } else {
        crate::canon::zero_pad(
            digits_of_int(crate::canon::round_scaled(m, scale, p) % pow_int(10, p)),
            p,
        )
    }
}

/// The fixed-precision text of a decimal: sign, rounded integer digits, and
/// exactly `p` fraction digits after a dot (no dot when `p` is zero).
pub open spec fn fixed_text(neg: bool, m: int, scale: nat, p: nat) -> Seq<char> {
    sign_seq(neg) + fixed_int_digits(m, scale, p) + (if p == 0 {
        Seq::<char>::empty()
    } else {
        seq!['.'] + fixed_frac_digits(m, scale, p)
    })
}

impl Decimal {
    /// Rounds the value at `p` fraction digits, half to even, and returns
    /// the integer digits (no leading zero) and exactly `p` fraction digits.
    pub fn fixed_parts(&self, p: usize) -> (r: (Vec<char>, Vec<char>))
        requires
            self.wf(),
            p <= crate::canon::PREC_LIMIT,
            self.ip@.len() + self.fp@.len() <= MAX_DIGITS,
        ensures
            r.0@ == fixed_int_digits(self.m(), self.scale(), p as nat),
            r.1@ == fixed_frac_digits(self.m(), self.scale(), p as nat),
            is_digits(r.0@),
            no_leading_zero(r.0@),
            all_digits(r.1@),
            r.1@.len() == p,
    {
        let ghost m = self.m();
        let ghost scale = self.scale();
        let mut comb = subvec(&self.ip, 0, self.ip.len());
        let fpcopy = subvec(&self.fp, 0, self.fp.len());
        extend_vec(&mut comb, &fpcopy);
        proof {
            assert(self.ip@.subrange(0, self.ip@.len() as int) =~= self.ip@);
            assert(self.fp@.subrange(0, self.fp@.len() as int) =~= self.fp@);
            assert(comb@ == self.ip@ + self.fp@);
        }
        let scale_n = self.fp.len();
        let d2: Vec<char> = if scale_n <= p {
            let mut d2 = comb;
            let z = crate::digits::zeros_vec(p - scale_n);
            extend_vec(&mut d2, &z);
            proof {
                lemma_str_val_split(self.ip@ + self.fp@, crate::canon::zeros((p - scale_n) as nat));
                crate::canon::lemma_zeros_val((p - scale_n) as nat);
                assert(str_val(d2@) == m * pow_int(10, (p - scale_n) as nat));
                assert(str_val(d2@) == crate::canon::round_scaled(m, scale, p as nat));
            }
            d2
        } else {
            let cut = comb.len() - (scale_n - p);
            proof {
                assert(cut == self.ip@.len() + p);
                assert(cut >= 1);
            }
            let d2 = crate::digits::round_digits(&comb, cut);
            proof {
                assert(str_val(d2@) == crate::canon::round_half_even(m, (scale_n - p) as nat));
                assert(str_val(d2@) == crate::canon::round_scaled(m, scale, p as nat));
            }
            d2
        };
        let ghost n2 = crate::canon::round_scaled(m, scale, p as nat);
        proof {
            assert(str_val(d2@) == n2);
            assert(d2@.len() >= p + 1);
        }
        let ll = d2.len();
        let ipd_raw = subvec(&d2, 0, ll - p);
        let fpd = subvec(&d2, ll - p, ll);
        proof {
            assert(d2@ =~= ipd_raw@ + fpd@);
            lemma_str_val_split(ipd_raw@, fpd@);
            crate::canon::lemma_str_val_upper(fpd@);
            crate::canon::lemma_pow10_pos(p as nat);
            assert(fpd@.len() == p);
            vstd::arithmetic::div_mod::lemma_fundamental_div_mod_converse_div(
                n2,
                pow_int(10, p as nat),
                str_val(ipd_raw@),
                str_val(fpd@),
            );
            vstd::arithmetic::div_mod::lemma_fundamental_div_mod_converse_mod(
                n2,
                pow_int(10, p as nat),
                str_val(ipd_raw@),
                str_val(fpd@),
            );
            assert(str_val(ipd_raw@) == n2 / pow_int(10, p as nat));
            assert(str_val(fpd@) == n2 % pow_int(10, p as nat));
        }
        let ipd = trim_leading_zeros(ipd_raw);
        proof {
            lemma_digits_unique(ipd@);
            assert(ipd@ == digits_of_int(n2 / pow_int(10, p as nat)));
            if p > 0 {
                crate::canon::lemma_digits_fixed_unique(fpd@);
                assert(crate::canon::zero_pad(digits_of_int(str_val(fpd@)), p as nat) == fpd@);
            } else {
                assert(fpd@ =~= Seq::<char>::empty());
                assert(crate::canon::zero_pad(digits_of_int(n2 % pow_int(10, p as nat)), 0)
                    == digits_of_int(n2 % pow_int(10, p as nat)));
                assert(pow_int(10, 0) == 1);
                assert(n2 % 1 == 0);
                crate::canon::lemma_digits_of_int(0);
                assert(digits_of_int(0).len() >= 1);
            }
        }
        (ipd, fpd)
    }

    /// The fixed-precision rendering: sign, rounded integer digits, and
    /// exactly `p` fraction digits.
    pub fn render_fixed(&self, p: usize) -> (out: Vec<char>)
        requires
            self.wf(),
            p <= crate::canon::PREC_LIMIT,
            self.ip@.len() + self.fp@.len() <= MAX_DIGITS,
        ensures
            out@ == fixed_text(self.neg, self.m(), self.scale(), p as nat),
    {
        let (ipd, fpd) = self.fixed_parts(p);
        let mut out: Vec<char> = Vec::new();
        if self.neg {
            out.push('-');
        }
        extend_vec(&mut out, &ipd);
        if p > 0 {
            out.push('.');
            extend_vec(&mut out, &fpd);
        }
        proof {
            if p == 0 {
                assert(out@ =~= sign_seq(self.neg) + ipd@);
            } else {
                assert(out@ =~= sign_seq(self.neg) + ipd@ + (seq!['.'] + fpd@));
            }
        }
        out
    }

    /// The canonical rendering: sign, integer digits, and the fraction after
    /// a dot when it is nonempty.
    pub fn render_canonical(&self) -> (out: Vec<char>)
        requires
            self.wf(),
        ensures
            out@ == canonical_text(self.neg, self.ip@, self.fp@),
    {
        let mut out: Vec<char> = Vec::new();
        if self.neg {
            out.push('-');
        }
        extend_vec(&mut out, &self.ip);
        if self.fp.len() > 0 {
            out.push('.');
            extend_vec(&mut out, &self.fp);
        }
        proof {
            if self.fp@.len() == 0 {
                assert(out@ =~= sign_seq(self.neg) + self.ip@);
            } else {
                assert(out@ =~= sign_seq(self.neg) + self.ip@ + (seq!['.'] + self.fp@));
            }
        }
        out
    }
}

/// The integer digits of the value `m / 10^scale` in no-leading-zero form.
pub open spec fn canon_int_digits(m: int, scale: nat) -> Seq<char> {
    digits_of_int(m / pow_int(10, scale))
}

/// The fraction digits of the value `m / 10^scale`, trailing zeros removed.
pub open spec fn canon_frac_digits(m: int, scale: nat) -> Seq<char> {
    trim_zeros_spec(crate::canon::zero_pad(digits_of_int(m % pow_int(10, scale)), scale))
}

/// The text of the value `m / 10^scale` under a precision directive: fixed
/// at the directive's digit count, or the canonical form without one.
pub open spec fn rendered_text(neg: bool, m: int, scale: nat, p: Option<usize>) -> Seq<char> {
    match p {
        Some(pp) => fixed_text(neg, m, scale, pp as nat),
        None => canonical_text(neg, canon_int_digits(m, scale), canon_frac_digits(m, scale)),
    }
}

/// A well-formed decimal's digit parts are the canonical parts of its value.
pub proof fn lemma_canonical_parts(d: &Decimal)
    requires
        d.wf(),
    ensures
        canon_int_digits(d.m(), d.scale()) == d.ip@,
        canon_frac_digits(d.m(), d.scale()) == d.fp@,
{
    let m = d.m();
    let sc = d.scale();
    lemma_str_val_split(d.ip@, d.fp@);
    crate::canon::lemma_str_val_upper(d.fp@);
    crate::canon::lemma_str_val_upper(d.ip@);
    crate::canon::lemma_pow10_pos(sc);
    vstd::arithmetic::div_mod::lemma_fundamental_div_mod_converse_div(
        m,
        pow_int(10, sc),
        str_val(d.ip@),
        str_val(d.fp@),
    );
    vstd::arithmetic::div_mod::lemma_fundamental_div_mod_converse_mod(
        m,
        pow_int(10, sc),
        str_val(d.ip@),
        str_val(d.fp@),
    );
    lemma_digits_unique(d.ip@);
    if sc > 0 {
        crate::canon::lemma_digits_fixed_unique(d.fp@);
        assert(crate::canon::zero_pad(digits_of_int(m % pow_int(10, sc)), sc) == d.fp@);
        if d.fp@.len() > 0 {
            assert(trim_zeros_spec(d.fp@) == d.fp@);
        }
    } else {
        assert(d.fp@ =~= Seq::<char>::empty());
        assert(pow_int(10, 0) == 1);
        assert(m % 1 == 0);
        crate::canon::lemma_digits_of_int(0);
        assert(digits_of_int(0) =~= seq!['0']);
        assert(crate::canon::zero_pad(digits_of_int(0), 0) == digits_of_int(0));
        assert(seq!['0'].drop_last() =~= Seq::<char>::empty());
        assert(trim_zeros_spec(seq!['0']) == trim_zeros_spec(Seq::<char>::empty()));
    }
}

impl Decimal {
    /// The value divided by the `k`-th power of ten, renormalized.
    #[verifier::rlimit(60)]
    pub fn div_pow10(&self, k: usize) -> (r: Decimal)
        requires
            self.wf(),
            self.ip@.len() + self.fp@.len() + k <= MAX_DIGITS,
        ensures
            r.wf(),
            r.neg == self.neg,
            r.ip@ == canon_int_digits(self.m(), (self.scale() + k) as nat),
            r.fp@ == canon_frac_digits(self.m(), (self.scale() + k) as nat),
            r.ip@.len() + r.fp@.len() <= self.ip@.len() + self.fp@.len() + k,
    {
        let ghost m = self.m();
        let sc2 = self.fp.len() + k;
        let mut comb: Vec<char>;
        let ghost pad: nat;
        if self.ip.len() <= k {
            // pad on the left so the split below has at least one integer digit
            comb = crate::digits::zeros_vec(k + 1 - self.ip.len());
            proof {
                pad = (k + 1 - self.ip@.len()) as nat;
            }
        } else {
            comb = Vec::new();
            proof {
                pad = 0nat;
            }
        }
        let ipcopy = subvec(&self.ip, 0, self.ip.len());
        let fpcopy = subvec(&self.fp, 0, self.fp.len());
        extend_vec(&mut comb, &ipcopy);
        extend_vec(&mut comb, &fpcopy);
        proof {
            assert(self.ip@.subrange(0, self.ip@.len() as int) =~= self.ip@);
            assert(self.fp@.subrange(0, self.fp@.len() as int) =~= self.fp@);
            assert(comb@ =~= crate::canon::zeros(pad) + (self.ip@ + self.fp@));
            lemma_str_val_split(crate::canon::zeros(pad), self.ip@ + self.fp@);
            crate::canon::lemma_zeros_val(pad);
            assert(str_val(crate::canon::zeros(pad)) * pow_int(
                10,
                (self.ip@.len() + self.fp@.len()) as nat,
            ) == 0) by (nonlinear_arith)
                requires
                    str_val(crate::canon::zeros(pad)) == 0,
            ;
            assert(str_val(comb@) == m);
            assert(comb@.len() >= sc2 + 1);
        }
        let ll = comb.len();
        let ipd_raw = subvec(&comb, 0, ll - sc2);
        let fpd_raw = subvec(&comb, ll - sc2, ll);
        proof {
            assert(comb@ =~= ipd_raw@ + fpd_raw@);
            lemma_str_val_split(ipd_raw@, fpd_raw@);
            crate::canon::lemma_str_val_upper(fpd_raw@);
            crate::canon::lemma_str_val_upper(ipd_raw@);
            crate::canon::lemma_pow10_pos(sc2 as nat);
            vstd::arithmetic::div_mod::lemma_fundamental_div_mod_converse_div(
                m,
                pow_int(10, sc2 as nat),
                str_val(ipd_raw@),
                str_val(fpd_raw@),
            );
            vstd::arithmetic::div_mod::lemma_fundamental_div_mod_converse_mod(
                m,
                pow_int(10, sc2 as nat),
                str_val(ipd_raw@),
                str_val(fpd_raw@),
            );
        }
        let ip2 = trim_leading_zeros(ipd_raw);
        let fp2 = trim_trailing_zeros(fpd_raw);
        proof {
            lemma_digits_unique(ip2@);
            if sc2 > 0 {
                crate::canon::lemma_digits_fixed_unique(fpd_raw@);
            } else {
                assert(fpd_raw@ =~= Seq::<char>::empty());
                assert(pow_int(10, 0) == 1);
                crate::canon::lemma_digits_of_int(0);
                assert(crate::canon::zero_pad(digits_of_int(0), 0) == digits_of_int(0));
                assert(seq!['0'].drop_last() =~= Seq::<char>::empty());
                assert(digits_of_int(0) =~= seq!['0']);
                assert(fp2@ =~= Seq::<char>::empty());
            }
        }
        Decimal { neg: self.neg, ip: ip2, fp: fp2 }
    }

    /// The value multiplied by five to the `10 e`-th power and rescaled by
    /// as many decimal places: division by the `e`-th power of 1024.
    pub fn div_pow1024(&self, e: usize) -> (r: Decimal)
        requires
            self.wf(),
            e <= 10,
            self.ip@.len() + self.fp@.len() + 110 <= MAX_DIGITS,
        ensures
            r.wf(),
            r.neg == self.neg,
            r.ip@ == canon_int_digits(
                self.m() * pow_int(5, (10 * e) as nat),
                (self.scale() + 10 * e) as nat,
            ),
            r.fp@ == canon_frac_digits(
                self.m() * pow_int(5, (10 * e) as nat),
                (self.scale() + 10 * e) as nat,
            ),
            r.ip@.len() + r.fp@.len() <= self.ip@.len() + self.fp@.len() + 10 * e + 1,
    {
        let mut comb = subvec(&self.ip, 0, self.ip.len());
        let fpcopy = subvec(&self.fp, 0, self.fp.len());
        extend_vec(&mut comb, &fpcopy);
        proof {
            assert(self.ip@.subrange(0, self.ip@.len() as int) =~= self.ip@);
            assert(self.fp@.subrange(0, self.fp@.len() as int) =~= self.fp@);
            assert(comb@ == self.ip@ + self.fp@);
        }
        let comb2 = crate::digits::times5_steps(comb, 10 * e);
        let sc2 = self.fp.len() + 10 * e;
        let r = decimal_from_scaled(self.neg, comb2, sc2);
        proof {
            assert(comb2@.len() > sc2);
        }
        r
    }

    /// Renders the value under a precision directive.
    pub fn render_opt(&self, p: Option<usize>) -> (out: Vec<char>)
        requires
            self.wf(),
            p is Some ==> p.unwrap() <= crate::canon::PREC_LIMIT,
            self.ip@.len() + self.fp@.len() <= MAX_DIGITS,
        ensures
            out@ == rendered_text(self.neg, self.m(), self.scale(), p),
    {
        match p {
            Some(pp) => self.render_fixed(pp),
            None => {
                proof {
                    lemma_canonical_parts(self);
                }
                self.render_canonical()
            },
        }
    }
}

/// Builds a decimal from combined digits read against a fraction length,
/// renormalizing both parts.
#[verifier::rlimit(60)]
pub(crate) fn decimal_from_scaled(neg: bool, comb0: Vec<char>, sc2: usize) -> (r: Decimal)
    requires
        crate::canon::all_digits(comb0@),
        comb0@.len() <= 300000000,
        sc2 <= 300000000,
    ensures
        r.wf(),
        r.neg == neg,
        r.ip@ == canon_int_digits(str_val(comb0@), sc2 as nat),
        r.fp@ == canon_frac_digits(str_val(comb0@), sc2 as nat),
        r.ip@.len() <= (if comb0@.len() > sc2 {
            comb0@.len() - sc2
        } else {
            1
        }),
        r.fp@.len() <= sc2,
{
    let ghost m = str_val(comb0@);
    let mut comb: Vec<char>;
    let ghost pad: nat;
    if comb0.len() <= sc2 {
        // pad on the left so the split below has at least one integer digit
        comb = crate::digits::zeros_vec(sc2 + 1 - comb0.len());
        proof {
            pad = (sc2 + 1 - comb0@.len()) as nat;
        }
    } else {
        comb = Vec::new();
        proof {
            pad = 0nat;
        }
    }
    extend_vec(&mut comb, &comb0);
    proof {
        assert(comb@ =~= crate::canon::zeros(pad) + comb0@);
        lemma_str_val_split(crate::canon::zeros(pad), comb0@);
        crate::canon::lemma_zeros_val(pad);
        assert(str_val(crate::canon::zeros(pad)) * pow_int(10, comb0@.len() as nat) == 0)
            by (nonlinear_arith)
            requires
                str_val(crate::canon::zeros(pad)) == 0,
        ;
        assert(str_val(comb@) == m);
        assert(comb@.len() >= sc2 + 1);
    }
    let ll = comb.len();
    let ipd_raw = subvec(&comb, 0, ll - sc2);
    let fpd_raw = subvec(&comb, ll - sc2, ll);
    proof {
        assert(comb@ =~= ipd_raw@ + fpd_raw@);
        lemma_str_val_split(ipd_raw@, fpd_raw@);
        crate::canon::lemma_str_val_upper(fpd_raw@);
        crate::canon::lemma_str_val_upper(ipd_raw@);
        crate::canon::lemma_pow10_pos(sc2 as nat);
        vstd::arithmetic::div_mod::lemma_fundamental_div_mod_converse_div(
            m,
            pow_int(10, sc2 as nat),
            str_val(ipd_raw@),
            str_val(fpd_raw@),
        );
        vstd::arithmetic::div_mod::lemma_fundamental_div_mod_converse_mod(
            m,
            pow_int(10, sc2 as nat),
            str_val(ipd_raw@),
            str_val(fpd_raw@),
        );
    }
    let ip2 = trim_leading_zeros(ipd_raw);
    let fp2 = trim_trailing_zeros(fpd_raw);
    proof {
        lemma_digits_unique(ip2@);
        if sc2 > 0 {
            crate::canon::lemma_digits_fixed_unique(fpd_raw@);
        } else {
            assert(fpd_raw@ =~= Seq::<char>::empty());
            assert(pow_int(10, 0) == 1);
            crate::canon::lemma_digits_of_int(0);
            assert(crate::canon::zero_pad(digits_of_int(0), 0) == digits_of_int(0));
            assert(seq!['0'].drop_last() =~= Seq::<char>::empty());
            assert(digits_of_int(0) =~= seq!['0']);
            assert(fp2@ =~= Seq::<char>::empty());
        }
    }
    Decimal { neg, ip: ip2, fp: fp2 }
}

/// Parses comma-free text as a decimal number.  Succeeds exactly on the
/// accepted grammar; the result is the sign of the text, the integer digits
/// in no-leading-zero normal form, and the fraction digits with trailing
/// zeros removed.
pub fn parse_decimal(t: &Vec<char>) -> (r: Option<Decimal>)
    ensures
        (r is Some) <==> accepted_number(t@),
        r is Some ==> r.unwrap().wf(),
        r is Some ==> r.unwrap().neg == num_neg(t@),
        r is Some ==> r.unwrap().ip@ == digits_of_int(str_val(num_int_digits(t@))),
        r is Some ==> r.unwrap().fp@ == trim_zeros_spec(num_frac_digits(t@)),
        r is Some ==> r.unwrap().ip@.len() + r.unwrap().fp@.len() <= t@.len() + 1,
{
    let n = t.len();
    let mut pos: usize = 0;
    let mut neg = false;
    if n > 0 && (t[0] == '+' || t[0] == '-') {
        neg = t[0] == '-';
        pos = 1;
    }
    let ghost w = strip_sign_any(t@);
    proof {
        assert(w =~= t@.skip(pos as int));
        assert(neg == num_neg(t@));
    }
    // scan the integer digits
    let mut i: usize = pos;
    while i < n && t[i] >= '0' && t[i] <= '9'
        invariant
            n == t@.len(),
            pos <= i <= n,
            forall|j: int| pos <= j < i ==> is_digit_char(t@[j]),
        decreases n - i,
    {
        i = i + 1;
    }
    proof {
        assert(forall|j: int| 0 <= j < w.len() ==> w[j] == t@[j + pos]);
        assert(forall|j: int| 0 <= j < i - pos ==> is_digit_char(w[j]));
        assert(i < n ==> w[i - pos] == t@[i as int]);
        lemma_digit_prefix_is(w, i - pos);
        assert(digit_prefix_len(w) == i - pos);
    }
    let ghost ifull = num_int_digits(t@);
    proof {
        assert(ifull =~= t@.subrange(pos as int, i as int));
    }
    if i == n {
        // digits only; must be nonempty
        if i == pos {
            proof {
                assert(!accepted_number(t@));
            }
            return None;
        }
        let ipraw = subvec(t, pos, i);
        let d = finish_decimal(neg, ipraw, Vec::new());
        proof {
            assert(num_frac_digits(t@) =~= Seq::<char>::empty());
            assert(accepted_number(t@));
        }
        return Some(d);
    }
    // a dot must follow the integer digits
    if t[i] != '.' {
        proof {
            assert(!accepted_number(t@));
        }
        return None;
    }
    // all remaining characters must be digits
    let mut k: usize = i + 1;
    while k < n && t[k] >= '0' && t[k] <= '9'
        invariant
            n == t@.len(),
            i + 1 <= k <= n,
            forall|j: int| i + 1 <= j < k ==> is_digit_char(t@[j]),
        decreases n - k,
    {
        k = k + 1;
    }
    let ghost ffull = num_frac_digits(t@);
    proof {
        assert(ffull =~= t@.subrange(i + 1 as int, n as int));
    }
    if k < n {
        proof {
            assert(!is_digit_char(t@[k as int]));
            assert(ffull[k - i - 1] == t@[k as int]);
            assert(!all_digits(ffull));
            assert(!accepted_number(t@));
        }
        return None;
    }
    if i == pos && n == i + 1 {
        // a lone dot (with at most a sign)
        proof {
            assert(ffull.len() == 0);
            assert(!accepted_number(t@));
        }
        return None;
    }
    let ipraw = subvec(t, pos, i);
    let fraw = subvec(t, i + 1, n);
    proof {
        assert(accepted_number(t@));
        assert(all_digits(ipraw@));
        assert(all_digits(fraw@));
    }
    let d = finish_decimal(neg, ipraw, fraw);
    Some(d)
}

/// Normalizes raw integer and fraction digit strings into a `Decimal`.
fn finish_decimal(neg: bool, ipraw: Vec<char>, fraw: Vec<char>) -> (d: Decimal)
    requires
        all_digits(ipraw@),
        all_digits(fraw@),
    ensures
        d.wf(),
        d.neg == neg,
        d.ip@ == digits_of_int(str_val(ipraw@)),
        d.fp@ == trim_zeros_spec(fraw@),
        d.ip@.len() <= ipraw@.len() + 1,
        d.fp@.len() <= fraw@.len(),
{
    let mut ipx = ipraw;
    if ipx.len() == 0 {
        ipx.push('0');
        proof {
            assert(ipx@ =~= seq!['0']);
            assert(ipx@.drop_last() =~= Seq::<char>::empty());
            assert(str_val(Seq::<char>::empty()) == 0);
            assert(str_val(ipx@) == 0);
        }
    }
    let ghost rawval = str_val(ipx@);
    let ip = trim_leading_zeros(ipx);
    proof {
        lemma_digits_unique(ip@);
    }
    let fp = trim_trailing_zeros(fraw);
    proof {
        let l = fp@.len() as int;
        assert(fraw@ =~= fp@ + fraw@.subrange(l, fraw@.len() as int));
        lemma_str_val_split(fp@, fraw@.subrange(l, fraw@.len() as int));
        let suffix = fraw@.subrange(l, fraw@.len() as int);
        assert(str_val(fraw@) == str_val(fp@) * pow_int(10, suffix.len() as nat) + str_val(
            suffix,
        ));
        assert(str_val(suffix) == 0) by {
            assert(str_val(fraw@) == str_val(fp@) * pow_int(10, (fraw@.len() - fp@.len()) as nat));
        }
        lemma_val_zero_iff(suffix);
        assert(forall|j: int| l <= j < fraw@.len() ==> fraw@[j] == suffix[j - l] && suffix[j - l]
            == '0');
        lemma_trim_zeros_is(fraw@, l);
        assert(fp@ == fraw@.take(l));
    }
    Decimal { neg, ip, fp }
}

} // verus!
