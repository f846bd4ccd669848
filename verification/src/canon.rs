//! The exact-decimal value model.
//!
//! A numeric input is carried through the library as a sign and two digit
//! strings (integer part and fraction).  Its value is the pair `(m, s)` with
//! `m` the combined digits read as an integer and `s` the fraction length:
//! the number `m / 10^s`.  Everything the formatters do — scaling by powers,
//! selecting magnitude buckets, rounding half to even at a precision — is
//! defined here as integer arithmetic on that pair and proved of the digit
//! algorithms in `digits`.

use vstd::prelude::*;
use vstd::arithmetic::div_mod::lemma_fundamental_div_mod_converse_div;
use vstd::arithmetic::div_mod::lemma_fundamental_div_mod_converse_mod;
use crate::text::is_digit_char;
use crate::text::digit_val;

verus! {

/// Largest fractional-digit count a precision directive may ask for; larger
/// directives are treated as absent.  A machine bound that keeps rendered
/// text well under allocation limits.
pub const PREC_LIMIT: usize = 1000000;

pub open spec fn all_digits(s: Seq<char>) -> bool {
    forall|i: int| 0 <= i < s.len() ==> is_digit_char(s[i])
}

pub open spec fn is_digits(s: Seq<char>) -> bool {
    s.len() > 0 && all_digits(s)
}

pub open spec fn all_zeros(s: Seq<char>) -> bool {
    forall|i: int| 0 <= i < s.len() ==> s[i] == '0'
}

pub open spec fn no_leading_zero(s: Seq<char>) -> bool {
    s.len() == 1 || (s.len() > 1 && s[0] != '0')
}

/// Value of a digit string read in base ten, most significant digit first.
pub open spec fn str_val(s: Seq<char>) -> int
    decreases s.len(),
{
    if s.len() == 0 {
        0
    } else {
        10 * str_val(s.drop_last()) + digit_val(s.last())
    }
}

pub open spec fn pow_int(b: int, e: nat) -> int
    decreases e,
{
    if e == 0 {
        1
    } else {
        b * pow_int(b, (e - 1) as nat)
    }
}

pub proof fn lemma_pow10_pos(e: nat)
    ensures
        pow_int(10, e) >= 1,
    decreases e,
{
    if e > 0 {
        lemma_pow10_pos((e - 1) as nat);
    }
}

pub proof fn lemma_pow10_adds(a: nat, b: nat)
    ensures
        pow_int(10, a + b) == pow_int(10, a) * pow_int(10, b),
    decreases a,
{
    if a == 0 {
        assert(pow_int(10, b) * 1 == pow_int(10, b)) by (nonlinear_arith);
    } else {
        lemma_pow10_adds((a - 1) as nat, b);
        assert((a - 1) as nat + b == (a + b - 1) as nat);
        assert(pow_int(10, a + b) == 10 * pow_int(10, (a + b - 1) as nat));
        assert(10 * (pow_int(10, (a - 1) as nat) * pow_int(10, b)) == (10 * pow_int(
            10,
            (a - 1) as nat,
        )) * pow_int(10, b)) by (nonlinear_arith);
    }
}

pub proof fn lemma_str_val_upper(s: Seq<char>)
    requires
        all_digits(s),
    ensures
        0 <= str_val(s) < pow_int(10, s.len() as nat),
    decreases s.len(),
{
    if s.len() > 0 {
        lemma_str_val_upper(s.drop_last());
        assert(is_digit_char(s.last()));
        assert(0 <= digit_val(s.last()) <= 9);
    }
}

pub proof fn lemma_str_val_lower(s: Seq<char>)
    requires
        all_digits(s),
        s.len() > 0,
        s[0] != '0',
    ensures
        str_val(s) >= pow_int(10, (s.len() - 1) as nat),
    decreases s.len(),
{
    if s.len() == 1 {
        assert(s.drop_last().len() == 0);
        assert(is_digit_char(s[0]));
        assert(digit_val(s[0]) >= 1) by {
            if s[0] as int == 48 {
                assert(s[0] == '0');
            }
        }
        assert(str_val(s) == 10 * str_val(s.drop_last()) + digit_val(s.last()));
    } else {
        lemma_str_val_lower(s.drop_last());
        assert(is_digit_char(s.last()));
        assert(digit_val(s.last()) >= 0);
    }
}

/// Splitting a digit string splits its value positionally.
pub proof fn lemma_str_val_split(a: Seq<char>, b: Seq<char>)
    ensures
        str_val(a + b) == str_val(a) * pow_int(10, b.len() as nat) + str_val(b),
    decreases b.len(),
{
    if b.len() == 0 {
        assert(a + b =~= a);
        assert(str_val(a) * 1 == str_val(a)) by (nonlinear_arith);
    } else {
        lemma_str_val_split(a, b.drop_last());
        assert((a + b).drop_last() =~= a + b.drop_last());
        assert((a + b).last() == b.last());
        let va = str_val(a);
        let p1 = pow_int(10, (b.len() - 1) as nat);
        assert(pow_int(10, b.len() as nat) == 10 * p1);
        assert(10 * (va * p1 + str_val(b.drop_last())) + digit_val(b.last()) == va * (10 * p1) + (
        10 * str_val(b.drop_last()) + digit_val(b.last()))) by (nonlinear_arith);
    }
}

pub open spec fn zeros(k: nat) -> Seq<char> {
    Seq::new(k, |i: int| '0')
}

pub proof fn lemma_zeros_val(k: nat)
    ensures
        all_digits(zeros(k)),
        all_zeros(zeros(k)),
        str_val(zeros(k)) == 0,
    decreases k,
{
    if k > 0 {
        lemma_zeros_val((k - 1) as nat);
        assert(zeros(k).drop_last() =~= zeros((k - 1) as nat));
        assert(zeros(k).last() == '0');
    }
}

pub proof fn lemma_all_zeros_val(s: Seq<char>)
    requires
        all_zeros(s),
    ensures
        str_val(s) == 0,
    decreases s.len(),
{
    if s.len() > 0 {
        lemma_all_zeros_val(s.drop_last());
    }
}

/// A digit string has value zero exactly when every digit is a zero.
pub proof fn lemma_val_zero_iff(s: Seq<char>)
    requires
        all_digits(s),
    ensures
        str_val(s) == 0 <==> all_zeros(s),
    decreases s.len(),
{
    if s.len() > 0 {
        lemma_val_zero_iff(s.drop_last());
        lemma_str_val_upper(s.drop_last());
        assert(is_digit_char(s.last()));
        if str_val(s) == 0 {
            assert(10 * str_val(s.drop_last()) + digit_val(s.last()) == 0);
            assert(str_val(s.drop_last()) >= 0);
            assert(digit_val(s.last()) >= 0);
            assert(forall|i: int| 0 <= i < s.len() - 1 ==> s[i] == s.drop_last()[i]);
            assert(digit_val(s.last()) == 0);
            assert(s.last() as int == 48);
            assert(s.last() == '0');
        } else {
            if all_zeros(s) {
                assert(all_zeros(s.drop_last()));
                assert(s.last() == '0');
            }
        }
    }
}

pub open spec fn nines(k: nat) -> Seq<char> {
    Seq::new(k, |i: int| '9')
}

pub proof fn lemma_nines_val(k: nat)
    ensures
        all_digits(nines(k)),
        str_val(nines(k)) == pow_int(10, k) - 1,
    decreases k,
{
    if k > 0 {
        lemma_nines_val((k - 1) as nat);
        assert(nines(k).drop_last() =~= nines((k - 1) as nat));
        assert(nines(k).last() == '9');
    }
}

pub open spec fn digit_char_of(d: int) -> char {
    if d == 0 {
        '0'
    } else if d == 1 {
        '1'
    } else if d == 2 {
        '2'
    } else if d == 3 {
        '3'
    } else if d == 4 {
        '4'
    } else if d == 5 {
        '5'
    } else if d == 6 {
        '6'
    } else if d == 7 {
        '7'
    } else if d == 8 {
        '8'
    } else {
        '9'
    }
}

/// A digit character survives the round trip through its numeric value.
pub proof fn lemma_digit_char_roundtrip(c: char)
    requires
        is_digit_char(c),
    ensures
        digit_char_of(digit_val(c)) == c,
{
    let d = digit_val(c);
    assert(0 <= d <= 9);
    if d == 0 {
        assert(c as int == 48);
        assert(c == '0');
    } else if d == 1 {
        assert(c as int == 49);
        assert(c == '1');
    } else if d == 2 {
        assert(c as int == 50);
        assert(c == '2');
    } else if d == 3 {
        assert(c as int == 51);
        assert(c == '3');
    } else if d == 4 {
        assert(c as int == 52);
        assert(c == '4');
    } else if d == 5 {
        assert(c as int == 53);
        assert(c == '5');
    } else if d == 6 {
        assert(c as int == 54);
        assert(c == '6');
    } else if d == 7 {
        assert(c as int == 55);
        assert(c == '7');
    } else if d == 8 {
        assert(c as int == 56);
        assert(c == '8');
    } else {
        assert(c as int == 57);
        assert(c == '9');
    }
}

/// The decimal digit string of a nonnegative integer, with no leading zero.
pub open spec fn digits_of_int(n: int) -> Seq<char>
    decreases n,
{
    if n < 10 {
        seq![digit_char_of(n)]
    } else {
        digits_of_int(n / 10).push(digit_char_of(n % 10))
    }
}

pub proof fn lemma_digits_of_int(n: int)
    requires
        n >= 0,
    ensures
        is_digits(digits_of_int(n)),
        no_leading_zero(digits_of_int(n)),
        str_val(digits_of_int(n)) == n,
        n > 0 ==> digits_of_int(n)[0] != '0',
    decreases n,
{
    if n < 10 {
        assert(digit_val(digit_char_of(n)) == n);
        assert(digits_of_int(n).drop_last() =~= Seq::<char>::empty());
        assert(str_val(Seq::<char>::empty()) == 0);
        assert(digits_of_int(n).last() == digit_char_of(n));
        assert(str_val(digits_of_int(n)) == 10 * str_val(digits_of_int(n).drop_last())
            + digit_val(digits_of_int(n).last()));
    } else {
        lemma_digits_of_int(n / 10);
        let a = digits_of_int(n / 10);
        let d = digits_of_int(n);
        assert(d == a.push(digit_char_of(n % 10)));
        assert(d.drop_last() =~= a);
        assert(d.last() == digit_char_of(n % 10));
        assert(0 <= n % 10 < 10);
        assert(digit_val(digit_char_of(n % 10)) == n % 10);
        assert(str_val(d) == 10 * (n / 10) + n % 10);
        assert(n == 10 * (n / 10) + n % 10);
        assert(n / 10 > 0);
        assert(a[0] != '0');
        assert(d[0] == a[0]);
    }
}

/// A digit string with no leading zero is the digit string of its value.
pub proof fn lemma_digits_unique(s: Seq<char>)
    requires
        is_digits(s),
        no_leading_zero(s),
    ensures
        digits_of_int(str_val(s)) == s,
    decreases s.len(),
{
    lemma_str_val_upper(s);
    let v = str_val(s);
    if s.len() == 1 {
        assert(s.drop_last().len() == 0);
        assert(str_val(s.drop_last()) == 0);
        assert(v == 10 * str_val(s.drop_last()) + digit_val(s.last()));
        assert(v == digit_val(s[0]));
        assert(is_digit_char(s[0]));
        assert(0 <= v < 10);
        lemma_digit_char_roundtrip(s[0]);
        assert(digits_of_int(v) =~= s);
    } else {
        let a = s.drop_last();
        assert(a.len() == s.len() - 1);
        assert(a[0] == s[0]);
        assert(forall|i: int| 0 <= i < a.len() ==> a[i] == s[i]);
        lemma_digits_unique(a);
        lemma_str_val_lower(a);
        lemma_pow10_pos((a.len() - 1) as nat);
        assert(str_val(a) >= 1);
        assert(is_digit_char(s.last()));
        assert(v == 10 * str_val(a) + digit_val(s.last()));
        assert(v >= 10);
        lemma_fundamental_div_mod_converse_div(v, 10, str_val(a), digit_val(s.last()));
        lemma_fundamental_div_mod_converse_mod(v, 10, str_val(a), digit_val(s.last()));
        assert(v / 10 == str_val(a));
        assert(v % 10 == digit_val(s.last()));
        lemma_digit_char_roundtrip(s.last());
        assert(digits_of_int(v) == digits_of_int(v / 10).push(digit_char_of(v % 10)));
        assert(digits_of_int(v) =~= s);
    }
}

/// `s` left-padded with zeros to length `p` (unchanged when already longer).
pub open spec fn zero_pad(s: Seq<char>, p: nat) -> Seq<char> {
    if s.len() >= p {
        s
    } else {
        zeros((p - s.len()) as nat) + s
    }
}

/// A fixed-length digit string is the zero-padded digit string of its value.
pub proof fn lemma_digits_fixed_unique(s: Seq<char>)
    requires
        all_digits(s),
        s.len() > 0,
    ensures
        zero_pad(digits_of_int(str_val(s)), s.len() as nat) == s,
    decreases s.len(),
{
    let v = str_val(s);
    lemma_str_val_upper(s);
    if s.len() == 1 {
        assert(s.drop_last().len() == 0);
        assert(str_val(s.drop_last()) == 0);
        assert(v == 10 * str_val(s.drop_last()) + digit_val(s.last()));
        assert(v == digit_val(s[0]));
        assert(is_digit_char(s[0]));
        lemma_digit_char_roundtrip(s[0]);
        assert(digits_of_int(v) =~= s);
    } else {
        let a = s.drop_last();
        assert(forall|i: int| 0 <= i < a.len() ==> a[i] == s[i]);
        lemma_digits_fixed_unique(a);
        assert(is_digit_char(s.last()));
        assert(v == 10 * str_val(a) + digit_val(s.last()));
        lemma_fundamental_div_mod_converse_div(v, 10, str_val(a), digit_val(s.last()));
        lemma_fundamental_div_mod_converse_mod(v, 10, str_val(a), digit_val(s.last()));
        assert(v / 10 == str_val(a));
        assert(v % 10 == digit_val(s.last()));
        lemma_digit_char_roundtrip(s.last());
        assert(digit_char_of(v % 10) == s.last());
        if v < 10 {
            assert(str_val(a) == 0);
            lemma_val_zero_iff(a);
            assert(all_zeros(a));
            assert(digits_of_int(v) == seq![digit_char_of(v)]);
            assert(digits_of_int(v).len() == 1 < s.len());
            assert(zero_pad(digits_of_int(v), s.len() as nat) == zeros((s.len() - 1) as nat)
                + seq![digit_char_of(v)]);
            assert(zero_pad(digits_of_int(v), s.len() as nat) =~= s);
        } else {
            let da = digits_of_int(v / 10);
            assert(digits_of_int(v) == da.push(digit_char_of(v % 10)));
            lemma_digits_of_int(v / 10);
            if da.len() >= a.len() {
                assert(zero_pad(da, a.len() as nat) == da);
                assert(da == a);
                assert(zero_pad(da.push(digit_char_of(v % 10)), s.len() as nat) == da.push(
                    digit_char_of(v % 10),
                ));
                assert(da.push(digit_char_of(v % 10)) =~= s);
            } else {
                assert(zero_pad(da, a.len() as nat) == zeros((a.len() - da.len()) as nat) + da);
                assert(zeros((a.len() - da.len()) as nat) + da == a);
                assert(zero_pad(da.push(digit_char_of(v % 10)), s.len() as nat) == zeros(
                    (a.len() - da.len()) as nat,
                ) + da.push(digit_char_of(v % 10)));
                assert(zeros((a.len() - da.len()) as nat) + da.push(digit_char_of(v % 10)) =~= (
                zeros((a.len() - da.len()) as nat) + da).push(digit_char_of(v % 10)));
                assert((zeros((a.len() - da.len()) as nat) + da).push(digit_char_of(v % 10)) =~= s);
            }
        }
    }
}

/// The parity of a digit string's value is the parity of its last digit.
pub proof fn lemma_val_parity(s: Seq<char>)
    requires
        all_digits(s),
        s.len() > 0,
    ensures
        str_val(s) % 2 == digit_val(s.last()) % 2,
{
    lemma_str_val_upper(s.drop_last());
    assert(str_val(s) == 10 * str_val(s.drop_last()) + digit_val(s.last()));
}

/// `f` with trailing zero digits removed.
pub open spec fn trim_zeros_spec(f: Seq<char>) -> Seq<char>
    decreases f.len(),
{
    if f.len() > 0 && f.last() == '0' {
        trim_zeros_spec(f.drop_last())
    } else {
        f
    }
}

/// A prefix whose suffix is all zeros and whose own last digit is not a zero
/// is the trimmed form.
pub proof fn lemma_trim_zeros_is(f: Seq<char>, l: int)
    requires
        0 <= l <= f.len(),
        l > 0 ==> f[l - 1] != '0',
        forall|j: int| l <= j < f.len() ==> f[j] == '0',
    ensures
        trim_zeros_spec(f) == f.take(l),
    decreases f.len(),
{
    if f.len() == 0 {
        assert(f.take(0) =~= f);
    } else if l == f.len() {
        if f.last() == '0' {
            assert(l > 0 && f[l - 1] == '0');
            assert(false);
        }
        assert(f.take(l) =~= f);
    } else {
        assert(f.last() == '0');
        lemma_trim_zeros_is(f.drop_last(), l);
        assert(f.drop_last().take(l) =~= f.take(l));
    }
}

/// Trimming trailing zeros divides the value by the power of ten they
/// carried.
pub proof fn lemma_trim_zeros_val(f: Seq<char>)
    requires
        all_digits(f),
    ensures
        trim_zeros_spec(f).len() <= f.len(),
        all_digits(trim_zeros_spec(f)),
        str_val(f) == str_val(trim_zeros_spec(f)) * pow_int(
            10,
            (f.len() - trim_zeros_spec(f).len()) as nat,
        ),
    decreases f.len(),
{
    if f.len() > 0 && f.last() == '0' {
        lemma_trim_zeros_val(f.drop_last());
        let t = trim_zeros_spec(f);
        let k = (f.len() - 1 - t.len()) as nat;
        assert(str_val(f) == 10 * str_val(f.drop_last()) + digit_val(f.last()));
        assert(digit_val('0') == 0);
        assert(10 * (str_val(t) * pow_int(10, k)) == str_val(t) * (10 * pow_int(10, k)))
            by (nonlinear_arith);
        assert(pow_int(10, (k + 1) as nat) == 10 * pow_int(10, k));
    } else {
        assert(pow_int(10, 0) == 1);
        assert(str_val(f) * 1 == str_val(f)) by (nonlinear_arith);
    }
}

/// Zero padding on the left does not change the value.
pub proof fn lemma_zero_pad_val(s: Seq<char>, p: nat)
    ensures
        str_val(zero_pad(s, p)) == str_val(s),
        zero_pad(s, p).len() >= p,
        zero_pad(s, p).len() >= s.len(),
{
    if s.len() < p {
        lemma_str_val_split(zeros((p - s.len()) as nat), s);
        lemma_zeros_val((p - s.len()) as nat);
        assert(0 * pow_int(10, s.len() as nat) == 0) by (nonlinear_arith);
    }
}

/// The digit string of the `k`-th power of ten: a one and `k` zeros.
pub open spec fn pow10_seq(k: nat) -> Seq<char> {
    seq!['1'] + zeros(k)
}

pub proof fn lemma_pow10_seq_val(k: nat)
    ensures
        pow10_seq(k).len() == k + 1,
        is_digits(pow10_seq(k)),
        no_leading_zero(pow10_seq(k)),
        pow10_seq(k)[0] == '1',
        str_val(pow10_seq(k)) == pow_int(10, k),
{
    lemma_zeros_val(k);
    lemma_str_val_split(seq!['1'], zeros(k));
    assert(seq!['1'].drop_last() =~= Seq::<char>::empty());
    assert(str_val(Seq::<char>::empty()) == 0);
    assert(str_val(seq!['1']) == 1);
    assert(str_val(pow10_seq(k)) == 1 * pow_int(10, k) + 0);
    assert(1 * pow_int(10, k) == pow_int(10, k)) by (nonlinear_arith);
    assert(pow10_seq(k)[0] == '1');
    assert(forall|i: int| 1 <= i < k + 1 ==> pow10_seq(k)[i] == '0');
    assert(forall|i: int|
        0 <= i < pow10_seq(k).len() ==> crate::text::is_digit_char(pow10_seq(k)[i]));
}

/// `m` rounded half to even at the cut that drops its last `k` digits.
pub open spec fn round_half_even(m: int, k: nat) -> int {
    if k == 0 {
        m
    } else {
        let dpow = pow_int(10, k);
        let q = m / dpow;
        let r = m % dpow;
        let h = 5 * pow_int(10, (k - 1) as nat);
        if r > h || (r == h && q % 2 == 1) {
            q + 1
        } else {
            q
        }
    }
}

/// The value `m / 10^s` rounded half to even at `p` fractional digits, given
/// scaled by `10^p`: an exact integer statement of fixed-precision rendering.
pub open spec fn round_scaled(m: int, s: nat, p: nat) -> int {
    if s <= p {
        m * pow_int(10, (p - s) as nat)
    } else {
        round_half_even(m, (s - p) as nat)
    }
}

pub proof fn lemma_pow_pos(b: int, e: nat)
    requires
        b >= 1,
    ensures
        pow_int(b, e) >= 1,
    decreases e,
{
    if e > 0 {
        lemma_pow_pos(b, (e - 1) as nat);
        assert(b * pow_int(b, (e - 1) as nat) >= 1) by (nonlinear_arith)
            requires
                b >= 1,
                pow_int(b, (e - 1) as nat) >= 1,
        ;
    }
}

/// Powers grow with the exponent, for a base of at least one.
pub proof fn lemma_pow_mono(b: int, a: nat, c: nat)
    requires
        b >= 1,
        a <= c,
    ensures
        pow_int(b, a) <= pow_int(b, c),
    decreases c,
{
    if a < c {
        lemma_pow_mono(b, a, (c - 1) as nat);
        lemma_pow_pos(b, (c - 1) as nat);
        assert(b * pow_int(b, (c - 1) as nat) >= pow_int(b, (c - 1) as nat)) by (nonlinear_arith)
            requires
                b >= 1,
                pow_int(b, (c - 1) as nat) >= 1,
        ;
    }
}

/// Powers grow with the base.
pub proof fn lemma_pow_le_base(b: int, c: int, e: nat)
    requires
        0 <= b <= c,
    ensures
        pow_int(b, e) <= pow_int(c, e),
    decreases e,
{
    if e > 0 {
        lemma_pow_le_base(b, c, (e - 1) as nat);
        assert(pow_int(b, (e - 1) as nat) >= 0) by {
            lemma_pow_nonneg(b, (e - 1) as nat);
        }
        assert(b * pow_int(b, (e - 1) as nat) <= c * pow_int(c, (e - 1) as nat))
            by (nonlinear_arith)
            requires
                0 <= b <= c,
                0 <= pow_int(b, (e - 1) as nat) <= pow_int(c, (e - 1) as nat),
        ;
    }
}

pub proof fn lemma_pow_nonneg(b: int, e: nat)
    requires
        b >= 0,
    ensures
        pow_int(b, e) >= 0,
    decreases e,
{
    if e > 0 {
        lemma_pow_nonneg(b, (e - 1) as nat);
        assert(b * pow_int(b, (e - 1) as nat) >= 0) by (nonlinear_arith)
            requires
                b >= 0,
                pow_int(b, (e - 1) as nat) >= 0,
        ;
    }
}

pub proof fn lemma_div_nonneg(m: int, d: int)
    requires
        m >= 0,
        d > 0,
    ensures
        m / d >= 0,
{
    vstd::arithmetic::div_mod::lemma_fundamental_div_mod(m, d);
    let q = m / d;
    let r = m % d;
    if q < 0 {
        assert(q * d <= (-1) * d) by (nonlinear_arith)
            requires
                q <= -1,
                d > 0,
        ;
        assert((-1) * d == -d) by (nonlinear_arith);
        assert(m == q * d + r);
        assert(r < d);
        assert(false);
    }
}

/// Rounding half to even never decreases when the value does not.
pub proof fn lemma_round_half_even_mono(m1: int, m2: int, k: nat)
    requires
        0 <= m1 <= m2,
    ensures
        round_half_even(m1, k) <= round_half_even(m2, k),
{
    if k > 0 {
        let dpow = pow_int(10, k);
        lemma_pow10_pos(k);
        let q1 = m1 / dpow;
        let q2 = m2 / dpow;
        vstd::arithmetic::div_mod::lemma_div_is_ordered(m1, m2, dpow);
        assert(q1 <= q2);
        vstd::arithmetic::div_mod::lemma_fundamental_div_mod(m1, dpow);
        vstd::arithmetic::div_mod::lemma_fundamental_div_mod(m2, dpow);
        if q1 < q2 {
            assert(round_half_even(m1, k) <= q1 + 1);
            assert(round_half_even(m2, k) >= q2);
        } else {
            let r1 = m1 % dpow;
            let r2 = m2 % dpow;
            assert(r1 <= r2);
        }
    }
}

/// Scaling both the digits and the scale by ten leaves the rounding
/// unchanged.
pub proof fn lemma_round_scaled_shift(m: int, s: nat, p: nat)
    requires
        m >= 0,
    ensures
        round_scaled(m * 10, (s + 1) as nat, p) == round_scaled(m, s, p),
{
    if s + 1 <= p {
        let e = (p - s - 1) as nat;
        assert(pow_int(10, (e + 1) as nat) == 10 * pow_int(10, e));
        assert((m * 10) * pow_int(10, e) == m * (10 * pow_int(10, e))) by (nonlinear_arith);
    } else if s + 1 > p && s <= p {
        // s == p: one digit is dropped and it is a zero
        assert(pow_int(10, 1) == 10) by {
            assert(pow_int(10, 0) == 1);
        }
        vstd::arithmetic::div_mod::lemma_fundamental_div_mod_converse_div(m * 10, 10, m, 0);
        vstd::arithmetic::div_mod::lemma_fundamental_div_mod_converse_mod(m * 10, 10, m, 0);
        assert(m * 10 == m * 10 + 0);
        assert((m * 10) / 10 == m);
        assert((m * 10) % 10 == 0);
        assert(round_half_even(m * 10, 1) == m);
        assert(pow_int(10, 0) == 1);
        assert(m * 1 == m) by (nonlinear_arith);
    } else {
        let k = (s - p) as nat;
        let dpow = pow_int(10, k);
        lemma_pow10_pos(k);
        vstd::arithmetic::div_mod::lemma_fundamental_div_mod(m, dpow);
        let q = m / dpow;
        let r = m % dpow;
        assert(pow_int(10, (k + 1) as nat) == 10 * dpow);
        assert(m * 10 == q * (10 * dpow) + 10 * r) by (nonlinear_arith)
            requires
                m == dpow * q + r,
        ;
        vstd::arithmetic::div_mod::lemma_fundamental_div_mod_converse_div(
            m * 10,
            10 * dpow,
            q,
            10 * r,
        );
        vstd::arithmetic::div_mod::lemma_fundamental_div_mod_converse_mod(
            m * 10,
            10 * dpow,
            q,
            10 * r,
        );
        assert((m * 10) / pow_int(10, (k + 1) as nat) == q);
        assert((m * 10) % pow_int(10, (k + 1) as nat) == 10 * r);
        let h = 5 * pow_int(10, (k - 1) as nat);
        assert(pow_int(10, k) == 10 * pow_int(10, (k - 1) as nat));
        assert(5 * pow_int(10, ((k + 1) - 1) as nat) == 10 * h);
        assert(10 * r > 10 * h <==> r > h);
        assert(10 * r == 10 * h <==> r == h);
        assert((s + 1 - p) as nat == (k + 1) as nat);
    }
}

/// Scaling digits and scale together by any power of ten leaves the
/// rounding unchanged.
pub proof fn lemma_round_scaled_shift_pow(m: int, s: nat, p: nat, e: nat)
    requires
        m >= 0,
    ensures
        round_scaled(m * pow_int(10, e), (s + e) as nat, p) == round_scaled(m, s, p),
    decreases e,
{
    if e > 0 {
        lemma_round_scaled_shift_pow(m, s, p, (e - 1) as nat);
        let prev = m * pow_int(10, (e - 1) as nat);
        lemma_pow10_pos((e - 1) as nat);
        assert(prev >= 0) by (nonlinear_arith)
            requires
                prev == m * pow_int(10, (e - 1) as nat),
                m >= 0,
                pow_int(10, (e - 1) as nat) >= 1,
        ;
        lemma_round_scaled_shift(prev, (s + e - 1) as nat, p);
        assert(pow_int(10, e) == 10 * pow_int(10, (e - 1) as nat));
        assert(prev * 10 == m * pow_int(10, e)) by (nonlinear_arith)
            requires
                pow_int(10, e) == 10 * pow_int(10, (e - 1) as nat),
                prev == m * pow_int(10, (e - 1) as nat),
        ;
    } else {
        assert(pow_int(10, 0) == 1);
        assert(m * 1 == m) by (nonlinear_arith);
    }
}

/// Rounding at a fixed precision never decreases when the value (digits
/// over the same scale) does not.
pub proof fn lemma_round_scaled_mono(m1: int, m2: int, s: nat, p: nat)
    requires
        0 <= m1 <= m2,
    ensures
        round_scaled(m1, s, p) <= round_scaled(m2, s, p),
{
    if s <= p {
        let e = (p - s) as nat;
        lemma_pow10_pos(e);
        assert(m1 * pow_int(10, e) <= m2 * pow_int(10, e)) by (nonlinear_arith)
            requires
                m1 <= m2,
                pow_int(10, e) >= 1,
        ;
    } else {
        lemma_round_half_even_mono(m1, m2, (s - p) as nat);
    }
}

pub proof fn lemma_round_scaled_nonneg(m: int, s: nat, p: nat)
    requires
        m >= 0,
    ensures
        round_scaled(m, s, p) >= 0,
{
    if s <= p {
        lemma_pow10_pos((p - s) as nat);
        assert(m * pow_int(10, (p - s) as nat) >= 0) by (nonlinear_arith)
            requires
                m >= 0,
                pow_int(10, (p - s) as nat) >= 1,
        ;
    } else {
        let k = (s - p) as nat;
        lemma_pow10_pos(k);
        lemma_div_nonneg(m, pow_int(10, k));
    }
}

} // verus!
