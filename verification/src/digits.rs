//! Verified arithmetic on decimal digit strings (`Vec<char>` of `'0'..'9'`):
//! increment with carry, halving, trimming and conversion, each proved
//! against the integer value of the digits.

use vstd::prelude::*;
use crate::text::is_digit_char;
use crate::text::digit_val;
use crate::canon::all_digits;
use crate::canon::all_zeros;
use crate::canon::is_digits;
use crate::canon::no_leading_zero;
use crate::canon::str_val;
use crate::canon::pow_int;
use crate::canon::zeros;
use crate::canon::lemma_str_val_split;
use crate::canon::lemma_zeros_val;
use crate::canon::lemma_all_zeros_val;
use crate::canon::lemma_str_val_upper;
use vstd::arithmetic::div_mod::lemma_fundamental_div_mod_converse_div;
use vstd::arithmetic::div_mod::lemma_fundamental_div_mod_converse_mod;

verus! {

/// The digit character for a value below ten.
pub fn digit_to_char(d: u8) -> (c: char)
    requires
        d < 10,
    ensures
        c as int == 48 + d as int,
        is_digit_char(c),
        digit_val(c) == d as int,
{
    (48 + d) as char
}

/// The numeric value of a digit character.
pub fn digit_value_of(c: char) -> (d: u8)
    requires
        is_digit_char(c),
    ensures
        d as int == digit_val(c),
        d < 10,
{
    match c {
        '0' => 0,
        '1' => 1,
        '2' => 2,
        '3' => 3,
        '4' => 4,
        '5' => 5,
        '6' => 6,
        '7' => 7,
        '8' => 8,
        _ => 9,
    }
}

/// Copies the range `[a, b)` of `v`.
pub fn subvec(v: &Vec<char>, a: usize, b: usize) -> (r: Vec<char>)
    requires
        a <= b <= v@.len(),
    ensures
        r@ == v@.subrange(a as int, b as int),
{
    let mut r: Vec<char> = Vec::new();
    let mut i: usize = a;
    while i < b
        invariant
            a <= i <= b <= v@.len(),
            r@ == v@.subrange(a as int, i as int),
        decreases b - i,
    {
        r.push(v[i]);
        proof {
            assert(v@.subrange(a as int, i + 1 as int) =~= v@.subrange(a as int, i as int).push(
                v@[i as int],
            ));
        }
        i = i + 1;
    }
    r
}

/// Appends a copy of `src` to `dst`.
pub fn extend_vec(dst: &mut Vec<char>, src: &Vec<char>)
    ensures
        final(dst)@ == old(dst)@ + src@,
{
    let n = src.len();
    let mut i: usize = 0;
    while i < n
        invariant
            n == src@.len(),
            i <= n,
            dst@ == old(dst)@ + src@.take(i as int),
        decreases n - i,
    {
        dst.push(src[i]);
        proof {
            assert(old(dst)@ + src@.take(i + 1 as int) =~= (old(dst)@ + src@.take(i as int)).push(
                src@[i as int],
            ));
        }
        i = i + 1;
    }
    proof {
        assert(src@.take(n as int) =~= src@);
    }
}

/// A vector of `k` zero digits.
pub fn zeros_vec(k: usize) -> (r: Vec<char>)
    ensures
        r@ == zeros(k as nat),
        all_zeros(r@),
        all_digits(r@),
        str_val(r@) == 0,
{
    let mut r: Vec<char> = Vec::new();
    let mut i: usize = 0;
    while i < k
        invariant
            i <= k,
            r@ == zeros(i as nat),
        decreases k - i,
    {
        r.push('0');
        proof {
            assert(zeros((i + 1) as nat) =~= zeros(i as nat).push('0'));
        }
        i = i + 1;
    }
    proof {
        lemma_zeros_val(k as nat);
    }
    r
}

/// Removes leading zeros, keeping at least one digit; the value is unchanged.
pub fn trim_leading_zeros(v: Vec<char>) -> (r: Vec<char>)
    requires
        is_digits(v@),
    ensures
        is_digits(r@),
        no_leading_zero(r@),
        str_val(r@) == str_val(v@),
        r@.len() <= v@.len(),
{
    let n = v.len();
    let mut b: usize = 0;
    while b < n - 1 && v[b] == '0'
        invariant
            is_digits(v@),
            n == v@.len(),
            b <= n - 1,
            forall|j: int| 0 <= j < b ==> v@[j] == '0',
        decreases n - b,
    {
        b = b + 1;
    }
    let r = subvec(&v, b, n);
    proof {
        assert(v@ =~= v@.subrange(0, b as int) + r@);
        lemma_str_val_split(v@.subrange(0, b as int), r@);
        assert(all_zeros(v@.subrange(0, b as int)));
        lemma_all_zeros_val(v@.subrange(0, b as int));
        assert(str_val(v@) == 0 * pow_int(10, r@.len() as nat) + str_val(r@));
        assert(0 * pow_int(10, r@.len() as nat) == 0) by (nonlinear_arith);
        assert(r@[0] == v@[b as int]);
    }
    r
}

/// Removes trailing zeros; the value divides by the corresponding power of
/// ten.  The result may be empty (when every digit was zero).
pub fn trim_trailing_zeros(v: Vec<char>) -> (r: Vec<char>)
    requires
        all_digits(v@),
    ensures
        all_digits(r@),
        r@.len() == 0 || r@.last() != '0',
        r@.len() <= v@.len(),
        str_val(v@) == str_val(r@) * pow_int(10, (v@.len() - r@.len()) as nat),
        r@ == v@.take(r@.len() as int),
        r@ == crate::canon::trim_zeros_spec(v@),
{
    let mut v = v;
    let ghost orig = v@;
    loop
        invariant
            all_digits(orig),
            v@ == orig.take(v@.len() as int),
            v@.len() <= orig.len(),
            forall|j: int| v@.len() <= j < orig.len() ==> orig[j] == '0',
            str_val(orig) == str_val(v@) * pow_int(10, (orig.len() - v@.len()) as nat),
        ensures
            v@.len() == 0 || v@.last() != '0',
            v@ == orig.take(v@.len() as int),
            v@.len() <= orig.len(),
            forall|j: int| v@.len() <= j < orig.len() ==> orig[j] == '0',
            str_val(orig) == str_val(v@) * pow_int(10, (orig.len() - v@.len()) as nat),
        decreases v@.len(),
    {
        proof {
            assert(orig.take(orig.len() as int) =~= orig);
            assert(pow_int(10, 0) == 1);
            assert(str_val(v@) * 1 == str_val(v@)) by (nonlinear_arith);
        }
        let n = v.len();
        if n == 0 {
            break ;
        }
        let last = v[n - 1];
        if last != '0' {
            break ;
        }
        let ghost before = v@;
        let _ = v.pop();
        proof {
            assert(v@ =~= before.drop_last());
            assert(before =~= v@.push('0'));
            assert(str_val(before) == 10 * str_val(v@) + digit_val('0'));
            assert(orig.take((before.len() - 1) as int) =~= before.drop_last());
            let k = (orig.len() - before.len()) as nat;
            assert(str_val(orig) == str_val(before) * pow_int(10, k));
            assert((10 * str_val(v@)) * pow_int(10, k) == str_val(v@) * (10 * pow_int(10, k)))
                by (nonlinear_arith);
            assert(pow_int(10, (k + 1) as nat) == 10 * pow_int(10, k));
            assert(orig[(before.len() - 1) as int] == before.last());
        }
    }
    proof {
        if v@.len() > 0 {
            assert(v@.last() == orig[(v@.len() - 1) as int]);
        }
        crate::canon::lemma_trim_zeros_is(orig, v@.len() as int);
    }
    v
}

/// Adds one to the value of a digit string, carrying as needed; the length
/// grows by one exactly when every digit was a nine.
pub fn inc_digits(v: Vec<char>) -> (r: Vec<char>)
    requires
        is_digits(v@),
    ensures
        is_digits(r@),
        v@.len() <= r@.len() <= v@.len() + 1,
        str_val(r@) == str_val(v@) + 1,
        v@[0] != '0' ==> r@[0] != '0',
{
    let mut v = v;
    let ghost orig = v@;
    let n = v.len();
    let mut i: usize = n;
    while i > 0 && v[i - 1] == '9'
        invariant
            is_digits(orig),
            n == orig.len(),
            v@.len() == n,
            i <= n,
            forall|j: int| 0 <= j < i ==> v@[j] == orig[j],
            forall|j: int| i <= j < n ==> orig[j] == '9',
            forall|j: int| i <= j < n ==> v@[j] == '0',
        decreases i,
    {
        v.set(i - 1, '0');
        i = i - 1;
    }
    proof {
        assert(v@ =~= orig.take(i as int) + zeros((n - i) as nat));
        lemma_str_val_split(orig.take(i as int), zeros((n - i) as nat));
        lemma_zeros_val((n - i) as nat);
        assert(orig =~= orig.take(i as int) + nines_tail(orig, i as int));
    }
    if i == 0 {
        proof {
            assert(orig =~= crate::canon::nines(n as nat)) by {
                assert(forall|j: int| 0 <= j < n ==> orig[j] == '9');
                assert(orig.len() == crate::canon::nines(n as nat).len());
                assert(forall|j: int|
                    0 <= j < n ==> orig[j] == crate::canon::nines(n as nat)[j]);
            }
            crate::canon::lemma_nines_val(n as nat);
        }
        let mut r: Vec<char> = Vec::new();
        r.push('1');
        extend_vec(&mut r, &v);
        proof {
            assert(r@ =~= seq!['1'] + v@);
            lemma_str_val_split(seq!['1'], v@);
            assert(seq!['1'].drop_last() =~= Seq::<char>::empty());
            assert(str_val(Seq::<char>::empty()) == 0);
            assert(str_val(seq!['1']) == 1);
            assert(forall|j: int| 0 <= j < v@.len() ==> v@[j] == '0');
            lemma_all_zeros_val(v@);
            assert(str_val(v@) == 0);
            assert(str_val(r@) == 1 * pow_int(10, (n - i) as nat) + 0);
            assert(1 * pow_int(10, (n - i) as nat) == pow_int(10, (n - i) as nat))
                by (nonlinear_arith);
        }
        r
    } else {
        let d = digit_value_of(v[i - 1]);
        let ghost mid = v@;
        v.set(i - 1, digit_to_char(d + 1));
        proof {
            let a = orig.take((i - 1) as int);
            let k = (n - i) as nat;
            assert(mid =~= (a + seq![orig[i - 1 as int]]) + zeros(k));
            assert(v@ =~= (a + seq![digit_char_of_plus(orig[i - 1 as int])]) + zeros(k));
            lemma_str_val_split(a + seq![orig[i - 1 as int]], zeros(k));
            lemma_str_val_split(a + seq![digit_char_of_plus(orig[i - 1 as int])], zeros(k));
            lemma_zeros_val(k);
            assert((a + seq![orig[i - 1 as int]]).drop_last() =~= a);
            assert((a + seq![digit_char_of_plus(orig[i - 1 as int])]).drop_last() =~= a);
            let va = str_val(a);
            let dc = digit_val(orig[i - 1 as int]);
            assert(str_val(a + seq![orig[i - 1 as int]]) == 10 * va + dc);
            assert(str_val(a + seq![digit_char_of_plus(orig[i - 1 as int])]) == 10 * va + dc + 1);
            let nd = nines_tail(orig, i as int);
            assert(nd =~= crate::canon::nines(k)) by {
                assert(nd.len() == k);
                assert(forall|j: int| 0 <= j < k ==> nd[j] == '9');
            }
            crate::canon::lemma_nines_val(k);
            lemma_str_val_split(orig.take(i as int), nd);
            assert(orig.take(i as int) =~= a + seq![orig[i - 1 as int]]);
            assert(str_val(orig) == (10 * va + dc) * pow_int(10, k) + (pow_int(10, k) - 1));
            assert(str_val(v@) == (10 * va + dc + 1) * pow_int(10, k) + 0);
            assert((10 * va + dc + 1) * pow_int(10, k) == (10 * va + dc) * pow_int(10, k)
                + pow_int(10, k)) by (nonlinear_arith);
            assert(v@[0] == if i == 1 {
                digit_char_of_plus(orig[0])
            } else {
                orig[0]
            });
        }
        v
    }
}

/// The suffix of `s` from position `i`.
pub open spec fn nines_tail(s: Seq<char>, i: int) -> Seq<char> {
    s.skip(i)
}

/// The digit character one above the given digit character.
pub open spec fn digit_char_of_plus(c: char) -> char {
    crate::canon::digit_char_of(digit_val(c) + 1)
}

/// Halves the value of a digit string, digit by digit from the left; the
/// final remainder is the value's parity.
pub fn div2_digits(v: &Vec<char>) -> (r: Vec<char>)
    requires
        all_digits(v@),
    ensures
        all_digits(r@),
        r@.len() == v@.len(),
        2 * str_val(r@) + str_val(v@) % 2 == str_val(v@),
{
    let n = v.len();
    let mut out: Vec<char> = Vec::new();
    let mut rr: u8 = 0;
    while out.len() < n
        invariant
            all_digits(v@),
            n == v@.len(),
            out.len() <= n,
            rr <= 1,
            all_digits(out@),
            str_val(v@.take(out.len() as int)) == 2 * str_val(out@) + rr,
        decreases n - out.len(),
    {
        let i = out.len();
        let d = digit_value_of(v[i]);
        let cur: u8 = 10 * rr + d;
        let q: u8 = cur / 2;
        let ghost obefore = out@;
        out.push(digit_to_char(q));
        proof {
            assert(v@.take((i + 1) as int).drop_last() =~= v@.take(i as int));
            assert(v@.take((i + 1) as int).last() == v@[i as int]);
            assert(out@ =~= obefore.push(crate::canon::digit_char_of(q as int)));
            assert(out@.drop_last() =~= obefore);
            assert(str_val(out@) == 10 * str_val(obefore) + q);
            assert(cur == 2 * q + cur % 2);
        }
        rr = cur % 2;
    }
    proof {
        assert(v@.take(n as int) =~= v@);
        lemma_str_val_upper(out@);
        assert(str_val(v@) == 2 * str_val(out@) + rr);
        vstd::arithmetic::div_mod::lemma_fundamental_div_mod_converse_mod(
            str_val(v@),
            2,
            str_val(out@),
            rr as int,
        );
    }
    out
}

/// Multiplies the value by five and raises the scale by one, `steps` times:
/// appends a zero then halves, so the digits after `steps` rounds carry the
/// value times five to the `steps`-th power.
pub fn times5_steps(v: Vec<char>, steps: usize) -> (r: Vec<char>)
    requires
        all_digits(v@),
        v@.len() + steps <= 200000000,
    ensures
        all_digits(r@),
        r@.len() == v@.len() + steps,
        str_val(r@) == str_val(v@) * pow_int(5, steps as nat),
{
    let mut cur = v;
    let mut t: usize = 0;
    proof {
        assert(str_val(cur@) * 1 == str_val(cur@)) by (nonlinear_arith);
    }
    while t < steps
        invariant
            all_digits(cur@),
            t <= steps,
            cur@.len() == v@.len() + t,
            v@.len() + steps <= 200000000,
            str_val(cur@) == str_val(v@) * pow_int(5, t as nat),
        decreases steps - t,
    {
        let ghost before = cur@;
        cur.push('0');
        proof {
            assert(cur@.drop_last() =~= before);
            assert(str_val(cur@) == 10 * str_val(before));
            crate::canon::lemma_val_parity(cur@);
        }
        let halved = div2_digits(&cur);
        proof {
            assert(str_val(cur@) % 2 == 0);
            assert(2 * str_val(halved@) == 10 * str_val(before));
            assert(str_val(halved@) == 5 * str_val(before));
            assert(5 * (str_val(v@) * pow_int(5, t as nat)) == str_val(v@) * (5 * pow_int(
                5,
                t as nat,
            ))) by (nonlinear_arith);
            assert(pow_int(5, (t + 1) as nat) == 5 * pow_int(5, t as nat));
        }
        cur = halved;
        t = t + 1;
    }
    cur
}

/// Whether `v` is exactly a one followed by `k` zeros.
pub fn is_pow10_digits(v: &Vec<char>, k: usize) -> (r: bool)
    ensures
        r == (v@ == crate::canon::pow10_seq(k as nat)),
{
    let n = v.len();
    if k >= n || n - 1 != k {
        proof {
            assert(crate::canon::pow10_seq(k as nat).len() == k + 1);
        }
        return false;
    }
    if v[0] != '1' {
        proof {
            assert(crate::canon::pow10_seq(k as nat)[0] == '1');
        }
        return false;
    }
    let mut i: usize = 1;
    while i < n
        invariant
            n == v@.len() == k + 1,
            1 <= i <= n,
            v@[0] == '1',
            forall|j: int| 1 <= j < i ==> v@[j] == '0',
        decreases n - i,
    {
        if v[i] != '0' {
            proof {
                assert(crate::canon::pow10_seq(k as nat)[i as int] == '0');
            }
            return false;
        }
        i = i + 1;
    }
    proof {
        assert(v@ =~= crate::canon::pow10_seq(k as nat));
    }
    true
}

/// Whether any digit is nonzero.
pub fn has_nonzero(v: &Vec<char>) -> (r: bool)
    requires
        all_digits(v@),
    ensures
        r == !all_zeros(v@),
{
    let n = v.len();
    let mut i: usize = 0;
    while i < n
        invariant
            n == v@.len(),
            i <= n,
            forall|j: int| 0 <= j < i ==> v@[j] == '0',
        decreases n - i,
    {
        if v[i] != '0' {
            return true;
        }
        i = i + 1;
    }
    false
}

/// Keeps the first `keep` digits and rounds away the rest, half to even;
/// the value of the result is exactly `round_half_even` of the input value.
pub fn round_digits(all: &Vec<char>, keep: usize) -> (r: Vec<char>)
    requires
        all_digits(all@),
        1 <= keep <= all@.len(),
    ensures
        is_digits(r@),
        keep <= r@.len() <= keep + 1,
        str_val(r@) == crate::canon::round_half_even(
            str_val(all@),
            (all@.len() - keep) as nat,
        ),
{
    let n = all.len();
    let kept = subvec(all, 0, keep);
    if keep == n {
        proof {
            assert(kept@ =~= all@);
        }
        return kept;
    }
    let ghost k = (n - keep) as nat;
    let ghost m = str_val(all@);
    let ghost q = str_val(kept@);
    let ghost dropped = all@.subrange(keep as int, n as int);
    let ghost rv = str_val(dropped);
    let ghost h = 5 * pow_int(10, (k - 1) as nat);
    proof {
        assert(all@ =~= kept@ + dropped);
        lemma_str_val_split(kept@, dropped);
        lemma_str_val_upper(dropped);
        lemma_str_val_upper(kept@);
        assert(m == q * pow_int(10, k) + rv);
        crate::canon::lemma_pow10_pos(k);
        lemma_fundamental_div_mod_converse_div(m, pow_int(10, k), q, rv);
        lemma_fundamental_div_mod_converse_mod(m, pow_int(10, k), q, rv);
        assert(dropped =~= seq![all@[keep as int]] + dropped.skip(1));
        lemma_str_val_split(seq![all@[keep as int]], dropped.skip(1));
        assert(seq![all@[keep as int]].drop_last() =~= Seq::<char>::empty());
        assert(str_val(Seq::<char>::empty()) == 0);
        assert(str_val(seq![all@[keep as int]]) == digit_val(all@[keep as int]));
        lemma_str_val_upper(dropped.skip(1));
    }
    let d5 = digit_value_of(all[keep]);
    let rest = subvec(all, keep + 1, n);
    proof {
        assert(rest@ =~= dropped.skip(1));
    }
    let mut up = false;
    if d5 > 5 {
        up = true;
    } else if d5 == 5 {
        if has_nonzero(&rest) {
            up = true;
        } else {
            let lk = digit_value_of(kept[keep - 1]);
            if lk % 2 == 1 {
                up = true;
            }
        }
    }
    proof {
        let p1 = pow_int(10, (k - 1) as nat);
        crate::canon::lemma_pow10_pos((k - 1) as nat);
        assert(rv == digit_val(all@[keep as int]) * p1 + str_val(rest@));
        assert(0 <= str_val(rest@) < p1);
        crate::canon::lemma_val_zero_iff(rest@);
        crate::canon::lemma_val_parity(kept@);
        assert(kept@.last() == kept@[keep - 1]);
        if d5 >= 6 {
            assert(rv >= 6 * p1) by (nonlinear_arith)
                requires
                    rv == d5 * p1 + str_val(rest@),
                    d5 >= 6,
                    str_val(rest@) >= 0,
                    p1 >= 1,
            ;
        }
        if d5 <= 4 {
            assert(rv < 5 * p1) by (nonlinear_arith)
                requires
                    rv == d5 * p1 + str_val(rest@),
                    d5 <= 4,
                    str_val(rest@) < p1,
                    p1 >= 1,
            ;
        }
        if d5 == 5 {
            assert(rv == h + str_val(rest@));
        }
        assert(up == (rv > h || (rv == h && q % 2 == 1)));
    }
    if up {
        let r = inc_digits(kept);
        r
    } else {
        kept
    }
}

/// Reads a short digit string into a machine integer.
pub fn digits_to_u128(v: &Vec<char>) -> (r: u128)
    requires
        all_digits(v@),
        v@.len() <= 38,
    ensures
        r as int == str_val(v@),
{
    proof {
        reveal_with_fuel(pow_int, 40);
        assert(pow_int(10, 38) < 0x100000000000000000000000000000000);
    }
    let n = v.len();
    let mut acc: u128 = 0;
    let mut i: usize = 0;
    while i < n
        invariant
            all_digits(v@),
            n == v@.len() <= 38,
            i <= n,
            acc as int == str_val(v@.take(i as int)),
            (acc as int) < pow_int(10, i as nat),
        decreases n - i,
    {
        proof {
            assert(v@.take((i + 1) as int).drop_last() =~= v@.take(i as int));
            assert(v@.take((i + 1) as int).last() == v@[i as int]);
            assert(pow_int(10, (i + 1) as nat) == 10 * pow_int(10, i as nat));
            crate::canon::lemma_pow10_pos(i as nat);
            reveal_with_fuel(pow_int, 40);
            assert(pow_int(10, 38) < 0x100000000000000000000000000000000);
            lemma_pow10_mono(i as nat, 37);
        }
        let d = digit_value_of(v[i]);
        acc = acc * 10 + (d as u128);
        i = i + 1;
    }
    proof {
        assert(v@.take(n as int) =~= v@);
    }
    acc
}

pub proof fn lemma_pow10_mono(a: nat, b: nat)
    requires
        a <= b,
    ensures
        pow_int(10, a) <= pow_int(10, b),
    decreases b,
{
    if a < b {
        lemma_pow10_mono(a, (b - 1) as nat);
        crate::canon::lemma_pow10_pos((b - 1) as nat);
    }
}

} // verus!
