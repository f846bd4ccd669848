//! The byte-size formatter (`naturalsize`): unit buckets under a decimal,
//! binary or single-letter addressing scheme.

use vstd::prelude::*;
use crate::text::strip_commas;
use crate::text::string_from_chars;
use crate::text::chars_of;
use crate::canon::str_val;
use crate::canon::pow_int;
use crate::canon::digits_of_int;
use crate::canon::trim_zeros_spec;
use crate::canon::is_digits;
use crate::canon::no_leading_zero;
use crate::canon::PREC_LIMIT;
use crate::value::Decimal;
use crate::value::MAX_DIGITS;
use crate::value::accepted_number;
use crate::value::num_neg;
use crate::value::num_int_digits;
use crate::value::num_frac_digits;
use crate::value::sign_seq;
use crate::value::canon_int_digits;
use crate::value::canon_frac_digits;
use crate::value::rendered_text;
use crate::format_utils::Classified;
use crate::format_utils::classify;
use crate::format_utils::format_not_finite;
use crate::format_utils::special_kind_spec;
use crate::format_utils::special_text;
use crate::format_utils::format_spec_prec;
use crate::format_utils::parse_format_spec;
use crate::number::MAX_INPUT;
use crate::digits::extend_vec;
use crate::digits::subvec;
use crate::digits::digits_to_u128;

verus! {

/// The whole-byte text: sign (only when the truncated value is nonzero) and
/// the integer digits, truncating toward zero.
pub open spec fn trunc_text(neg: bool, ipd: Seq<char>) -> Seq<char> {
    if neg && ipd != seq!['0'] {
        seq!['-'] + ipd
    } else {
        ipd
    }
}

/// The single-letter suffix of the `e`-th binary bucket.
pub open spec fn gnu_suffix(e: int) -> Seq<char> {
    if e == 1 {
        "K"@
    } else if e == 2 {
        "M"@
    } else if e == 3 {
        "G"@
    } else if e == 4 {
        "T"@
    } else if e == 5 {
        "P"@
    } else if e == 6 {
        "E"@
    } else if e == 7 {
        "Z"@
    } else if e == 8 {
        "Y"@
    } else if e == 9 {
        "R"@
    } else {
        "Q"@
    }
}

/// The multi-letter suffix of the `e`-th binary bucket.
pub open spec fn binary_suffix(e: int) -> Seq<char> {
    if e == 1 {
        " KiB"@
    } else if e == 2 {
        " MiB"@
    } else if e == 3 {
        " GiB"@
    } else if e == 4 {
        " TiB"@
    } else if e == 5 {
        " PiB"@
    } else if e == 6 {
        " EiB"@
    } else if e == 7 {
        " ZiB"@
    } else if e == 8 {
        " YiB"@
    } else if e == 9 {
        " RiB"@
    } else {
        " QiB"@
    }
}

/// The multi-letter suffix of the `e`-th decimal bucket.
pub open spec fn decimal_suffix(e: int) -> Seq<char> {
    if e == 1 {
        " kB"@
    } else if e == 2 {
        " MB"@
    } else if e == 3 {
        " GB"@
    } else if e == 4 {
        " TB"@
    } else if e == 5 {
        " PB"@
    } else if e == 6 {
        " EB"@
    } else if e == 7 {
        " ZB"@
    } else if e == 8 {
        " YB"@
    } else if e == 9 {
        " RB"@
    } else {
        " QB"@
    }
}

/// The unit suffix for the selected bucket and addressing scheme.
pub open spec fn size_suffix(e: int, binary: bool, gnu: bool) -> Seq<char> {
    if gnu {
        gnu_suffix(e)
    } else if binary {
        binary_suffix(e)
    } else {
        decimal_suffix(e)
    }
}

/// The first bucket from `k` on that the magnitude does not reach past, up
/// to the table's last entry.
pub open spec fn size_exp_from(v: int, base: int, k: int) -> int
    decreases 10 - k,
{
    if k >= 10 {
        10
    } else if v < pow_int(base, (k + 1) as nat) {
        k
    } else {
        size_exp_from(v, base, k + 1)
    }
}

/// The bucket exponent for a magnitude of at least `base`: the floor of its
/// base logarithm, clamped to the table.
pub open spec fn size_exp(v: int, base: int) -> int {
    size_exp_from(v, base, 1)
}

/// The byte-size text of a classified number: the singular `Byte` for a
/// magnitude of exactly one, plain `Bytes` below one scaling step, and
/// otherwise the value divided into its unit bucket with the scheme's
/// suffix.
pub open spec fn naturalsize_num_text(
    neg: bool,
    ipd: Seq<char>,
    fpd: Seq<char>,
    binary: bool,
    gnu: bool,
    p: Option<usize>,
) -> Seq<char> {
    let base: int = if gnu || binary {
        1024
    } else {
        1000
    };
    if ipd == seq!['1'] && fpd.len() == 0 && !gnu {
        trunc_text(neg, ipd) + " Byte"@
    } else if str_val(ipd) < base {
        trunc_text(neg, ipd) + (if gnu {
            "B"@
        } else {
            " Bytes"@
        })
    } else {
        let e = size_exp(str_val(ipd), base);
        let m = str_val(ipd + fpd);
        let m2 = if base == 1024 {
            m * pow_int(5, (10 * e) as nat)
        } else {
            m
        };
        let sc2 = (fpd.len() + (if base == 1024 {
            10 * e
        } else {
            3 * e
        })) as nat;
        let ipd2 = canon_int_digits(m2, sc2);
        let fpd2 = canon_frac_digits(m2, sc2);
        sign_seq(neg) + rendered_text(false, str_val(ipd2 + fpd2), fpd2.len() as nat, p)
            + size_suffix(e, binary, gnu)
    }
}

/// What `naturalsize` returns for any input.
pub open spec fn naturalsize_spec(s: Seq<char>, binary: bool, gnu: bool, p: Option<usize>) -> Seq<
    char,
> {
    match special_kind_spec(s) {
        Some(k) => special_text(k),
        None => {
            let t = strip_commas(s);
            if !accepted_number(t) {
                s
            } else {
                naturalsize_num_text(
                    num_neg(t),
                    digits_of_int(str_val(num_int_digits(t))),
                    trim_zeros_spec(num_frac_digits(t)),
                    binary,
                    gnu,
                    p,
                )
            }
        },
    }
}

/// The truncated whole-byte digits with their sign.
fn trunc_chars(d: &Decimal) -> (out: Vec<char>)
    requires
        d.wf(),
    ensures
        out@ == trunc_text(d.neg, d.ip@),
{
    let is_zero = d.ip.len() == 1 && d.ip[0] == '0';
    proof {
        if is_zero {
            assert(d.ip@ =~= seq!['0']);
        } else {
            assert(d.ip@ != seq!['0']);
        }
    }
    let mut out: Vec<char> = Vec::new();
    if d.neg && !is_zero {
        out.push('-');
    }
    let ipcopy = subvec(&d.ip, 0, d.ip.len());
    extend_vec(&mut out, &ipcopy);
    proof {
        assert(d.ip@.subrange(0, d.ip@.len() as int) =~= d.ip@);
        if d.neg && !is_zero {
            assert(out@ =~= seq!['-'] + d.ip@);
        } else {
            assert(out@ =~= d.ip@);
        }
    }
    out
}

/// Whether the integer digits read below the bound.
fn int_below(v: &Vec<char>, b: u128) -> (r: bool)
    requires
        is_digits(v@),
        no_leading_zero(v@),
        1000 <= b <= 10000,
    ensures
        r == (str_val(v@) < b as int),
{
    if v.len() > 4 {
        proof {
            crate::canon::lemma_str_val_lower(v@);
            crate::digits::lemma_pow10_mono(4, (v@.len() - 1) as nat);
            reveal_with_fuel(pow_int, 6);
            assert(pow_int(10, 4) == 10000);
        }
        false
    } else {
        let val = digits_to_u128(v);
        val < b
    }
}

/// The machine value of a small power.
fn pow_u128(b: u128, j: usize) -> (r: u128)
    requires
        b == 1000 || b == 1024,
        j <= 11,
    ensures
        r as int == pow_int(b as int, j as nat),
{
    proof {
        reveal_with_fuel(pow_int, 13);
        assert(pow_int(1024, 11) < 0x100000000000000000000000000000000);
    }
    let mut r: u128 = 1;
    let mut t: usize = 0;
    while t < j
        invariant
            b == 1000 || b == 1024,
            t <= j <= 11,
            r as int == pow_int(b as int, t as nat),
        decreases j - t,
    {
        proof {
            crate::canon::lemma_pow_le_base(b as int, 1024, (t + 1) as nat);
            reveal_with_fuel(pow_int, 13);
            assert(pow_int(1024, (t + 1) as nat) <= pow_int(1024, 11)) by {
                crate::canon::lemma_pow_mono(1024, (t + 1) as nat, 11);
            }
            assert(pow_int(1024, 11) < 0x100000000000000000000000000000000);
            assert(pow_int(b as int, (t + 1) as nat) == b * pow_int(b as int, t as nat));
        }
        r = r * b;
        t = t + 1;
    }
    r
}

/// The bucket exponent of the integer digits under the given base.
fn size_exp_exec(ip: &Vec<char>, use1024: bool) -> (e: usize)
    requires
        is_digits(ip@),
        no_leading_zero(ip@),
        str_val(ip@) >= (if use1024 {
            1024int
        } else {
            1000int
        }),
    ensures
        1 <= e <= 10,
        e as int == size_exp(
            str_val(ip@),
            if use1024 {
                1024int
            } else {
                1000int
            },
        ),
{
    let ghost base: int = if use1024 {
        1024int
    } else {
        1000int
    };
    let ghost v = str_val(ip@);
    if ip.len() >= 32 {
        proof {
            crate::canon::lemma_str_val_lower(ip@);
            crate::digits::lemma_pow10_mono(31, (ip@.len() - 1) as nat);
            reveal_with_fuel(pow_int, 35);
            assert(pow_int(1024, 10) < pow_int(10, 31));
            assert(pow_int(1000, 10) < pow_int(10, 31));
            assert(v >= pow_int(10, 31));
            lemma_size_exp_high(v, base, 1);
        }
        10
    } else {
        let ipv = digits_to_u128(ip);
        let bu: u128 = if use1024 {
            1024
        } else {
            1000
        };
        let mut e: usize = 1;
        while e < 10 && ipv >= pow_u128(bu, e + 1)
            invariant
                1 <= e <= 10,
                v == ipv as int,
                base == bu as int,
                bu == 1000 || bu == 1024,
                size_exp(v, base) == size_exp_from(v, base, e as int),
            decreases 10 - e,
        {
            e = e + 1;
        }
        proof {
            if e < 10 {
                assert(size_exp_from(v, base, e as int) == e);
            }
        }
        e
    }
}

/// Past thirty digits the magnitude tops every bucket.
proof fn lemma_size_exp_high(v: int, base: int, k: int)
    requires
        1 <= k <= 10,
        base == 1000 || base == 1024,
        v >= pow_int(10, 31),
        pow_int(1024, 10) < pow_int(10, 31),
        pow_int(1000, 10) < pow_int(10, 31),
    ensures
        size_exp_from(v, base, k) == 10,
    decreases 10 - k,
{
    if k < 10 {
        crate::canon::lemma_pow_mono(base, (k + 1) as nat, 10);
        assert(pow_int(base, (k + 1) as nat) <= pow_int(base, 10));
        assert(v >= pow_int(base, (k + 1) as nat));
        lemma_size_exp_high(v, base, k + 1);
    }
}

/// The unit suffix for the selected bucket.
fn suffix_str(e: usize, binary: bool, gnu: bool) -> (r: &'static str)
    requires
        1 <= e <= 10,
    ensures
        r@ == size_suffix(e as int, binary, gnu),
{
    if gnu {
        if e == 1 {
            "K"
        } else if e == 2 {
            "M"
        } else if e == 3 {
            "G"
        } else if e == 4 {
            "T"
        } else if e == 5 {
            "P"
        } else if e == 6 {
            "E"
        } else if e == 7 {
            "Z"
        } else if e == 8 {
            "Y"
        } else if e == 9 {
            "R"
        } else {
            "Q"
        }
    } else if binary {
        if e == 1 {
            " KiB"
        } else if e == 2 {
            " MiB"
        } else if e == 3 {
            " GiB"
        } else if e == 4 {
            " TiB"
        } else if e == 5 {
            " PiB"
        } else if e == 6 {
            " EiB"
        } else if e == 7 {
            " ZiB"
        } else if e == 8 {
            " YiB"
        } else if e == 9 {
            " RiB"
        } else {
            " QiB"
        }
    } else {
        if e == 1 {
            " kB"
        } else if e == 2 {
            " MB"
        } else if e == 3 {
            " GB"
        } else if e == 4 {
            " TB"
        } else if e == 5 {
            " PB"
        } else if e == 6 {
            " EB"
        } else if e == 7 {
            " ZB"
        } else if e == 8 {
            " YB"
        } else if e == 9 {
            " RB"
        } else {
            " QB"
        }
    }
}

/// Formats a byte count with a unit suffix: decimal units by default, binary
/// units under `binary`, and single-letter binary units under `gnu`, at the
/// directive's precision.  Special spellings normalize to `+Inf`, `-Inf` and
/// `NaN`; non-numeric input is returned unchanged.
pub fn naturalsize(value: &str, binary: bool, gnu: bool, format: &str) -> (r: String)
    requires
        value@.len() <= MAX_INPUT,
    ensures
        r@ == naturalsize_spec(value@, binary, gnu, format_spec_prec(format@)),
{
    let p = parse_format_spec(format);
    match classify(value) {
        Classified::SpecialToken(k) => format_not_finite(&k),
        Classified::Opaque(o) => o,
        Classified::Numeric(d) => {
            let is_one = d.ip.len() == 1 && d.ip[0] == '1' && d.fp.len() == 0;
            proof {
                if d.ip@.len() == 1 && d.ip@[0] == '1' {
                    assert(d.ip@ =~= seq!['1']);
                }
                if d.ip@ == seq!['1'] {
                    assert(d.ip@.len() == 1 && d.ip@[0] == '1');
                }
            }
            if is_one && !gnu {
                let mut out = trunc_chars(&d);
                let sv = chars_of(" Byte");
                extend_vec(&mut out, &sv);
                string_from_chars(&out)
            } else {
                let bu: u128 = if gnu || binary {
                    1024
                } else {
                    1000
                };
                if int_below(&d.ip, bu) {
                    let mut out = trunc_chars(&d);
                    let sv = if gnu {
                        chars_of("B")
                    } else {
                        chars_of(" Bytes")
                    };
                    extend_vec(&mut out, &sv);
                    string_from_chars(&out)
                } else {
                    let e = size_exp_exec(&d.ip, gnu || binary);
                    let mut sd = if gnu || binary {
                        d.div_pow1024(e)
                    } else {
                        d.div_pow10(3 * e)
                    };
                    sd.neg = false;
                    let rendered = sd.render_opt(p);
                    let suf = chars_of(suffix_str(e, binary, gnu));
                    let mut out: Vec<char> = Vec::new();
                    if d.neg {
                        out.push('-');
                    }
                    extend_vec(&mut out, &rendered);
                    extend_vec(&mut out, &suf);
                    proof {
                        assert(out@ =~= sign_seq(d.neg) + rendered@ + suf@);
                    }
                    string_from_chars(&out)
                }
            }
        },
    }
}

} // verus!
