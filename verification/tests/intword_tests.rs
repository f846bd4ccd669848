use humanfmt::intword;
use humanfmt::intword_seq;

#[test]
fn below_a_thousand_is_plain() {
    assert_eq!(intword("100", "%.1f"), "100");
    assert_eq!(intword("999", "%.1f"), "999");
}

#[test]
fn thousand_bucket() {
    assert_eq!(intword("12400", "%.1f"), "12.4 thousand");
    assert_eq!(intword("1000", "%.1f"), "1.0 thousand");
}

#[test]
fn million_bucket() {
    assert_eq!(intword("1000000", "%.1f"), "1.0 million");
}

#[test]
fn billion_bucket() {
    assert_eq!(intword("1200000000", "%.1f"), "1.2 billion");
}

#[test]
fn decillion_bucket() {
    assert_eq!(intword("8100000000000000000000000000000000", "%.1f"), "8.1 decillion");
}

#[test]
fn past_googol_threshold_is_raw() {
    // ten to the hundredth has one digit too many for the table
    let mut huge = String::from("1");
    for _ in 0..100 {
        huge.push('0');
    }
    assert_eq!(intword(&huge, "%.1f"), huge);
}

#[test]
fn promotion_into_googol_bucket() {
    // sixty-nine nines and thirty-one zeros: just under ten to the
    // hundredth, and rounding at one digit reaches the googol threshold
    let mut v = String::new();
    for _ in 0..69 {
        v.push('9');
    }
    for _ in 0..31 {
        v.push('0');
    }
    assert_eq!(intword(&v, "%.1f"), "1.0 googol");
}

#[test]
fn rounding_boundary_promotes() {
    assert_eq!(intword("999999", "%.1f"), "1.0 million");
    assert_eq!(intword("999999999951", "%.1f"), "1.0 trillion");
}

#[test]
fn no_promotion_below_boundary() {
    assert_eq!(intword("999940", "%.1f"), "999.9 thousand");
}

#[test]
fn half_even_tie_at_promotion_boundary() {
    // 999.95 ties at one digit: the odd digit rounds up and promotes,
    // the even digit rounds down and stays
    assert_eq!(intword("999950", "%.1f"), "1.0 million");
    assert_eq!(intword("999850", "%.1f"), "999.8 thousand");
}

#[test]
fn word_invalid_directive_renders_naturally() {
    assert_eq!(intword("1234000", "%0.3f"), "1.234 million");
}

#[test]
fn explicit_three_digit_directive() {
    assert_eq!(intword("1234000", "%.3f"), "1.234 million");
}

#[test]
fn negative_values_carry_sign() {
    assert_eq!(intword("-12400", "%.1f"), "-12.4 thousand");
    assert_eq!(intword("-100", "%.1f"), "-100");
}

#[test]
fn truncates_plain_fraction_toward_zero() {
    assert_eq!(intword("999.9", "%.1f"), "999");
    assert_eq!(intword("-0.5", "%.1f"), "-0");
}

#[test]
fn none_text_passes_through() {
    assert_eq!(intword("None", "%.1f"), "None");
}

#[test]
fn word_special_tokens_normalize() {
    assert_eq!(intword("inf", "%.1f"), "+Inf");
    assert_eq!(intword("-inf", "%.1f"), "-Inf");
    assert_eq!(intword("nan", "%.1f"), "NaN");
}

#[test]
fn word_special_tokens_are_fixpoints() {
    assert_eq!(intword("+Inf", "%.1f"), "+Inf");
    assert_eq!(intword("-Inf", "%.1f"), "-Inf");
    assert_eq!(intword("NaN", "%.1f"), "NaN");
}

#[test]
fn scale_monotone_concrete() {
    // rising magnitudes never fall back to an earlier scale word
    let outs = [
        intword("999", "%.1f"),
        intword("1000", "%.1f"),
        intword("999999", "%.1f"),
        intword("1000000", "%.1f"),
        intword("1000000000", "%.1f"),
    ];
    assert_eq!(outs[0], "999");
    assert_eq!(outs[1], "1.0 thousand");
    assert_eq!(outs[2], "1.0 million");
    assert_eq!(outs[3], "1.0 million");
    assert_eq!(outs[4], "1.0 billion");
}

#[test]
fn word_batch_preserves_shape_and_order() {
    let values = vec!["100".to_string(), "12400".to_string(), "1000000".to_string()];
    let out = intword_seq(&values, "%.1f");
    assert_eq!(out, vec!["100", "12.4 thousand", "1.0 million"]);
}

#[test]
fn word_batch_parallel_path_matches() {
    let mut values: Vec<String> = Vec::new();
    for _ in 0..1200usize {
        values.push("12400".to_string());
    }
    let out = intword_seq(&values, "%.1f");
    assert_eq!(out.len(), 1200);
    assert!(out.iter().all(|s| s == "12.4 thousand"));
}
