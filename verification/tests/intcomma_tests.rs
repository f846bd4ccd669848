use humanfmt::add_commas;
use humanfmt::intcomma;
use humanfmt::intcomma_seq;

#[test]
fn groups_positive_integer() {
    assert_eq!(intcomma("1234567", None), "1,234,567");
}

#[test]
fn groups_negative_integer() {
    assert_eq!(intcomma("-1234567", None), "-1,234,567");
}

#[test]
fn rounds_at_two_digits() {
    assert_eq!(intcomma("12345.6789", Some(2)), "12,345.68");
}

#[test]
fn keeps_existing_commas_meaning() {
    assert_eq!(intcomma("1,234", None), "1,234");
}

#[test]
fn small_values_unchanged() {
    assert_eq!(intcomma("0", None), "0");
    assert_eq!(intcomma("999", None), "999");
    assert_eq!(intcomma("1000", None), "1,000");
}

#[test]
fn keeps_fraction_without_directive() {
    assert_eq!(intcomma("-0.5", None), "-0.5");
    assert_eq!(intcomma("1234.25", None), "1,234.25");
}

#[test]
fn normalizes_parsed_text() {
    assert_eq!(intcomma("0012.300", None), "12.3");
    assert_eq!(intcomma("+7", None), "7");
    assert_eq!(intcomma(".5", None), "0.5");
    assert_eq!(intcomma("5.", None), "5");
}

#[test]
fn rounds_half_to_even() {
    assert_eq!(intcomma("12.5", Some(0)), "12");
    assert_eq!(intcomma("13.5", Some(0)), "14");
    assert_eq!(intcomma("2.675", Some(2)), "2.68");
}

#[test]
fn pads_fraction_to_directive() {
    assert_eq!(intcomma("7", Some(3)), "7.000");
}

#[test]
fn carries_into_new_group() {
    assert_eq!(intcomma("999.7", Some(0)), "1,000");
}

#[test]
fn comma_opaque_text_passes_through() {
    assert_eq!(intcomma("abc", None), "abc");
    assert_eq!(intcomma("", None), "");
    assert_eq!(intcomma("1e5", None), "1e5");
    assert_eq!(intcomma("infinity", None), "infinity");
}

#[test]
fn comma_special_tokens_normalize() {
    assert_eq!(intcomma("-inf", None), "-Inf");
    assert_eq!(intcomma(" NAN ", None), "NaN");
    assert_eq!(intcomma("inf", None), "+Inf");
    assert_eq!(intcomma("+inf", None), "+Inf");
}

#[test]
fn comma_unicode_padded_tokens_normalize() {
    assert_eq!(intcomma("\u{a0}inf", None), "+Inf");
    assert_eq!(intcomma("nan\u{3000}", None), "NaN");
}

#[test]
fn comma_special_tokens_are_fixpoints() {
    assert_eq!(intcomma("+Inf", None), "+Inf");
    assert_eq!(intcomma("-Inf", None), "-Inf");
    assert_eq!(intcomma("NaN", None), "NaN");
}

#[test]
fn negative_zero_keeps_sign() {
    assert_eq!(intcomma("-0", None), "-0");
    assert_eq!(intcomma("-0.04", Some(1)), "-0.0");
}

#[test]
fn add_commas_plain() {
    assert_eq!(add_commas("1234567"), "1,234,567");
    assert_eq!(add_commas("123"), "123");
    assert_eq!(add_commas("1234"), "1,234");
    assert_eq!(add_commas(""), "");
}

#[test]
fn grouping_round_trip_concrete() {
    let grouped = add_commas("90210431337");
    let ungrouped: String = grouped.chars().filter(|c| *c != ',').collect();
    assert_eq!(ungrouped, "90210431337");
    assert_eq!(grouped, "90,210,431,337");
}

#[test]
fn comma_batch_preserves_shape_and_order() {
    let values = vec!["1234567".to_string(), "-inf".to_string(), "nan".to_string()];
    let out = intcomma_seq(&values, None);
    assert_eq!(out, vec!["1,234,567", "-Inf", "NaN"]);
}

#[test]
fn comma_batch_parallel_path_matches() {
    let mut values: Vec<String> = Vec::new();
    for i in 0..1500usize {
        values.push(format!("{}", 1000 + i));
    }
    let out = intcomma_seq(&values, None);
    assert_eq!(out.len(), 1500);
    assert_eq!(out[0], "1,000");
    assert_eq!(out[499], "1,499");
    assert_eq!(out[1499], "2,499");
}
