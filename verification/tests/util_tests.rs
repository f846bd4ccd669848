use humanfmt::apply_printf_style;
use humanfmt::classify;
use humanfmt::format_not_finite;
use humanfmt::normalize_special_values;
use humanfmt::parse_value;
use humanfmt::Classified;
use humanfmt::SpecialKind;

#[test]
fn normalize_recognizes_spellings() {
    assert_eq!(normalize_special_values("inf").unwrap(), "+Inf");
    assert_eq!(normalize_special_values("+inf").unwrap(), "+Inf");
    assert_eq!(normalize_special_values("-inf").unwrap(), "-Inf");
    assert_eq!(normalize_special_values("nan").unwrap(), "NaN");
    assert_eq!(normalize_special_values("  InF  ").unwrap(), "+Inf");
    assert_eq!(normalize_special_values("NAN").unwrap(), "NaN");
}

#[test]
fn normalize_trims_unicode_whitespace() {
    assert_eq!(normalize_special_values("\u{a0}inf\u{a0}").unwrap(), "+Inf");
    assert_eq!(normalize_special_values("\u{2003}-INF\u{3000}").unwrap(), "-Inf");
    assert_eq!(normalize_special_values("\u{85}nan\u{2028}").unwrap(), "NaN");
    assert_eq!(normalize_special_values("\u{1680}+inf\u{202f}").unwrap(), "+Inf");
}

#[test]
fn normalize_rejects_other_text() {
    assert!(normalize_special_values("infinity").is_none());
    assert!(normalize_special_values("12").is_none());
    assert!(normalize_special_values("").is_none());
}

#[test]
fn format_not_finite_tokens() {
    assert_eq!(format_not_finite(&SpecialKind::PositiveInfinity), "+Inf");
    assert_eq!(format_not_finite(&SpecialKind::NegativeInfinity), "-Inf");
    assert_eq!(format_not_finite(&SpecialKind::NotANumber), "NaN");
}

#[test]
fn parse_value_reads_decimals() {
    let d = parse_value("  ").is_none();
    assert!(d);
    let d = parse_value("-12,345.600").unwrap();
    assert!(d.neg);
    let ip: String = d.ip.iter().collect();
    let fp: String = d.fp.iter().collect();
    assert_eq!(ip, "12345");
    assert_eq!(fp, "6");
}

#[test]
fn parse_value_rejects_other_grammars() {
    assert!(parse_value("1e5").is_none());
    assert!(parse_value("infinity").is_none());
    assert!(parse_value("nan").is_none());
    assert!(parse_value(".").is_none());
    assert!(parse_value("--2").is_none());
    assert!(parse_value("1.2.3").is_none());
}

#[test]
fn parse_value_accepts_edge_grammars() {
    assert!(parse_value("5.").is_some());
    assert!(parse_value(".5").is_some());
    assert!(parse_value("+0").is_some());
}

#[test]
fn apply_printf_style_rounds() {
    let d = parse_value("12345.6789").unwrap();
    assert_eq!(apply_printf_style("%.2f", &d), "12345.68");
    assert_eq!(apply_printf_style("%.0f", &d), "12346");
    assert_eq!(apply_printf_style("%.6f", &d), "12345.678900");
}

#[test]
fn apply_printf_style_ignores_bad_directives() {
    let d = parse_value("12345.6789").unwrap();
    assert_eq!(apply_printf_style("abc", &d), "12345.6789");
    assert_eq!(apply_printf_style("%0.3f", &d), "12345.6789");
    assert_eq!(apply_printf_style("%.f", &d), "12345.6789");
}

#[test]
fn classify_sorts_inputs() {
    assert!(matches!(classify("nan"), Classified::SpecialToken(SpecialKind::NotANumber)));
    assert!(matches!(classify("12.5"), Classified::Numeric(_)));
    match classify("hello") {
        Classified::Opaque(o) => assert_eq!(o, "hello"),
        _ => panic!("expected opaque"),
    }
}
