use humanfmt::naturalsize;
use humanfmt::naturalsize_seq;

#[test]
fn singular_byte() {
    assert_eq!(naturalsize("1", false, false, "%.1f"), "1 Byte");
    assert_eq!(naturalsize("-1", false, false, "%.1f"), "-1 Byte");
}

#[test]
fn gnu_has_no_singular_form() {
    assert_eq!(naturalsize("1", false, true, "%.1f"), "1B");
}

#[test]
fn below_base_is_plain_bytes() {
    assert_eq!(naturalsize("0", false, false, "%.1f"), "0 Bytes");
    assert_eq!(naturalsize("999", false, false, "%.1f"), "999 Bytes");
    assert_eq!(naturalsize("0.5", false, false, "%.1f"), "0 Bytes");
    assert_eq!(naturalsize("1023", false, true, "%.1f"), "1023B");
    assert_eq!(naturalsize("1000", false, true, "%.1f"), "1000B");
}

#[test]
fn decimal_units() {
    assert_eq!(naturalsize("3000", false, false, "%.1f"), "3.0 kB");
    assert_eq!(naturalsize("1000000", false, false, "%.1f"), "1.0 MB");
    assert_eq!(naturalsize("1550000000", false, false, "%.1f"), "1.6 GB");
}

#[test]
fn binary_units() {
    assert_eq!(naturalsize("1024", true, false, "%.1f"), "1.0 KiB");
    assert_eq!(naturalsize("1048576", true, false, "%.1f"), "1.0 MiB");
    assert_eq!(naturalsize("3000", true, false, "%.1f"), "2.9 KiB");
}

#[test]
fn gnu_units() {
    assert_eq!(naturalsize("3000", false, true, "%.1f"), "2.9K");
    assert_eq!(naturalsize("1073741824", false, true, "%.1f"), "1.0G");
}

#[test]
fn negative_sizes_carry_sign() {
    assert_eq!(naturalsize("-3000", false, false, "%.1f"), "-3.0 kB");
    assert_eq!(naturalsize("-999", false, false, "%.1f"), "-999 Bytes");
}

#[test]
fn no_promotion_at_unit_boundary() {
    // rounding up to the next unit's threshold stays in the lower unit
    assert_eq!(naturalsize("1048575", false, true, "%.0f"), "1024K");
    assert_eq!(naturalsize("999999", false, false, "%.0f"), "1000 kB");
}

#[test]
fn top_unit_clamps() {
    // twelve groups of three digits: past the last table entry
    let mut v = String::from("5");
    for _ in 0..33 {
        v.push('0');
    }
    assert_eq!(naturalsize(&v, false, false, "%.1f"), "5000.0 QB");
}

#[test]
fn precision_directive_applies() {
    assert_eq!(naturalsize("3141592", false, false, "%.3f"), "3.142 MB");
    assert_eq!(naturalsize("3141592", false, false, "%.0f"), "3 MB");
}

#[test]
fn size_invalid_directive_renders_naturally() {
    assert_eq!(naturalsize("3000", false, false, "nope"), "3 kB");
}

#[test]
fn size_special_tokens_normalize() {
    assert_eq!(naturalsize("inf", false, false, "%.1f"), "+Inf");
    assert_eq!(naturalsize("-inf", true, false, "%.1f"), "-Inf");
    assert_eq!(naturalsize("nan", false, true, "%.1f"), "NaN");
}

#[test]
fn size_special_tokens_are_fixpoints() {
    assert_eq!(naturalsize("+Inf", false, false, "%.1f"), "+Inf");
    assert_eq!(naturalsize("-Inf", false, true, "%.1f"), "-Inf");
    assert_eq!(naturalsize("NaN", true, false, "%.1f"), "NaN");
}

#[test]
fn size_opaque_text_passes_through() {
    assert_eq!(naturalsize("None", false, false, "%.1f"), "None");
    assert_eq!(naturalsize("huge", false, false, "%.1f"), "huge");
}

#[test]
fn size_batch_preserves_shape_and_order() {
    let values = vec!["1".to_string(), "3000".to_string(), "nan".to_string()];
    let out = naturalsize_seq(&values, false, false, "%.1f");
    assert_eq!(out, vec!["1 Byte", "3.0 kB", "NaN"]);
}

#[test]
fn size_batch_parallel_path_matches() {
    let mut values: Vec<String> = Vec::new();
    for _ in 0..1100usize {
        values.push("3000".to_string());
    }
    let out = naturalsize_seq(&values, false, true, "%.1f");
    assert_eq!(out.len(), 1100);
    assert!(out.iter().all(|s| s == "2.9K"));
}
