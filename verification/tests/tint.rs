use miniko_renderer::tint::{parse_tint_hex, tint_hex_sliceable};

#[test]
fn parses_six_hex_digits() {
    assert_eq!(parse_tint_hex("#ff8000"), [255, 128, 0]);
    assert_eq!(parse_tint_hex("0A0b0C"), [10, 11, 12]);
}

#[test]
fn strips_every_leading_hash() {
    assert_eq!(parse_tint_hex("##0a0b0c"), [10, 11, 12]);
}

#[test]
fn bad_channel_defaults_to_255() {
    assert_eq!(parse_tint_hex("#zz0010"), [255, 0, 16]);
    assert_eq!(parse_tint_hex("#+f-100"), [15, 255, 0]);
}

#[test]
fn extra_characters_are_ignored() {
    assert_eq!(parse_tint_hex("#102030ff"), [16, 32, 48]);
}

#[test]
fn sliceable_needs_six_bytes_on_boundaries() {
    assert!(tint_hex_sliceable("#ff8000"));
    assert!(!tint_hex_sliceable("#fff"));
    assert!(!tint_hex_sliceable("###"));
    assert!(!tint_hex_sliceable("#aé0000"));
    assert!(tint_hex_sliceable("#aaé00"));
}
