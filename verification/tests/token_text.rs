use kit_panel::token::{format_token, parse_token};

#[test]
fn format_is_hyphenated_lower_case_hex() {
    assert_eq!(
        format_token(0),
        "00000000-0000-0000-0000-000000000000".to_string()
    );
    assert_eq!(
        format_token(u128::MAX),
        "ffffffff-ffff-ffff-ffff-ffffffffffff".to_string()
    );
    assert_eq!(
        format_token(0x0123_4567_89ab_cdef_0123_4567_89ab_cdef),
        "01234567-89ab-cdef-0123-456789abcdef".to_string()
    );
}

#[test]
fn parse_inverts_format() {
    for t in [0u128, 1, 15, 16, u128::MAX, 0xdead_beef_dead_beef_dead_beef_dead_beef] {
        assert_eq!(parse_token(&format_token(t)), Some(t));
    }
}

#[test]
fn format_agrees_with_the_hyphenated_uuid_form() {
    for t in [0u128, 7, u128::MAX, 0x0123_4567_89ab_cdef_0123_4567_89ab_cdef] {
        let reference = uuid::Uuid::from_u128(t).hyphenated().to_string();
        assert_eq!(format_token(t), reference);
    }
}

#[test]
fn parse_accepts_only_the_canonical_shape() {
    assert_eq!(
        parse_token("01234567-89ab-cdef-0123-456789abcdef"),
        Some(0x0123_4567_89ab_cdef_0123_4567_89ab_cdef)
    );
    // Wrong length.
    assert_eq!(parse_token(""), None);
    assert_eq!(parse_token("01234567-89ab-cdef-0123-456789abcde"), None);
    assert_eq!(parse_token("01234567-89ab-cdef-0123-456789abcdef0"), None);
    // Misplaced or missing hyphens.
    assert_eq!(parse_token("0123456789abcdef0123456789abcdef0000"), None);
    assert_eq!(parse_token("0123456-789ab-cdef-0123-456789abcdef"), None);
    // A character that is no lower-case hexadecimal digit.
    assert_eq!(parse_token("01234567-89ab-cdef-0123-456789abcdeg"), None);
    assert_eq!(parse_token("01234567-89AB-cdef-0123-456789abcdef"), None);
}
