use version_masking::error::MaskError;
use version_masking::version::covers;

#[test]
fn same_nonzero_major_is_covered() {
    assert_eq!(covers("1.2", "1.9"), Ok(true));
    assert_eq!(covers("1.2.3", "1.9.0"), Ok(true));
    assert_eq!(covers("12.0", "12.34.5"), Ok(true));
}

#[test]
fn other_major_is_not_covered() {
    assert_eq!(covers("1.2", "2.0"), Ok(false));
    assert_eq!(covers("2.0", "1.2"), Ok(false));
    assert_eq!(covers("0.3", "1.3"), Ok(false));
}

#[test]
fn major_zero_needs_the_same_minor() {
    assert_eq!(covers("0.3", "0.3"), Ok(true));
    assert_eq!(covers("0.3", "0.4"), Ok(false));
    assert_eq!(covers("0.3.1", "0.3.9"), Ok(true));
    assert_eq!(covers("0.0.1", "0.0.7"), Ok(true));
    assert_eq!(covers("0.0.1", "0.1.0"), Ok(false));
}

#[test]
fn wildcard_is_covered_by_everything() {
    assert_eq!(covers("0.0", "*"), Ok(true));
    assert_eq!(covers("7.1.2", "*"), Ok(true));
    assert_eq!(covers("not a version", "*"), Ok(true));
    assert_eq!(covers("", "*"), Ok(true));
}

#[test]
fn wildcard_as_recorded_version_is_malformed() {
    assert_eq!(covers("*", "1.0"), Err(MaskError::MalformedVersion));
}

#[test]
fn patch_and_what_follows_are_not_read() {
    assert_eq!(covers("1.2.x", "1.3.y"), Ok(true));
    assert_eq!(covers("0.5.0-alpha+build", "0.5.1"), Ok(true));
    assert_eq!(covers("1.0.", "1.0"), Ok(true));
}

#[test]
fn missing_minor_is_malformed() {
    assert_eq!(covers("1", "1.0"), Err(MaskError::MalformedVersion));
    assert_eq!(covers("1.0", "1"), Err(MaskError::MalformedVersion));
    assert_eq!(covers("1.", "1.0"), Err(MaskError::MalformedVersion));
    assert_eq!(covers("1.0", ""), Err(MaskError::MalformedVersion));
    assert_eq!(covers("", "1.0"), Err(MaskError::MalformedVersion));
}

#[test]
fn missing_major_is_malformed() {
    assert_eq!(covers(".5", "1.0"), Err(MaskError::MalformedVersion));
    assert_eq!(covers("1.0", ".5"), Err(MaskError::MalformedVersion));
}

#[test]
fn component_that_is_no_number_is_malformed() {
    assert_eq!(covers("a.b", "1.0"), Err(MaskError::MalformedVersion));
    assert_eq!(covers("1.0", "^1.0"), Err(MaskError::MalformedVersion));
    assert_eq!(covers("1.0", ">=1.0"), Err(MaskError::MalformedVersion));
    assert_eq!(covers("1.0", "~1.0"), Err(MaskError::MalformedVersion));
    assert_eq!(covers("1.0", "1.x"), Err(MaskError::MalformedVersion));
    assert_eq!(covers("1.0", "1.0-beta"), Err(MaskError::MalformedVersion));
    assert_eq!(covers("1.0", "-1.0"), Err(MaskError::MalformedVersion));
    assert_eq!(covers("1.0", "1. 0"), Err(MaskError::MalformedVersion));
    assert_eq!(covers("1.0", " 1.0"), Err(MaskError::MalformedVersion));
    assert_eq!(covers("1.0", "1.+"), Err(MaskError::MalformedVersion));
    assert_eq!(covers("1.0", "+.0"), Err(MaskError::MalformedVersion));
    assert_eq!(covers("1.0", "١.٠"), Err(MaskError::MalformedVersion));
}

#[test]
fn leading_plus_and_zeros_are_read() {
    assert_eq!(covers("+1.2", "1.3"), Ok(true));
    assert_eq!(covers("1.2", "+1.+3"), Ok(true));
    assert_eq!(covers("01.002", "1.2"), Ok(true));
    assert_eq!(covers("0.03", "0.3"), Ok(true));
    assert_eq!(covers("1.0", "++1.0"), Err(MaskError::MalformedVersion));
}

#[test]
fn component_has_to_fit_in_32_bits() {
    assert_eq!(covers("4294967295.0", "4294967295.7"), Ok(true));
    assert_eq!(covers("0.4294967295", "0.4294967295"), Ok(true));
    assert_eq!(covers("4294967296.0", "4294967296.0"), Err(MaskError::MalformedVersion));
    assert_eq!(covers("1.4294967296", "1.0"), Err(MaskError::MalformedVersion));
    assert_eq!(
        covers("1.0", "99999999999999999999999999999999.0"),
        Err(MaskError::MalformedVersion)
    );
    assert_eq!(covers("0.00000000000000000000000001", "0.1"), Ok(true));
}

#[test]
fn placeholder_covers_itself() {
    assert_eq!(covers("0.0.1", "0.0.1"), Ok(true));
}
