use straddle_carrier::semver::{bumps, parse_semver, precedes};

#[test]
fn reads_three_numbers() {
    assert_eq!(parse_semver("1.2.3"), Some((1, 2, 3)));
    assert_eq!(parse_semver("0.0.0"), Some((0, 0, 0)));
    assert_eq!(parse_semver("01.002.0003"), Some((1, 2, 3)));
}

#[test]
fn two_numbers_have_patch_zero() {
    assert_eq!(parse_semver("1.2"), Some((1, 2, 0)));
}

#[test]
fn ignores_numbers_after_the_third() {
    assert_eq!(parse_semver("1.2.3.4"), Some((1, 2, 3)));
    assert_eq!(parse_semver("1.2.3.x"), Some((1, 2, 3)));
}

#[test]
fn rejects_what_is_no_version() {
    assert_eq!(parse_semver(""), None);
    assert_eq!(parse_semver("1"), None);
    assert_eq!(parse_semver("1."), None);
    assert_eq!(parse_semver("1.x"), None);
    assert_eq!(parse_semver("1.2.3-alpha"), None);
    assert_eq!(parse_semver("1..3"), None);
    assert_eq!(parse_semver("-1.2.3"), None);
    assert_eq!(parse_semver("1.2. 3"), None);
}

#[test]
fn numbers_must_fit() {
    assert_eq!(
        parse_semver("18446744073709551615.0.1"),
        Some((18446744073709551615, 0, 1))
    );
    assert_eq!(parse_semver("18446744073709551616.0.1"), None);
    assert_eq!(parse_semver("99999999999999999999999.0.1"), None);
}

#[test]
fn metadata_after_plus_does_not_count() {
    assert_eq!(parse_semver("1.0.1+wasi-0.2.4"), Some((1, 0, 1)));
    assert_eq!(parse_semver("1.0.1+a+b"), parse_semver("1.0.1"));
    assert_eq!(parse_semver("1+2.3"), None);
}

#[test]
fn order_of_versions() {
    assert!(precedes((1, 9, 9), (2, 0, 0)));
    assert!(precedes((1, 2, 9), (1, 3, 0)));
    assert!(precedes((1, 2, 3), (1, 2, 4)));
    assert!(!precedes((1, 2, 3), (1, 2, 3)));
    assert!(!precedes((2, 0, 0), (1, 9, 9)));
}

#[test]
fn bumps_within_a_major_version() {
    assert!(bumps("1.2.3", "1.2.4"));
    assert!(bumps("1.2", "1.2.1"));
    assert!(!bumps("1.2.4", "1.2.3"));
    assert!(!bumps("1.2.3", "1.2.3"));
    assert!(!bumps("1.2.3", "2.0.0"));
    assert!(!bumps("1.2.3", "latest"));
    assert!(!bumps("latest", "1.2.3"));
}
