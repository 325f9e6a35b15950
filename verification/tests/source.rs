use straddle_carrier::source::{backup_path, is_cargo_manifest};

#[test]
fn manifests_by_their_path() {
    assert!(is_cargo_manifest("Cargo.toml"));
    assert!(is_cargo_manifest("some/dir/Cargo.toml"));
    assert!(is_cargo_manifest("MyCargo.toml"));
    assert!(!is_cargo_manifest("Cargo.toml.bak"));
    assert!(!is_cargo_manifest("BUILD"));
    assert!(!is_cargo_manifest(""));
    assert!(!is_cargo_manifest("cargo.toml"));
}

#[test]
fn backups_of_files_written_in_place() {
    assert_eq!(
        backup_path("third_party/rust/BUILD", true, false),
        Some("third_party/rust/BUILD.backup".to_string())
    );
    assert_eq!(backup_path("BUILD", true, true), None);
    assert_eq!(backup_path("BUILD", false, false), None);
    assert_eq!(backup_path("BUILD", false, true), None);
}
