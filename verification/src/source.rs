//! The files that a command reads and writes.

use crate::text::{chars_of, occurs_at, stands_at};
use vstd::prelude::*;

verus! {

/// Whether the path ends in `Cargo.toml`.
pub open spec fn ends_in_cargo_toml(path: Seq<char>) -> bool {
    occurs_at(path, "Cargo.toml"@, path.len() - "Cargo.toml"@.len())
}

/// Whether a source is a Cargo.toml, by its path; any other is a BUILD file.
pub fn is_cargo_manifest(path: &str) -> (result: bool)
    ensures
        result == ends_in_cargo_toml(path@),
{
    let chars = chars_of(path);
    let suffix = chars_of("Cargo.toml");
    suffix.len() <= chars.len() && stands_at(&chars, &suffix, chars.len() - suffix.len())
}

/// Where to keep a copy of the file that is about to be written: next to it, if it is written in
/// place and a backup is wanted.
pub fn backup_path(path: &str, in_place: bool, no_backup: bool) -> (backup: Option<String>)
    ensures
        backup.deep_view() == if in_place && !no_backup {
            Some(path@ + ".backup"@)
        } else {
            None
        },
{
    if in_place && !no_backup {
        let mut backup = path.to_string();
        backup.append(".backup");
        Some(backup)
    } else {
        None
    }
}

} // verus!
