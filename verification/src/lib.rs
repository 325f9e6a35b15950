//! Straddle Carrier: `rust_crate` definitions for BUILD files.
//!
//! Definitions are generated from what `cargo metadata` resolved, read from BUILD files and written
//! back, merged, checked against requirements, and wired to their dependencies.

pub mod build_file;
pub mod crate_def;
pub mod generate;
pub mod generate_effects;
pub mod generate_laws;
pub mod merge;
pub mod merge_effects;
pub mod merge_laws;
pub mod metadata;
pub mod pattern;
pub mod read_laws;
pub mod reread;
pub mod roundtrip;
pub mod semver;
pub mod sort;
pub mod source;
pub mod text;
pub mod text_laws;
pub mod verify;
pub mod verify_laws;
pub mod wire;
pub mod wire_laws;
