# Straddle Carrier

Generates and merges `rust_crate` definitions in Please BUILD files from Cargo.toml files.

`src/` is a library that is verified with Verus:

- `text`, `semver`, `pattern`, `sort`: text, versions, the patterns of BUILD files, the order of
  definitions;
- `crate_def`, `build_file`: definitions, their blocks, and BUILD files as they are read and
  written;
- `metadata`, `generate`: what `cargo metadata` resolved, and the BUILD files made of it;
- `merge`, `verify`, `wire`, `source`: the commands, from text to text;
- `roundtrip`, `reread`, `merge_laws`, `generate_laws`: proofs that written definitions read back,
  of what every merge keeps, and of what generated files meet.

Regular expressions come from `regex-lite`; what is taken on trust of it stands in `pattern`.

`app/` is the command line around the library: arguments, files, and `cargo metadata`.

## Merge modes

- `update-or-expand-only`: bumps versions within semver, adds features, never downgrades or removes.
- `override`: replaces old dependencies with new ones completely.
- `parallel`: keeps both versions of conflicting crates, with a version suffix on the new one.

A definition after a `# straddle_carrier:do_not_touch` comment is pinned: a merge does not change it.
That holds for one merge. A merge writes the definitions sorted and without the comments between
them, so that a pin that stood after the first definition is gone from the written file. One in the
header stays there, and pins the definition that is written first. Wiring, too, writes the
definitions without what stands between them.

A block without a name is no definition. It stays in the file: where it is if it stands before the
first or after the last definition, and after the definitions if it stands between two.
