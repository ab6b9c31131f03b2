# patchix

Merges declarative patches into mutable configuration files (JSON, TOML,
YAML, INI, Windows/Wine `.reg`): an RFC 7396 deep merge with `null` as
delete, a no-clobber mode that only fills in missing keys, and per-path
array strategies (`replace`, `append`, `prepend`, `union`).

## Layout

- `src/` — the library, verified with Verus.
  - `value.rs` — the document model (`Value`, `Object` with keys kept in
    order) and its mathematical view (`JValue`).
  - `merge.rs` — `merge` and `MergeConfig`, specified by `merge_value`.
  - `merge_laws.rs` — what every merge keeps: the key-by-key rule, sorted
    keys, no-clobber keeping existing values, no `null` entry left behind,
    repeating a merge.
  - `patch.rs` — the `path=strategy` option, the preparation of a patch and
    the merge of a patch into a document.
  - `text.rs`, `num.rs` — characters, lines, numbers and UTF-16, each with
    its specification.
  - `formats/` — format detection, the `.reg` reader and writer, the INI
    mapping (through `rust-ini`), and the rules around the YAML and TOML
    codecs; `reg_laws.rs` and `reg_reread.rs` prove that what is written
    reads back, header line included.
- `app/` — the `patchix` command: arguments, files, the serde-based codecs.
- `tests/` — tests of the library.
