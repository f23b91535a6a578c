# Strata

Declarative settings inheritance for VS Code profiles, verified with Verus.

A source file, `profiles.jsonc`, has a `base` of settings and, for every profile, what the
profile changes of it: settings of its own, and a list `uninherit` of what it does not take
from the base. Strata gives every profile its settings, writes them to VS Code, takes over
what is changed there, and tells a conflict where both sides changed a setting.

## Layout

- `src/` is the library. Verus proves the contracts of its functions, but for those of the
  wrappers in `src/outside.rs`: what they say of other crates and of `std` is believed.
  - `text`, `decimal`, `table`, `json`, `place`: texts, numerals, ordered tables, JSON values.
  - `source`, `inherit`, `mutation`, `reconcile`, `migrate`: sources and what becomes of them.
  - `outside`: what is had from `serde_json`, `jsonc_parser`, `blake3` and `std`, and what is
    believed of it.
  - `codec`, `hash`, `tokens`, `parse`, `node`, `patch`, `draft`: reading, hashing and writing
    settings and sources. A source is written into its text edit by edit, so that comments stay,
    or laid out anew.
  - `remarks`, `rewrite`, `readback`, `storable`, `written`, `fresh`: laws of writing and
    reading.
  - `location`, `registry`, `backend`: where VS Code keeps its profiles, and their registry.
  - `frames`, `protocol`, `service`, `edits`, `answers`, `messages`: the service.
- `app/` is the program around it: the command line, files, locks, and the watcher.
- `tests/` runs the library on concrete values.
