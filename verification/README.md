# argenv

A declared, typed, machine-readable contract for a program's invocation
surface — its argument vector and its environment — written in Verus, with
every rule stated as a contract and proved.

## Layout

- `src/` — the verified library.
  - `text.rs` — character-level helpers: trimming, decimal spelling, integer
    and float syntax.
  - `version.rs`, `date.rs`, `vocabulary.rs` — the structured scalars
    (versions, review dates with the proleptic-Gregorian day arithmetic, kinds,
    stabilities, deprecations).
  - `from_raw.rs` — how each value type reads itself from a raw string.
  - `record.rs` — the portable record, the checks that work from its metadata
    alone, and the document envelope.
  - `source.rs` — environment sources.
  - `invocation.rs` — argument parsing and resolution under the stated
    precedence (`arg` > `env` > `default`), with provenance.
  - `lint.rs` — checking an invocation against a contract.
  - `unique.rs` — no two inputs claim the same key, variable or flag.
  - `document.rs` — the checks a published contract document must pass.
  - `report.rs` — what the command-line tool prints for each command.
  - `contract.rs` — what the JSON Schema adds to the schema derived from the
    record type.
  - `proton.rs` — the environment-only model with its own authoring types.
- `tests/` — scenarios and concrete instances of the laws.
- `app/` — the command-line tool: file and process I/O, the serde and
  schemars forms of the records, and the floating-point domain.
