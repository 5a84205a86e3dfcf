# pipestream

The version-2 work protocol as a verified library.

- `src/` holds the protocol's rules: the wire format, negotiation, correlation, commitments, the
  authority's tables, the client's journal, exports and the driver's hooks. All of it is verified but
  what calls `minicbor`, `sha2` and the standard library: those contracts are believed, and stand with
  what each of them claims in `src/cbor.rs`, `src/hashing.rs`, `src/text.rs` and `src/v2/fixture.rs`.
- `src/v2/authority/` is the authority. Time, authorization and the payload store's answers are
  arguments; the tables are ordinary values. `accounts` proves what every transition keeps of them,
  `promises` what holds across transitions, and `survey` tells whether tables that were read back
  from storage are such as the transitions keep.
- `src/v2/client/` is the client's durable evidence. `journal` is its state, `restore` what of it is
  on disk, `audit` what is held against it when it is opened; `upkeep` proves that whatever is recorded
  keeps it passing that audit, `durability` that it can be written down, and `promises` that what was
  kept is found again.
- `src/work_set.rs` is the sealed work set of version 1.
- `app/` does the I/O: SQLite for the journal, a directory for exports, a file for events.
- `tests/` runs the library on concrete values.
