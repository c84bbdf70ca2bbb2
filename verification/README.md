# helix

Authority, audit and operator logic for sandboxed tools, written and proved in
Verus.

- **Capabilities.** What a tool may touch: interfaces, files, directories,
  hosts, and a resource budget. Sets are interned, ordered, compared, met and
  attenuated. A derived set never grants more than its parents.
- **Audit.** A hash-chained log of CBOR frames, group-committed and verified
  file by file and from file to file, with content-addressed side files for
  capability sets.
- **Witnesses.** Signed-off chain heads that are queued, delivered to an object
  store, received, listed, and checked against the log.
- **Export.** Records grouped into invocations and turned into spans, while the
  log is being written.
- **Operators.** What `audit`, `run`, `tool` and `policy` print and return, and
  the plan, rows and comparison of the bench harness.

## Layout

| Where | What |
|---|---|
| `src/caps/` | grants, ids, interner, budgets, the lattice, the wire form; `laws.rs` states the order and the meet |
| `src/audit/` | records, headers, frames, chain verification, writer, fail-closed policy, side files (`caps/`), export, witnesses |
| `src/ctl/` | operator commands |
| `src/bench/` | bench harness |
| `src/cbor.rs` | CBOR items, over `minicbor` |
| `src/json.rs`, `order.rs`, `path.rs`, `chars.rs`, `text.rs`, `texts.rs` | models shared by the rest |
| `tests/` | tests against the library |
| `app/` | the program: arguments, files, sockets, threads and the async runtime around the library |

## Reading the contracts

Each type has a view, a ghost value that the contracts speak of. Functions say
what they return on every input, and which error comes when. Properties that
span functions are public proof functions with a sentence each: that decoding
undoes encoding, that what the writer writes verifies, that the head hash binds
the log and a changed record is found, that `meet` is the greatest lower bound, that a witness never replaces
another.

The functions marked `external_body` call another crate, and their comments say
what is believed of it: `minicbor`, `sha2`, `hmac`, `url`, `serde_json`, and a
few string functions of the standard library. SHA-256, HMAC, URL parsing and
what `serde_json` reads are named, not described; what is proved holds whatever
they return. Skipped CBOR items are named too, with a few facts: a skip looks at
nothing behind its item, and a null, an undefined and a number of single or
double precision have their fixed lengths.
