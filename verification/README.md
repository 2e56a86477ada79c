# coffer

coffer holds large tool output as exact bytes in a content-addressed store, shows
a short rendering of it in its place, and answers questions over all of it
exactly. The library is written in Verus: its functions carry contracts, and the
contracts are proved.

Two properties are what it is for:

- **What is compressed comes back byte for byte.** A rendering keeps some units of
  an input (array elements, log lines) and puts a sentinel in the place of the
  others; the regions behind the sentinels are stored under the hash of their
  bytes and checked against it when they are read back. The laws
  `law_round_trip`, `law_compress_is_reversible`, `law_budget_is_reversible`,
  `law_selected_is_reversible` and `law_view_is_reversible` say so for every way
  to compress.
- **An aggregate is exact or refused.** It is computed over every record, it comes
  with the records behind it, and it has no answer where a value is not a finite
  double (`law_provenance_is_exact`, `law_mixed_field_is_refused`,
  `law_provenance_pulls_the_subset`).

## Layout

- `src/` is the verified library; `src/lib.rs` lists its modules.
- `tests/` runs it: `compression.rs`, `records.rs`, `queries.rs`, `store.rs` and
  `server.rs`.
- `app/` is the program around it: the MCP server with its tools, the SQLite
  database with its writer thread, the environment, and the arithmetic on doubles.

## Plans

Sums, means and differences of doubles are floating-point arithmetic, which the
library leaves to its callers. A function whose answer needs one returns a plan:
everything but the number, and the doubles to compute it from, by their bits. The
plan's `finish` puts the number in. `app/floats.rs` holds that arithmetic.

## What is trusted

The library calls `serde_json` (reading and writing JSON), `sha2` (SHA-256) and a
few functions of the standard library through small wrappers whose contracts are
believed without proof. Each says in its doc comment which function it calls and
what it claims of it. The wrappers stand in `src/json.rs`, `src/hash.rs`,
`src/utf8.rs`, `src/detect.rs`, `src/ingest.rs`, `src/dataset.rs` and
`src/text.rs`.
