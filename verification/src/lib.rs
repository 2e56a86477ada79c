//! Holds large tool output as exact bytes in a content-addressed store, shows a
//! short rendering of it, and answers questions over all of it exactly.
//!
//! Two properties are what this library is for. What is compressed comes back
//! byte for byte: every region that a rendering leaves out is stored as it is,
//! under the hash of its bytes, and is checked against that hash when it is read
//! back. And an aggregate is computed over every record, with the records behind
//! it, or it is refused; it is never guessed.
//!
//! The modules, from the bottom up:
//!
//! - `text`, `numeral`, `utf8`, `order`: texts, numbers in texts, sorting;
//! - `hash`, `cas`, `sqlite`, `status`: content hashes, the store, and the
//!   bookkeeping of a store with a database behind it;
//! - `doc`, `tiling`: compressed documents, and why they come back;
//! - `detect`, `units`, `emit`, `window`, `charmodel`, `curve`, `tokens`,
//!   `reduction`, `budget`, `select`, `compress`, `compressor`, `view`, `redact`,
//!   `attest`: what to keep of an input, within which budget;
//! - `json`, `path`: JSON values, and paths into them;
//! - `op`, `query`, `subset`, `groups`, `join`, `histogram`, `cells`, `dataset`,
//!   `receipt`: typed queries over records;
//! - `intent`, `column`, `describe`, `superlative`, `extreme`, `digest`:
//!   questions in words over records;
//! - `limits`, `policy`, `args`, `render`, `ingest`, `tools`: requests of a
//!   server that holds such data;
//! - `eval`: a reproducible dump to measure with.
//!
//! Sums, means and differences of doubles are floating-point arithmetic, which
//! this library does not do. A function whose answer needs one returns a plan:
//! everything but the number, and the doubles to compute it from, by their bits.
//! The plan's `finish` puts the number in.
pub mod args;
pub mod attest;
pub mod budget;
pub mod cas;
pub mod cells;
pub mod charmodel;
pub mod column;
pub mod compress;
pub mod compressor;
pub mod curve;
pub mod dataset;
pub mod describe;
pub mod detect;
pub mod digest;
pub mod doc;
pub mod emit;
pub mod eval;
pub mod extreme;
pub mod groups;
pub mod hash;
pub mod histogram;
pub mod ingest;
pub mod intent;
pub mod join;
pub mod json;
pub mod limits;
pub mod numeral;
pub mod op;
pub mod order;
pub mod path;
pub mod policy;
pub mod query;
pub mod receipt;
pub mod redact;
pub mod reduction;
pub mod render;
pub mod select;
pub mod sqlite;
pub mod status;
pub mod subset;
pub mod superlative;
pub mod text;
pub mod tiling;
pub mod tokens;
pub mod tools;
pub mod units;
pub mod utf8;
pub mod view;
pub mod window;
