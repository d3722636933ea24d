//! Pangenome count statistics over variation graphs in GFA1 form.
//!
//! The crate indexes a graph's segments, links and path headers (`graph`,
//! `io`), scans path and walk bodies under subset coordinate filters into a
//! sharded count table (`io`, `abacus`), folds the table into per-item
//! distinct-group counts and coverage histograms (`abacus`, `hist`), and
//! states the combinatorics of pan-genome growth curves (`growth`). The
//! byte-level scanning and decimal codecs live in `bytes` and `dec`; counting
//! vocabulary, thresholds and errors in `util`.

pub mod abacus;
pub mod bytes;
pub mod dec;
pub mod graph;
pub mod growth;
pub mod hist;
pub mod io;
pub mod util;

