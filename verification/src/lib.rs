//! Finds the marker comments of a source tree (`TODO`, `FIXME`, `HACK`,
//! `XXX`), keeps a snapshot of them for each scan, and tells how their
//! number moves from snapshot to snapshot.
//!
//! The library decides and computes; it reads no file and starts no process.
//! A caller walks the tree and hands each entry to [`scanner`], runs git and
//! hands its output to [`git`], and prints what [`commands`] make of the
//! snapshots that [`storage`] keeps in an SQLite database.

pub mod commands;
pub mod error;
pub mod git;
pub mod order;
pub mod parser;
pub mod scanner;
pub mod storage;
pub mod text;
