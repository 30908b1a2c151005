//! Dependency scanning for source files, without I/O.
//!
//! Given one entry file and its language, the library finds the files that
//! the entry file imports, the files that those import, and so on, and the
//! names under which any of them refers to something outside the tree.
//!
//! The library never touches the file system. A traversal is a chain of
//! [`engine::Step`]s: each step but the last asks for the text of a file,
//! for the existence of a path or for the canonical form of a path, and the
//! answer leads to the next step. The caller owns the loop and the file
//! system; the library owns every decision.
//!
//! * [`language`] holds the data model, the parser trait and the registry.
//! * [`parsers`] holds one parser per language: how imports are written,
//!   which of them are local, and where their files are looked for.
//! * [`traversal`] says what each step of a traversal is, and [`engine`]
//!   computes it.
//! * [`world`] and [`reach`] say what a traversal amounts to when all its
//!   answers come from one file system: it ends, it reads no file twice, and
//!   its result is the set of dependencies that can be reached from the
//!   entry file, each reported once.
//! * [`paths`] and [`pattern`] are the doors to `std::path` and to the
//!   `regex` crate; [`text`] holds small operations on strings.

pub mod cli;
pub mod engine;
pub mod language;
pub mod parsers;
pub mod paths;
pub mod pattern;
pub mod reach;
pub mod text;
pub mod traversal;
pub mod world;
