//! Merging the plain data types that several generated modules declare alike.
//!
//! Modules that are generated from schemas often declare the same record
//! under different names. This library finds the declarations that have the
//! same fields, makes one shared declaration for each group of them, points
//! every reference to a merged declaration at the shared one, and removes the
//! merged declarations from their modules.
//!
//! The steps, each in a module of its own:
//! - `eligibility` tells which declarations are simple leaves, the only ones
//!   that are merged;
//! - `grouping` sorts the simple leaves into buckets of declarations with the
//!   same fields;
//! - `words` and `naming` make the name of a shared declaration from the
//!   words that the names of a bucket's members have in common;
//! - `canonical` makes the shared declaration itself;
//! - `rewrite` redirects the references and removes the merged declarations;
//! - `engine` runs these steps over a set of modules;
//! - `persist` reads and writes the names that are kept between runs;
//! - `emit` puts together the text of the files to write;
//! - `laws` states what holds of the whole.
//!
//! `syntax` holds the part of a module's syntax that all of this reads, and
//! `name_map`, `text` and `order` hold maps of names and the order of names.
//! Parsing and printing modules is left to the caller.

pub mod canonical;
pub mod eligibility;
pub mod emit;
pub mod engine;
pub mod grouping;
pub mod laws;
pub mod name_map;
pub mod naming;
pub mod order;
pub mod persist;
pub mod rewrite;
pub mod syntax;
pub mod text;
pub mod words;
