//! A verified reader for documents of `dotted.key = value` lines.
//!
//! `document` splits an input into its content lines (blank lines and `#`
//! comments are skipped) and each line into its `.`-separated key path and its
//! value; `parser` walks those lines scope by scope, where a scope holds the
//! lines whose keys share a prefix; `seq` reads sequences, whose lines are keyed
//! by indices in any order and may end with a `length` marker, and `seq_laws`
//! states what a whole sequence reads as; `shift` states that blank and comment
//! lines change nothing of a reading but positions; `atom` reads a single value
//! as a primitive.

pub mod text;
pub mod document;
pub mod error;
pub mod parser;
pub mod atom;
pub mod seq;
pub mod seq_laws;
pub mod shift;
