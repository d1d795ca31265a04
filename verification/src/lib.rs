//! Fuzzy unified diffs: line-level edits that are located in the target text
//! by their surrounding context lines rather than by line numbers.
//!
//! The crate computes such a diff between two texts, writes it out and reads
//! it back in its textual form, and applies or reverts it on a text. The
//! contract of every function speaks of sequences of characters and of
//! lines, and Verus proves that the function keeps it.

pub mod model;
pub mod text;
pub mod lines;
pub mod differ;
pub mod message;
pub mod patcher;
pub mod renderer;
pub mod parser;
pub mod laws;
pub mod roundtrip;
pub mod provisos;

pub use model::{Error, FuDiff, Hunk};
use vstd::prelude::*;

verus! {

/// Computes the diff that turns the text `old` into the text `new`.
pub fn diff(old: &str, new: &str) -> (diff: FuDiff)
    ensures
        diff@ == differ::diff_spec(old@, new@),
{
    FuDiff::diff(old, new)
}

/// Reads a diff from its textual form.
pub fn parse(input: &str) -> (parsed: Result<FuDiff, Error>)
    ensures
        model::diff_result(parsed) == parser::parse_spec(input@),
{
    FuDiff::parse(input)
}

} // verus!
