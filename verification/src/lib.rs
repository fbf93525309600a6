//! Detection-and-substitution engine for sensitive spans in free text.
//!
//! Detectors (a keyword trie, ordered regular-expression patterns, and a
//! label-span replacer) find sensitive spans and substitute each distinct
//! value with a stable placeholder, recording the pair in a ledger so that
//! the substitution can be reversed exactly.

use vstd::prelude::*;

pub mod chars;
pub mod config;
pub mod deanon;
pub mod error;
pub mod flashtext_anonymizer;
pub mod ledger;
pub mod models;
pub mod ner_anonymizer;
pub mod pipeline;
pub mod regex_anonymizer;
pub mod trie;

verus! {

/// A placeholder-to-value ledger entry list together with the rewritten text.
///
/// `items` maps each minted placeholder to the original source value it
/// replaced; a value is recorded at most once per call.
#[derive(Debug)]
pub struct ReplaceResult {
    pub text: String,
    pub items: Vec<(String, String)>,
}

/// The ledger as a sequence of (placeholder, value) pairs of character
/// sequences.
pub open spec fn ledger_view(items: Seq<(String, String)>) -> Seq<(Seq<char>, Seq<char>)> {
    items.map_values(|p: (String, String)| (p.0@, p.1@))
}

/// A sequence of strings as a sequence of character sequences.
pub open spec fn str_views(ss: Seq<String>) -> Seq<Seq<char>> {
    ss.map_values(|s: String| s@)
}

} // verus!

