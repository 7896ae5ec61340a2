pub mod builder;
pub mod engine;
pub mod laws;
pub mod order;
pub mod rewrite;
pub mod table;

use vstd::prelude::*;
use crate::builder::{
    base_map, build_composition_database, depunctuated, ignore_punctuation, END_CODE_POINT,
};
use crate::engine::shorten_str_with_db;
use crate::rewrite::{is_rewriting, shortest_len};
use crate::table::{entries_map, strictly_sorted, Composition, CompositionTable};

verus! {

/// Which table a text is shortened with.
#[derive(Clone, Copy, Debug, PartialEq, Eq, Structural)]
pub enum ShortenMode {
    /// Lowercased decompositions: a substitution applies whatever the case of the input.
    Normal,
    /// As `Normal`, with variants of the decompositions that leave out `.`, `,` and `/`.
    WithPunctuation,
    /// Decompositions as they are: the case of the input must match.
    SameCase,
}

/// Whether the table of `mode` lowercases input before looking it up.
pub open spec fn mode_folds(mode: ShortenMode) -> bool {
    mode != ShortenMode::SameCase
}

/// `m` is the mapping of the table for `mode`.
pub open spec fn is_mode_map(mode: ShortenMode, m: Map<Seq<char>, char>) -> bool {
    match mode {
        ShortenMode::Normal => m == base_map(true, END_CODE_POINT),
        ShortenMode::SameCase => m == base_map(false, END_CODE_POINT),
        ShortenMode::WithPunctuation => exists|e: Seq<Composition>|
            strictly_sorted(e) && entries_map(e) == base_map(true, END_CODE_POINT) && m
                == #[trigger] depunctuated(e),
    }
}

impl CompositionTable {
    /// Builds the table for `mode`.
    pub fn for_mode(mode: ShortenMode) -> (t: CompositionTable)
        ensures
            t.wf(),
            t.fold_case == mode_folds(mode),
            is_mode_map(mode, t@),
    {
        match mode {
            ShortenMode::Normal => build_composition_database(true),
            ShortenMode::SameCase => build_composition_database(false),
            ShortenMode::WithPunctuation => {
                let mut t = build_composition_database(true);
                ignore_punctuation(&mut t);
                t
            },
        }
    }
}

/// The text `s` shortened with the table of `mode`: a shortest rewriting of it.
/// The table is built on each call; to shorten many texts, build it once with
/// `CompositionTable::for_mode` and use `shorten_str_with_db`.
pub fn shorten_str(s: &str, mode: ShortenMode) -> (r: String)
    ensures
        exists|m: Map<Seq<char>, char>|
            is_mode_map(mode, m) && #[trigger] is_rewriting(m, mode_folds(mode), s@, r@)
                && r@.len() == shortest_len(m, mode_folds(mode), s@),
        r@.len() <= s@.len(),
{
    let table = CompositionTable::for_mode(mode);
    let r = shorten_str_with_db(s, &table);
    proof {
        assert(is_mode_map(mode, table@));
        assert(is_rewriting(table@, mode_folds(mode), s@, r@));
    }
    r
}

} // verus!
