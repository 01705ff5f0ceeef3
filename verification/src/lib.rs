pub mod context;
pub mod interner;
pub mod invariants;
pub mod ngram;
pub mod pagination;
pub mod parse_query;
pub mod phrase;
pub mod stats;
pub mod term;
pub mod text;
pub mod token;
pub mod typos;
pub mod vector;

use vstd::prelude::*;

verus! {

/// Upper bound, in bytes, on the length of a word that may carry typos or
/// take part in an n-gram.
pub const MAX_WORD_LENGTH: usize = 250;

/// Upper bound on the number of tokens read from one query.
pub const MAX_TOKEN_COUNT: usize = 1000;

/// What can go wrong while a query is turned into terms.
#[derive(Clone, Copy, Debug, PartialEq, Eq, Structural)]
pub enum QueryError {
    /// An interner has handed out every handle it has.
    InternerOverflow,
}

} // verus!
