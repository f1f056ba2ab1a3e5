use vstd::prelude::*;

pub mod engine;
pub mod feedback;
pub mod filter;
pub mod history;
pub mod oracle;
pub mod select;
pub mod state;
pub mod words;

verus! {

/// Maximum allowed guesses.
pub const DEFAULT_MAX_GUESSES: usize = 6;

/// First word if one is not provided by the user.
pub const DEFAULT_FIRST_WORD: &'static str = "reads";

} // verus!

