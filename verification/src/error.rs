//! Errors of the library. What the outside world reports is carried as text.

use vstd::prelude::*;

verus! {

/// Why retrieval failed.
#[derive(Debug)]
pub enum RetrievalError {
    InvalidData(String),
}

impl RetrievalError {
    /// Whether the error is about invalid data, in these words.
    pub open spec fn says(self, words: Seq<char>) -> bool {
        self->0@ == words
    }

    /// What went wrong.
    pub fn message(&self) -> (r: &str)
        ensures
            self.says(r@),
            self->0@ == r@,
    {
        match self {
            RetrievalError::InvalidData(text) => text.as_str(),
        }
    }
}

/// The error for invalid data.
pub fn invalid<T>(words: &str) -> (r: Result<T, RetrievalError>)
    ensures
        r is Err,
        r->Err_0.says(words@),
        r->Err_0->0@ == words@,
{
    Err(RetrievalError::InvalidData(words.to_owned()))
}

/// An error says the words that it holds, and no others.
pub proof fn law_an_error_says_its_words(error: RetrievalError, words: Seq<char>)
    ensures
        error.says(words) <==> error->0@ == words,
{
}

} // verus!
