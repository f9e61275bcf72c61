//! What can go wrong.

use vstd::prelude::*;

verus! {

/// A failure of the store.
#[derive(Debug, Clone, PartialEq, Eq)]
pub enum DbError {
    /// Appending to the journal, or forcing it to disk, failed. The text says
    /// how, in the words of whoever did the writing.
    Io(String),
    /// The journal holds a complete line that is no record. `record` counts
    /// the complete lines before it.
    Corruption { record: usize },
}

impl DbError {
    /// A copy of this error.
    pub fn duplicate(&self) -> (r: DbError)
        ensures
            r == *self,
    {
        match self {
            DbError::Io(text) => DbError::Io(text.clone()),
            DbError::Corruption { record } => DbError::Corruption { record: *record },
        }
    }
}

} // verus!
