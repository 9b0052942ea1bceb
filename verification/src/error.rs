//! What can go wrong.

use vstd::prelude::*;
use vstd::string::StringExecFns;

verus! {

/// Why an operation gave no result.
#[derive(Debug, PartialEq, Eq, Clone, Copy, Structural)]
pub enum TrailError {
    /// A name matches nothing in the repository.
    NotFound,
    /// A name matches more than one thing.
    Ambiguous,
    /// The listed history names a parent that no label exists for.
    InconsistentHistory,
}

impl TrailError {
    /// The sentence that tells a user of the error.
    pub open spec fn message_of(self) -> Seq<char> {
        match self {
            TrailError::NotFound => "no such revision or branch"@,
            TrailError::Ambiguous => "the name matches more than one revision or branch"@,
            TrailError::InconsistentHistory => "the history names a parent that was never labeled"@,
        }
    }

    /// The sentence that tells a user of the error.
    pub fn to_string(&self) -> (text: String)
        ensures
            text@ == self.message_of(),
    {
        match self {
            TrailError::NotFound => String::from_str("no such revision or branch"),
            TrailError::Ambiguous => String::from_str(
                "the name matches more than one revision or branch",
            ),
            TrailError::InconsistentHistory => String::from_str(
                "the history names a parent that was never labeled",
            ),
        }
    }
}

} // verus!
