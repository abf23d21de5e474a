//! What can be wrong with the input.

use vstd::prelude::*;

verus! {

/// A field that is not of the form `key=value`.
#[derive(Debug, Clone)]
pub struct SplitError {
    pub field: String,
    pub reason: String,
}

impl SplitError {
    /// The error as one line of text.
    pub fn message(&self) -> (text: String)
        ensures
            text@ == self.field@ + ": "@ + self.reason@,
    {
        let mut text = self.field.clone();
        vstd::string::StringExecFns::append(&mut text, ": ");
        vstd::string::StringExecFns::append(&mut text, self.reason.as_str());
        text
    }
}

} // verus!
