//! The error type for disk-mapping operations.

use vstd::prelude::*;

verus! {

/// An error raised while querying or mapping disk information.
///
/// It carries a descriptive message; a caller that needs the text calls
/// [`DiskError::message`].
#[derive(Debug, Clone)]
pub struct DiskError {
    /// Descriptive error message.
    pub message: String,
}

impl DiskError {
    /// Wraps the given message into a `DiskError`, keeping it unchanged.
    pub fn new(message: String) -> (r: Self)
        ensures
            r.message@ == message@,
    {
        DiskError { message }
    }

    /// Returns the descriptive message of this error.
    pub fn message(&self) -> (r: &str)
        ensures
            r@ == self.message@,
    {
        self.message.as_str()
    }
}

} // verus!
