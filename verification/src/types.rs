//! Common error types.

use vstd::prelude::*;

verus! {

/// The error type for workspace, task and plugin operations.
/// Every variant carries a human-readable message.
#[derive(Debug, Clone)]
pub enum MartyError {
    Io(String),
    Yaml(String),
    Config(String),
    Workspace(String),
    Task(String),
    Project(String),
    Path(String),
}

impl MartyError {
    /// The message carried by the error, whatever its kind.
    pub open spec fn message_view(&self) -> Seq<char> {
        match self {
            MartyError::Io(m) => m@,
            MartyError::Yaml(m) => m@,
            MartyError::Config(m) => m@,
            MartyError::Workspace(m) => m@,
            MartyError::Task(m) => m@,
            MartyError::Project(m) => m@,
            MartyError::Path(m) => m@,
        }
    }

    /// Borrow the message carried by the error.
    pub fn message(&self) -> (r: &String)
        ensures
            r@ == self.message_view(),
    {
        match self {
            MartyError::Io(m) => m,
            MartyError::Yaml(m) => m,
            MartyError::Config(m) => m,
            MartyError::Workspace(m) => m,
            MartyError::Task(m) => m,
            MartyError::Project(m) => m,
            MartyError::Path(m) => m,
        }
    }
}

/// Result type alias used throughout the library.
pub type MartyResult<T> = Result<T, MartyError>;

} // verus!
