//! Errors reported by configuration sources.

use vstd::prelude::*;

verus! {

/// Why a configuration operation failed.
pub enum ConfigError {
    /// A write or a delete reached a source that cannot be modified.
    NotWriteable,
    /// Turning flat keys back into a document found a leaf where a table was
    /// needed, or a table where a leaf was to go. Holds the flat key whose
    /// placement failed.
    Conflict(String),
}

impl ConfigError {
    /// A human-readable description of the error.
    pub fn message(&self) -> (r: String)
        ensures
            self is NotWriteable ==> r@ == "Configuration store is not writeable"@,
            self matches ConfigError::Conflict(key) ==> r@ == "Conflicting configuration key: "@ + key@,
    {
        match self {
            ConfigError::NotWriteable => String::from_str("Configuration store is not writeable"),
            ConfigError::Conflict(key) => {
                let head = String::from_str("Conflicting configuration key: ");
                head.concat(key.as_str())
            },
        }
    }
}

} // verus!
