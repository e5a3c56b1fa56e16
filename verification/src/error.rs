//! The errors of cache construction.

use vstd::prelude::*;

verus! {

/// Why a cache could not be built from the given configuration.
#[derive(Debug, Clone, Copy, PartialEq, Eq, Structural)]
pub enum ConfigError {
    /// The capacity of the cache is not positive.
    InvalidCapacity,
    /// The capacity of the access-counter list is not positive.
    InvalidCounterCapacity,
    /// The promotion threshold is not positive.
    InvalidThreshold,
}

impl ConfigError {
    /// A sentence that says what was wrong.
    pub fn message(&self) -> (text: &'static str)
        ensures
            text@ == (match *self {
                ConfigError::InvalidCapacity => "capacity must be positive"@,
                ConfigError::InvalidCounterCapacity => "counter capacity must be positive"@,
                ConfigError::InvalidThreshold => "threshold must be positive"@,
            }),
    {
        match self {
            ConfigError::InvalidCapacity => "capacity must be positive",
            ConfigError::InvalidCounterCapacity => "counter capacity must be positive",
            ConfigError::InvalidThreshold => "threshold must be positive",
        }
    }
}

} // verus!
