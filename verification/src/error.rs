//! The failures that the engine reports to its callers.

use vstd::prelude::*;
use vstd::string::*;

verus! {

/// Why an ingestion or a restoration was refused.
#[derive(Debug, Clone, Copy, PartialEq, Eq, Structural)]
pub enum ServiceError {
    /// Crediting an account would carry its balance past `u64::MAX`.
    BalanceOverflow,
    /// Stored branches or tips do not make up a registry.
    InvalidRegistry,
}

impl ServiceError {
    /// The text shown for this error.
    pub open spec fn text(self) -> Seq<char> {
        match self {
            ServiceError::BalanceOverflow => "balance overflow"@,
            ServiceError::InvalidRegistry => "invalid registry"@,
        }
    }

    /// Renders the error for display.
    pub fn message(&self) -> (text: String)
        ensures
            text@ == self.text(),
    {
        match self {
            ServiceError::BalanceOverflow => String::from_str("balance overflow"),
            ServiceError::InvalidRegistry => String::from_str("invalid registry"),
        }
    }
}

} // verus!
