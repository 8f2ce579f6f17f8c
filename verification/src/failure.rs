//! Why a leaf or a ledger step did not establish a result.

use vstd::prelude::*;

verus! {

/// An interrupted or invalid leaf never establishes UNSAT.
#[derive(Clone, Debug, PartialEq, Eq)]
pub enum Failure {
    /// The search was interrupted.
    Cancelled,
    /// A worker, protocol or ledger fault, with its message.
    Worker(String),
}

impl Failure {
    /// The human-readable message of the failure.
    pub fn message(&self) -> (message: String)
        ensures
            self matches Failure::Worker(detail) ==> message@ == detail@,
            self is Cancelled ==> message@ == "search interrupted"@,
    {
        match self {
            Failure::Cancelled => "search interrupted".to_owned(),
            Failure::Worker(message) => message.clone(),
        }
    }
}

} // verus!
