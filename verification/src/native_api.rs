//! Entry points shared by native hosts.

use vstd::prelude::*;
use crate::process::{executable, ExecutableChoice};

verus! {

/// Path selected for the offline backend, also exposed for benchmark
/// provenance: the host reports whether an override is set and which
/// search-order candidates name existing files, and gets back which one to use.
pub fn cvc5_executable(has_override: bool, candidate_exists: &Vec<bool>) -> (choice: ExecutableChoice)
    ensures
        has_override <==> choice == ExecutableChoice::Override,
        choice matches ExecutableChoice::Candidate(i) ==> {
            &&& i < candidate_exists.len()
            &&& candidate_exists@[i as int]
            &&& forall|j: int| 0 <= j < i ==> !candidate_exists@[j]
        },
        choice == ExecutableChoice::Fallback ==> !has_override && !candidate_exists@.contains(true),
{
    executable(has_override, candidate_exists)
}

} // verus!
