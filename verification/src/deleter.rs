//! The bulk deleter: one soft-delete attempt per requested path, in input
//! order.  A failed attempt is recorded and never stops the remaining
//! attempts, so every path gets exactly one outcome.

use vstd::prelude::*;
use crate::order::clone_bytes;

verus! {

/// The result of one soft-delete attempt.
pub enum DeleteOutcome {
    /// The file was moved to the trash.
    Deleted { path: Vec<u8> },
    /// The attempt failed; the reason is the trash service's message.
    Failed { path: Vec<u8>, reason: String },
}

/// The path an outcome speaks about.
pub open spec fn outcome_path(o: DeleteOutcome) -> Seq<u8> {
    match o {
        DeleteOutcome::Deleted { path } => path@,
        DeleteOutcome::Failed { path, reason: _ } => path@,
    }
}

/// Whether the outcome reports success.
pub open spec fn outcome_ok(o: DeleteOutcome) -> bool {
    o is Deleted
}

/// Relies on `trash::delete`: asks the operating system to move the file at
/// the given path to its trash.  Success depends on the filesystem's state
/// (permissions, an already-removed file, an unsupported mount), so nothing
/// is assumed of the result; a failure is carried as the service's message.
#[verifier::external_body]
fn soft_delete(path: &Vec<u8>) -> Result<(), String> {
    match trash::delete(String::from_utf8_lossy(path).as_ref()) {
        Ok(()) => Ok(()),
        Err(e) => Err(format!("{}", e)),
    }
}

/// Turns one soft-delete result into the outcome recorded for `path`.
pub fn outcome_of(path: Vec<u8>, result: Result<(), String>) -> (o: DeleteOutcome)
    ensures
        outcome_path(o) == path@,
        outcome_ok(o) == (result is Ok),
{
    match result {
        Ok(()) => DeleteOutcome::Deleted { path },
        Err(reason) => DeleteOutcome::Failed { path, reason },
    }
}

/// Attempts to soft-delete every path, in input order: exactly one outcome
/// per input path, however many attempts fail.
pub fn delete_all(paths: &Vec<Vec<u8>>) -> (outcomes: Vec<DeleteOutcome>)
    ensures
        outcomes@.len() == paths@.len(),
        forall|i: int|
            0 <= i < outcomes@.len() ==> outcome_path(#[trigger] outcomes@[i])
                == paths.deep_view()[i],
{
    let mut outcomes: Vec<DeleteOutcome> = Vec::new();
    let mut i: usize = 0;
    while i < paths.len()
        invariant
            0 <= i <= paths@.len(),
            outcomes@.len() == i,
            forall|m: int|
                0 <= m < i ==> outcome_path(#[trigger] outcomes@[m]) == paths.deep_view()[m],
        decreases paths@.len() - i,
    {
        let p = clone_bytes(&paths[i]);
        let r = soft_delete(&paths[i]);
        outcomes.push(outcome_of(p, r));
        proof {
            assert(paths.deep_view()[i as int] == paths@[i as int]@);
        }
        i = i + 1;
    }
    outcomes
}

} // verus!
