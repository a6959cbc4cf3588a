//! What a dispatcher does with a pending transfer.
use crate::block::insert_helpers::TransitOption;
use vstd::prelude::*;

verus! {

/// The step a dispatcher takes for a transfer option.
#[derive(Debug, Clone, Copy, PartialEq, Eq, Structural)]
pub enum DispatchAction {
    /// Hand the insertion to a worker.
    RunInsert,
    /// Nothing is left to do.
    Finish,
    /// Deletions have no dispatcher yet.
    Unsupported,
}

/// Insertions go to a worker, `Finalize` ends the transfer and deletions are
/// not handled.
pub fn start_action(option: TransitOption) -> (a: DispatchAction)
    ensures
        a == (match option {
            TransitOption::InsertBegin | TransitOption::InsertInPos | TransitOption::InsertEnd => DispatchAction::RunInsert,
            TransitOption::Finalize => DispatchAction::Finish,
            _ => DispatchAction::Unsupported,
        }),
{
    match option {
        TransitOption::InsertBegin => DispatchAction::RunInsert,
        TransitOption::InsertInPos => DispatchAction::RunInsert,
        TransitOption::InsertEnd => DispatchAction::RunInsert,
        TransitOption::Finalize => DispatchAction::Finish,
        TransitOption::DeletePosToIndicator => DispatchAction::Unsupported,
        TransitOption::DeletePosDefault => DispatchAction::Unsupported,
        TransitOption::DeletePosBytesToEnd => DispatchAction::Unsupported,
        TransitOption::DeletePosBytesToBegin => DispatchAction::Unsupported,
    }
}

} // verus!
