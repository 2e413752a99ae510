use vstd::prelude::*;

verus! {

/// Requests sent to the broadcaster that keeps the cell views in step.
#[derive(Debug, Clone, PartialEq, Eq)]
pub enum Request {
    /// Cell index, field number, state name.
    GetStateCell(usize, usize, String),
    /// Cell index, field number.
    Shot(usize, usize),
    AutoShot(usize),
    ChangeOfTurn,
}

/// Messages the broadcaster hands to every subscribed cell.
#[derive(Debug, Clone, PartialEq, Eq)]
pub enum Response {
    /// Cell index, field number, state name.
    ResultStateCell(usize, usize, String),
    /// Cell index, field number.
    ToggleCell(usize, usize),
    LeaderChange,
}

} // verus!
