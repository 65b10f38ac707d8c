use vstd::prelude::*;

verus! {

/// The phases of a turn. Every turn runs Stand, Draw, Clock and End, in that order.
#[derive(Debug, PartialEq, Eq, Copy, Clone, Structural)]
pub enum Phase {
    Stand,
    End,
    Draw,
    Clock,
}

} // verus!
