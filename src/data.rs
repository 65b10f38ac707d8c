use vstd::prelude::*;

mod phase;

pub use phase::Phase;

verus! {

/// A lightweight id that names one physical card instance of a match.
#[derive(Debug, Copy, Clone, PartialEq, Eq, PartialOrd, Ord, Structural)]
pub struct CardId(pub usize);

impl From<usize> for CardId {
    fn from(id: usize) -> CardId {
        CardId(id)
    }
}

impl vstd::std_specs::convert::FromSpecImpl<usize> for CardId {
    open spec fn obeys_from_spec() -> bool {
        true
    }

    open spec fn from_spec(v: usize) -> CardId {
        CardId(v)
    }
}

} // verus!
