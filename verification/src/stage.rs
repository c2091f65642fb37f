use vstd::prelude::*;

verus! {

/// The slide that the deck is showing.
#[derive(Clone, Copy, PartialEq, Eq, Structural, Debug)]
pub enum Progress {
    Original,
    Flat,
    FlatGrid,
    RPath,
    StripGroup,
    Strips,
}

/// How far the tiles of the outline have been rearranged.
#[derive(Clone, Copy, PartialEq, Eq, Structural, Debug)]
pub enum Phase {
    Initial,
    Sorted,
    Grouped,
    GroupedAlpha,
    StripGroup,
    Strips,
}

impl Progress {
    /// Position of the slide in the deck, from 0 to 5.
    pub open spec fn spec_rank(self) -> nat {
        match self {
            Progress::Original => 0,
            Progress::Flat => 1,
            Progress::FlatGrid => 2,
            Progress::RPath => 3,
            Progress::StripGroup => 4,
            Progress::Strips => 5,
        }
    }
}

impl Phase {
    /// Position of the phase in declaration order, from 0 to 5; phases
    /// compare by this rank.
    pub open spec fn spec_rank(self) -> nat {
        match self {
            Phase::Initial => 0,
            Phase::Sorted => 1,
            Phase::Grouped => 2,
            Phase::GroupedAlpha => 3,
            Phase::StripGroup => 4,
            Phase::Strips => 5,
        }
    }

    /// The rank of the phase, computed.
    pub fn rank(&self) -> (r: u8)
        ensures
            r == self.spec_rank(),
    {
        match self {
            Phase::Initial => 0,
            Phase::Sorted => 1,
            Phase::Grouped => 2,
            Phase::GroupedAlpha => 3,
            Phase::StripGroup => 4,
            Phase::Strips => 5,
        }
    }
}

} // verus!
