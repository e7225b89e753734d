//! The four betting stages of a hand, with their successor relation.

use vstd::prelude::*;

verus! {

/// The stage a hand's betting is in.  The successor relation is
/// `PreFlop -> Flop -> Turn -> River -> PreFlop`; the wrap back to
/// `PreFlop` is only ever used when a new hand is dealt.
#[derive(Eq, PartialEq, Structural, Debug, Copy, Clone)]
pub enum BetStage {
    PreFlop,
    Flop,
    Turn,
    River,
}

impl BetStage {
    /// The stage that follows this one.
    pub open spec fn spec_next(self) -> BetStage {
        match self {
            BetStage::PreFlop => BetStage::Flop,
            BetStage::Flop => BetStage::Turn,
            BetStage::Turn => BetStage::River,
            BetStage::River => BetStage::PreFlop,
        }
    }

    /// Advance this stage to its successor.
    pub fn next_stage(&mut self)
        ensures
            *final(self) == old(self).spec_next(),
    {
        match *self {
            BetStage::PreFlop => {
                *self = BetStage::Flop;
            },
            BetStage::Flop => {
                *self = BetStage::Turn;
            },
            BetStage::Turn => {
                *self = BetStage::River;
            },
            BetStage::River => {
                *self = BetStage::PreFlop;
            },
        }
    }
}

} // verus!
