use vstd::prelude::*;

verus! {

/// What a randomised or answered action led to: the resource a robber took
/// (if the victim had any), the kind of development card drawn, or a
/// player's answer to a trade quote.
#[derive(Clone, Copy, Debug, PartialEq, Eq, Structural)]
pub enum Outcome {
    RobberOutcome(Option<u32>),
    DrawCardOutcome(u32),
    TradeOutcome(u32, bool),
}

} // verus!
