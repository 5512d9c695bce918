//! Decision logic of the LazyBoone explorer: resource bookkeeping, the
//! explorer's map of the galaxy with its distance weights, crafting plans and
//! the decisions taken between the messages exchanged with planets and the
//! orchestrator.
pub mod resources;
pub mod score;
pub mod items;
pub mod movement;
pub mod decisionmaking;
pub mod communication;

use vstd::prelude::*;

verus! {

/// Why the explorer stops what it is doing, as told by the orchestrator.
/// `NoOrder` stands for a refusal that comes with no order.
#[derive(Clone, Copy, Debug, PartialEq, Eq, Structural)]
pub enum InterruptOrder {
    NoOrder,
    Reset,
    Stop,
    Die,
}

/// How the explorer's AI loop ends.
#[derive(Clone, Copy, Debug, PartialEq, Eq, Structural)]
pub enum AiEnd {
    Reset,
    Stop,
    Kill,
}

/// The end of the AI loop an interruption calls for: none for a plain
/// refusal, the matching end for an order.
pub fn ai_end(order: InterruptOrder) -> (r: Option<AiEnd>)
    ensures
        r == match order {
            InterruptOrder::NoOrder => None,
            InterruptOrder::Reset => Some(AiEnd::Reset),
            InterruptOrder::Stop => Some(AiEnd::Stop),
            InterruptOrder::Die => Some(AiEnd::Kill),
        },
{
    match order {
        InterruptOrder::NoOrder => None,
        InterruptOrder::Reset => Some(AiEnd::Reset),
        InterruptOrder::Stop => Some(AiEnd::Stop),
        InterruptOrder::Die => Some(AiEnd::Kill),
    }
}

} // verus!
