//! The parts of a datom: a value, the entity it belongs to, and the event that adds or
//! retracts it.
use vstd::prelude::*;

verus! {

#[derive(Debug, Clone, PartialEq, Eq)]
pub enum Value {
    String(String),
}

#[derive(Debug, Clone, Copy, PartialEq, Eq, Structural)]
pub struct EntityId(pub u32);

#[derive(Debug, Clone, Copy, PartialEq, Eq, Structural)]
pub enum Effect {
    Add,
    Retract,
}

#[derive(Debug, Clone, Copy, PartialEq, Eq, Structural)]
pub struct TxEvent(pub EntityId, pub Effect);

} // verus!
