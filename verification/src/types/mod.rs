//! Domain types: directions, orders, elevator state and the replicated system state.

pub mod direction;
pub mod elevator;
pub mod orders;
pub mod systemstate;
