//! Decision logic of an elevator node in a distributed elevator system:
//! the replicated system state and its merge rules, the per-elevator state,
//! the motion and door state machine, and the reading of the hall request
//! assigner's answer.

pub mod assigner;
pub mod config;
pub mod fsm;
pub mod ids;
pub mod peers;
pub mod types;
