//! Travel direction of an elevator car and its motor command code.

use vstd::prelude::*;

verus! {

/// Direction of travel of the car, also used as the motor command.
#[derive(Debug, Clone, Copy, PartialEq, Eq, Structural)]
pub enum Direction {
    Up,
    Down,
    Stop,
}

/// Motor command code of the elevator hardware protocol for a direction:
/// up is 1, down is 255 (the protocol's -1 as a byte), stop is 0.
pub open spec fn motor_code(d: Direction) -> u8 {
    match d {
        Direction::Up => 1,
        Direction::Down => 255,
        Direction::Stop => 0,
    }
}

impl From<Direction> for u8 {
    fn from(d: Direction) -> (code: u8) {
        match d {
            Direction::Up => 1,
            Direction::Down => 255,
            Direction::Stop => 0,
        }
    }
}

impl vstd::std_specs::convert::FromSpecImpl<Direction> for u8 {
    open spec fn obeys_from_spec() -> bool {
        true
    }

    open spec fn from_spec(d: Direction) -> u8 {
        motor_code(d)
    }
}

} // verus!
