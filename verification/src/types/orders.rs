//! Kinds of orders: hall calls in either direction and cab calls.

use vstd::prelude::*;

verus! {

/// The button an order comes from.
#[derive(Debug, Clone, Copy, PartialEq, Eq, Structural)]
pub enum OrderType {
    HallUp,
    HallDown,
    Cab,
}

/// Button type code of the elevator hardware protocol for an order type.
pub open spec fn button_code(o: OrderType) -> u8 {
    match o {
        OrderType::HallUp => 0,
        OrderType::HallDown => 1,
        OrderType::Cab => 2,
    }
}

/// Name of an order type as it is printed.
pub open spec fn order_name(o: OrderType) -> Seq<char> {
    match o {
        OrderType::HallUp => "HallUp"@,
        OrderType::HallDown => "HallDown"@,
        OrderType::Cab => "Cab"@,
    }
}

impl From<OrderType> for u8 {
    fn from(o: OrderType) -> (code: u8) {
        match o {
            OrderType::HallUp => 0,
            OrderType::HallDown => 1,
            OrderType::Cab => 2,
        }
    }
}

impl vstd::std_specs::convert::FromSpecImpl<OrderType> for u8 {
    open spec fn obeys_from_spec() -> bool {
        true
    }

    open spec fn from_spec(o: OrderType) -> u8 {
        button_code(o)
    }
}

impl OrderType {
    /// The printed name of the order type.
    pub fn to_string(&self) -> (s: String)
        ensures
            s@ == order_name(*self),
    {
        match self {
            OrderType::HallUp => String::from_str("HallUp"),
            OrderType::HallDown => String::from_str("HallDown"),
            OrderType::Cab => String::from_str("Cab"),
        }
    }
}

} // verus!
