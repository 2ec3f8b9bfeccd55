//! Reads the answer of the external hall request assigner and picks this node's next goal.
//!
//! The assigner is given [`SystemState::assigner_input`] and answers with a JSON object that
//! maps every node identifier to one row of booleans per floor: the orders that node should
//! serve at that floor. The goal of this node is the lowest floor with an order assigned to it.

use crate::types::systemstate::SystemState;
use std::collections::BTreeMap;
use vstd::prelude::*;

verus! {

#[verifier::external_type_specification]
#[verifier::external_body]
pub struct ExJsonError(serde_json::Error);

/// The assigner's answer could not be read.
#[derive(Debug, Clone, Copy, PartialEq, Eq, Structural)]
pub enum AssignerError {
    /// The answer is not a JSON object mapping identifiers to rows of booleans.
    InvalidOutput,
}

/// What `serde_json::from_str` makes of `json` when asked for a map from node identifiers to
/// per-floor order rows: its entries in ascending key order, or `None` when it refuses the text.
pub uninterp spec fn assignment_table(json: Seq<char>) -> Option<Seq<(Seq<char>, Seq<Seq<bool>>)>>;

/// Calls `serde_json::from_str` for a sorted map from identifiers to order rows and hands
/// its entries out in order.
/// Trusted: the entries are `assignment_table` of the text, and an error comes exactly when
/// that is `None`.
#[verifier::external_body]
fn parse_assignment_table(json: &str) -> (r: Result<Vec<(String, Vec<Vec<bool>>)>, serde_json::Error>)
    ensures
        match r {
            Ok(entries) => assignment_table(json@) == Some(entries.deep_view()),
            Err(_) => assignment_table(json@) is None,
        },
{
    match serde_json::from_str::<BTreeMap<String, Vec<Vec<bool>>>>(json) {
        Ok(table) => Ok(table.into_iter().collect()),
        Err(e) => Err(e),
    }
}

/// The order rows of the first entry for `id` in a table of entries.
pub open spec fn orders_for(table: Seq<(Seq<char>, Seq<Seq<bool>>)>, id: Seq<char>) -> Option<
    Seq<Seq<bool>>,
>
    decreases table.len(),
{
    if table.len() == 0 {
        None
    } else if table[0].0 == id {
        Some(table[0].1)
    } else {
        orders_for(table.drop_first(), id)
    }
}

/// The first floor at or above `from` whose row holds an order.
pub open spec fn first_active_from(rows: Seq<Seq<bool>>, from: int) -> Option<int>
    decreases rows.len() - from,
{
    if from < 0 || from >= rows.len() {
        None
    } else if rows[from].contains(true) {
        Some(from)
    } else {
        first_active_from(rows, from + 1)
    }
}

/// The goal given by a node's order rows: the lowest floor with an order, as a floor number.
pub open spec fn assigned_goal(rows: Seq<Seq<bool>>) -> Option<u8> {
    match first_active_from(rows, 0) {
        Some(f) => Some(f as u8),
        None => None,
    }
}

/// The goal floor that a node's order rows give: the lowest floor whose row holds an order.
pub fn first_assigned_floor(orders: &Vec<Vec<bool>>) -> (goal: Option<u8>)
    ensures
        goal == assigned_goal(orders.deep_view()),
{
    let ghost rows = orders.deep_view();
    let mut floor: usize = 0;
    while floor < orders.len()
        invariant
            rows == orders.deep_view(),
            rows.len() == orders@.len(),
            floor <= orders@.len(),
            first_active_from(rows, 0) == first_active_from(rows, floor as int),
        decreases orders@.len() - floor,
    {
        let row = &orders[floor];
        proof {
            assert(rows[floor as int] == row@);
        }
        let mut any = false;
        let mut j: usize = 0;
        while j < row.len()
            invariant
                j <= row@.len(),
                any == exists|k: int| 0 <= k < j && row@[k],
            decreases row@.len() - j,
        {
            if row[j] {
                any = true;
            }
            j = j + 1;
        }
        proof {
            assert(any == rows[floor as int].contains(true)) by {
                if rows[floor as int].contains(true) {
                    let k = choose|k: int| 0 <= k < row@.len() && rows[floor as int][k] == true;
                    assert(row@[k]);
                }
            }
        }
        if any {
            return Some(floor as u8);
        }
        floor = floor + 1;
    }
    None
}

/// Decides this node's next goal from the assigner's answer `assigner_output` for the state
/// `system_state` that it was given: the lowest floor with an order assigned to this node, or
/// `None` when nothing is assigned to it. An answer that is not a map from identifiers to
/// order rows is an error.
pub fn decide_next_order(system_state: &SystemState, assigner_output: &str) -> (goal: Result<
    Option<u8>,
    AssignerError,
>)
    ensures
        match assignment_table(assigner_output@) {
            None => goal == Err::<Option<u8>, AssignerError>(AssignerError::InvalidOutput),
            Some(table) => goal == Ok::<Option<u8>, AssignerError>(
                match orders_for(table, system_state@.my_id) {
                    Some(rows) => assigned_goal(rows),
                    None => None,
                },
            ),
        },
{
    let entries = match parse_assignment_table(assigner_output) {
        Ok(entries) => entries,
        Err(_) => {
            return Err(AssignerError::InvalidOutput);
        },
    };
    let my_id = system_state.get_my_id();
    Ok(goal_for(&entries, &my_id))
}

/// The goal that the assigner's table of entries gives the node `id`: the goal of the first
/// entry for `id`, or `None` when the table has no entry for it.
pub fn goal_for(entries: &Vec<(String, Vec<Vec<bool>>)>, id: &String) -> (goal: Option<u8>)
    ensures
        goal == match orders_for(entries.deep_view(), id@) {
            Some(rows) => assigned_goal(rows),
            None => None,
        },
{
    let ghost table = entries.deep_view();
    proof {
        assert(table.skip(0) =~= table);
    }
    let mut i: usize = 0;
    while i < entries.len()
        invariant
            table == entries.deep_view(),
            table.len() == entries@.len(),
            i <= entries@.len(),
            orders_for(table, id@) == orders_for(table.skip(i as int), id@),
        decreases entries@.len() - i,
    {
        proof {
            assert(table.skip(i as int).drop_first() =~= table.skip(i + 1));
            assert(table.skip(i as int)[0] == table[i as int]);
            assert(table[i as int].0 == entries@[i as int].0@);
            assert(table[i as int].1 == entries@[i as int].1.deep_view());
        }
        if entries[i].0 == *id {
            proof {
                assert(table.skip(i as int).len() > 0);
                assert(orders_for(table.skip(i as int), id@) == Some(table[i as int].1));
            }
            return first_assigned_floor(&entries[i].1);
        }
        i = i + 1;
    }
    proof {
        assert(table.skip(i as int) =~= Seq::<(Seq<char>, Seq<Seq<bool>>)>::empty());
    }
    None
}

} // verus!
