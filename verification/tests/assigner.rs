use elevator::assigner::{decide_next_order, first_assigned_floor, goal_for, AssignerError};
use elevator::types::systemstate::SystemState;

#[test]
fn first_assigned_floor_is_lowest_active_row() {
    assert_eq!(first_assigned_floor(&vec![]), None);
    assert_eq!(
        first_assigned_floor(&vec![vec![false, false], vec![false, false, false]]),
        None
    );
    assert_eq!(
        first_assigned_floor(&vec![
            vec![false, false, false],
            vec![false, false, false],
            vec![false, true, false],
            vec![true, false, false],
        ]),
        Some(2)
    );
    assert_eq!(first_assigned_floor(&vec![vec![false, false, true]]), Some(0));
}

#[test]
fn decide_next_order_reads_own_row() {
    let s = SystemState::new("elev1", 1);
    let out = r#"{"elev2":[[true,false],[false,false],[false,false],[false,false]],
                 "elev1":[[false,false],[false,false],[false,true],[true,false]]}"#;
    assert_eq!(decide_next_order(&s, out), Ok(Some(2)));
}

#[test]
fn decide_next_order_without_own_row_is_none() {
    let s = SystemState::new("elev3", 1);
    let out = r#"{"elev1":[[true,false],[false,false],[false,false],[false,false]]}"#;
    assert_eq!(decide_next_order(&s, out), Ok(None));
    let s = SystemState::new("elev1", 1);
    let idle = r#"{"elev1":[[false,false],[false,false],[false,false],[false,false]]}"#;
    assert_eq!(decide_next_order(&s, idle), Ok(None));
}

#[test]
fn decide_next_order_rejects_bad_output() {
    let s = SystemState::new("elev1", 1);
    assert_eq!(decide_next_order(&s, "not json"), Err(AssignerError::InvalidOutput));
    assert_eq!(decide_next_order(&s, r#"{"elev1":[[1,0]]}"#), Err(AssignerError::InvalidOutput));
    assert_eq!(decide_next_order(&s, "[]"), Err(AssignerError::InvalidOutput));
}

#[test]
fn goal_for_takes_first_entry_of_id() {
    let entries = vec![
        ("elev1".to_string(), vec![vec![false, false], vec![true, false]]),
        ("elev2".to_string(), vec![vec![true, false]]),
        ("elev1".to_string(), vec![vec![true, false]]),
    ];
    assert_eq!(goal_for(&entries, &"elev1".to_string()), Some(1));
    assert_eq!(goal_for(&entries, &"elev2".to_string()), Some(0));
    assert_eq!(goal_for(&entries, &"elev3".to_string()), None);
    assert_eq!(goal_for(&vec![], &"elev1".to_string()), None);
}
