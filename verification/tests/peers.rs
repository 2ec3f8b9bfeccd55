use elevator::ids::{id_le_exec, sort_ids};
use elevator::peers::{PeerChange, PeerTracker};

fn s(x: &str) -> String {
    x.to_string()
}

#[test]
fn id_order_is_byte_order() {
    assert!(id_le_exec(&s("elev1"), &s("elev2")));
    assert!(!id_le_exec(&s("elev2"), &s("elev1")));
    assert!(id_le_exec(&s("elev"), &s("elev1")));
    assert!(!id_le_exec(&s("elev1"), &s("elev")));
    assert!(id_le_exec(&s(""), &s("")));
    assert!(id_le_exec(&s("Z"), &s("a")));
    assert!(id_le_exec(&s("z"), &s("é")));
}

#[test]
fn sort_ids_matches_string_sort() {
    let input = vec![s("elev3"), s("elev10"), s("b"), s("elev1"), s(""), s("é"), s("elev3")];
    let mut expected = input.clone();
    expected.sort();
    assert_eq!(sort_ids(&input), expected);
    assert!(sort_ids(&vec![]).is_empty());
}

#[test]
fn first_sighting_is_new() {
    let mut t = PeerTracker::new();
    let change = t.observe(Some(s("elev2")), 100, 500);
    assert_eq!(
        change,
        Some(PeerChange { peers: vec![s("elev2")], new: Some(s("elev2")), lost: vec![] })
    );
    assert_eq!(t.observe(Some(s("elev2")), 200, 500), None);
    assert_eq!(t.observe(None, 300, 500), None);
}

#[test]
fn silent_peer_is_lost_after_timeout() {
    let mut t = PeerTracker::new();
    t.observe(Some(s("elev2")), 0, 500);
    t.observe(Some(s("elev3")), 400, 500);
    assert_eq!(t.observe(None, 500, 500), None);
    let change = t.observe(Some(s("elev1")), 501, 500);
    assert_eq!(
        change,
        Some(PeerChange {
            peers: vec![s("elev1"), s("elev3")],
            new: Some(s("elev1")),
            lost: vec![s("elev2")],
        })
    );
    let change = t.observe(None, 2000, 500);
    assert_eq!(
        change,
        Some(PeerChange { peers: vec![], new: None, lost: vec![s("elev1"), s("elev3")] })
    );
}

#[test]
fn lost_peer_comes_back_as_new() {
    let mut t = PeerTracker::new();
    t.observe(Some(s("elev2")), 0, 100);
    t.observe(None, 1000, 100);
    let change = t.observe(Some(s("elev2")), 1001, 100);
    assert_eq!(change.unwrap().new, Some(s("elev2")));
}

#[test]
fn clock_going_back_expires_nothing() {
    let mut t = PeerTracker::new();
    t.observe(Some(s("elev2")), 1000, 100);
    assert_eq!(t.observe(None, 10, 100), None);
}
