use position_server::message::{ConnectionUpdate, PlayerInfo};
use position_server::registry::{State, MAX_PLAYERS, MAX_UPDATES};
use position_server::snapshot::{PlayerState, STATE_LEN};

fn snap(id: u8, millis: u32, tag: u8) -> ([u8; STATE_LEN], PlayerState) {
    let mut b = [tag; STATE_LEN];
    b[0] = id;
    b[1..5].copy_from_slice(&millis.to_be_bytes());
    let (_, _, s) = PlayerState::from_bytes(b);
    (b, s)
}

fn join(state: &mut State, color: [u8; 3]) -> (u8, Vec<PlayerInfo>) {
    state.connect(color).expect("registry has room")
}

#[test]
fn connect_returns_unique_ids_until_full() {
    let mut state = State::new();
    let mut seen = Vec::new();
    for i in 0..MAX_PLAYERS {
        let (id, peers) = join(&mut state, [i as u8, 0, 0]);
        assert!(!seen.contains(&id));
        assert_eq!(peers.len(), i);
        seen.push(id);
    }
    assert_eq!(state.len(), MAX_PLAYERS);
    assert_eq!(state.player_ids(), seen);
}

#[test]
fn connect_when_full_fails_and_changes_nothing() {
    let mut state = State::new();
    for i in 0..MAX_PLAYERS {
        join(&mut state, [i as u8, 1, 2]);
    }
    let before = state.player_ids();
    assert!(state.connect([9, 9, 9]).is_none());
    assert!(state.connect([9, 9, 9]).is_none());
    assert_eq!(state.player_ids(), before);
    // Each earlier player saw exactly the joins after its own.
    let first = before[0];
    assert_eq!(state.take_notifications(first).len(), MAX_PLAYERS - 1);
}

#[test]
fn join_and_leave_scenario() {
    let mut state = State::new();
    let (a, peers_a) = join(&mut state, [1, 2, 3]);
    assert!(peers_a.is_empty());
    let (b, peers_b) = join(&mut state, [4, 5, 6]);
    assert_ne!(a, b);
    assert_eq!(peers_b, vec![PlayerInfo { id: a, color: [1, 2, 3] }]);
    assert_eq!(
        state.take_notifications(a),
        vec![ConnectionUpdate::Connected { id: b, color: [4, 5, 6] }]
    );
    assert!(state.take_notifications(b).is_empty());

    state.disconnect(b);
    assert_eq!(state.take_notifications(a), vec![ConnectionUpdate::Disconnected { id: b }]);
    assert!(!state.contains(b));
    assert!(state.take_notifications(b).is_empty());

    let (c, peers_c) = join(&mut state, [7, 8, 9]);
    assert_ne!(c, a);
    assert_eq!(peers_c, vec![PlayerInfo { id: a, color: [1, 2, 3] }]);
    assert_eq!(state.player_ids(), vec![a, c]);
}

#[test]
fn disconnect_notifies_each_remaining_player_once() {
    let mut state = State::new();
    let (a, _) = join(&mut state, [0, 0, 1]);
    let (b, _) = join(&mut state, [0, 0, 2]);
    let (c, _) = join(&mut state, [0, 0, 3]);
    for id in [a, b, c] {
        state.take_notifications(id);
    }
    state.disconnect(b);
    assert_eq!(state.take_notifications(a), vec![ConnectionUpdate::Disconnected { id: b }]);
    assert_eq!(state.take_notifications(c), vec![ConnectionUpdate::Disconnected { id: b }]);
    let (_, s) = snap(b, 1, 0);
    assert!(state.update(b, 1, s).is_none());
    assert_eq!(state.player_ids(), vec![a, c]);
}

#[test]
fn disconnect_of_unknown_id_is_a_no_op() {
    let mut state = State::new();
    let (a, _) = join(&mut state, [0, 0, 1]);
    let other = a.wrapping_add(1);
    state.disconnect(other);
    assert_eq!(state.player_ids(), vec![a]);
    assert!(state.take_notifications(a).is_empty());
}

#[test]
fn update_of_unknown_player_is_none() {
    let mut state = State::new();
    let (_, s) = snap(5, 10, 0);
    assert!(state.update(5, 10, s).is_none());
    assert!(state.timestamps(5).is_none());
}

#[test]
fn history_keeps_newest_window() {
    let mut state = State::new();
    let (p, _) = join(&mut state, [1, 1, 1]);
    for t in 1..=(MAX_UPDATES as u32 + 1) {
        let (_, s) = snap(p, t * 10, 0);
        assert!(state.update(p, t * 10, s).is_some());
    }
    let expected: Vec<u32> = (2..=(MAX_UPDATES as u32 + 1)).map(|t| t * 10).collect();
    assert_eq!(state.timestamps(p).unwrap(), expected);
}

#[test]
fn duplicate_timestamp_is_ignored() {
    let mut state = State::new();
    let (p, _) = join(&mut state, [1, 1, 1]);
    for t in [30u32, 10, 20] {
        let (_, s) = snap(p, t, 0);
        state.update(p, t, s);
    }
    let (_, s) = snap(p, 20, 7);
    state.update(p, 20, s);
    assert_eq!(state.timestamps(p).unwrap(), vec![10, 20, 30]);
}

#[test]
fn older_than_full_window_is_rejected() {
    let mut state = State::new();
    let (p, _) = join(&mut state, [1, 1, 1]);
    let stamps: Vec<u32> = (1..=20).map(|t| t * 10).collect();
    for &t in &stamps {
        let (_, s) = snap(p, t, 0);
        state.update(p, t, s);
    }
    let (_, s) = snap(p, 5, 0);
    assert!(state.update(p, 5, s).is_some());
    assert_eq!(state.timestamps(p).unwrap(), stamps);
}

#[test]
fn out_of_order_insert_below_capacity_keeps_order() {
    let mut state = State::new();
    let (p, _) = join(&mut state, [1, 1, 1]);
    for t in [50u32, 10, 40, 20, 30] {
        let (_, s) = snap(p, t, 0);
        state.update(p, t, s);
    }
    assert_eq!(state.timestamps(p).unwrap(), vec![10, 20, 30, 40, 50]);
}

#[test]
fn full_window_evicts_oldest_for_middle_insert() {
    let mut state = State::new();
    let (p, _) = join(&mut state, [1, 1, 1]);
    for t in 1..=20u32 {
        let (_, s) = snap(p, t * 10, 0);
        state.update(p, t * 10, s);
    }
    let (_, s) = snap(p, 15, 0);
    state.update(p, 15, s);
    let mut expected: Vec<u32> = vec![15];
    expected.extend((2..=20u32).map(|t| t * 10));
    assert_eq!(state.timestamps(p).unwrap(), expected);
}

#[test]
fn filtered_delivery_is_per_viewer() {
    let mut state = State::new();
    let (p, _) = join(&mut state, [1, 0, 0]);
    let (x, _) = join(&mut state, [2, 0, 0]);
    let (y, _) = join(&mut state, [3, 0, 0]);
    let (bytes, s) = snap(p, 100, 42);
    assert!(state.update(p, 100, s).unwrap().is_empty());
    assert_eq!(state.filtered_state(x), vec![bytes]);
    assert_eq!(state.filtered_state(y), vec![bytes]);
    assert!(state.filtered_state(x).is_empty());
    assert!(state.filtered_state(y).is_empty());
}

#[test]
fn filtered_delivery_sends_newest_only() {
    let mut state = State::new();
    let (p, _) = join(&mut state, [1, 0, 0]);
    let (x, _) = join(&mut state, [2, 0, 0]);
    let (_, s1) = snap(p, 10, 1);
    let (b2, s2) = snap(p, 20, 2);
    state.update(p, 10, s1);
    state.update(p, 20, s2);
    assert_eq!(state.filtered_state(x), vec![b2]);
    // The older, never-sent snapshot is what remains undelivered.
    let (b1, _) = snap(p, 10, 1);
    assert_eq!(state.filtered_state(x), vec![b1]);
    assert!(state.filtered_state(x).is_empty());
}

#[test]
fn filtered_delivery_resumes_after_new_snapshot() {
    let mut state = State::new();
    let (p, _) = join(&mut state, [1, 0, 0]);
    let (x, _) = join(&mut state, [2, 0, 0]);
    let (b1, s1) = snap(p, 10, 1);
    state.update(p, 10, s1);
    assert_eq!(state.filtered_state(x), vec![b1]);
    assert!(state.filtered_state(x).is_empty());
    let (b2, s2) = snap(p, 20, 2);
    state.update(p, 20, s2);
    assert_eq!(state.filtered_state(x), vec![b2]);
}

#[test]
fn update_returns_peer_snapshots_in_registry_order() {
    let mut state = State::new();
    let (a, _) = join(&mut state, [1, 0, 0]);
    let (b, _) = join(&mut state, [2, 0, 0]);
    let (c, _) = join(&mut state, [3, 0, 0]);
    let (ba, sa) = snap(a, 1, 1);
    let (bb, sb) = snap(b, 1, 2);
    state.update(a, 1, sa);
    state.update(b, 1, sb);
    let (_, sc) = snap(c, 1, 3);
    assert_eq!(state.update(c, 1, sc).unwrap(), vec![ba, bb]);
}
