use fsdb::store::ServerState;

#[test]
fn create_overwrites_existing_stream() {
    let mut state = ServerState::new();
    state.create_new_stream(1, 100);
    state.enqueue_single(1, &vec![1, 2, 3], 101);
    state.create_new_stream(1, 102);
    assert_eq!(state.fetch_stream_no_clear(1, 103), Some(vec![]));
}

#[test]
fn destructive_fetch_then_peek_is_empty() {
    let mut state = ServerState::new();
    state.create_new_stream(7, 100);
    state.enqueue_single(7, &vec![10, 20], 101);
    assert_eq!(state.fetch_stream_contents(7, 102), Some(vec![10, 20]));
    assert_eq!(state.fetch_stream_no_clear(7, 103), Some(vec![]));
}

#[test]
fn peek_is_idempotent() {
    let mut state = ServerState::new();
    state.create_new_stream(7, 100);
    state.enqueue_single(7, &vec![10, 20], 101);
    let first = state.fetch_stream_no_clear(7, 102);
    let second = state.fetch_stream_no_clear(7, 103);
    assert_eq!(first, Some(vec![10, 20]));
    assert_eq!(first, second);
}

#[test]
fn broadcast_excludes_listed_stream() {
    let mut state = ServerState::new();
    state.create_new_stream(1, 100);
    state.create_new_stream(2, 100);
    state.create_new_stream(3, 100);
    state.enqueue_all_except(&[2], &vec![65, 66], 101);
    assert_eq!(state.fetch_stream_no_clear(1, 102), Some(vec![65, 66]));
    assert_eq!(state.fetch_stream_no_clear(2, 102), Some(vec![]));
    assert_eq!(state.fetch_stream_no_clear(3, 102), Some(vec![65, 66]));
}

#[test]
fn broadcast_reaches_every_stream() {
    let mut state = ServerState::new();
    state.create_new_stream(1, 100);
    state.create_new_stream(2, 100);
    state.enqueue_all(&vec![9], 101);
    state.enqueue_all(&vec![8], 102);
    assert_eq!(state.fetch_stream_no_clear(1, 103), Some(vec![9, 8]));
    assert_eq!(state.fetch_stream_no_clear(2, 103), Some(vec![9, 8]));
}

#[test]
fn enqueue_multiple_honours_duplicates_and_skips_absent() {
    let mut state = ServerState::new();
    state.create_new_stream(1, 100);
    state.enqueue_multiple(&[1, 99, 1], &vec![7], 101);
    assert_eq!(state.fetch_stream_no_clear(1, 102), Some(vec![7, 7]));
    assert!(!state.stream_exists(99));
}

#[test]
fn unknown_id_is_safe() {
    let mut state = ServerState::new();
    assert!(!state.stream_exists(41));
    assert_eq!(state.fetch_stream_contents(41, 100), None);
    assert_eq!(state.fetch_stream_no_clear(41, 100), None);
    state.enqueue_single(41, &vec![1], 100);
    assert!(!state.stream_exists(41));
}

#[test]
fn delete_is_a_no_op_on_missing_id() {
    let mut state = ServerState::new();
    state.create_new_stream(1, 100);
    state.delete_stream(2);
    assert!(state.stream_exists(1));
    state.delete_stream(1);
    assert!(!state.stream_exists(1));
}

#[test]
fn sweep_removes_only_expired_streams() {
    let mut state = ServerState::new();
    state.create_new_stream(1, 100);
    state.create_new_stream(2, 100);
    state.enqueue_single(2, &vec![5], 110);
    state.prune_expired_streams(30, 131);
    assert!(!state.stream_exists(1));
    assert!(state.stream_exists(2));
}

#[test]
fn stream_touched_at_threshold_survives() {
    let mut state = ServerState::new();
    state.create_new_stream(1, 100);
    state.prune_expired_streams(30, 130);
    assert!(state.stream_exists(1));
    state.prune_expired_streams(30, 131);
    assert!(!state.stream_exists(1));
}

#[test]
fn fetch_refreshes_activity() {
    let mut state = ServerState::new();
    state.create_new_stream(1, 100);
    assert_eq!(state.fetch_stream_no_clear(1, 120), Some(vec![]));
    state.prune_expired_streams(30, 140);
    assert!(state.stream_exists(1));
}

#[test]
fn eviction_never_refreshes_activity() {
    let mut state = ServerState::new();
    state.create_new_stream(1, 100);
    state.prune_expired_streams(50, 120);
    assert!(state.stream_exists(1));
    state.prune_expired_streams(30, 131);
    assert!(!state.stream_exists(1));
}
