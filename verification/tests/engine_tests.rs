//! The in-memory index, sessions, and the published state.
use memmap_fs::blocks::BlockStorage;
use memmap_fs::engine::{AgentState, MemMapEngine, MemoryMetadata, StreamSegment};
use memmap_fs::fs::MemMapFS;
use memmap_fs::session::{sort_newest_first, Session};
use memmap_fs::storage::WalCommand;

fn memory(id: u64, tag: &str) -> WalCommand {
    WalCommand::AppendMemory { id, chunk_id: 1, offset: 2, length: 3, tags: vec![tag.into()] }
}

fn set(key: &str, value: &[u8]) -> WalCommand {
    WalCommand::SetKv { key: key.into(), value: value.to_vec() }
}

fn session(id: &str, intent_id: &str, created_at: u64) -> Session {
    Session { id: id.into(), intent_id: intent_id.into(), created_at, payload: vec![] }
}

fn ids(sessions: &[Session]) -> Vec<&str> {
    sessions.iter().map(|s| s.id.as_str()).collect()
}

fn running(count: u64) -> AgentState {
    let mut state = AgentState::default();
    state.status = "running".into();
    state.active_memory_count = count;
    state.extra.insert("k".into(), "v".into());
    state
}

#[test]
fn a_fresh_engine_is_empty() {
    let (engine, _rx) = MemMapEngine::new();
    assert!(engine.all_ids().is_empty());
    assert!(engine.get_metadata(1).is_none());
    assert_eq!(engine.get_kv("k"), None);
    assert!(engine.segments("s").is_empty());
    assert_eq!(engine.get_session("s"), None);
    assert!(engine.list_sessions(10).is_empty());
}

#[test]
fn ids_count_up_from_one() {
    let (mut engine, _rx) = MemMapEngine::new();
    assert_eq!(engine.next_memory_id(), 1);
    assert_eq!(engine.next_memory_id(), 2);
    assert_eq!(engine.next_memory_id(), 3);
}

#[test]
fn recovered_ids_are_not_assigned_again() {
    let (mut engine, _rx) = MemMapEngine::new();
    engine.replay_commands(&[memory(5, "a"), memory(3, "b"), memory(0, "c")]);
    assert_eq!(engine.all_ids(), vec![0, 3, 5]);
    assert_eq!(engine.next_memory_id(), 6);
    assert!(engine.has_next_id());

    let (mut engine, _rx) = MemMapEngine::new();
    engine.replay_commands(&[memory(u64::MAX - 1, "last")]);
    assert!(!engine.has_next_id());
}

#[test]
fn metadata_is_found_by_id() {
    let (mut engine, _rx) = MemMapEngine::new();
    engine.insert_metadata(MemoryMetadata {
        id: 9,
        chunk_id: 8,
        offset: 7,
        length: 6,
        tags: vec!["x".into(), "y".into()],
    });
    let meta = engine.get_metadata(9).expect("meta").clone();
    assert_eq!((meta.id, meta.chunk_id, meta.offset, meta.length), (9, 8, 7, 6));
    assert_eq!(meta.tags, vec!["x", "y"]);
    // Metadata that is inserted directly assigns no id.
    assert_eq!(engine.next_memory_id(), 1);
}

#[test]
fn a_later_memory_replaces_one_with_the_same_id() {
    let (mut engine, _rx) = MemMapEngine::new();
    engine.replay_commands(&[memory(1, "old"), memory(1, "new")]);
    assert_eq!(engine.all_ids(), vec![1]);
    assert_eq!(engine.get_metadata(1).expect("meta").tags, vec!["new"]);
}

#[test]
fn keys_have_the_value_that_was_set_last() {
    let (mut engine, _rx) = MemMapEngine::new();
    engine.replay_commands(&[
        set("a", b"1"),
        set("b", b"2"),
        set("a", b"3"),
        WalCommand::DeleteKv { key: "b".into() },
        WalCommand::DeleteKv { key: "never".into() },
        set("", b""),
    ]);
    assert_eq!(engine.get_kv("a"), Some(b"3".to_vec()));
    assert_eq!(engine.get_kv("b"), None);
    assert_eq!(engine.get_kv("never"), None);
    assert_eq!(engine.get_kv(""), Some(vec![]));
    engine.insert_kv("b".into(), vec![4]);
    engine.remove_kv("a");
    assert_eq!(engine.get_kv("b"), Some(vec![4]));
    assert_eq!(engine.get_kv("a"), None);
}

#[test]
fn streams_keep_their_blocks_in_order() {
    let (mut engine, _rx) = MemMapEngine::new();
    let segment = |n: u64| StreamSegment { chunk_id: 0, offset: n, length: 1 };
    engine.push_segment("a", segment(0));
    engine.push_segment("b", segment(1));
    engine.push_segment("a", segment(2));
    engine.apply(&WalCommand::AppendStream {
        key: "a".into(),
        chunk_id: 0,
        offset: 3,
        length: 1,
    });
    assert_eq!(engine.segments("a"), vec![segment(0), segment(2), segment(3)]);
    assert_eq!(engine.segments("b"), vec![segment(1)]);
    assert!(engine.segments("c").is_empty());
}

#[test]
fn sessions_are_replaced_by_id() {
    let (mut engine, _rx) = MemMapEngine::new();
    engine.insert_session(session("a", "x", 1));
    engine.insert_session(session("b", "x", 2));
    engine.insert_session(session("a", "y", 3));
    assert_eq!(engine.get_session("a"), Some(session("a", "y", 3)));
    assert_eq!(engine.get_session("b"), Some(session("b", "x", 2)));
    assert_eq!(engine.get_session("c"), None);
    assert_eq!(ids(&engine.list_sessions(10)), vec!["a", "b"]);
    assert_eq!(ids(&engine.list_by_intent("x")), vec!["b"]);
}

#[test]
fn sessions_are_listed_newest_first() {
    let (mut engine, _rx) = MemMapEngine::new();
    for (id, at) in [("a", 5), ("b", 9), ("c", 5), ("d", 1), ("e", 9)] {
        engine.insert_session(session(id, if at == 5 { "five" } else { "other" }, at));
    }
    // Sessions of the same age keep their order.
    assert_eq!(ids(&engine.list_sessions(usize::MAX)), vec!["b", "e", "a", "c", "d"]);
    assert_eq!(ids(&engine.list_sessions(3)), vec!["b", "e", "a"]);
    assert!(engine.list_sessions(0).is_empty());
    assert_eq!(ids(&engine.list_by_intent("five")), vec!["a", "c"]);
    assert_eq!(ids(&engine.list_by_intent("other")), vec!["b", "e", "d"]);
    assert!(engine.list_by_intent("none").is_empty());
}

#[test]
fn sorting_loses_no_session() {
    let list: Vec<Session> = (0..50).map(|n| session(&format!("{n}"), "i", n * 7 % 11)).collect();
    let sorted = sort_newest_first(&list);
    assert_eq!(sorted.len(), list.len());
    assert!(sorted.windows(2).all(|w| w[0].created_at >= w[1].created_at));
    assert!(list.iter().all(|s| sorted.contains(s)));
}

#[test]
fn the_state_starts_blank() {
    let (engine, rx) = MemMapEngine::new();
    let state = engine.current_state();
    assert_eq!(state.status, "");
    assert_eq!(state.active_memory_count, 0);
    assert_eq!(state.last_updated_id, 0);
    assert!(state.extra.is_empty());
    assert_eq!(rx.borrow().status, "");
    assert!(!rx.has_changed().expect("open"));
}

#[test]
fn published_states_reach_all_receivers() {
    let (mut engine, rx) = MemMapEngine::new();
    let early = engine.subscribe_state();
    engine.broadcast_state(running(1)).expect("broadcast");
    engine.broadcast_state(running(2)).expect("broadcast");
    let late = engine.subscribe_state();
    for receiver in [&rx, &early, &late] {
        assert_eq!(receiver.borrow().status, "running");
        assert_eq!(receiver.borrow().active_memory_count, 2);
        assert_eq!(receiver.borrow().extra["k"], "v");
    }
    // Only those who subscribed before see a change.
    assert!(rx.has_changed().expect("open"));
    assert!(early.has_changed().expect("open"));
    assert!(!late.has_changed().expect("open"));
    assert_eq!(engine.current_state().active_memory_count, 2);
}

#[test]
fn a_state_is_kept_without_receivers() {
    let (mut engine, rx) = MemMapEngine::new();
    drop(rx);
    engine.broadcast_state(running(3)).expect("broadcast");
    assert_eq!(engine.current_state().active_memory_count, 3);
    assert_eq!(engine.subscribe_state().borrow().active_memory_count, 3);
}

#[test]
fn replay_publishes_nothing() {
    let (mut engine, rx) = MemMapEngine::new();
    engine.replay_commands(&[memory(1, "a"), set("k", b"v")]);
    assert!(!rx.has_changed().expect("open"));
    assert_eq!(engine.current_state().status, "");
}

#[test]
fn store_subscribers_see_updates_as_new() {
    let mut fs = MemMapFS::init(&[], BlockStorage::open(0, None)).expect("init");
    let before = fs.subscribe_state();
    assert!(!before.has_changed().expect("open"));
    fs.update_state(running(4)).expect("update");
    let after = fs.subscribe_state();
    for receiver in [&before, &after] {
        assert!(receiver.has_changed().expect("open"));
        assert_eq!(receiver.borrow().active_memory_count, 4);
    }
    assert_eq!(fs.current_state().active_memory_count, 4);
}
