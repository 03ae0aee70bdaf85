//! Tests for runtime state records, the state store, the checkpoint
//! manager, and branches.

use cortex::checkpoint::{Branch, Checkpoint, CheckpointManager};
use cortex::engine::EngineState;
use cortex::memory::MemoryState;
use cortex::state::{RuntimeState, StateStore};
use cortex::{CortexError, Message};

fn make_state() -> RuntimeState {
    RuntimeState::new(
        vec![],
        MemoryState { embedding_dim: 64, max_entries: 100, entries: vec![] },
        EngineState::default(),
    )
}

#[test]
fn test_checkpoint_manager() {
    let mut manager = CheckpointManager::new(3);

    for _ in 0..5 {
        let state = make_state();
        let checkpoint = Checkpoint::from_state(&state);
        manager.record(checkpoint);
    }

    // Should only have 3 checkpoints
    assert_eq!(manager.list().len(), 3);
}

#[test]
fn test_branch() {
    let state = make_state();
    let checkpoint = Checkpoint::from_state(&state);
    let branch = Branch::new(checkpoint.id.clone(), state);

    assert_eq!(branch.parent_id, checkpoint.id);
}

#[test]
fn test_retention_limit() {
    // retention limit 3: of 5 saved states only the 3 most recent are
    // loadable, the 2 oldest fail with InvalidCheckpoint
    let mut store = StateStore::new(None, 3);
    let mut ids: Vec<String> = Vec::new();

    for _ in 0..5 {
        let state = make_state();
        let id = store.save(state).unwrap();
        ids.push(id);
    }

    assert_eq!(store.len(), 3);
    for id in &ids[..2] {
        match store.load(id) {
            Err(CortexError::InvalidCheckpoint(msg)) => assert_eq!(&msg, id),
            other => panic!("expected InvalidCheckpoint, got {:?}", other.map(|s| s.id)),
        }
    }
    for id in &ids[2..] {
        let state = store.load(id).unwrap();
        assert_eq!(&state.id, id);
    }
    let listed: Vec<String> = store.list().iter().map(|s| s.to_string()).collect();
    assert_eq!(listed, ids[2..].to_vec());
}

#[test]
fn test_store_delete() {
    let mut store = StateStore::new(None, 10);
    let state = make_state();
    let id = store.save(state).unwrap();

    assert!(store.contains(&id));
    assert!(store.delete(&id));
    assert!(!store.delete(&id));
    assert!(!store.contains(&id));
    assert!(store.is_empty());
}

#[test]
fn test_save_replaces_same_id() {
    let mut store = StateStore::new(None, 10);
    let state = make_state();
    let copy = state.duplicate();
    let id = store.save(state).unwrap();
    let id2 = store.save(copy).unwrap();
    assert_eq!(id, id2);
    assert_eq!(store.len(), 1);
}

#[test]
fn test_generated_id_is_uuid_shaped() {
    let state = make_state();
    assert_eq!(state.id.len(), 36);
    let other = make_state();
    // v4 ids are random; two fresh records should get different ids
    assert_ne!(state.id, other.id);
}

#[test]
fn test_with_name() {
    let state = make_state().with_name("snapshot");
    assert_eq!(state.name.as_deref(), Some("snapshot"));
    let checkpoint = Checkpoint::from_state(&state);
    assert_eq!(checkpoint.name.as_deref(), Some("snapshot"));
}

#[test]
fn test_manager_latest_get_clear() {
    let mut manager = CheckpointManager::new(10);
    assert!(manager.latest().is_none());

    let s1 = make_state();
    let s2 = make_state();
    let c1 = Checkpoint::from_state(&s1);
    let c2 = Checkpoint::from_state(&s2);
    manager.record(c1);
    manager.record(c2);

    assert_eq!(manager.latest().unwrap().id, s2.id);
    assert_eq!(manager.get(&s1.id).unwrap().id, s1.id);
    assert!(manager.get("no-such-id").is_none());

    manager.clear();
    assert!(manager.latest().is_none());
    assert_eq!(manager.list().len(), 0);
}

#[test]
fn test_branch_into_state() {
    let state = make_state().with_name("fork-me");
    let id = state.id.clone();
    let branch = Branch::new(id.clone(), state);
    assert_eq!(branch.state().id, id);
    let taken = branch.into_state();
    assert_eq!(taken.name.as_deref(), Some("fork-me"));
}

#[test]
fn test_engine_state_compatibility() {
    let mut es = EngineState::default();
    assert!(es.compatible_with("anything")); // "none" fits every engine
    es.engine_id = "alpha".to_string();
    assert!(es.compatible_with("alpha"));
    assert!(!es.compatible_with("beta"));
}

#[test]
fn test_messages_constructors() {
    let m = Message::user("hi");
    assert_eq!(m.content, "hi");
    assert!(m.name.is_none());
    let t = Message::tool("output", "search");
    assert_eq!(t.name.as_deref(), Some("search"));
}
