//! Tests for the snapshot and checkpoint byte format: round trips and
//! parse-or-fail behaviour.

use cortex::config::MemoryConfig;
use cortex::engine::EngineState;
use cortex::memory::{Memory, MemoryState};
use cortex::state::RuntimeState;
use cortex::vector::MemoryEntry;
use cortex::{CortexError, Message};

const ONE: i32 = 1_000_000;

#[test]
fn test_persist_load_roundtrip() {
    let config = MemoryConfig { embedding_dim: 3, max_entries: 10, ..Default::default() };
    let mut mem = Memory::new(config);
    mem.write("alpha", "first entry", vec![ONE, 0, 0]).unwrap();
    // non-ASCII content exercises the UTF-8 paths
    mem.write("beta", "h\u{e9}llo w\u{f6}rld \u{2713}", vec![0, ONE, 0]).unwrap();
    mem.write_with_metadata(
        "gamma",
        "third",
        vec![0, 0, -ONE],
        vec![("source".to_string(), "unit \u{1f9ea}".to_string())],
    )
    .unwrap();

    let bytes = mem.persist();
    let loaded = Memory::load(&bytes).unwrap();

    assert_eq!(loaded.len(), mem.len());
    let before = mem.entries();
    let after = loaded.entries();
    for i in 0..before.len() {
        assert_eq!(before[i].key, after[i].key);
        assert_eq!(before[i].content, after[i].content);
        assert_eq!(before[i].embedding, after[i].embedding);
        assert_eq!(before[i].metadata, after[i].metadata);
        assert_eq!(before[i].created_at, after[i].created_at);
    }
}

#[test]
fn test_memory_load_rejects_garbage() {
    match Memory::load(&[1, 2, 3]) {
        Err(CortexError::Serialization(_)) => {}
        other => panic!("expected Serialization error, got {:?}", other.map(|m| m.len())),
    }
}

#[test]
fn test_memory_load_empty_snapshot() {
    let config = MemoryConfig { embedding_dim: 8, max_entries: 5, ..Default::default() };
    let mem = Memory::new(config);
    let bytes = mem.persist();
    let loaded = Memory::load(&bytes).unwrap();
    assert!(loaded.is_empty());
}

#[test]
fn test_runtime_state_roundtrip() {
    let state = RuntimeState::new(
        vec![
            Message::system("be helpful"),
            Message::user("hello \u{1f30d}"),
            Message::assistant("hi"),
            Message::tool("result", "lookup"),
        ],
        MemoryState {
            embedding_dim: 2,
            max_entries: 4,
            entries: vec![MemoryEntry {
                key: "k".to_string(),
                content: "v".to_string(),
                embedding: vec![ONE, -ONE],
                metadata: vec![("a".to_string(), "b".to_string())],
                created_at: 7,
            }],
        },
        EngineState { data: vec![1, 2, 3, 255], n_tokens: 42, engine_id: "alpha".to_string() },
    )
    .with_name("snap \u{2713}");

    let bytes = state.encode();
    let back = RuntimeState::decode(&bytes).unwrap();

    assert_eq!(back.id, state.id);
    assert_eq!(back.name, state.name);
    assert_eq!(back.created_at, state.created_at);
    assert_eq!(back.messages.len(), 4);
    assert_eq!(back.messages[1].content, "hello \u{1f30d}");
    assert_eq!(back.messages[3].name.as_deref(), Some("lookup"));
    assert_eq!(back.memory.embedding_dim, 2);
    assert_eq!(back.memory.max_entries, 4);
    assert_eq!(back.memory.entries.len(), 1);
    assert_eq!(back.memory.entries[0].embedding, vec![ONE, -ONE]);
    assert_eq!(back.engine_state.data, vec![1, 2, 3, 255]);
    assert_eq!(back.engine_state.n_tokens, 42);
    assert_eq!(back.engine_state.engine_id, "alpha");
}

#[test]
fn test_runtime_state_decode_rejects_garbage() {
    assert!(matches!(RuntimeState::decode(&[]), Err(CortexError::Serialization(_))));
    assert!(matches!(RuntimeState::decode(&[0xff; 16]), Err(CortexError::Serialization(_))));
}

#[test]
fn test_runtime_state_decode_rejects_truncation() {
    let state = RuntimeState::new(
        vec![Message::user("hello")],
        MemoryState { embedding_dim: 1, max_entries: 1, entries: vec![] },
        EngineState::default(),
    );
    let bytes = state.encode();
    // every strict prefix must fail to decode
    let truncated = &bytes[..bytes.len() - 1];
    assert!(matches!(RuntimeState::decode(truncated), Err(CortexError::Serialization(_))));
    assert!(matches!(RuntimeState::decode(&bytes[..5]), Err(CortexError::Serialization(_))));
}

#[test]
fn test_invalid_utf8_rejected() {
    // a memory snapshot whose key bytes are not UTF-8 must fail to parse:
    // dimension 0, capacity 0, one entry whose key claims 2 bytes 0xff 0xfe
    let mut bytes: Vec<u8> = Vec::new();
    bytes.extend_from_slice(&0u64.to_le_bytes()); // embedding_dim
    bytes.extend_from_slice(&0u64.to_le_bytes()); // max_entries
    bytes.extend_from_slice(&1u64.to_le_bytes()); // one entry
    bytes.extend_from_slice(&2u64.to_le_bytes()); // key byte length
    bytes.extend_from_slice(&[0xff, 0xfe]); // not UTF-8
    assert!(matches!(Memory::load(&bytes), Err(CortexError::Serialization(_))));
}
