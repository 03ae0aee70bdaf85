//! Tests for the runtime core: chat turns, checkpointing, restoring, and
//! branching.

use cortex::config::{MemoryConfig, StateConfig};
use cortex::engine::EngineState;
use cortex::runtime::Cortex;
use cortex::Message;

const ONE: i32 = 1_000_000;

fn small_runtime() -> Cortex {
    Cortex::with_config(
        MemoryConfig { embedding_dim: 2, ..Default::default() },
        StateConfig::default(),
    )
}

#[test]
fn test_checkpoint_restore() {
    let mut ctx = small_runtime();

    ctx.remember("before", "original value", vec![ONE, 0]).unwrap();
    let snap = ctx.checkpoint(EngineState::default()).unwrap();

    ctx.remember("after", "new value", vec![0, ONE]).unwrap();
    assert_eq!(ctx.memory.len(), 2);

    ctx.restore(&snap).unwrap();
    assert_eq!(ctx.memory.len(), 1);
    assert!(ctx.memory.read("before").is_some());
    assert!(ctx.memory.read("after").is_none());
}

#[test]
fn test_checkpoint_restores_messages() {
    let mut ctx = small_runtime();

    let _prompt = ctx.begin_chat(&[Message::user("first")]);
    ctx.finish_chat("reply one");
    let snap = ctx.checkpoint(EngineState::default()).unwrap();

    let _prompt = ctx.begin_chat(&[Message::user("second")]);
    ctx.finish_chat("reply two");
    assert_eq!(ctx.messages().len(), 4);

    let es = ctx.restore(&snap).unwrap();
    assert_eq!(es.engine_id, "none");
    assert_eq!(ctx.messages().len(), 2);
    assert_eq!(ctx.messages()[0].content, "first");
    assert_eq!(ctx.messages()[1].content, "reply one");
}

#[test]
fn test_restore_unknown_id_fails() {
    let mut ctx = small_runtime();
    assert!(ctx.restore_id("missing").is_err());
}

#[test]
fn test_branch_is_independent() {
    let mut ctx = small_runtime();
    ctx.remember("shared", "original", vec![ONE, 0]).unwrap();
    let _prompt = ctx.begin_chat(&[Message::user("base")]);

    let mut branch = ctx.branch(EngineState::default()).unwrap();
    let parent_id = branch.parent_id.clone();

    // mutate the branch's copy of the state
    branch.state_mut().messages.push(Message::user("branch only"));
    branch.state_mut().memory.entries.clear();

    // the stored record for the parent checkpoint is untouched
    let stored = ctx.state_store().load(&parent_id).unwrap();
    assert_eq!(stored.messages.len(), 1);
    assert_eq!(stored.messages[0].content, "base");
    assert_eq!(stored.memory.entries.len(), 1);
    assert_eq!(stored.memory.entries[0].key, "shared");

    // and the runtime itself is untouched too
    assert_eq!(ctx.messages().len(), 1);
    assert_eq!(ctx.memory.len(), 1);
}

#[test]
fn test_recall_returns_contents() {
    let mut ctx = small_runtime();
    ctx.remember("a", "aligned fact", vec![ONE, 0]).unwrap();
    ctx.remember("b", "orthogonal fact", vec![0, ONE]).unwrap();

    // default threshold is 0.7: only the aligned entry matches
    let hits = ctx.recall(&[ONE, 0], 5);
    assert_eq!(hits, vec!["aligned fact".to_string()]);
}

#[test]
fn test_checkpoint_handles() {
    let mut ctx = small_runtime();
    assert!(ctx.latest_checkpoint().is_none());
    let c1 = ctx.checkpoint(EngineState::default()).unwrap();
    let c2 = ctx.checkpoint_named("named", EngineState::default()).unwrap();

    assert_eq!(ctx.checkpoints().len(), 2);
    let latest = ctx.latest_checkpoint().unwrap();
    assert_eq!(latest.id, c2.id);
    assert_eq!(latest.name.as_deref(), Some("named"));
    assert_ne!(c1.id, c2.id);
}

#[test]
fn test_clear_messages() {
    let mut ctx = small_runtime();
    let _prompt = ctx.begin_chat(&[Message::user("hello")]);
    ctx.finish_chat("hi");
    assert_eq!(ctx.messages().len(), 2);
    ctx.clear_messages();
    assert_eq!(ctx.messages().len(), 0);
}
