//! Memory and state primitives for an AI agent runtime.
//!
//! The crate provides two primitives: a capacity-bounded associative memory
//! with similarity-based retrieval ([`memory::Memory`] over
//! [`vector::VectorStore`]), and a checkpoint/branch mechanism that snapshots
//! and restores an agent's working state ([`state::StateStore`],
//! [`checkpoint::CheckpointManager`], [`checkpoint::Branch`]).
//!
//! Text generation and embedding are external collaborators: callers produce
//! embeddings (as fixed-point vectors, see [`vector`]) and engine-state blobs
//! ([`engine::EngineState`]) and hand them in as plain values.

use vstd::prelude::*;

pub mod chat;
pub mod checkpoint;
pub mod codec;
pub mod config;
pub mod engine;
pub mod math;
pub mod memory;
pub mod runtime;
pub mod state;
pub mod sys;
pub mod vector;

pub use chat::ChatTemplate;
pub use checkpoint::{Branch, Checkpoint};
pub use engine::EngineState;
pub use memory::Memory;
pub use runtime::Cortex;

verus! {

/// Message role in a conversation.
#[derive(Debug, Clone, PartialEq, Eq, Structural)]
pub enum Role {
    System,
    User,
    Assistant,
    Tool,
}

/// Mathematical model of a [`Message`].
pub ghost struct MessageModel {
    pub role: Role,
    pub content: Seq<char>,
    pub name: Option<Seq<char>>,
}

/// A chat message.
#[derive(Debug)]
pub struct Message {
    pub role: Role,
    pub content: String,
    pub name: Option<String>,
}

impl View for Message {
    type V = MessageModel;

    open spec fn view(&self) -> MessageModel {
        MessageModel {
            role: self.role,
            content: self.content@,
            name: match self.name {
                Some(ref n) => Some(n@),
                None => None,
            },
        }
    }
}

impl Message {
    /// A system message with the given content and no name.
    pub fn system(content: &str) -> (m: Message)
        ensures
            m@ == (MessageModel { role: Role::System, content: content@, name: None }),
    {
        Message { role: Role::System, content: content.to_owned(), name: None }
    }

    /// A user message with the given content and no name.
    pub fn user(content: &str) -> (m: Message)
        ensures
            m@ == (MessageModel { role: Role::User, content: content@, name: None }),
    {
        Message { role: Role::User, content: content.to_owned(), name: None }
    }

    /// An assistant message with the given content and no name.
    pub fn assistant(content: &str) -> (m: Message)
        ensures
            m@ == (MessageModel { role: Role::Assistant, content: content@, name: None }),
    {
        Message { role: Role::Assistant, content: content.to_owned(), name: None }
    }

    /// A tool message with the given content, carrying the tool's name.
    pub fn tool(content: &str, name: &str) -> (m: Message)
        ensures
            m@ == (MessageModel { role: Role::Tool, content: content@, name: Some(name@) }),
    {
        Message { role: Role::Tool, content: content.to_owned(), name: Some(name.to_owned()) }
    }

    /// An independent copy of this message.
    pub fn duplicate(&self) -> (m: Message)
        ensures
            m@ == self@,
    {
        Message {
            role: match self.role {
                Role::System => Role::System,
                Role::User => Role::User,
                Role::Assistant => Role::Assistant,
                Role::Tool => Role::Tool,
            },
            content: self.content.clone(),
            name: match self.name {
                Some(ref n) => Some(n.clone()),
                None => None,
            },
        }
    }
}

/// The models of a sequence of messages.
pub open spec fn messages_model(v: Seq<Message>) -> Seq<MessageModel> {
    v.map_values(|m: Message| m@)
}

/// Errors that can occur in runtime operations.
#[derive(Debug)]
pub enum CortexError {
    /// A model could not be loaded by an engine.
    ModelLoad(String),
    /// An engine failed while generating.
    Inference(String),
    /// A memory operation failed.
    Memory(String),
    /// A state operation failed.
    State(String),
    /// An underlying file-system failure, with its description.
    Io(String),
    /// Persisted data was malformed or in a foreign format.
    Serialization(String),
    /// A requested checkpoint id was absent; carries the requested id.
    InvalidCheckpoint(String),
    /// A tool invocation failed.
    Tool(String),
    /// Configuration was invalid.
    Config(String),
    /// An embedding's length did not match the configured dimension.
    DimensionMismatch { expected: usize, actual: usize },
}

} // verus!
