//! The runtime core: memory, conversation history, and checkpointing in
//! one place.
//!
//! The inference engine is an external collaborator: callers hand in
//! embeddings, engine-state blobs and generated replies as plain values,
//! and take prompts and engine states back out. A chat turn is split into
//! [`Cortex::begin_chat`], which extends the history and yields the
//! prompt, and [`Cortex::finish_chat`], which appends the engine's reply.

use vstd::prelude::*;
use crate::chat::{format_chat_prompt, spec_chat_prompt, ChatTemplate};
use crate::checkpoint::{
    evict_handles_to, handle_of, Branch, Checkpoint, CheckpointManager, CheckpointModel,
};
use crate::config::{MemoryConfig, StateConfig};
use crate::engine::{EngineState, EngineStateModel};
use crate::memory::{
    entry_model, lemma_restore_exact, restore_model, search_post, Memory, MemoryStateModel,
};
use crate::state::{
    contains_id, id_index, lemma_checkpoint_restore, lemma_saves_keep_recent, save_all_from,
    save_model, copy_messages, unique_ids, RuntimeState, RuntimeStateModel, StateStore,
};
use crate::vector::{results_model, spec_capacity, unique_keys, write_model, EntryModel};
use crate::{messages_model, CortexError, Message, MessageModel, Role};

verus! {

/// Mathematical model of a [`Cortex`].
pub ghost struct CortexModel {
    pub memory: Seq<EntryModel>,
    pub store: Seq<RuntimeStateModel>,
    pub handles: Seq<CheckpointModel>,
    pub messages: Seq<MessageModel>,
}

/// The record that a checkpoint builds: a fresh id, the given name, the
/// conversation and memory as they stand, the given engine state, and no
/// metadata.
pub open spec fn snapshot_rec(
    mem: Seq<EntryModel>,
    dim: usize,
    maxe: usize,
    msgs: Seq<MessageModel>,
    es: EngineStateModel,
    name: Option<Seq<char>>,
    rec: RuntimeStateModel,
) -> bool {
    &&& rec.id.len() == 36
    &&& rec.name == name
    &&& rec.messages == msgs
    &&& rec.memory == (MemoryStateModel { embedding_dim: dim, max_entries: maxe, entries: mem })
    &&& rec.engine_state == es
    &&& rec.metadata == Seq::<(Seq<char>, Seq<char>)>::empty()
}

/// The runtime core: memory and state primitives for an agent.
#[derive(Debug)]
pub struct Cortex {
    /// Memory subsystem.
    pub memory: Memory,
    /// Store of full checkpoint records.
    state_store: StateStore,
    /// Lightweight index of checkpoint handles.
    checkpoint_manager: CheckpointManager,
    /// Conversation history.
    messages: Vec<Message>,
    /// Chat template in use.
    chat_template: ChatTemplate,
}

impl View for Cortex {
    type V = CortexModel;

    closed spec fn view(&self) -> CortexModel {
        CortexModel {
            memory: self.memory@,
            store: self.state_store@,
            handles: self.checkpoint_manager@,
            messages: messages_model(self.messages@),
        }
    }
}

impl Cortex {
    /// The chat template in use.
    pub closed spec fn spec_template(&self) -> ChatTemplate {
        self.chat_template
    }

    /// The memory's configured embedding dimension.
    pub closed spec fn spec_dim(&self) -> usize {
        self.memory.spec_dim()
    }

    /// The memory's configured capacity.
    pub closed spec fn spec_mem_max(&self) -> usize {
        self.memory.spec_max_entries()
    }

    /// The memory's configured similarity threshold.
    pub closed spec fn spec_threshold(&self) -> i64 {
        self.memory.spec_threshold()
    }

    /// The store's retention limit.
    pub closed spec fn spec_store_max(&self) -> usize {
        self.state_store.spec_max()
    }

    /// The handle index's retention limit.
    pub closed spec fn spec_handles_max(&self) -> usize {
        self.checkpoint_manager.spec_max()
    }

    /// Well-formedness of all parts.
    pub closed spec fn wf(&self) -> bool {
        &&& self.memory.wf()
        &&& self.state_store.wf()
        &&& self.checkpoint_manager.wf()
    }

    /// What well-formedness guarantees, stated over the public model:
    /// unique memory keys and record ids, and every part within its
    /// configured capacity.
    pub proof fn lemma_wf_facts(&self)
        requires
            self.wf(),
        ensures
            unique_keys(self@.memory),
            self@.memory.len() <= spec_capacity(self.spec_mem_max()),
            unique_ids(self@.store),
            self@.store.len() <= self.spec_store_max(),
            self@.handles.len() <= self.spec_handles_max(),
    {
        self.memory.lemma_wf_facts();
        self.state_store.lemma_wf_facts();
        self.checkpoint_manager.lemma_wf_facts();
    }

    /// Create a runtime core with the default configuration: dimension
    /// 4096, 100 000 memory entries, similarity threshold 0.7, and 100
    /// retained checkpoints.
    pub fn new() -> (c: Self)
        ensures
            c.wf(),
            c@.memory == Seq::<EntryModel>::empty(),
            c@.store == Seq::<RuntimeStateModel>::empty(),
            c@.handles == Seq::<CheckpointModel>::empty(),
            c@.messages == Seq::<MessageModel>::empty(),
            c.spec_template() == ChatTemplate::Llama3,
            c.spec_dim() == 4096,
            c.spec_mem_max() == 100000,
            c.spec_threshold() == 700000int,
            c.spec_store_max() == 100,
            c.spec_handles_max() == 100,
    {
        Self::with_config(MemoryConfig::default(), StateConfig::default())
    }

    /// Create a runtime core with the given memory and state configuration.
    pub fn with_config(memory_config: MemoryConfig, state_config: StateConfig) -> (c: Self)
        ensures
            c.wf(),
            c@.memory == Seq::<EntryModel>::empty(),
            c@.store == Seq::<RuntimeStateModel>::empty(),
            c@.handles == Seq::<CheckpointModel>::empty(),
            c@.messages == Seq::<MessageModel>::empty(),
            c.spec_template() == ChatTemplate::Llama3,
            c.spec_dim() == memory_config.embedding_dim,
            c.spec_mem_max() == memory_config.max_entries,
            c.spec_threshold() == memory_config.similarity_threshold,
            c.spec_store_max() == state_config.max_checkpoints,
            c.spec_handles_max() == state_config.max_checkpoints,
    {
        let max = state_config.max_checkpoints;
        let memory = Memory::new(memory_config);
        let state_store = StateStore::new(state_config.directory, max);
        let checkpoint_manager = CheckpointManager::new(max);
        let c = Cortex {
            memory,
            state_store,
            checkpoint_manager,
            messages: Vec::new(),
            chat_template: ChatTemplate::Llama3,
        };
        proof {
            assert(messages_model(c.messages@) =~= Seq::<MessageModel>::empty());
        }
        c
    }

    /// Use the given chat template.
    pub fn with_template(self, template: ChatTemplate) -> (c: Self)
        ensures
            c@ == self@,
            c.wf() == self.wf(),
            c.spec_template() == template,
    {
        Cortex { chat_template: template, ..self }
    }

    /// The store of checkpoint records, for callers that mirror records
    /// to disk.
    pub fn state_store(&self) -> (r: &StateStore)
        ensures
            r@ == self@.store,
    {
        &self.state_store
    }

    /// The conversation history.
    pub fn messages(&self) -> (r: &[Message])
        ensures
            messages_model(r@) == self@.messages,
    {
        self.messages.as_slice()
    }

    /// Clear the conversation history.
    pub fn clear_messages(&mut self)
        requires
            old(self).wf(),
        ensures
            final(self).wf(),
            final(self)@.messages == Seq::<MessageModel>::empty(),
            final(self)@.memory == old(self)@.memory,
            final(self)@.store == old(self)@.store,
            final(self)@.handles == old(self)@.handles,
            final(self).spec_template() == old(self).spec_template(),
    {
        self.messages.clear();
        proof {
            assert(messages_model(self.messages@) =~= Seq::<MessageModel>::empty());
        }
    }

    /// Write to memory under the given key, with the embedding the caller
    /// obtained for the content.
    pub fn remember(&mut self, key: &str, content: &str, embedding: Vec<i32>) -> (r: Result<
        (),
        CortexError,
    >)
        requires
            old(self).wf(),
        ensures
            final(self).wf(),
            final(self)@.store == old(self)@.store,
            final(self)@.handles == old(self)@.handles,
            final(self)@.messages == old(self)@.messages,
            final(self).spec_template() == old(self).spec_template(),
            final(self).spec_dim() == old(self).spec_dim(),
            final(self).spec_mem_max() == old(self).spec_mem_max(),
            r is Ok <==> embedding@.len() == old(self).spec_dim(),
            r is Ok ==> exists|t: u64|
                final(self)@.memory == write_model(
                    old(self)@.memory,
                    #[trigger] entry_model(key@, content@, embedding@, Seq::empty(), t),
                    old(self).spec_mem_max(),
                ),
            r is Err ==> final(self)@.memory == old(self)@.memory,
    {
        let r = self.memory.write(key, content, embedding);
        proof {
            if r is Ok {
                let t = choose|t: u64|
                    self.memory@ == write_model(
                        old(self).memory@,
                        #[trigger] entry_model(key@, content@, embedding@, Seq::empty(), t),
                        old(self).memory.spec_max_entries(),
                    );
                assert(self@.memory == write_model(
                    old(self)@.memory,
                    entry_model(key@, content@, embedding@, Seq::empty(), t),
                    old(self).spec_mem_max(),
                ));
            }
        }
        r
    }

    /// Search memory with the embedding the caller obtained for its query,
    /// returning the matching contents, best first.
    pub fn recall(&self, query_embedding: &[i32], k: usize) -> (r: Vec<String>)
        ensures
            exists|res: Seq<crate::vector::ResultModel>|
                {
                    &&& #[trigger] search_post(
                        self@.memory,
                        query_embedding@,
                        k,
                        self.spec_threshold(),
                        res,
                    )
                    &&& r@.len() == res.len()
                    &&& forall|i: int| 0 <= i < res.len() ==> #[trigger] r@[i]@ == res[i].entry.content
                },
    {
        let results = self.memory.search(query_embedding, k);
        let ghost res = results_model(results@);
        let n = results.len();
        let mut out: Vec<String> = Vec::new();
        let mut i: usize = 0;
        while i < n
            invariant
                n == results@.len(),
                res == results_model(results@),
                0 <= i <= n,
                out@.len() == i,
                forall|j: int| 0 <= j < i ==> #[trigger] out@[j]@ == res[j].entry.content,
            decreases n - i,
        {
            out.push(results[i].entry.content.clone());
            i = i + 1;
        }
        proof {
            assert(search_post(
                self@.memory,
                query_embedding@,
                k,
                self.spec_threshold(),
                results_model(results@),
            ));
        }
        out
    }

    /// Begin a chat turn: append the new messages to the history and
    /// return the formatted prompt for the engine.
    pub fn begin_chat(&mut self, messages: &[Message]) -> (prompt: String)
        requires
            old(self).wf(),
        ensures
            final(self).wf(),
            final(self)@.messages == old(self)@.messages + messages_model(messages@),
            final(self)@.memory == old(self)@.memory,
            final(self)@.store == old(self)@.store,
            final(self)@.handles == old(self)@.handles,
            final(self).spec_template() == old(self).spec_template(),
            prompt@ == spec_chat_prompt(final(self)@.messages, old(self).spec_template()),
    {
        let n = messages.len();
        let mut i: usize = 0;
        proof {
            assert(messages_model(self.messages@) =~= old(self)@.messages + messages_model(
                messages@.take(0),
            ));
        }
        while i < n
            invariant
                n == messages@.len(),
                0 <= i <= n,
                self.memory == old(self).memory,
                self.state_store == old(self).state_store,
                self.checkpoint_manager == old(self).checkpoint_manager,
                self.chat_template == old(self).chat_template,
                messages_model(self.messages@) == old(self)@.messages + messages_model(
                    messages@.take(i as int),
                ),
            decreases n - i,
        {
            let ghost prev = self.messages@;
            self.messages.push(messages[i].duplicate());
            proof {
                assert(messages_model(self.messages@) =~= messages_model(prev).push(
                    messages@[i as int]@,
                ));
                assert(messages_model(messages@.take(i + 1)) =~= messages_model(
                    messages@.take(i as int),
                ).push(messages@[i as int]@));
                assert(messages_model(self.messages@) =~= old(self)@.messages + messages_model(
                    messages@.take(i + 1),
                ));
            }
            i = i + 1;
        }
        proof {
            assert(messages@.take(n as int) =~= messages@);
        }
        format_chat_prompt(self.messages.as_slice(), self.chat_template)
    }

    /// Finish a chat turn: append the engine's reply to the history as an
    /// assistant message.
    pub fn finish_chat(&mut self, response: &str)
        requires
            old(self).wf(),
        ensures
            final(self).wf(),
            final(self)@.messages == old(self)@.messages.push(
                MessageModel { role: Role::Assistant, content: response@, name: None },
            ),
            final(self)@.memory == old(self)@.memory,
            final(self)@.store == old(self)@.store,
            final(self)@.handles == old(self)@.handles,
            final(self).spec_template() == old(self).spec_template(),
    {
        let ghost prev = self.messages@;
        self.messages.push(Message::assistant(response));
        proof {
            assert(messages_model(self.messages@) =~= messages_model(prev).push(
                MessageModel { role: Role::Assistant, content: response@, name: None },
            ));
        }
    }

    /// Create a checkpoint of the current state, carrying the engine state
    /// the caller obtained from its engine. The record is registered in
    /// the store and its handle in the index, both under bounded retention.
    pub fn checkpoint(&mut self, engine_state: EngineState) -> (r: Result<Checkpoint, CortexError>)
        requires
            old(self).wf(),
        ensures
            final(self).wf(),
            r is Ok,
            final(self)@.memory == old(self)@.memory,
            final(self)@.messages == old(self)@.messages,
            final(self).spec_template() == old(self).spec_template(),
            final(self).spec_dim() == old(self).spec_dim(),
            final(self).spec_mem_max() == old(self).spec_mem_max(),
            exists|rec: RuntimeStateModel|
                {
                    &&& #[trigger] snapshot_rec(
                        old(self)@.memory,
                        old(self).spec_dim(),
                        old(self).spec_mem_max(),
                        old(self)@.messages,
                        engine_state@,
                        None,
                        rec,
                    )
                    &&& final(self)@.store == save_model(
                        old(self)@.store,
                        rec,
                        old(self).spec_store_max(),
                    )
                    &&& final(self)@.handles == evict_handles_to(
                        old(self)@.handles.push(handle_of(rec)),
                        old(self).spec_handles_max(),
                    )
                    &&& r->Ok_0@ == handle_of(rec)
                },
    {
        let state = RuntimeState::new(
            copy_messages(&self.messages),
            self.memory.get_state(),
            engine_state,
        );
        let checkpoint = Checkpoint::from_state(&state);
        let ghost rec = state@;
        self.checkpoint_manager.record(checkpoint.duplicate());
        match self.state_store.save(state) {
            Ok(_) => {
                proof {
                    assert(snapshot_rec(
                        old(self)@.memory,
                        old(self).spec_dim(),
                        old(self).spec_mem_max(),
                        old(self)@.messages,
                        engine_state@,
                        None,
                        rec,
                    ));
                }
                Ok(checkpoint)
            },
            Err(e) => {
                proof {
                    assert(false);
                }
                Err(e)
            },
        }
    }

    /// Create a named checkpoint.
    pub fn checkpoint_named(&mut self, name: &str, engine_state: EngineState) -> (r: Result<
        Checkpoint,
        CortexError,
    >)
        requires
            old(self).wf(),
        ensures
            final(self).wf(),
            r is Ok,
            final(self)@.memory == old(self)@.memory,
            final(self)@.messages == old(self)@.messages,
            final(self).spec_template() == old(self).spec_template(),
            exists|rec: RuntimeStateModel|
                {
                    &&& #[trigger] snapshot_rec(
                        old(self)@.memory,
                        old(self).spec_dim(),
                        old(self).spec_mem_max(),
                        old(self)@.messages,
                        engine_state@,
                        Some(name@),
                        rec,
                    )
                    &&& final(self)@.store == save_model(
                        old(self)@.store,
                        rec,
                        old(self).spec_store_max(),
                    )
                    &&& final(self)@.handles == evict_handles_to(
                        old(self)@.handles.push(handle_of(rec)),
                        old(self).spec_handles_max(),
                    )
                    &&& r->Ok_0@ == handle_of(rec)
                },
    {
        let state = RuntimeState::new(
            copy_messages(&self.messages),
            self.memory.get_state(),
            engine_state,
        ).with_name(name);
        let checkpoint = Checkpoint::from_state(&state);
        let ghost rec = state@;
        self.checkpoint_manager.record(checkpoint.duplicate());
        match self.state_store.save(state) {
            Ok(_) => {
                proof {
                    assert(snapshot_rec(
                        old(self)@.memory,
                        old(self).spec_dim(),
                        old(self).spec_mem_max(),
                        old(self)@.messages,
                        engine_state@,
                        Some(name@),
                        rec,
                    ));
                }
                Ok(checkpoint)
            },
            Err(e) => {
                proof {
                    assert(false);
                }
                Err(e)
            },
        }
    }

    /// Register a caller-built record as a checkpoint. This is the entry
    /// point for callers that mirror records to disk: they build the
    /// record with [`Cortex::snapshot`], write its bytes to a file, and
    /// register it only once the write has succeeded, so a failed write
    /// leaves the in-memory store untouched.
    pub fn adopt_checkpoint(&mut self, state: RuntimeState) -> (r: Checkpoint)
        requires
            old(self).wf(),
        ensures
            final(self).wf(),
            final(self)@.memory == old(self)@.memory,
            final(self)@.messages == old(self)@.messages,
            final(self).spec_template() == old(self).spec_template(),
            final(self)@.store == save_model(old(self)@.store, state@, old(self).spec_store_max()),
            final(self)@.handles == evict_handles_to(
                old(self)@.handles.push(handle_of(state@)),
                old(self).spec_handles_max(),
            ),
            r@ == handle_of(state@),
    {
        let checkpoint = Checkpoint::from_state(&state);
        self.checkpoint_manager.record(checkpoint.duplicate());
        match self.state_store.save(state) {
            Ok(_) => checkpoint,
            Err(_) => {
                proof {
                    assert(false);
                }
                checkpoint
            },
        }
    }

    /// Build the record a checkpoint would save: the conversation and
    /// memory as they stand, the given engine state, a fresh id and the
    /// current time.
    pub fn snapshot(&self, engine_state: EngineState) -> (s: RuntimeState)
        ensures
            snapshot_rec(
                self@.memory,
                self.spec_dim(),
                self.spec_mem_max(),
                self@.messages,
                engine_state@,
                None,
                s@,
            ),
    {
        RuntimeState::new(copy_messages(&self.messages), self.memory.get_state(), engine_state)
    }

    /// Restore conversation and memory from a checkpoint handle; returns
    /// the engine state for the caller to hand back to its engine.
    pub fn restore(&mut self, checkpoint: &Checkpoint) -> (r: Result<EngineState, CortexError>)
        requires
            old(self).wf(),
        ensures
            final(self).wf(),
            r is Ok <==> contains_id(old(self)@.store, checkpoint@.id),
            final(self)@.store == old(self)@.store,
            final(self)@.handles == old(self)@.handles,
            final(self).spec_template() == old(self).spec_template(),
            match r {
                Ok(es) => exists|i: int|
                    {
                        &&& 0 <= i < old(self)@.store.len()
                        &&& #[trigger] old(self)@.store[i].id == checkpoint@.id
                        &&& restored_from(final(self)@, old(self)@.store[i], es@)
                    },
                Err(e) => {
                    &&& e matches CortexError::InvalidCheckpoint(msg) && msg@ == checkpoint@.id
                    &&& final(self)@ == old(self)@
                },
            },
    {
        let id = checkpoint.id.clone();
        self.restore_id(id.as_str())
    }

    /// Restore conversation and memory from a checkpoint id.
    pub fn restore_id(&mut self, id: &str) -> (r: Result<EngineState, CortexError>)
        requires
            old(self).wf(),
        ensures
            final(self).wf(),
            r is Ok <==> contains_id(old(self)@.store, id@),
            final(self)@.store == old(self)@.store,
            final(self)@.handles == old(self)@.handles,
            final(self).spec_template() == old(self).spec_template(),
            match r {
                Ok(es) => exists|i: int|
                    {
                        &&& 0 <= i < old(self)@.store.len()
                        &&& #[trigger] old(self)@.store[i].id == id@
                        &&& restored_from(final(self)@, old(self)@.store[i], es@)
                    },
                Err(e) => {
                    &&& e matches CortexError::InvalidCheckpoint(msg) && msg@ == id@
                    &&& final(self)@ == old(self)@
                },
            },
    {
        match self.state_store.load(id) {
            Ok(state) => {
                let es = self.restore_record(state);
                Ok(es)
            },
            Err(e) => Err(e),
        }
    }

    /// Restore conversation and memory directly from a record, as a
    /// caller does after reading a checkpoint file; returns the engine
    /// state for the caller to hand back to its engine.
    pub fn restore_record(&mut self, state: RuntimeState) -> (r: EngineState)
        requires
            old(self).wf(),
        ensures
            final(self).wf(),
            final(self)@.store == old(self)@.store,
            final(self)@.handles == old(self)@.handles,
            final(self).spec_template() == old(self).spec_template(),
            restored_from(final(self)@, state@, r@),
    {
        let RuntimeState { messages, memory, engine_state, .. } = state;
        self.messages = messages;
        self.memory.set_state(memory);
        engine_state
    }

    /// Create a branch from the current state: checkpoints it, then forks
    /// an independent copy of the stored record. Fails only when the
    /// store's retention limit is 0, so that nothing is retained.
    pub fn branch(&mut self, engine_state: EngineState) -> (r: Result<Branch, CortexError>)
        requires
            old(self).wf(),
        ensures
            final(self).wf(),
            final(self)@.memory == old(self)@.memory,
            final(self)@.messages == old(self)@.messages,
            final(self).spec_template() == old(self).spec_template(),
            exists|rec: RuntimeStateModel|
                {
                    &&& #[trigger] snapshot_rec(
                        old(self)@.memory,
                        old(self).spec_dim(),
                        old(self).spec_mem_max(),
                        old(self)@.messages,
                        engine_state@,
                        None,
                        rec,
                    )
                    &&& final(self)@.store == save_model(
                        old(self)@.store,
                        rec,
                        old(self).spec_store_max(),
                    )
                    &&& final(self)@.handles == evict_handles_to(
                        old(self)@.handles.push(handle_of(rec)),
                        old(self).spec_handles_max(),
                    )
                    &&& match r {
                        Ok(b) => {
                            &&& contains_id(final(self)@.store, rec.id)
                            &&& b@.parent_id == rec.id
                            &&& b@.id.len() == 36
                            &&& b@.state == final(self)@.store[id_index(
                                final(self)@.store,
                                rec.id,
                            )]
                        },
                        Err(e) => {
                            &&& !contains_id(final(self)@.store, rec.id)
                            &&& e matches CortexError::InvalidCheckpoint(_)
                        },
                    }
                },
    {
        let checkpoint = self.checkpoint(engine_state);
        match checkpoint {
            Ok(ck) => {
                proof {
                    self.state_store.lemma_wf_facts();
                }
                match self.state_store.load(ck.id.as_str()) {
                    Ok(state) => {
                        proof {
                            let st = self@.store;
                            let w0 = choose|i: int|
                                0 <= i < st.len() && #[trigger] st[i].id == ck@.id && state@
                                    == st[i];
                            let w = id_index(st, ck@.id);
                            assert(st[w].id == ck@.id);
                            assert(w == w0);
                        }
                        Ok(Branch::new(ck.id, state))
                    },
                    Err(e) => Err(e),
                }
            },
            Err(e) => {
                proof {
                    assert(false);
                }
                Err(e)
            },
        }
    }

    /// The most recent checkpoint handle, if any.
    pub fn latest_checkpoint(&self) -> (r: Option<&Checkpoint>)
        ensures
            r is Some <==> self@.handles.len() > 0,
            match r {
                Some(c) => c@ == self@.handles.last(),
                None => true,
            },
    {
        self.checkpoint_manager.latest()
    }

    /// All retained checkpoint handles, oldest first.
    pub fn checkpoints(&self) -> (r: &[Checkpoint])
        ensures
            crate::checkpoint::handles_model(r@) == self@.handles,
    {
        self.checkpoint_manager.list()
    }
}

/// Checkpointing then immediately restoring reproduces the exact message
/// list and memory entry sequence present at checkpoint time, whatever the
/// store held before and whatever else happened in between — the
/// intervening operations' contracts keep the store unchanged, the saved
/// record is found again under its id, and replaying its well-formed
/// memory snapshot reproduces the entries exactly.
pub proof fn lemma_checkpoint_then_restore(
    store0: Seq<RuntimeStateModel>,
    rec: RuntimeStateModel,
    max: usize,
    c1: CortexModel,
    es: EngineStateModel,
)
    requires
        max >= 1,
        unique_ids(store0),
        store0.len() <= max,
        unique_keys(rec.memory.entries),
        rec.memory.entries.len() <= spec_capacity(rec.memory.max_entries),
        // c1 is the runtime after restoring the record that the store,
        // after the checkpoint's save, holds under the record's id
        restored_from(
            c1,
            save_model(store0, rec, max)[id_index(save_model(store0, rec, max), rec.id)],
            es,
        ),
    ensures
        c1.messages == rec.messages,
        c1.memory == rec.memory.entries,
        es == rec.engine_state,
{
    lemma_checkpoint_restore(store0, rec, max);
    lemma_restore_exact(rec.memory.entries, rec.memory.max_entries);
}

/// The general checkpoint/restore law: after a checkpoint, any number of
/// memory or conversation mutations (which leave the store untouched, per
/// their contracts), and fewer newer checkpoints with fresh ids than the
/// retention limit allows, a restore by the original checkpoint's id still
/// succeeds and reproduces the exact message list and memory entry
/// sequence captured at checkpoint time.
pub proof fn lemma_checkpoint_survives_saves(
    store0: Seq<RuntimeStateModel>,
    rec: RuntimeStateModel,
    laters: Seq<RuntimeStateModel>,
    max: usize,
    c1: CortexModel,
    es: EngineStateModel,
)
    requires
        max >= 1,
        unique_ids(store0),
        store0.len() <= max,
        unique_ids(laters),
        forall|j: int| 0 <= j < laters.len() ==> !contains_id(store0, #[trigger] laters[j].id),
        forall|j: int| 0 <= j < laters.len() ==> #[trigger] laters[j].id != rec.id,
        laters.len() + 1 <= max,
        unique_keys(rec.memory.entries),
        rec.memory.entries.len() <= spec_capacity(rec.memory.max_entries),
        // c1 is the runtime after restoring whatever the store holds under
        // the checkpoint's id once the later records have been saved
        ({
            let f = save_all_from(save_model(store0, rec, max), laters, max);
            restored_from(c1, f[id_index(f, rec.id)], es)
        }),
    ensures
        ({
            let f = save_all_from(save_model(store0, rec, max), laters, max);
            &&& contains_id(f, rec.id)
            &&& c1.messages == rec.messages
            &&& c1.memory == rec.memory.entries
            &&& es == rec.engine_state
        }),
{
    lemma_checkpoint_restore(store0, rec, max);
    let s1 = save_model(store0, rec, max);
    // the later ids are fresh for the saved store as well: each of its
    // records either came from the old store or is the checkpoint itself
    assert forall|j: int| 0 <= j < laters.len() implies !contains_id(
        s1,
        #[trigger] laters[j].id,
    ) by {
        if contains_id(s1, laters[j].id) {
            let w = id_index(s1, laters[j].id);
            assert(s1[w].id == laters[j].id);
            let b = crate::state::remove_id(store0, rec.id);
            let pushed = b.push(rec);
            let drop = if pushed.len() <= max {
                0int
            } else {
                pushed.len() - max
            };
            assert(s1 == crate::state::evict_to(pushed, max));
            assert(s1 =~= pushed.skip(drop)) by {
                if drop == 0 {
                    assert(pushed.skip(0) =~= pushed);
                }
            }
            assert(s1[w] == pushed[w + drop]);
            if w + drop < b.len() {
                assert(pushed[w + drop] == b[w + drop]);
                if contains_id(store0, rec.id) {
                    let ri = id_index(store0, rec.id);
                    let w0 = if w + drop < ri {
                        w + drop
                    } else {
                        w + drop + 1
                    };
                    assert(b[w + drop] == store0[w0]);
                    assert(contains_id(store0, laters[j].id));
                } else {
                    assert(b[w + drop] == store0[w + drop]);
                    assert(contains_id(store0, laters[j].id));
                }
            } else {
                assert(pushed[w + drop] == rec);
            }
        }
    }
    // the checkpoint sits at the end of the saved store, so it survives
    // the later saves
    lemma_saves_keep_recent(s1, laters, max, s1.len() - 1);
    assert(s1[s1.len() - 1] == rec);
    lemma_restore_exact(rec.memory.entries, rec.memory.max_entries);
}

/// What a restore establishes: the conversation is the record's message
/// list, the memory is the record's snapshot replayed (for a well-formed
/// snapshot, exactly its entry sequence), and the returned engine state is
/// the record's.
pub open spec fn restored_from(
    c: CortexModel,
    rec: RuntimeStateModel,
    es: EngineStateModel,
) -> bool {
    &&& c.messages == rec.messages
    &&& c.memory == restore_model(rec.memory.entries, rec.memory.max_entries)
    &&& es == rec.engine_state
}

} // verus!
