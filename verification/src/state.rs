//! Runtime state records and the checkpoint store.
//!
//! A [`RuntimeState`] is an immutable-once-built snapshot of the
//! conversation, the memory contents and the engine state, identified by a
//! generated id. A [`StateStore`] keeps records in memory, in insertion
//! order, with bounded retention: when the count exceeds the limit the
//! oldest records are evicted. Disk mirroring is the caller's concern; the
//! store carries the configured directory as data.

use vstd::prelude::*;
use crate::codec::{
    dec_runtime_state, enc_runtime_state, runtime_state_ok, spec_dec_runtime_state,
    spec_enc_runtime_state,
};
use crate::engine::{EngineState, EngineStateModel};
use crate::memory::{MemoryState, MemoryStateModel};
use crate::sys::{fresh_id, now_unix_seconds};
use crate::vector::{copy_metadata, pairs_model};
use crate::{messages_model, CortexError, Message, MessageModel};

verus! {

/// Mathematical model of a [`RuntimeState`].
pub ghost struct RuntimeStateModel {
    pub id: Seq<char>,
    pub name: Option<Seq<char>>,
    pub messages: Seq<MessageModel>,
    pub memory: MemoryStateModel,
    pub engine_state: EngineStateModel,
    pub created_at: u64,
    pub metadata: Seq<(Seq<char>, Seq<char>)>,
}

/// Complete runtime state that can be checkpointed.
#[derive(Debug)]
pub struct RuntimeState {
    /// Unique checkpoint id.
    pub id: String,
    /// Optional human-readable name.
    pub name: Option<String>,
    /// Conversation history.
    pub messages: Vec<Message>,
    /// Memory snapshot.
    pub memory: MemoryState,
    /// Engine state blob.
    pub engine_state: EngineState,
    /// Creation timestamp (unix epoch seconds).
    pub created_at: u64,
    /// Custom metadata pairs.
    pub metadata: Vec<(String, String)>,
}

impl View for RuntimeState {
    type V = RuntimeStateModel;

    open spec fn view(&self) -> RuntimeStateModel {
        RuntimeStateModel {
            id: self.id@,
            name: match self.name {
                Some(ref n) => Some(n@),
                None => None,
            },
            messages: messages_model(self.messages@),
            memory: self.memory@,
            engine_state: self.engine_state@,
            created_at: self.created_at,
            metadata: pairs_model(self.metadata@),
        }
    }
}

/// An independent copy of a message vector, model-preserving.
pub fn copy_messages(v: &Vec<Message>) -> (r: Vec<Message>)
    ensures
        messages_model(r@) == messages_model(v@),
{
    let mut r: Vec<Message> = Vec::new();
    let mut i: usize = 0;
    while i < v.len()
        invariant
            0 <= i <= v@.len(),
            messages_model(r@) == messages_model(v@.take(i as int)),
        decreases v@.len() - i,
    {
        let ghost prev = r@;
        r.push(v[i].duplicate());
        proof {
            assert(messages_model(r@) =~= messages_model(prev).push(v@[i as int]@));
            assert(messages_model(v@.take(i + 1)) =~= messages_model(v@.take(i as int)).push(
                v@[i as int]@,
            ));
        }
        i = i + 1;
    }
    proof {
        assert(v@.take(v@.len() as int) =~= v@);
    }
    r
}

impl RuntimeState {
    /// Create a new record with a fresh generated id, the current time, no
    /// name and no metadata.
    pub fn new(messages: Vec<Message>, memory: MemoryState, engine_state: EngineState) -> (s: Self)
        ensures
            s@.id.len() == 36,
            s@.name is None,
            s@.messages == messages_model(messages@),
            s@.memory == memory@,
            s@.engine_state == engine_state@,
            s@.metadata == Seq::<(Seq<char>, Seq<char>)>::empty(),
    {
        let metadata: Vec<(String, String)> = Vec::new();
        proof {
            assert(pairs_model(metadata@) =~= Seq::<(Seq<char>, Seq<char>)>::empty());
        }
        RuntimeState {
            id: fresh_id(),
            name: None,
            messages,
            memory,
            engine_state,
            created_at: now_unix_seconds(),
            metadata,
        }
    }

    /// Attach a human-readable name.
    pub fn with_name(self, name: &str) -> (s: Self)
        ensures
            s@.name == Some(name@),
            s@.id == self@.id,
            s@.messages == self@.messages,
            s@.memory == self@.memory,
            s@.engine_state == self@.engine_state,
            s@.created_at == self@.created_at,
            s@.metadata == self@.metadata,
    {
        RuntimeState { name: Some(name.to_owned()), ..self }
    }

    /// An independent copy of this record.
    pub fn duplicate(&self) -> (r: RuntimeState)
        ensures
            r@ == self@,
    {
        RuntimeState {
            id: self.id.clone(),
            name: match self.name {
                Some(ref n) => Some(n.clone()),
                None => None,
            },
            messages: copy_messages(&self.messages),
            memory: self.memory.duplicate(),
            engine_state: self.engine_state.duplicate(),
            created_at: self.created_at,
            metadata: copy_metadata(&self.metadata),
        }
    }
}

impl RuntimeState {
    /// Serialize this record to checkpoint-file bytes; the caller writes
    /// them to one file per checkpoint id.
    pub fn encode(&self) -> (r: Vec<u8>)
        ensures
            r@ == spec_enc_runtime_state(self@),
            runtime_state_ok(self@),
    {
        enc_runtime_state(self)
    }

    /// Rebuild a record from checkpoint-file bytes. Fails with a
    /// `Serialization` error exactly when the bytes do not decode as a
    /// record; there is no partial load.
    pub fn decode(bytes: &[u8]) -> (r: Result<RuntimeState, CortexError>)
        ensures
            r is Ok <==> spec_dec_runtime_state(bytes@, 0) is Some,
            match r {
                Ok(s) => s@ == spec_dec_runtime_state(bytes@, 0)->Some_0.0,
                Err(e) => e matches CortexError::Serialization(_),
            },
    {
        match dec_runtime_state(bytes, 0) {
            Some((s, _)) => Ok(s),
            None => Err(CortexError::Serialization("not a checkpoint record".to_owned())),
        }
    }
}

/// Record ids are pairwise distinct.
pub open spec fn unique_ids(s: Seq<RuntimeStateModel>) -> bool {
    forall|i: int, j: int| 0 <= i < j < s.len() ==> #[trigger] s[i].id != #[trigger] s[j].id
}

/// Some record has the given id.
pub open spec fn contains_id(s: Seq<RuntimeStateModel>, id: Seq<char>) -> bool {
    exists|i: int| 0 <= i < s.len() && #[trigger] s[i].id == id
}

/// The index of the record with the given id (unique when ids are unique).
pub open spec fn id_index(s: Seq<RuntimeStateModel>, id: Seq<char>) -> int {
    choose|i: int| 0 <= i < s.len() && #[trigger] s[i].id == id
}

/// The sequence with the record of the given id removed, or unchanged when
/// the id is absent.
pub open spec fn remove_id(s: Seq<RuntimeStateModel>, id: Seq<char>) -> Seq<RuntimeStateModel> {
    if contains_id(s, id) {
        s.remove(id_index(s, id))
    } else {
        s
    }
}

/// Retention: when the count exceeds the limit, drop records from the
/// front (oldest first) until exactly `max` remain.
pub open spec fn evict_to(s: Seq<RuntimeStateModel>, max: usize) -> Seq<RuntimeStateModel> {
    if s.len() <= max {
        s
    } else {
        s.skip(s.len() - max)
    }
}

/// The store contents after a save: any record with the same id is
/// replaced, the record is registered at the end, then retention applies.
pub open spec fn save_model(
    s: Seq<RuntimeStateModel>,
    r: RuntimeStateModel,
    max: usize,
) -> Seq<RuntimeStateModel> {
    evict_to(remove_id(s, r.id).push(r), max)
}

/// State store for managing checkpoints.
#[derive(Debug)]
pub struct StateStore {
    /// Retained records, oldest first, ids unique.
    records: Vec<RuntimeState>,
    /// Configured persistence directory, if any (the caller performs the
    /// file I/O; the store only carries the value).
    persist_dir: Option<String>,
    /// Maximum number of checkpoints to keep.
    max_checkpoints: usize,
}

impl View for StateStore {
    type V = Seq<RuntimeStateModel>;

    closed spec fn view(&self) -> Seq<RuntimeStateModel> {
        self.records@.map_values(|r: RuntimeState| r@)
    }
}

impl StateStore {
    /// The configured retention limit.
    pub closed spec fn spec_max(&self) -> usize {
        self.max_checkpoints
    }

    /// The configured persistence directory.
    pub closed spec fn spec_dir(&self) -> Option<Seq<char>> {
        match self.persist_dir {
            Some(ref d) => Some(d@),
            None => None,
        }
    }

    /// Well-formedness: within the retention limit, ids unique.
    pub closed spec fn wf(&self) -> bool {
        &&& self@.len() <= self.max_checkpoints
        &&& unique_ids(self@)
    }

    /// What well-formedness guarantees, stated over the public model.
    pub proof fn lemma_wf_facts(&self)
        requires
            self.wf(),
        ensures
            self@.len() <= self.spec_max(),
            unique_ids(self@),
    {
    }

    /// Create a new state store.
    pub fn new(persist_dir: Option<String>, max_checkpoints: usize) -> (s: Self)
        ensures
            s@ == Seq::<RuntimeStateModel>::empty(),
            s.spec_max() == max_checkpoints,
            s.spec_dir() == match persist_dir {
                Some(d) => Some(d@),
                None => None::<Seq<char>>,
            },
            s.wf(),
    {
        let s = StateStore { records: Vec::new(), persist_dir, max_checkpoints };
        proof {
            assert(s@ =~= Seq::<RuntimeStateModel>::empty());
        }
        s
    }

    /// The configured persistence directory, for callers that mirror
    /// records to disk.
    pub fn persist_dir(&self) -> (r: &Option<String>)
        ensures
            self.spec_dir() == match r {
                Some(d) => Some(d@),
                None => None::<Seq<char>>,
            },
    {
        &self.persist_dir
    }

    /// Save a checkpoint: replaces any record with the same id, registers
    /// the record at the end of the insertion order, then evicts the
    /// oldest records while the count exceeds the retention limit. Returns
    /// the record's id. The in-memory save itself cannot fail; callers
    /// that mirror to disk perform the file write before calling this.
    pub fn save(&mut self, state: RuntimeState) -> (r: Result<String, CortexError>)
        requires
            old(self).wf(),
        ensures
            final(self).wf(),
            final(self).spec_max() == old(self).spec_max(),
            final(self).spec_dir() == old(self).spec_dir(),
            final(self)@ == save_model(old(self)@, state@, old(self).spec_max()),
            r matches Ok(id) && id@ == state@.id,
    {
        let id = state.id.clone();
        self.remove_by_id(&id);
        let ghost mid = self@;
        self.records.push(state);
        proof {
            assert(self@ =~= mid.push(state@));
            assert forall|p: int, q: int|
                0 <= p < q < self@.len() implies #[trigger] self@[p].id != #[trigger] self@[q].id
            by {
                if q == self@.len() - 1 {
                    assert(self@[p] == mid[p]);
                    assert(!contains_id(mid, state@.id));
                    if self@[p].id == state@.id {
                        assert(contains_id(mid, state@.id));
                    }
                }
            }
        }
        let ghost pushed = self@;
        proof {
            assert(pushed.skip(0) =~= pushed);
        }
        while self.records.len() > self.max_checkpoints
            invariant
                unique_ids(pushed),
                self@.len() <= pushed.len(),
                self@ == pushed.skip(pushed.len() - self@.len()),
                self@.len() >= self.max_checkpoints || self@ == pushed,
                self.max_checkpoints == old(self).spec_max(),
                self.spec_dir() == old(self).spec_dir(),
            decreases self@.len(),
        {
            let ghost prev = self@;
            self.records.remove(0);
            proof {
                assert(self@ =~= prev.remove(0));
                let k = pushed.len() - self@.len();
                assert(prev == pushed.skip(k - 1));
                assert(self@ =~= pushed.skip(k)) by {
                    assert(forall|w: int|
                        0 <= w < self@.len() ==> #[trigger] self@[w] == prev[w + 1]);
                }
            }
        }
        proof {
            assert(self@ == evict_to(pushed, self.max_checkpoints)) by {
                if pushed.len() <= self.max_checkpoints {
                    assert(self@ == pushed);
                } else {
                    assert(self@.len() == self.max_checkpoints);
                }
            }
            assert(unique_ids(self@)) by {
                let k = pushed.len() - self@.len();
                assert forall|p: int, q: int|
                    0 <= p < q < self@.len() implies #[trigger] self@[p].id
                    != #[trigger] self@[q].id by {
                    assert(self@[p] == pushed[p + k] && self@[q] == pushed[q + k]);
                }
            }
        }
        Ok(id)
    }

    /// Remove the record with the given id, if any; used by save and
    /// delete for in-memory bookkeeping.
    fn remove_by_id(&mut self, id: &str) -> (removed: bool)
        requires
            old(self).wf(),
        ensures
            removed == contains_id(old(self)@, id@),
            final(self)@ == remove_id(old(self)@, id@),
            !contains_id(final(self)@, id@),
            final(self).spec_max() == old(self).spec_max(),
            final(self).spec_dir() == old(self).spec_dir(),
            final(self).wf(),
    {
        let ghost old_view = self@;
        let owned: String = id.to_owned();
        let n = self.records.len();
        let mut found: Option<usize> = None;
        let mut i: usize = 0;
        while i < n && found.is_none()
            invariant
                n == old_view.len(),
                old_view == self@,
                0 <= i <= n,
                owned@ == id@,
                match found {
                    Some(idx) => idx < n && old_view[idx as int].id == id@,
                    None => forall|j: int| 0 <= j < i ==> #[trigger] old_view[j].id != id@,
                },
            decreases n - i, (if found is None {
                1int
            } else {
                0int
            }),
        {
            if self.records[i].id == owned {
                found = Some(i);
            } else {
                i = i + 1;
            }
        }
        match found {
            Some(idx) => {
                proof {
                    assert(contains_id(old_view, id@));
                    let w = id_index(old_view, id@);
                    assert(old_view[w].id == id@);
                    assert(w == idx) by {
                        assert(unique_ids(old_view));
                    }
                }
                self.records.remove(idx);
                proof {
                    assert(self@ =~= old_view.remove(idx as int));
                    assert forall|p: int, q: int|
                        0 <= p < q < self@.len() implies #[trigger] self@[p].id
                        != #[trigger] self@[q].id by {
                        let p0 = if p < idx {
                            p
                        } else {
                            p + 1
                        };
                        let q0 = if q < idx {
                            q
                        } else {
                            q + 1
                        };
                        assert(self@[p] == old_view[p0] && self@[q] == old_view[q0]);
                        assert(unique_ids(old_view));
                    }
                    assert(!contains_id(self@, id@)) by {
                        if contains_id(self@, id@) {
                            let w2 = id_index(self@, id@);
                            assert(self@[w2].id == id@);
                            let w0 = if w2 < idx {
                                w2
                            } else {
                                w2 + 1
                            };
                            assert(self@[w2] == old_view[w0]);
                            assert(unique_ids(old_view));
                        }
                    }
                }
                true
            },
            None => {
                proof {
                    assert(i == n);
                    assert(!contains_id(old_view, id@));
                }
                false
            },
        }
    }

    /// Load a checkpoint by id: a copy of the in-memory record, or an
    /// `InvalidCheckpoint` error carrying the id when it is absent.
    /// Callers that mirror to disk may fall back to a file read on a miss.
    pub fn load(&self, id: &str) -> (r: Result<RuntimeState, CortexError>)
        ensures
            r is Ok <==> contains_id(self@, id@),
            match r {
                Ok(s) => exists|i: int|
                    0 <= i < self@.len() && #[trigger] self@[i].id == id@ && s@ == self@[i],
                Err(e) => e matches CortexError::InvalidCheckpoint(msg) && msg@ == id@,
            },
    {
        let owned: String = id.to_owned();
        let n = self.records.len();
        let mut i: usize = 0;
        while i < n
            invariant
                n == self@.len(),
                0 <= i <= n,
                owned@ == id@,
                forall|j: int| 0 <= j < i ==> #[trigger] self@[j].id != id@,
            decreases n - i,
        {
            if self.records[i].id == owned {
                let copy = self.records[i].duplicate();
                proof {
                    assert(self@[i as int].id == id@);
                    assert(contains_id(self@, id@));
                }
                return Ok(copy);
            }
            i = i + 1;
        }
        proof {
            assert(!contains_id(self@, id@)) by {
                if contains_id(self@, id@) {
                    let w = id_index(self@, id@);
                    assert(self@[w].id == id@);
                }
            }
        }
        Err(CortexError::InvalidCheckpoint(owned))
    }

    /// Delete a checkpoint by id; returns whether an in-memory record was
    /// removed. Callers that mirror to disk remove the file as well.
    pub fn delete(&mut self, id: &str) -> (removed: bool)
        requires
            old(self).wf(),
        ensures
            removed == contains_id(old(self)@, id@),
            final(self)@ == remove_id(old(self)@, id@),
            !contains_id(final(self)@, id@),
            final(self).spec_max() == old(self).spec_max(),
            final(self).spec_dir() == old(self).spec_dir(),
            final(self).wf(),
    {
        self.remove_by_id(id)
    }

    /// Whether a record with the given id is retained in memory.
    pub fn contains(&self, id: &str) -> (r: bool)
        ensures
            r == contains_id(self@, id@),
    {
        let owned: String = id.to_owned();
        let n = self.records.len();
        let mut i: usize = 0;
        while i < n
            invariant
                n == self@.len(),
                0 <= i <= n,
                owned@ == id@,
                forall|j: int| 0 <= j < i ==> #[trigger] self@[j].id != id@,
            decreases n - i,
        {
            if self.records[i].id == owned {
                proof {
                    assert(self@[i as int].id == id@);
                }
                return true;
            }
            i = i + 1;
        }
        proof {
            assert(!contains_id(self@, id@)) by {
                if contains_id(self@, id@) {
                    let w = id_index(self@, id@);
                    assert(self@[w].id == id@);
                }
            }
        }
        false
    }

    /// All retained checkpoint ids, oldest first.
    pub fn list(&self) -> (r: Vec<&str>)
        ensures
            r@.len() == self@.len(),
            forall|i: int| 0 <= i < r@.len() ==> #[trigger] r@[i]@ == self@[i].id,
    {
        let n = self.records.len();
        let mut r: Vec<&str> = Vec::new();
        let mut i: usize = 0;
        while i < n
            invariant
                n == self@.len(),
                0 <= i <= n,
                r@.len() == i,
                forall|j: int| 0 <= j < i ==> #[trigger] r@[j]@ == self@[j].id,
            decreases n - i,
        {
            r.push(self.records[i].id.as_str());
            i = i + 1;
        }
        r
    }

    /// The checkpoint-file bytes of a retained record, for callers that
    /// mirror records to disk; `None` when the id is absent.
    pub fn export(&self, id: &str) -> (r: Option<Vec<u8>>)
        ensures
            r is Some <==> contains_id(self@, id@),
            match r {
                Some(b) => exists|i: int|
                    0 <= i < self@.len() && #[trigger] self@[i].id == id@ && b@
                        == spec_enc_runtime_state(self@[i]),
                None => true,
            },
    {
        match self.load(id) {
            Ok(state) => Some(state.encode()),
            Err(_) => None,
        }
    }

    /// Number of retained checkpoints.
    pub fn len(&self) -> (n: usize)
        ensures
            n == self@.len(),
    {
        self.records.len()
    }

    /// Whether no checkpoint is retained.
    pub fn is_empty(&self) -> (b: bool)
        ensures
            b == (self@.len() == 0),
    {
        self.records.len() == 0
    }
}

/// Facts about [`remove_id`] under unique ids: uniqueness is kept and
/// the id is gone.
pub proof fn lemma_remove_id_facts(s: Seq<RuntimeStateModel>, id: Seq<char>)
    requires
        unique_ids(s),
    ensures
        unique_ids(remove_id(s, id)),
        !contains_id(remove_id(s, id), id),
        remove_id(s, id).len() <= s.len(),
{
    if contains_id(s, id) {
        let i = id_index(s, id);
        assert(0 <= i < s.len() && s[i].id == id);
        let r = s.remove(i);
        assert forall|p: int, q: int|
            0 <= p < q < r.len() implies #[trigger] r[p].id != #[trigger] r[q].id by {
            let p0 = if p < i {
                p
            } else {
                p + 1
            };
            let q0 = if q < i {
                q
            } else {
                q + 1
            };
            assert(r[p] == s[p0] && r[q] == s[q0]);
        }
        assert(!contains_id(r, id)) by {
            if contains_id(r, id) {
                let w = id_index(r, id);
                assert(r[w].id == id);
                let w0 = if w < i {
                    w
                } else {
                    w + 1
                };
                assert(r[w] == s[w0]);
            }
        }
    }
}

/// Checkpointing then restoring reproduces the record exactly: after a
/// save into a well-formed store with retention at least 1, the saved
/// record's id is present and looks up to exactly that record, whatever
/// the store held before.
pub proof fn lemma_checkpoint_restore(
    s0: Seq<RuntimeStateModel>,
    rec: RuntimeStateModel,
    max: usize,
)
    requires
        max >= 1,
        unique_ids(s0),
        s0.len() <= max,
    ensures
        ({
            let s1 = save_model(s0, rec, max);
            &&& contains_id(s1, rec.id)
            &&& unique_ids(s1)
            &&& 1 <= s1.len() <= max
            &&& id_index(s1, rec.id) == s1.len() - 1
            &&& s1[id_index(s1, rec.id)] == rec
        }),
{
    let b = remove_id(s0, rec.id);
    lemma_remove_id_facts(s0, rec.id);
    let pushed = b.push(rec);
    assert(unique_ids(pushed)) by {
        assert forall|p: int, q: int|
            0 <= p < q < pushed.len() implies #[trigger] pushed[p].id != #[trigger] pushed[q].id
        by {
            if q == pushed.len() - 1 {
                assert(pushed[p] == b[p]);
                if pushed[p].id == rec.id {
                    assert(contains_id(b, rec.id));
                }
            } else {
                assert(pushed[p] == b[p] && pushed[q] == b[q]);
            }
        }
    }
    let s1 = save_model(s0, rec, max);
    let k = if pushed.len() <= max {
        0int
    } else {
        pushed.len() - max
    };
    assert(s1 == evict_to(pushed, max));
    if pushed.len() <= max {
        assert(s1 == pushed);
        assert(s1.len() >= 1);
        assert(s1.last() == rec);
    } else {
        assert(s1 == pushed.skip(k));
        assert(s1.len() == max >= 1);
        assert(s1.last() == pushed.last());
    }
    assert(unique_ids(s1)) by {
        assert forall|p: int, q: int|
            0 <= p < q < s1.len() implies #[trigger] s1[p].id != #[trigger] s1[q].id by {
            assert(s1[p] == pushed[p + k] && s1[q] == pushed[q + k]);
        }
    }
    assert(s1[s1.len() - 1] == rec);
    assert(contains_id(s1, rec.id)) by {
        assert(s1[s1.len() - 1].id == rec.id);
    }
    let w = id_index(s1, rec.id);
    assert(0 <= w < s1.len() && s1[w].id == rec.id);
    if w != s1.len() - 1 {
        assert(s1[w].id != s1[s1.len() - 1].id);
    }
}

/// Later saves of fresh ids keep an existing record as long as it sits
/// close enough to the end of the insertion order to survive the
/// evictions: a record at distance `d` from the end (`d = len - index`)
/// survives `k` further saves whenever `d + k <= max`, and still looks up
/// to exactly itself afterwards.
pub proof fn lemma_saves_keep_recent(
    s0: Seq<RuntimeStateModel>,
    rs: Seq<RuntimeStateModel>,
    max: usize,
    i: int,
)
    requires
        unique_ids(s0),
        s0.len() <= max,
        unique_ids(rs),
        forall|j: int| 0 <= j < rs.len() ==> !contains_id(s0, #[trigger] rs[j].id),
        0 <= i < s0.len(),
        s0.len() - i + rs.len() <= max,
    ensures
        ({
            let f = save_all_from(s0, rs, max);
            &&& unique_ids(f)
            &&& f.len() <= max
            &&& contains_id(f, s0[i].id)
            &&& f[id_index(f, s0[i].id)] == s0[i]
        }),
    decreases rs.len(),
{
    if rs.len() == 0 {
        assert(save_all_from(s0, rs, max) == s0);
        assert(contains_id(s0, s0[i].id));
        let w = id_index(s0, s0[i].id);
        assert(s0[w].id == s0[i].id);
        assert(w == i);
    } else {
        let r0 = rs[0];
        assert(!contains_id(s0, r0.id));
        assert(remove_id(s0, r0.id) == s0);
        let pushed = s0.push(r0);
        let s1 = save_model(s0, r0, max);
        assert(s1 == evict_to(pushed, max));
        let drop = if pushed.len() <= max {
            0int
        } else {
            pushed.len() - max
        };
        assert(drop == 0 || drop == 1);
        assert(s1 =~= pushed.skip(drop)) by {
            if drop == 0 {
                assert(pushed.skip(0) =~= pushed);
            }
        }
        assert(s1.len() == pushed.len() - drop);
        assert(forall|w: int| 0 <= w < s1.len() ==> #[trigger] s1[w] == pushed[w + drop]);
        assert(unique_ids(pushed)) by {
            assert forall|p: int, q: int|
                0 <= p < q < pushed.len() implies #[trigger] pushed[p].id
                != #[trigger] pushed[q].id by {
                if q == pushed.len() - 1 {
                    assert(pushed[p] == s0[p]);
                    if pushed[p].id == r0.id {
                        assert(contains_id(s0, r0.id));
                    }
                } else {
                    assert(pushed[p] == s0[p] && pushed[q] == s0[q]);
                }
            }
        }
        assert(unique_ids(s1)) by {
            assert forall|p: int, q: int|
                0 <= p < q < s1.len() implies #[trigger] s1[p].id != #[trigger] s1[q].id by {
                assert(s1[p] == pushed[p + drop] && s1[q] == pushed[q + drop]);
            }
        }
        let i1 = i - drop;
        assert(i >= drop);
        assert(s1[i1] == pushed[i]);
        assert(pushed[i] == s0[i]);
        let rest = rs.drop_first();
        assert(unique_ids(rest)) by {
            assert(forall|p: int, q: int|
                0 <= p < q < rest.len() ==> #[trigger] rest[p] == rs[p + 1] && #[trigger] rest[q]
                    == rs[q + 1]);
        }
        assert forall|j: int| 0 <= j < rest.len() implies !contains_id(
            s1,
            #[trigger] rest[j].id,
        ) by {
            assert(rest[j] == rs[j + 1]);
            if contains_id(s1, rest[j].id) {
                let w = id_index(s1, rest[j].id);
                assert(s1[w].id == rest[j].id);
                assert(s1[w] == pushed[w + drop]);
                if w + drop < s0.len() {
                    assert(pushed[w + drop] == s0[w + drop]);
                    assert(contains_id(s0, rs[j + 1].id));
                } else {
                    assert(pushed[w + drop] == r0);
                    assert(rs[0].id == rs[j + 1].id);
                }
            }
        }
        assert(s1.len() - i1 + rest.len() <= max);
        lemma_saves_keep_recent(s1, rest, max, i1);
        assert(save_all_from(s0, rs, max) == save_all_from(
            save_model(s0, rs[0], max),
            rs.drop_first(),
            max,
        ));
        assert(s1[i1] == s0[i]);
    }
}

/// The store contents after saving a list of records in order, starting
/// from some contents.
pub open spec fn save_all_from(
    acc: Seq<RuntimeStateModel>,
    rs: Seq<RuntimeStateModel>,
    max: usize,
) -> Seq<RuntimeStateModel>
    decreases rs.len(),
{
    if rs.len() == 0 {
        acc
    } else {
        save_all_from(save_model(acc, rs[0], max), rs.drop_first(), max)
    }
}

/// The store contents after saving a list of records into an empty store.
pub open spec fn save_all_model(rs: Seq<RuntimeStateModel>, max: usize) -> Seq<RuntimeStateModel> {
    save_all_from(Seq::empty(), rs, max)
}

/// Saving one more record is one more save.
pub proof fn lemma_save_all_snoc(
    acc: Seq<RuntimeStateModel>,
    rs: Seq<RuntimeStateModel>,
    r: RuntimeStateModel,
    max: usize,
)
    ensures
        save_all_from(acc, rs.push(r), max) == save_model(save_all_from(acc, rs, max), r, max),
    decreases rs.len(),
{
    let t = rs.push(r);
    assert(t.len() != 0);
    assert(save_all_from(acc, t, max) == save_all_from(save_model(acc, t[0], max), t.drop_first(), max));
    if rs.len() == 0 {
        assert(t[0] == r);
        assert(t.drop_first() =~= Seq::<RuntimeStateModel>::empty());
        assert(save_all_from(save_model(acc, r, max), Seq::<RuntimeStateModel>::empty(), max)
            == save_model(acc, r, max));
        assert(save_all_from(acc, rs, max) == acc);
    } else {
        assert(t[0] == rs[0]);
        assert(t.drop_first() =~= rs.drop_first().push(r));
        lemma_save_all_snoc(save_model(acc, rs[0], max), rs.drop_first(), r, max);
        assert(save_all_from(acc, rs, max) == save_all_from(
            save_model(acc, rs[0], max),
            rs.drop_first(),
            max,
        ));
    }
}

/// Bounded retention, oldest-first: saving a list of records with
/// pairwise distinct ids into an empty store retains exactly the last
/// `max` of them (all of them when the list is shorter), in order. In
/// particular the most recent `max` ids are loadable and every earlier id
/// is absent.
pub proof fn lemma_retention(rs: Seq<RuntimeStateModel>, max: usize)
    requires
        max >= 1,
        unique_ids(rs),
    ensures
        ({
            let f = save_all_model(rs, max);
            &&& f == (if rs.len() <= max {
                rs
            } else {
                rs.skip(rs.len() - max)
            })
            &&& forall|i: int|
                rs.len() - max <= i < rs.len() && 0 <= i ==> contains_id(f, #[trigger] rs[i].id)
            &&& forall|i: int| 0 <= i < rs.len() - max ==> !contains_id(f, #[trigger] rs[i].id)
        }),
    decreases rs.len(),
{
    let f = save_all_model(rs, max);
    if rs.len() == 0 {
        assert(save_all_model(rs, max) =~= rs);
    } else {
        let rs0 = rs.drop_last();
        let last = rs.last();
        assert(unique_ids(rs0)) by {
            assert(forall|p: int, q: int|
                0 <= p < q < rs0.len() ==> #[trigger] rs0[p] == rs[p] && #[trigger] rs0[q]
                    == rs[q]);
        }
        lemma_retention(rs0, max);
        lemma_save_all_snoc(Seq::<RuntimeStateModel>::empty(), rs0, last, max);
        assert(rs0.push(last) =~= rs);
        let f0 = save_all_model(rs0, max);
        assert(f == save_model(f0, last, max));
        // the new id is not among the retained older ones
        assert(!contains_id(f0, last.id)) by {
            if contains_id(f0, last.id) {
                let w = id_index(f0, last.id);
                let base = if rs0.len() <= max {
                    0int
                } else {
                    rs0.len() - max
                };
                assert(f0[w] == rs[base + w]);
                assert(rs[base + w].id == rs[rs.len() - 1].id);
            }
        }
        assert(remove_id(f0, last.id) == f0);
        let pushed = f0.push(last);
        assert(f == evict_to(pushed, max));
        if rs.len() <= max {
            assert(f0 == rs0);
            assert(pushed.len() <= max);
            assert(f =~= rs);
        } else {
            // f0 already holds max records, so one is evicted from the front
            assert(f0.len() == max);
            assert(pushed.len() == max + 1);
            assert(f == pushed.skip(1));
            assert(f =~= rs.skip(rs.len() - max)) by {
                let base = rs.len() - max;
                assert forall|w: int| 0 <= w < max implies #[trigger] f[w] == rs[base + w] by {
                    if w < max - 1 {
                        assert(f[w] == pushed[w + 1]);
                        assert(pushed[w + 1] == f0[w + 1]);
                        if rs0.len() <= max {
                            assert(f0[w + 1] == rs0[w + 1]);
                        } else {
                            assert(f0[w + 1] == rs0[rs0.len() - max + w + 1]);
                        }
                    } else {
                        assert(f[w] == last);
                    }
                }
            }
        }
        // membership facts follow from the skip shape and unique ids
        let ff = if rs.len() <= max {
            rs
        } else {
            rs.skip(rs.len() - max)
        };
        let base = if rs.len() <= max {
            0int
        } else {
            rs.len() - max
        };
        assert forall|i: int|
            rs.len() - max <= i < rs.len() && 0 <= i implies contains_id(
            f,
            #[trigger] rs[i].id,
        ) by {
            assert(f[i - base] == rs[i]);
        }
        assert forall|i: int| 0 <= i < rs.len() - max implies !contains_id(
            f,
            #[trigger] rs[i].id,
        ) by {
            if contains_id(f, rs[i].id) {
                let w = id_index(f, rs[i].id);
                assert(f[w] == rs[base + w]);
                assert(rs[base + w].id == rs[i].id);
            }
        }
    }
}

} // verus!
