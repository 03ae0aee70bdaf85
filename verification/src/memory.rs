//! Memory facade over the vector store.
//!
//! Validates embedding dimensionality, stamps creation time, applies a
//! similarity threshold on top of raw search, and snapshots and restores
//! the store's full contents. Insert-or-replace by key is guaranteed here:
//! a write removes any prior entry at the key before inserting.

use vstd::prelude::*;
use crate::config::MemoryConfig;
use crate::vector::{
    contains_key, entries_model, key_index, lemma_remove_key_facts, lemma_write_model_facts,
    pairs_model, remove_key, results_model, scored, sorted_desc, spec_capacity, spec_insert,
    unique_keys, write_model, EntryModel, MemoryEntry, ResultModel, SearchResult, VectorStore,
};
use crate::codec::{
    dec_memory_state, enc_memory_state, lemma_dec_memory_state, memory_state_ok,
    spec_dec_memory_state, spec_enc_memory_state,
};
use crate::math::{lemma_cosine_bounds, SCALE};
use crate::sys::now_unix_seconds;
use crate::CortexError;

verus! {

/// The model of the entry that a write builds.
pub open spec fn entry_model(
    key: Seq<char>,
    content: Seq<char>,
    embedding: Seq<i32>,
    metadata: Seq<(Seq<char>, Seq<char>)>,
    created_at: u64,
) -> EntryModel {
    EntryModel { key, content, embedding, metadata, created_at }
}

/// The results whose score reaches the threshold.
pub open spec fn above(threshold: i64) -> spec_fn(ResultModel) -> bool {
    |x: ResultModel| x.score >= threshold
}

/// What a facade search returns: the threshold-filtered prefix of length
/// `min(k, len)` of a score-sorted permutation of all scored entries.
pub open spec fn search_post(
    s: Seq<EntryModel>,
    q: Seq<i32>,
    k: usize,
    threshold: i64,
    out: Seq<ResultModel>,
) -> bool {
    exists|full: Seq<ResultModel>|
        {
            &&& #[trigger] full.to_multiset() == scored(s, q).to_multiset()
            &&& sorted_desc(full)
            &&& out == full.take(
                if k < s.len() {
                    k as int
                } else {
                    s.len() as int
                },
            ).filter(above(threshold))
        }
}

/// Filtering a score-sorted sequence keeps it sorted, and every kept
/// element is one of the original's.
proof fn lemma_filter_sorted(s: Seq<ResultModel>, pred: spec_fn(ResultModel) -> bool)
    requires
        sorted_desc(s),
    ensures
        sorted_desc(s.filter(pred)),
        forall|i: int|
            0 <= i < s.filter(pred).len() ==> exists|j: int|
                0 <= j < s.len() && #[trigger] s.filter(pred)[i] == s[j],
    decreases s.len(),
{
    reveal(Seq::filter);
    if s.len() != 0 {
        let d = s.drop_last();
        assert(sorted_desc(d)) by {
            assert(forall|p: int, q: int|
                #![trigger d[p], d[q]]
                0 <= p < q < d.len() ==> s[p] == d[p] && s[q] == d[q]);
        }
        lemma_filter_sorted(d, pred);
        let fd = d.filter(pred);
        if pred(s.last()) {
            let f = s.filter(pred);
            assert(f == fd.push(s.last()));
            assert forall|i: int| 0 <= i < f.len() implies exists|j: int|
                0 <= j < s.len() && #[trigger] f[i] == s[j] by {
                if i < fd.len() {
                    let j0 = choose|j: int| 0 <= j < d.len() && #[trigger] fd[i] == d[j];
                    assert(f[i] == s[j0]);
                } else {
                    assert(f[i] == s[s.len() - 1]);
                }
            }
            assert forall|p: int, q: int|
                #![trigger f[p], f[q]]
                0 <= p < q < f.len() implies f[p].score >= f[q].score by {
                if q < fd.len() {
                    assert(fd[p].score >= fd[q].score);
                } else {
                    let j0 = choose|j: int| 0 <= j < d.len() && #[trigger] fd[p] == d[j];
                    assert(s[j0].score >= s.last().score);
                }
            }
        } else {
            assert(s.filter(pred) == fd);
        }
    }
}

/// A filter whose predicate holds of every element changes nothing.
proof fn lemma_filter_all(s: Seq<ResultModel>, pred: spec_fn(ResultModel) -> bool)
    requires
        forall|i: int| 0 <= i < s.len() ==> pred(#[trigger] s[i]),
    ensures
        s.filter(pred) == s,
    decreases s.len(),
{
    reveal(Seq::filter);
    if s.len() != 0 {
        let d = s.drop_last();
        lemma_filter_all(d, pred);
        assert(pred(s.last()));
        assert(s.filter(pred) =~= d.push(s.last()));
        assert(d.push(s.last()) =~= s);
    }
}

/// Mathematical model of a [`MemoryState`].
pub ghost struct MemoryStateModel {
    pub embedding_dim: usize,
    pub max_entries: usize,
    pub entries: Seq<EntryModel>,
}

/// A snapshot of a memory store's full contents and configuration.
#[derive(Debug)]
pub struct MemoryState {
    /// Embedding dimension of the snapshotted store.
    pub embedding_dim: usize,
    /// Capacity of the snapshotted store.
    pub max_entries: usize,
    /// All entries, in insertion order.
    pub entries: Vec<MemoryEntry>,
}

impl View for MemoryState {
    type V = MemoryStateModel;

    open spec fn view(&self) -> MemoryStateModel {
        MemoryStateModel {
            embedding_dim: self.embedding_dim,
            max_entries: self.max_entries,
            entries: entries_model(self.entries@),
        }
    }
}

/// An independent copy of an entry vector, model-preserving.
pub fn copy_entries(v: &Vec<MemoryEntry>) -> (r: Vec<MemoryEntry>)
    ensures
        entries_model(r@) == entries_model(v@),
{
    let mut r: Vec<MemoryEntry> = Vec::new();
    let mut i: usize = 0;
    while i < v.len()
        invariant
            0 <= i <= v@.len(),
            entries_model(r@) == entries_model(v@.take(i as int)),
        decreases v@.len() - i,
    {
        let ghost prev = r@;
        r.push(v[i].duplicate());
        proof {
            assert(entries_model(r@) =~= entries_model(prev).push(v@[i as int]@));
            assert(entries_model(v@.take(i + 1)) =~= entries_model(v@.take(i as int)).push(
                v@[i as int]@,
            ));
        }
        i = i + 1;
    }
    proof {
        assert(v@.take(v@.len() as int) =~= v@);
    }
    r
}

impl MemoryState {
    /// An independent copy of this snapshot.
    pub fn duplicate(&self) -> (r: MemoryState)
        ensures
            r@ == self@,
    {
        MemoryState {
            embedding_dim: self.embedding_dim,
            max_entries: self.max_entries,
            entries: copy_entries(&self.entries),
        }
    }
}

/// Memory interface: the main entry point for memory operations.
#[derive(Debug)]
pub struct Memory {
    store: VectorStore,
    config: MemoryConfig,
}

impl View for Memory {
    type V = Seq<EntryModel>;

    closed spec fn view(&self) -> Seq<EntryModel> {
        self.store@
    }
}

impl Memory {
    /// The configured embedding dimension.
    pub closed spec fn spec_dim(&self) -> usize {
        self.config.embedding_dim
    }

    /// The configured capacity.
    pub closed spec fn spec_max_entries(&self) -> usize {
        self.config.max_entries
    }

    /// The configured similarity threshold (fixed-point).
    pub closed spec fn spec_threshold(&self) -> i64 {
        self.config.similarity_threshold
    }

    /// Well-formedness: the store is well-formed and matches the
    /// configuration it was built from.
    pub closed spec fn wf(&self) -> bool {
        &&& self.store.wf()
        &&& self.store.spec_dim() == self.config.embedding_dim
        &&& self.store.spec_max_entries() == self.config.max_entries
    }

    /// What well-formedness guarantees, stated over the public model.
    pub proof fn lemma_wf_facts(&self)
        requires
            self.wf(),
        ensures
            self@.len() <= spec_capacity(self.spec_max_entries()),
            unique_keys(self@),
    {
        self.store.lemma_wf_facts();
    }

    /// Create a new memory with the given configuration.
    pub fn new(config: MemoryConfig) -> (m: Self)
        ensures
            m@ == Seq::<EntryModel>::empty(),
            m.spec_dim() == config.embedding_dim,
            m.spec_max_entries() == config.max_entries,
            m.spec_threshold() == config.similarity_threshold,
            m.wf(),
    {
        let store = VectorStore::new(config.embedding_dim, config.max_entries);
        Memory { store, config }
    }

    /// Write to memory: rejected with a `DimensionMismatch` exactly when the
    /// embedding's length differs from the configured dimension; otherwise
    /// any prior entry at the key is replaced and the new entry, stamped
    /// with the current time, is appended (evicting the oldest entry if the
    /// store was full).
    pub fn write(&mut self, key: &str, content: &str, embedding: Vec<i32>) -> (r: Result<
        (),
        CortexError,
    >)
        requires
            old(self).wf(),
        ensures
            final(self).wf(),
            final(self).spec_dim() == old(self).spec_dim(),
            final(self).spec_max_entries() == old(self).spec_max_entries(),
            final(self).spec_threshold() == old(self).spec_threshold(),
            r is Ok <==> embedding@.len() == old(self).spec_dim(),
            r is Ok ==> exists|t: u64|
                final(self)@ == write_model(
                    old(self)@,
                    #[trigger] entry_model(key@, content@, embedding@, Seq::empty(), t),
                    old(self).spec_max_entries(),
                ),
            r is Err ==> final(self)@ == old(self)@ && (r matches Err(
                CortexError::DimensionMismatch { expected, actual },
            ) && expected == old(self).spec_dim() && actual == embedding@.len()),
    {
        let metadata: Vec<(String, String)> = Vec::new();
        proof {
            assert(pairs_model(metadata@) =~= Seq::<(Seq<char>, Seq<char>)>::empty());
        }
        self.write_with_metadata(key, content, embedding, metadata)
    }

    /// Like [`Memory::write`], additionally storing caller-supplied metadata.
    pub fn write_with_metadata(
        &mut self,
        key: &str,
        content: &str,
        embedding: Vec<i32>,
        metadata: Vec<(String, String)>,
    ) -> (r: Result<(), CortexError>)
        requires
            old(self).wf(),
        ensures
            final(self).wf(),
            final(self).spec_dim() == old(self).spec_dim(),
            final(self).spec_max_entries() == old(self).spec_max_entries(),
            final(self).spec_threshold() == old(self).spec_threshold(),
            r is Ok <==> embedding@.len() == old(self).spec_dim(),
            r is Ok ==> exists|t: u64|
                final(self)@ == write_model(
                    old(self)@,
                    #[trigger] entry_model(key@, content@, embedding@, pairs_model(metadata@), t),
                    old(self).spec_max_entries(),
                ),
            r is Err ==> final(self)@ == old(self)@ && (r matches Err(
                CortexError::DimensionMismatch { expected, actual },
            ) && expected == old(self).spec_dim() && actual == embedding@.len()),
    {
        if embedding.len() != self.config.embedding_dim {
            return Err(
                CortexError::DimensionMismatch {
                    expected: self.config.embedding_dim,
                    actual: embedding.len(),
                },
            );
        }
        let created_at = now_unix_seconds();
        let entry = MemoryEntry {
            key: key.to_owned(),
            content: content.to_owned(),
            embedding,
            metadata,
            created_at,
        };
        // Remove any existing entry with the same key, then insert.
        self.store.remove(key);
        self.store.insert(entry);
        proof {
            let em = entry_model(
                key@,
                content@,
                entry.embedding@,
                pairs_model(entry.metadata@),
                created_at,
            );
            assert(entry@ == em);
            assert(self@ == write_model(old(self)@, em, old(self).spec_max_entries()));
        }
        Ok(())
    }

    /// Read an entry by exact key; no side effects.
    pub fn read(&self, key: &str) -> (r: Option<&MemoryEntry>)
        ensures
            r is Some <==> contains_key(self@, key@),
            match r {
                Some(e) => exists|i: int|
                    0 <= i < self@.len() && #[trigger] self@[i].key == key@ && e@ == self@[i],
                None => true,
            },
    {
        let r = self.store.get(key);
        proof {
            match r {
                Some(e) => {
                    let w = choose|i: int|
                        0 <= i < self.store@.len() && #[trigger] self.store@[i].key == key@ && e@
                            == self.store@[i];
                    assert(0 <= w < self@.len() && self@[w].key == key@ && e@ == self@[w]);
                },
                None => {},
            }
        }
        r
    }

    /// Delete the entry with the given key; returns whether one existed.
    pub fn delete(&mut self, key: &str) -> (removed: bool)
        requires
            old(self).wf(),
        ensures
            removed == contains_key(old(self)@, key@),
            final(self)@ == remove_key(old(self)@, key@),
            final(self).wf(),
            final(self).spec_dim() == old(self).spec_dim(),
            final(self).spec_max_entries() == old(self).spec_max_entries(),
            final(self).spec_threshold() == old(self).spec_threshold(),
    {
        self.store.remove(key)
    }

    /// All entries, in insertion order.
    pub fn entries(&self) -> (r: Vec<&MemoryEntry>)
        ensures
            r@.len() == self@.len(),
            forall|i: int| 0 <= i < r@.len() ==> #[trigger] r@[i]@ == self@[i],
    {
        self.store.entries()
    }

    /// Number of entries.
    pub fn len(&self) -> (n: usize)
        ensures
            n == self@.len(),
    {
        self.store.len()
    }

    /// Whether the memory is empty.
    pub fn is_empty(&self) -> (b: bool)
        ensures
            b == (self@.len() == 0),
    {
        self.store.is_empty()
    }

    /// Search by similarity, filtering with the configured threshold.
    ///
    /// The result is exactly the threshold-filtered prefix of a score-sorted
    /// permutation of all entries scored against the query (see
    /// [`search_post`]).
    pub fn search(&self, query_embedding: &[i32], k: usize) -> (r: Vec<SearchResult>)
        ensures
            sorted_desc(results_model(r@)),
            search_post(self@, query_embedding@, k, self.spec_threshold(), results_model(r@)),
    {
        let threshold = self.config.similarity_threshold;
        self.search_with_threshold(query_embedding, k, threshold)
    }

    /// Search by similarity with a caller-supplied threshold, overriding the
    /// configured default.
    ///
    /// With a threshold at or below -[`SCALE`] nothing is filtered out, so
    /// exactly `min(k, len)` results come back.
    pub fn search_with_threshold(&self, query_embedding: &[i32], k: usize, threshold: i64) -> (r:
        Vec<SearchResult>)
        ensures
            sorted_desc(results_model(r@)),
            search_post(self@, query_embedding@, k, threshold, results_model(r@)),
            threshold <= -SCALE ==> r@.len() == (if k < self@.len() {
                k as nat
            } else {
                self@.len()
            }),
    {
        let pre = self.store.search(query_embedding, k);
        let ghost pm = results_model(pre@);
        let ghost pred = above(threshold);
        let n = pre.len();
        let mut out: Vec<SearchResult> = Vec::new();
        proof {
            reveal(Seq::filter);
            assert(pm.take(0).filter(pred) =~= Seq::<ResultModel>::empty());
            assert(results_model(out@) =~= Seq::<ResultModel>::empty());
        }
        let mut i: usize = 0;
        while i < n
            invariant
                n == pre@.len(),
                0 <= i <= n,
                pm == results_model(pre@),
                pred == above(threshold),
                results_model(out@) == pm.take(i as int).filter(pred),
            decreases n - i,
        {
            let ghost prev_out = out@;
            if pre[i].score >= threshold {
                out.push(pre[i].duplicate());
            }
            proof {
                reveal(Seq::filter);
                let t1 = pm.take(i + 1);
                assert(t1.drop_last() =~= pm.take(i as int));
                assert(t1.last() == pm[i as int]);
                if pred(pm[i as int]) {
                    assert(results_model(out@) =~= results_model(prev_out).push(pre@[i as int]@));
                } else {
                    assert(out@ == prev_out);
                }
            }
            i = i + 1;
        }
        proof {
            assert(pm.take(n as int) =~= pm);
            // carry the sorted permutation witness over from the raw search
            let full = choose|full: Seq<ResultModel>|
                {
                    &&& #[trigger] full.to_multiset() == scored(self.store@, query_embedding@)
                        .to_multiset()
                    &&& sorted_desc(full)
                    &&& results_model(pre@) == full.take(pre@.len() as int)
                };
            assert(pm == full.take(pre@.len() as int));
            lemma_filter_sorted(pm, pred);
            assert(search_post(self@, query_embedding@, k, threshold, results_model(out@))) by {
                assert(full.to_multiset() == scored(self@, query_embedding@).to_multiset()
                    && sorted_desc(full) && results_model(out@) == full.take(
                    if k < self@.len() {
                        k as int
                    } else {
                        self@.len() as int
                    },
                ).filter(above(threshold)));
            }
            if threshold <= -SCALE {
                vstd::seq_lib::to_multiset_len(full);
                vstd::seq_lib::to_multiset_len(scored(self.store@, query_embedding@));
                assert(full.len() == scored(self.store@, query_embedding@).len());
                assert forall|j: int| 0 <= j < pm.len() implies pred(#[trigger] pm[j]) by {
                    assert(full[j] == pm[j]);
                    assert(full.contains(pm[j]));
                    vstd::seq_lib::to_multiset_contains(full, pm[j]);
                    let sc = scored(self.store@, query_embedding@);
                    vstd::seq_lib::to_multiset_contains(sc, pm[j]);
                    assert(sc.contains(pm[j]));
                    let w = choose|w: int| 0 <= w < sc.len() && sc[w] == pm[j];
                    lemma_cosine_bounds(query_embedding@, self.store@[w].embedding);
                }
                lemma_filter_all(pm, pred);
            }
        }
        out
    }

    /// A snapshot of the full store contents and configuration.
    pub fn get_state(&self) -> (r: MemoryState)
        ensures
            r@.entries == self@,
            r@.embedding_dim == self.spec_dim(),
            r@.max_entries == self.spec_max_entries(),
    {
        let refs = self.store.entries();
        let n = refs.len();
        let mut es: Vec<MemoryEntry> = Vec::new();
        let mut i: usize = 0;
        while i < n
            invariant
                n == refs@.len(),
                refs@.len() == self@.len(),
                forall|j: int| 0 <= j < refs@.len() ==> #[trigger] refs@[j]@ == self@[j],
                0 <= i <= n,
                entries_model(es@) == self@.take(i as int),
            decreases n - i,
        {
            let ghost prev = es@;
            es.push(refs[i].duplicate());
            proof {
                assert(entries_model(es@) =~= entries_model(prev).push(refs@[i as int]@));
                assert(self@.take(i + 1) =~= self@.take(i as int).push(self@[i as int]));
                assert(entries_model(es@) =~= self@.take(i + 1));
            }
            i = i + 1;
        }
        proof {
            assert(self@.take(self@.len() as int) =~= self@);
        }
        MemoryState {
            embedding_dim: self.config.embedding_dim,
            max_entries: self.config.max_entries,
            entries: es,
        }
    }

    /// Restore from a snapshot: the store and its dimension and capacity
    /// are rebuilt from the snapshot, replaying its entries in order as
    /// insert-or-replace writes.
    pub fn set_state(&mut self, state: MemoryState)
        ensures
            final(self).wf(),
            final(self).spec_dim() == state@.embedding_dim,
            final(self).spec_max_entries() == state@.max_entries,
            final(self).spec_threshold() == old(self).spec_threshold(),
            final(self)@ == restore_model(state@.entries, state@.max_entries),
    {
        self.store = VectorStore::new(state.embedding_dim, state.max_entries);
        self.config.embedding_dim = state.embedding_dim;
        self.config.max_entries = state.max_entries;
        let n = state.entries.len();
        proof {
            assert(state@.entries.take(0) =~= Seq::<EntryModel>::empty());
        }
        let mut i: usize = 0;
        while i < n
            invariant
                n == state@.entries.len(),
                0 <= i <= n,
                self.wf(),
                self.spec_dim() == state@.embedding_dim,
                self.spec_max_entries() == state@.max_entries,
                self.spec_threshold() == old(self).spec_threshold(),
                self@ == restore_from(
                    Seq::<EntryModel>::empty(),
                    state@.entries.take(i as int),
                    state@.max_entries,
                ),
            decreases n - i,
        {
            let e = state.entries[i].duplicate();
            self.store.remove(e.key.as_str());
            self.store.insert(e);
            proof {
                lemma_restore_from_snoc(
                    Seq::<EntryModel>::empty(),
                    state@.entries.take(i as int),
                    state@.entries[i as int],
                    state@.max_entries,
                );
                assert(state@.entries.take(i + 1) =~= state@.entries.take(i as int).push(
                    state@.entries[i as int],
                ));
            }
            i = i + 1;
        }
        proof {
            assert(state@.entries.take(n as int) =~= state@.entries);
        }
    }

    /// Serialize the full store (dimension, capacity, all entries in
    /// order) to the snapshot byte format; the caller writes the bytes to
    /// a file, atomically replacing any previous one.
    pub fn persist(&self) -> (r: Vec<u8>)
        ensures
            ({
                let m = MemoryStateModel {
                    embedding_dim: self.spec_dim(),
                    max_entries: self.spec_max_entries(),
                    entries: self@,
                };
                r@ == spec_enc_memory_state(m) && memory_state_ok(m)
            }),
    {
        let state = self.get_state();
        enc_memory_state(&state)
    }

    /// Rebuild a memory from persisted snapshot bytes. Fails with a
    /// `Serialization` error exactly when the bytes do not decode as a
    /// snapshot; on success the store holds the snapshot's entries,
    /// replayed in order, and the snapshot's dimension and capacity.
    pub fn load(bytes: &[u8]) -> (r: Result<Memory, CortexError>)
        ensures
            r is Ok <==> spec_dec_memory_state(bytes@, 0) is Some,
            match r {
                Ok(m) => {
                    let st = spec_dec_memory_state(bytes@, 0)->Some_0.0;
                    &&& m.wf()
                    &&& m.spec_dim() == st.embedding_dim
                    &&& m.spec_max_entries() == st.max_entries
                    &&& m@ == restore_model(st.entries, st.max_entries)
                },
                Err(e) => e matches CortexError::Serialization(_),
            },
    {
        match dec_memory_state(bytes, 0) {
            None => Err(CortexError::Serialization("not a memory snapshot".to_owned())),
            Some((state, _)) => {
                let config = MemoryConfig {
                    embedding_dim: state.embedding_dim,
                    max_entries: state.max_entries,
                    ..Default::default()
                };
                let mut m = Memory::new(config);
                m.set_state(state);
                Ok(m)
            },
        }
    }

    /// Remove all entries.
    pub fn clear(&mut self)
        requires
            old(self).wf(),
        ensures
            final(self)@ == Seq::<EntryModel>::empty(),
            final(self).wf(),
            final(self).spec_dim() == old(self).spec_dim(),
            final(self).spec_max_entries() == old(self).spec_max_entries(),
            final(self).spec_threshold() == old(self).spec_threshold(),
    {
        self.store.clear()
    }
}

/// The store contents after replaying a list of entries as writes onto
/// some starting contents.
pub open spec fn restore_from(acc: Seq<EntryModel>, es: Seq<EntryModel>, max: usize) -> Seq<
    EntryModel,
>
    decreases es.len(),
{
    if es.len() == 0 {
        acc
    } else {
        restore_from(write_model(acc, es[0], max), es.drop_first(), max)
    }
}

/// The store contents rebuilt from a snapshot's entry list.
pub open spec fn restore_model(es: Seq<EntryModel>, max: usize) -> Seq<EntryModel> {
    restore_from(Seq::empty(), es, max)
}

/// Replaying one more entry is one more write.
pub proof fn lemma_restore_from_snoc(
    acc: Seq<EntryModel>,
    es: Seq<EntryModel>,
    e: EntryModel,
    max: usize,
)
    ensures
        restore_from(acc, es.push(e), max) == write_model(restore_from(acc, es, max), e, max),
    decreases es.len(),
{
    let t = es.push(e);
    assert(t.len() != 0);
    assert(restore_from(acc, t, max) == restore_from(write_model(acc, t[0], max), t.drop_first(), max));
    if es.len() == 0 {
        assert(t[0] == e);
        assert(t.drop_first() =~= Seq::<EntryModel>::empty());
        assert(restore_from(write_model(acc, e, max), Seq::<EntryModel>::empty(), max)
            == write_model(acc, e, max));
        assert(restore_from(acc, es, max) == acc);
    } else {
        assert(t[0] == es[0]);
        assert(t.drop_first() =~= es.drop_first().push(e));
        lemma_restore_from_snoc(write_model(acc, es[0], max), es.drop_first(), e, max);
        assert(restore_from(acc, es, max) == restore_from(
            write_model(acc, es[0], max),
            es.drop_first(),
            max,
        ));
    }
}

/// Restoring a well-formed entry list (unique keys, within capacity)
/// reproduces it exactly, order included. Together with the snapshot
/// round-trip this makes `set_state(get_state())` the identity on the
/// store contents.
pub proof fn lemma_restore_exact(es: Seq<EntryModel>, max: usize)
    requires
        unique_keys(es),
        es.len() <= spec_capacity(max),
    ensures
        restore_model(es, max) == es,
    decreases es.len(),
{
    if es.len() == 0 {
        assert(restore_model(es, max) =~= es);
    } else {
        let es0 = es.drop_last();
        let last = es.last();
        assert(unique_keys(es0)) by {
            assert(forall|p: int, q: int|
                0 <= p < q < es0.len() ==> #[trigger] es0[p] == es[p] && #[trigger] es0[q]
                    == es[q]);
        }
        lemma_restore_exact(es0, max);
        lemma_restore_from_snoc(Seq::<EntryModel>::empty(), es0, last, max);
        assert(es0.push(last) =~= es);
        assert(restore_model(es, max) == write_model(es0, last, max));
        assert(!contains_key(es0, last.key)) by {
            if contains_key(es0, last.key) {
                let w = key_index(es0, last.key);
                assert(es0[w] == es[w]);
                assert(es[w].key == es[es.len() - 1].key);
            }
        }
        lemma_remove_key_facts(es0, last.key);
        assert(remove_key(es0, last.key) == es0);
        assert(write_model(es0, last, max) == spec_insert(es0, last, max));
        if max == 0 {
            assert(es.len() <= 1 && es0.len() == 0);
            assert(spec_insert(es0, last, max) == es0.push(last));
        } else {
            assert(es0.len() < max);
            assert(spec_insert(es0, last, max) == es0.push(last));
        }
    }
}

/// Round trip: a well-formed store, persisted and loaded back, is
/// reproduced exactly — entry sequence (order included), dimension and
/// capacity. `m` is the persisted snapshot's model; well-formedness of
/// the source store gives its side conditions.
pub proof fn lemma_persist_load(m: MemoryStateModel)
    requires
        memory_state_ok(m),
        unique_keys(m.entries),
        m.entries.len() <= spec_capacity(m.max_entries),
    ensures
        spec_dec_memory_state(spec_enc_memory_state(m), 0) == Some(
            (m, spec_enc_memory_state(m).len() as int),
        ),
        restore_model(m.entries, m.max_entries) == m.entries,
{
    let b = spec_enc_memory_state(m);
    assert(b.subrange(0, b.len() as int) =~= b);
    lemma_dec_memory_state(b, 0, m);
    lemma_restore_exact(m.entries, m.max_entries);
}

/// Writing twice to the same key leaves the store size unchanged, and a
/// lookup of the key afterwards finds exactly the second write's entry.
pub proof fn lemma_write_twice(s: Seq<EntryModel>, e1: EntryModel, e2: EntryModel, max: usize)
    requires
        unique_keys(s),
        s.len() <= spec_capacity(max),
        e1.key == e2.key,
    ensures
        ({
            let s1 = write_model(s, e1, max);
            let s2 = write_model(s1, e2, max);
            &&& s2.len() == s1.len()
            &&& contains_key(s2, e2.key)
            &&& s2[key_index(s2, e2.key)] == e2
        }),
{
    let s1 = write_model(s, e1, max);
    let s2 = write_model(s1, e2, max);
    lemma_write_model_facts(s, e1, max);
    lemma_write_model_facts(s1, e2, max);
    assert(contains_key(s1, e2.key)) by {
        assert(s1[s1.len() - 1].key == e2.key);
    }
    assert(s2[key_index(s2, e2.key)] == e2) by {
        assert(key_index(s2, e2.key) == s2.len() - 1);
        assert(s2.last() == e2);
    }
}

/// Oldest-insertion eviction: writing `max + 1` entries with pairwise
/// distinct keys into an empty store leaves exactly `max` entries; the
/// first-written key is gone and every later key is present, in order.
pub proof fn lemma_capacity_eviction(es: Seq<EntryModel>, max: usize)
    requires
        max >= 1,
        es.len() == max + 1,
        unique_keys(es),
    ensures
        ({
            let f = restore_model(es, max);
            &&& f.len() == max
            &&& !contains_key(f, es[0].key)
            &&& forall|i: int| 1 <= i < es.len() ==> contains_key(f, #[trigger] es[i].key)
        }),
{
    let prefix = es.take(max as int);
    let last = es[max as int];
    assert(unique_keys(prefix)) by {
        assert(forall|p: int, q: int|
            0 <= p < q < prefix.len() ==> #[trigger] prefix[p] == es[p] && #[trigger] prefix[q]
                == es[q]);
    }
    lemma_restore_exact(prefix, max);
    lemma_restore_from_snoc(Seq::<EntryModel>::empty(), prefix, last, max);
    assert(prefix.push(last) =~= es);
    let f = restore_model(es, max);
    assert(f == write_model(prefix, last, max));
    assert(!contains_key(prefix, last.key)) by {
        if contains_key(prefix, last.key) {
            let w = key_index(prefix, last.key);
            assert(prefix[w] == es[w]);
            assert(es[w].key == es[max as int].key);
        }
    }
    lemma_remove_key_facts(prefix, last.key);
    assert(write_model(prefix, last, max) == spec_insert(prefix, last, max));
    assert(f == prefix.drop_first().push(last));
    assert(f.len() == max);
    assert forall|i: int| 1 <= i < es.len() implies contains_key(f, #[trigger] es[i].key) by {
        assert(f[i - 1] == es[i]) by {
            if i < max {
                assert(f[i - 1] == prefix.drop_first()[i - 1]);
                assert(prefix.drop_first()[i - 1] == prefix[i]);
            }
        }
    }
    assert(!contains_key(f, es[0].key)) by {
        if contains_key(f, es[0].key) {
            let w = key_index(f, es[0].key);
            assert(f[w].key == es[0].key);
            let w0 = if w < max - 1 {
                w + 1
            } else {
                max as int
            };
            assert(f[w] == es[w0]);
        }
    }
}

} // verus!
