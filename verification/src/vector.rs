//! Vector store: a capacity-bounded sequence of keyed entries with
//! similarity search.
//!
//! Entries are kept in insertion order in a single sequence; keys are unique.
//! When an insertion would exceed the capacity, the oldest entry (the first
//! in insertion order) is evicted. Embedding components are fixed-point
//! `i32` values (see [`crate::math`]); similarity scores are fixed-point
//! `i64` values scaled by [`crate::math::SCALE`].

use vstd::prelude::*;
use crate::math::{
    spec_cosine, dot, isqrt, scale_div, SCALE,
    lemma_dot_bound, lemma_dot_self_nonneg, lemma_isqrt_of_pos, lemma_cosine_bounds,
};

verus! {

/// The models of a sequence of metadata pairs.
pub open spec fn pairs_model(v: Seq<(String, String)>) -> Seq<(Seq<char>, Seq<char>)> {
    v.map_values(|p: (String, String)| (p.0@, p.1@))
}

/// Mathematical model of a [`MemoryEntry`].
pub ghost struct EntryModel {
    pub key: Seq<char>,
    pub content: Seq<char>,
    pub embedding: Seq<i32>,
    pub metadata: Seq<(Seq<char>, Seq<char>)>,
    pub created_at: u64,
}

/// A memory entry with its embedding and metadata.
#[derive(Debug)]
pub struct MemoryEntry {
    /// Unique key.
    pub key: String,
    /// Text content.
    pub content: String,
    /// Fixed-point embedding vector.
    pub embedding: Vec<i32>,
    /// Optional metadata pairs.
    pub metadata: Vec<(String, String)>,
    /// Timestamp (unix epoch seconds).
    pub created_at: u64,
}

impl View for MemoryEntry {
    type V = EntryModel;

    open spec fn view(&self) -> EntryModel {
        EntryModel {
            key: self.key@,
            content: self.content@,
            embedding: self.embedding@,
            metadata: pairs_model(self.metadata@),
            created_at: self.created_at,
        }
    }
}

/// An independent copy of a component vector.
pub fn copy_components(v: &Vec<i32>) -> (r: Vec<i32>)
    ensures
        r@ == v@,
{
    let mut r: Vec<i32> = Vec::new();
    let mut i: usize = 0;
    while i < v.len()
        invariant
            0 <= i <= v@.len(),
            r@ == v@.take(i as int),
        decreases v@.len() - i,
    {
        r.push(v[i]);
        proof {
            assert(v@.take(i + 1) =~= v@.take(i as int).push(v@[i as int]));
        }
        i = i + 1;
    }
    proof {
        assert(v@.take(v@.len() as int) =~= v@);
    }
    r
}

/// An independent copy of a metadata pair list.
pub fn copy_metadata(v: &Vec<(String, String)>) -> (r: Vec<(String, String)>)
    ensures
        pairs_model(r@) == pairs_model(v@),
{
    let ghost f = |p: (String, String)| (p.0@, p.1@);
    let mut r: Vec<(String, String)> = Vec::new();
    let mut i: usize = 0;
    while i < v.len()
        invariant
            0 <= i <= v@.len(),
            r@.len() == i,
            forall|j: int| 0 <= j < i ==> #[trigger] f(r@[j]) == f(v@[j]),
        decreases v@.len() - i,
    {
        let p = &v[i];
        r.push((p.0.clone(), p.1.clone()));
        i = i + 1;
    }
    proof {
        assert(pairs_model(r@) =~= pairs_model(v@));
    }
    r
}

impl MemoryEntry {
    /// An independent copy of this entry.
    pub fn duplicate(&self) -> (r: MemoryEntry)
        ensures
            r@ == self@,
    {
        MemoryEntry {
            key: self.key.clone(),
            content: self.content.clone(),
            embedding: copy_components(&self.embedding),
            metadata: copy_metadata(&self.metadata),
            created_at: self.created_at,
        }
    }
}

/// Mathematical model of a [`SearchResult`]: the entry together with its
/// exact fixed-point score.
pub ghost struct ResultModel {
    pub entry: EntryModel,
    pub score: int,
}

/// A search result: a copy of the matching entry and its similarity score.
#[derive(Debug)]
pub struct SearchResult {
    /// The memory entry.
    pub entry: MemoryEntry,
    /// Fixed-point similarity score in [-SCALE, SCALE].
    pub score: i64,
}

impl View for SearchResult {
    type V = ResultModel;

    open spec fn view(&self) -> ResultModel {
        ResultModel { entry: self.entry@, score: self.score as int }
    }
}

impl SearchResult {
    /// An independent copy of this result.
    pub fn duplicate(&self) -> (r: SearchResult)
        ensures
            r@ == self@,
    {
        SearchResult { entry: self.entry.duplicate(), score: self.score }
    }
}

/// The fixed-point cosine similarity of two component slices.
///
/// Returns 0 when the lengths differ or either operand has zero norm;
/// otherwise the exact value of [`spec_cosine`], always in [-SCALE, SCALE].
pub fn cosine_similarity(a: &[i32], b: &[i32]) -> (r: i64)
    ensures
        r as int == spec_cosine(a@, b@),
        -SCALE <= r <= SCALE,
{
    proof {
        lemma_cosine_bounds(a@, b@);
    }
    if a.len() != b.len() {
        return 0;
    }
    let l = a.len();
    let d: i128 = dot(a, b);
    let na2: i128 = dot(a, a);
    let nb2: i128 = dot(b, b);
    proof {
        lemma_dot_self_nonneg(a@);
        lemma_dot_self_nonneg(b@);
        lemma_dot_bound(a@, b@);
        lemma_dot_bound(a@, a@);
        lemma_dot_bound(b@, b@);
    }
    if na2 == 0 || nb2 == 0 {
        return 0;
    }
    let ra: u64 = isqrt(na2 as u128);
    let rb: u64 = isqrt(nb2 as u128);
    proof {
        lemma_isqrt_of_pos(na2 as int, ra as int);
        lemma_isqrt_of_pos(nb2 as int, rb as int);
        // each norm root is below 2^63 because each squared norm is below 2^126
        assert(ra < 0x8000000000000000u64 && rb < 0x8000000000000000u64) by (nonlinear_arith)
            requires
                (ra as int) * (ra as int) <= na2 < 0x40000000000000000000000000000000,
                (rb as int) * (rb as int) <= nb2 < 0x40000000000000000000000000000000,
                ra >= 0,
                rb >= 0,
        ;
        assert(1 <= (ra as int) * (rb as int) <= 0x40000000000000000000000000000000int)
            by (nonlinear_arith)
            requires
                1 <= ra < 0x8000000000000000u64,
                1 <= rb < 0x8000000000000000u64,
        ;
    }
    let p: u128 = (ra as u128) * (rb as u128);
    let m: u128 = if d < 0 {
        (-d) as u128
    } else {
        d as u128
    };
    let q: u128 = if m > p {
        p
    } else {
        m
    };
    let s: u128 = scale_div(q, p);
    let sv: i64 = s as i64;
    if d < 0 {
        -sv
    } else {
        sv
    }
}

/// Keys are pairwise distinct.
pub open spec fn unique_keys(s: Seq<EntryModel>) -> bool {
    forall|i: int, j: int| 0 <= i < j < s.len() ==> #[trigger] s[i].key != #[trigger] s[j].key
}

/// Some entry has the given key.
pub open spec fn contains_key(s: Seq<EntryModel>, key: Seq<char>) -> bool {
    exists|i: int| 0 <= i < s.len() && #[trigger] s[i].key == key
}

/// The index of the entry with the given key (unique when keys are unique).
pub open spec fn key_index(s: Seq<EntryModel>, key: Seq<char>) -> int {
    choose|i: int| 0 <= i < s.len() && #[trigger] s[i].key == key
}

/// The sequence with the entry of the given key removed, or unchanged when
/// the key is absent.
pub open spec fn remove_key(s: Seq<EntryModel>, key: Seq<char>) -> Seq<EntryModel> {
    if contains_key(s, key) {
        s.remove(key_index(s, key))
    } else {
        s
    }
}

/// The number of entries a store of the given capacity can actually hold:
/// a blind insertion into an empty store keeps one entry even when the
/// capacity is 0.
pub open spec fn spec_capacity(max: usize) -> nat {
    if max == 0 {
        1
    } else {
        max as nat
    }
}

/// The store contents after a blind insertion: when the store is full (and
/// non-empty) the oldest entry is dropped, then the new entry is appended.
pub open spec fn spec_insert(s: Seq<EntryModel>, e: EntryModel, max: usize) -> Seq<EntryModel> {
    if s.len() >= max && s.len() > 0 {
        s.drop_first().push(e)
    } else {
        s.push(e)
    }
}

/// The models of a sequence of entries.
pub open spec fn entries_model(v: Seq<MemoryEntry>) -> Seq<EntryModel> {
    v.map_values(|e: MemoryEntry| e@)
}

/// The store contents after an insert-or-replace write of one entry: any
/// prior entry at the key is removed, then the entry is blindly inserted.
pub open spec fn write_model(s: Seq<EntryModel>, e: EntryModel, max: usize) -> Seq<EntryModel> {
    spec_insert(remove_key(s, e.key), e, max)
}

/// Facts about [`remove_key`] under unique keys: uniqueness is kept, the
/// key is gone, and the length drops by one exactly when the key was there.
pub proof fn lemma_remove_key_facts(s: Seq<EntryModel>, key: Seq<char>)
    requires
        unique_keys(s),
    ensures
        unique_keys(remove_key(s, key)),
        !contains_key(remove_key(s, key), key),
        contains_key(s, key) ==> remove_key(s, key).len() == s.len() - 1,
        !contains_key(s, key) ==> remove_key(s, key) == s,
{
    if contains_key(s, key) {
        let i = key_index(s, key);
        assert(0 <= i < s.len() && s[i].key == key);
        let r = s.remove(i);
        assert forall|p: int, q: int|
            0 <= p < q < r.len() implies #[trigger] r[p].key != #[trigger] r[q].key by {
            let p0 = if p < i {
                p
            } else {
                p + 1
            };
            let q0 = if q < i {
                q
            } else {
                q + 1
            };
            assert(r[p] == s[p0] && r[q] == s[q0]);
        }
        assert(!contains_key(r, key)) by {
            if contains_key(r, key) {
                let w = key_index(r, key);
                assert(r[w].key == key);
                let w0 = if w < i {
                    w
                } else {
                    w + 1
                };
                assert(r[w] == s[w0]);
            }
        }
    }
}

/// Facts about [`spec_insert`] of an entry with a fresh key into a
/// well-formed contents sequence.
pub proof fn lemma_insert_facts(s: Seq<EntryModel>, e: EntryModel, max: usize)
    requires
        unique_keys(s),
        !contains_key(s, e.key),
        s.len() <= spec_capacity(max),
    ensures
        unique_keys(spec_insert(s, e, max)),
        spec_insert(s, e, max).len() <= spec_capacity(max),
        spec_insert(s, e, max).last() == e,
        spec_insert(s, e, max).len() >= 1,
        (s.len() < max || s.len() == 0) ==> spec_insert(s, e, max) == s.push(e),
        s.len() >= max && s.len() > 0 ==> spec_insert(s, e, max).len() == s.len(),
{
    let r = spec_insert(s, e, max);
    let b = if s.len() >= max && s.len() > 0 {
        s.drop_first()
    } else {
        s
    };
    assert(r == b.push(e));
    assert forall|p: int, q: int|
        0 <= p < q < r.len() implies #[trigger] r[p].key != #[trigger] r[q].key by {
        if s.len() >= max && s.len() > 0 {
            if q < r.len() - 1 {
                assert(r[p] == s[p + 1] && r[q] == s[q + 1]);
            } else {
                assert(r[p] == s[p + 1]);
                assert(r[q] == e);
                assert(!contains_key(s, e.key));
                assert(s[p + 1].key != e.key) by {
                    if s[p + 1].key == e.key {
                        assert(contains_key(s, e.key));
                    }
                }
            }
        } else {
            if q < r.len() - 1 {
                assert(r[p] == s[p] && r[q] == s[q]);
            } else {
                assert(r[p] == s[p]);
                assert(r[q] == e);
                assert(s[p].key != e.key) by {
                    if s[p].key == e.key {
                        assert(contains_key(s, e.key));
                    }
                }
            }
        }
    }
}

/// Facts about [`write_model`]: well-formedness is preserved, the written
/// entry sits at the end, and a rewrite of an existing key keeps the length.
pub proof fn lemma_write_model_facts(s: Seq<EntryModel>, e: EntryModel, max: usize)
    requires
        unique_keys(s),
        s.len() <= spec_capacity(max),
    ensures
        ({
            let r = write_model(s, e, max);
            &&& unique_keys(r)
            &&& r.len() <= spec_capacity(max)
            &&& r.len() >= 1
            &&& r.last() == e
            &&& contains_key(r, e.key)
            &&& key_index(r, e.key) == r.len() - 1
            &&& (contains_key(s, e.key) ==> r.len() == s.len())
        }),
{
    let b = remove_key(s, e.key);
    lemma_remove_key_facts(s, e.key);
    lemma_insert_facts(b, e, max);
    let r = write_model(s, e, max);
    assert(r.last() == e);
    assert(contains_key(r, e.key)) by {
        assert(r[r.len() - 1].key == e.key);
    }
    assert(key_index(r, e.key) == r.len() - 1) by {
        let w = key_index(r, e.key);
        assert(0 <= w < r.len() && r[w].key == e.key);
        if w != r.len() - 1 {
            assert(r[w].key != r[r.len() - 1].key);
        }
    }
    if contains_key(s, e.key) {
        assert(b.len() == s.len() - 1);
        if max == 0 {
            assert(s.len() == 1 && b.len() == 0);
        } else {
            assert(b.len() < max);
        }
        assert(r == b.push(e));
    }
}

/// The models of a sequence of search results.
pub open spec fn results_model(rs: Seq<SearchResult>) -> Seq<ResultModel> {
    rs.map_values(|x: SearchResult| x@)
}

/// Scores are non-increasing.
pub open spec fn sorted_desc(s: Seq<ResultModel>) -> bool {
    forall|p: int, q: int|
        #![trigger s[p], s[q]]
        0 <= p < q < s.len() ==> s[p].score >= s[q].score
}

/// One result per stored entry, in store order, scored against the query.
pub open spec fn scored(s: Seq<EntryModel>, q: Seq<i32>) -> Seq<ResultModel> {
    Seq::new(s.len(), |i: int| ResultModel { entry: s[i], score: spec_cosine(q, s[i].embedding) })
}

/// Sort results by score, descending; a stable adjacent-swap insertion
/// sort, so equal scores keep their input order.
fn sort_results(v: Vec<SearchResult>) -> (r: Vec<SearchResult>)
    ensures
        r@.len() == v@.len(),
        results_model(r@).to_multiset() == results_model(v@).to_multiset(),
        sorted_desc(results_model(r@)),
{
    broadcast use vstd::multiset::group_multiset_axioms;

    let ghost m0 = results_model(v@).to_multiset();
    let mut u = v;
    let n = u.len();
    let mut i: usize = 1;
    while i < n
        invariant
            n == u@.len(),
            n == v@.len(),
            1 <= i,
            i <= n || n <= 1,
            results_model(u@).to_multiset() == m0,
            m0 == results_model(v@).to_multiset(),
            forall|p: int, q: int|
                #![trigger u@[p], u@[q]]
                0 <= p < q < i && q < n ==> u@[p]@.score >= u@[q]@.score,
        decreases n - i,
    {
        let mut j: usize = i;
        while j > 0 && v_score(&u, j - 1) < v_score(&u, j)
            invariant
                n == u@.len(),
                0 <= j <= i < n,
                results_model(u@).to_multiset() == m0,
                forall|p: int, q: int|
                    #![trigger u@[p], u@[q]]
                    0 <= p < q <= i && p != j && q != j ==> u@[p]@.score >= u@[q]@.score,
                forall|p: int|
                    #![trigger u@[p]]
                    j < p <= i ==> u@[j as int]@.score >= u@[p]@.score,
            decreases j,
        {
            let ghost before = u@;
            let x = u.remove(j);
            u.insert(j - 1, x);
            proof {
                let w = u@;
                assert(w =~= before.update(j - 1, before[j as int]).update(
                    j as int,
                    before[j - 1],
                ));
                let mb = results_model(before);
                let mw = results_model(w);
                let a = mb[j as int];
                assert(mw =~= mb.remove(j as int).insert(j - 1, a));
                vstd::seq_lib::to_multiset_remove(mb, j as int);
                vstd::seq_lib::to_multiset_insert(mb.remove(j as int), j - 1, a);
                vstd::seq_lib::to_multiset_contains(mb, a);
                assert(mb.contains(a));
                assert(mb.to_multiset().remove(a).insert(a) =~= mb.to_multiset());
                assert(mw.to_multiset() == mb.to_multiset());
            }
            j = j - 1;
        }
        proof {
            assert forall|p: int, q: int|
                #![trigger u@[p], u@[q]]
                0 <= p < q < i + 1 && q < n implies u@[p]@.score >= u@[q]@.score by {
                if q == j {
                    if p < j {
                        if p < j - 1 {
                            assert(u@[p]@.score >= u@[j - 1]@.score);
                        }
                        assert(u@[j - 1]@.score >= u@[j as int]@.score);
                    }
                }
            }
        }
        i = i + 1;
    }
    proof {
        assert forall|p: int, q: int|
            #![trigger results_model(u@)[p], results_model(u@)[q]]
            0 <= p < q < results_model(u@).len() implies results_model(u@)[p].score
            >= results_model(u@)[q].score by {
            assert(u@[p]@.score >= u@[q]@.score);
        }
    }
    u
}

/// Read a score; helper so the sort's loop condition stays a plain call.
fn v_score(v: &Vec<SearchResult>, i: usize) -> (s: i64)
    requires
        i < v@.len(),
    ensures
        s == v@[i as int].score,
{
    v[i].score
}

/// Vector store with similarity search.
#[derive(Debug)]
pub struct VectorStore {
    /// Entries in insertion order, keys unique.
    entries: Vec<MemoryEntry>,
    /// Embedding dimension (carried configuration; the facade validates it).
    dim: usize,
    /// Maximum number of entries.
    max_entries: usize,
}

impl View for VectorStore {
    type V = Seq<EntryModel>;

    closed spec fn view(&self) -> Seq<EntryModel> {
        self.entries@.map_values(|e: MemoryEntry| e@)
    }
}

impl VectorStore {
    /// The configured embedding dimension.
    pub closed spec fn spec_dim(&self) -> usize {
        self.dim
    }

    /// The configured capacity.
    pub closed spec fn spec_max_entries(&self) -> usize {
        self.max_entries
    }

    /// The number of entries this store can actually hold.
    pub closed spec fn capacity_limit(&self) -> nat {
        spec_capacity(self.max_entries)
    }

    /// Well-formedness: within capacity, keys unique.
    pub closed spec fn wf(&self) -> bool {
        &&& self@.len() <= self.capacity_limit()
        &&& unique_keys(self@)
    }

    /// What well-formedness guarantees, stated over the public model.
    pub proof fn lemma_wf_facts(&self)
        requires
            self.wf(),
        ensures
            self@.len() <= spec_capacity(self.spec_max_entries()),
            unique_keys(self@),
    {
    }

    /// Create a new, empty vector store.
    pub fn new(dim: usize, max_entries: usize) -> (s: Self)
        ensures
            s@ == Seq::<EntryModel>::empty(),
            s.spec_dim() == dim,
            s.spec_max_entries() == max_entries,
            s.wf(),
    {
        let s = VectorStore { entries: Vec::new(), dim, max_entries };
        proof {
            assert(s@ =~= Seq::<EntryModel>::empty());
        }
        s
    }

    /// Number of entries.
    pub fn len(&self) -> (n: usize)
        ensures
            n == self@.len(),
    {
        self.entries.len()
    }

    /// Whether the store is empty.
    pub fn is_empty(&self) -> (b: bool)
        ensures
            b == (self@.len() == 0),
    {
        self.entries.len() == 0
    }

    /// Remove all entries.
    pub fn clear(&mut self)
        ensures
            final(self)@ == Seq::<EntryModel>::empty(),
            final(self).spec_dim() == old(self).spec_dim(),
            final(self).spec_max_entries() == old(self).spec_max_entries(),
            final(self).wf(),
    {
        self.entries.clear();
        proof {
            assert(self@ =~= Seq::<EntryModel>::empty());
        }
    }

    /// Insert an entry, evicting the oldest when the store is full.
    ///
    /// The caller guarantees key uniqueness: the facade removes any entry
    /// with the same key first.
    pub fn insert(&mut self, entry: MemoryEntry)
        requires
            old(self).wf(),
            !contains_key(old(self)@, entry@.key),
        ensures
            final(self)@ == spec_insert(old(self)@, entry@, old(self).spec_max_entries()),
            final(self).spec_dim() == old(self).spec_dim(),
            final(self).spec_max_entries() == old(self).spec_max_entries(),
            final(self).wf(),
    {
        let ghost old_view = self@;
        if self.entries.len() >= self.max_entries && self.entries.len() > 0 {
            let _evicted = self.entries.remove(0);
            proof {
                assert(self@ =~= old_view.drop_first());
            }
        }
        let ghost mid_view = self@;
        self.entries.push(entry);
        proof {
            assert(self@ =~= mid_view.push(entry@));
        }
    }

    /// Look up an entry by exact key; no side effects.
    pub fn get(&self, key: &str) -> (r: Option<&MemoryEntry>)
        ensures
            r is Some <==> contains_key(self@, key@),
            match r {
                Some(e) => exists|i: int|
                    0 <= i < self@.len() && #[trigger] self@[i].key == key@ && e@ == self@[i],
                None => true,
            },
    {
        let owned: String = key.to_owned();
        let n = self.entries.len();
        let mut i: usize = 0;
        while i < n
            invariant
                n == self@.len(),
                0 <= i <= n,
                owned@ == key@,
                forall|j: int| 0 <= j < i ==> #[trigger] self@[j].key != key@,
            decreases n - i,
        {
            if self.entries[i].key == owned {
                proof {
                    assert(self@[i as int].key == key@);
                    assert(contains_key(self@, key@));
                }
                return Some(&self.entries[i]);
            }
            i = i + 1;
        }
        proof {
            assert(!contains_key(self@, key@)) by {
                if contains_key(self@, key@) {
                    let w = key_index(self@, key@);
                    assert(self@[w].key == key@);
                }
            }
        }
        None
    }

    /// Remove the entry with the given key; returns whether one was removed.
    pub fn remove(&mut self, key: &str) -> (removed: bool)
        requires
            old(self).wf(),
        ensures
            removed == contains_key(old(self)@, key@),
            final(self)@ == remove_key(old(self)@, key@),
            !contains_key(final(self)@, key@),
            final(self).spec_dim() == old(self).spec_dim(),
            final(self).spec_max_entries() == old(self).spec_max_entries(),
            final(self).wf(),
    {
        let ghost old_view = self@;
        let owned: String = key.to_owned();
        let n = self.entries.len();
        let mut found: Option<usize> = None;
        let mut i: usize = 0;
        while i < n && found.is_none()
            invariant
                n == old_view.len(),
                old_view == self@,
                0 <= i <= n,
                owned@ == key@,
                match found {
                    Some(idx) => idx < n && old_view[idx as int].key == key@,
                    None => forall|j: int| 0 <= j < i ==> #[trigger] old_view[j].key != key@,
                },
            decreases n - i, (if found is None { 1int } else { 0int }),
        {
            if self.entries[i].key == owned {
                found = Some(i);
            } else {
                i = i + 1;
            }
        }
        proof {
            if found is None {
                assert(i == n);
            }
        }
        match found {
            Some(idx) => {
                proof {
                    assert(old_view[idx as int].key == key@);
                    assert(contains_key(old_view, key@));
                    let w = key_index(old_view, key@);
                    assert(old_view[w].key == key@);
                    assert(w == idx) by {
                        assert(unique_keys(old_view));
                    }
                }
                self.entries.remove(idx);
                proof {
                    assert(self@ =~= old_view.remove(idx as int));
                    assert(unique_keys(self@)) by {
                        assert(forall|p: int, q: int|
                            0 <= p < q < self@.len() ==> #[trigger] self@[p].key
                                != #[trigger] self@[q].key) by {
                            assert forall|p: int, q: int|
                                0 <= p < q < self@.len() implies #[trigger] self@[p].key
                                != #[trigger] self@[q].key by {
                                let p0 = if p < idx {
                                    p
                                } else {
                                    p + 1
                                };
                                let q0 = if q < idx {
                                    q
                                } else {
                                    q + 1
                                };
                                assert(self@[p] == old_view[p0] && self@[q] == old_view[q0]);
                                assert(unique_keys(old_view));
                            }
                        }
                    }
                    assert(!contains_key(self@, key@)) by {
                        if contains_key(self@, key@) {
                            let w = key_index(self@, key@);
                            assert(self@[w].key == key@);
                            let w0 = if w < idx {
                                w
                            } else {
                                w + 1
                            };
                            assert(self@[w] == old_view[w0]);
                            assert(unique_keys(old_view));
                        }
                    }
                }
                true
            },
            None => {
                proof {
                    assert(!contains_key(old_view, key@));
                }
                false
            },
        }
    }

    /// Search by cosine similarity: the `k` best-scoring entries, as value
    /// copies, sorted by non-increasing score. Equal scores keep insertion
    /// order. The result is the first `min(k, len)` of some score-sorted
    /// permutation of all entries scored against the query.
    pub fn search(&self, query: &[i32], k: usize) -> (r: Vec<SearchResult>)
        ensures
            r@.len() == if k < self@.len() {
                k as nat
            } else {
                self@.len()
            },
            sorted_desc(results_model(r@)),
            exists|full: Seq<ResultModel>|
                {
                    &&& full.to_multiset() == scored(self@, query@).to_multiset()
                    &&& sorted_desc(full)
                    &&& results_model(r@) == full.take(r@.len() as int)
                },
    {
        let n = self.entries.len();
        let mut cands: Vec<SearchResult> = Vec::new();
        let mut i: usize = 0;
        while i < n
            invariant
                n == self@.len(),
                0 <= i <= n,
                cands@.len() == i,
                forall|j: int|
                    0 <= j < i ==> #[trigger] results_model(cands@)[j] == scored(
                        self@,
                        query@,
                    )[j],
            decreases n - i,
        {
            let e = &self.entries[i];
            let score = cosine_similarity(query, e.embedding.as_slice());
            let item = SearchResult { entry: e.duplicate(), score };
            let ghost prev = cands@;
            cands.push(item);
            proof {
                assert forall|j: int| 0 <= j < i + 1 implies #[trigger] results_model(cands@)[j]
                    == scored(self@, query@)[j] by {
                    assert(results_model(cands@)[j] == cands@[j]@);
                    if j < i {
                        assert(cands@[j] == prev[j]);
                        assert(results_model(prev)[j] == prev[j]@);
                    } else {
                        assert(cands@[j] == item);
                    }
                }
            }
            i = i + 1;
        }
        proof {
            assert(results_model(cands@) =~= scored(self@, query@));
        }
        let mut out = sort_results(cands);
        let ghost full = results_model(out@);
        out.truncate(k);
        proof {
            if k < full.len() {
                assert(results_model(out@) =~= full.take(k as int));
            } else {
                assert(results_model(out@) =~= full.take(full.len() as int));
            }
            assert(sorted_desc(results_model(out@)));
        }
        out
    }

    /// All entries, in insertion order.
    pub fn entries(&self) -> (r: Vec<&MemoryEntry>)
        ensures
            r@.len() == self@.len(),
            forall|i: int| 0 <= i < r@.len() ==> #[trigger] r@[i]@ == self@[i],
    {
        let n = self.entries.len();
        let mut r: Vec<&MemoryEntry> = Vec::new();
        let mut i: usize = 0;
        while i < n
            invariant
                n == self@.len(),
                0 <= i <= n,
                r@.len() == i,
                forall|j: int| 0 <= j < i ==> #[trigger] r@[j]@ == self@[j],
            decreases n - i,
        {
            r.push(&self.entries[i]);
            i = i + 1;
        }
        r
    }
}

} // verus!
