//! Checkpoint handles, their manager, and branches.
//!
//! A [`Checkpoint`] is a lightweight projection of a stored record (id,
//! name, timestamp) used for cheap listing. The [`CheckpointManager`] keeps
//! a bounded list of handles, evicting the oldest when over its limit.
//! A [`Branch`] is a detached copy of a record that can evolve
//! independently: it owns its state, so mutating it can never touch the
//! record it was forked from.

use vstd::prelude::*;
use crate::state::{RuntimeState, RuntimeStateModel};
use crate::sys::fresh_id;

verus! {

/// Mathematical model of a [`Checkpoint`].
pub ghost struct CheckpointModel {
    pub id: Seq<char>,
    pub name: Option<Seq<char>>,
    pub created_at: u64,
}

/// A checkpoint handle: a lightweight reference to a saved state.
#[derive(Debug)]
pub struct Checkpoint {
    /// Checkpoint id.
    pub id: String,
    /// Optional name.
    pub name: Option<String>,
    /// Creation timestamp.
    pub created_at: u64,
}

impl View for Checkpoint {
    type V = CheckpointModel;

    open spec fn view(&self) -> CheckpointModel {
        CheckpointModel {
            id: self.id@,
            name: match self.name {
                Some(ref n) => Some(n@),
                None => None,
            },
            created_at: self.created_at,
        }
    }
}

/// The handle that projects a record.
pub open spec fn handle_of(s: RuntimeStateModel) -> CheckpointModel {
    CheckpointModel { id: s.id, name: s.name, created_at: s.created_at }
}

impl Checkpoint {
    /// Project a handle from a runtime state.
    pub fn from_state(state: &RuntimeState) -> (c: Checkpoint)
        ensures
            c@ == handle_of(state@),
    {
        Checkpoint {
            id: state.id.clone(),
            name: match state.name {
                Some(ref n) => Some(n.clone()),
                None => None,
            },
            created_at: state.created_at,
        }
    }

    /// An independent copy of this handle.
    pub fn duplicate(&self) -> (c: Checkpoint)
        ensures
            c@ == self@,
    {
        Checkpoint {
            id: self.id.clone(),
            name: match self.name {
                Some(ref n) => Some(n.clone()),
                None => None,
            },
            created_at: self.created_at,
        }
    }
}

/// Mathematical model of a [`Branch`].
pub ghost struct BranchModel {
    pub id: Seq<char>,
    pub parent_id: Seq<char>,
    pub state: RuntimeStateModel,
}

/// A branch of execution: an independent copy of a runtime state, tagged
/// with a fresh branch id and the checkpoint id it was forked from.
#[derive(Debug)]
pub struct Branch {
    /// Branch id.
    pub id: String,
    /// Parent checkpoint id.
    pub parent_id: String,
    /// The branch's own state.
    state: RuntimeState,
}

impl View for Branch {
    type V = BranchModel;

    closed spec fn view(&self) -> BranchModel {
        BranchModel { id: self.id@, parent_id: self.parent_id@, state: self.state@ }
    }
}

impl Branch {
    /// Create a new branch owning the given state, with a fresh id.
    pub fn new(parent_id: String, state: RuntimeState) -> (b: Branch)
        ensures
            b@.id.len() == 36,
            b@.parent_id == parent_id@,
            b@.state == state@,
    {
        Branch { id: fresh_id(), parent_id, state }
    }

    /// The branch's state.
    pub fn state(&self) -> (r: &RuntimeState)
        ensures
            r@ == self@.state,
    {
        &self.state
    }

    /// The branch's state, for independent mutation: changes go to this
    /// branch alone, and its id and parent id stay as they are.
    pub fn state_mut(&mut self) -> (r: &mut RuntimeState)
        ensures
            (*r)@ == old(self)@.state,
            final(self)@.state == (*final(r))@,
            final(self)@.id == old(self)@.id,
            final(self)@.parent_id == old(self)@.parent_id,
    {
        &mut self.state
    }

    /// Take ownership of the state, consuming the branch.
    pub fn into_state(self) -> (r: RuntimeState)
        ensures
            r@ == self@.state,
    {
        self.state
    }
}

/// The models of a sequence of handles.
pub open spec fn handles_model(v: Seq<Checkpoint>) -> Seq<CheckpointModel> {
    v.map_values(|c: Checkpoint| c@)
}

/// Retention for handles: drop from the front until at most `max` remain.
pub open spec fn evict_handles_to(s: Seq<CheckpointModel>, max: usize) -> Seq<CheckpointModel> {
    if s.len() <= max {
        s
    } else {
        s.skip(s.len() - max)
    }
}

/// Manages checkpoint handles for a runtime: an in-memory index for fast
/// listing, independent of the record store's own bookkeeping.
#[derive(Debug)]
pub struct CheckpointManager {
    /// Retained handles, oldest first.
    checkpoints: Vec<Checkpoint>,
    /// Maximum handles to retain.
    max_checkpoints: usize,
}

impl View for CheckpointManager {
    type V = Seq<CheckpointModel>;

    closed spec fn view(&self) -> Seq<CheckpointModel> {
        handles_model(self.checkpoints@)
    }
}

impl CheckpointManager {
    /// The configured retention limit.
    pub closed spec fn spec_max(&self) -> usize {
        self.max_checkpoints
    }

    /// Well-formedness: within the retention limit.
    pub closed spec fn wf(&self) -> bool {
        self@.len() <= self.max_checkpoints
    }

    /// What well-formedness guarantees, stated over the public model.
    pub proof fn lemma_wf_facts(&self)
        requires
            self.wf(),
        ensures
            self@.len() <= self.spec_max(),
    {
    }

    /// Create a new checkpoint manager.
    pub fn new(max_checkpoints: usize) -> (m: Self)
        ensures
            m@ == Seq::<CheckpointModel>::empty(),
            m.spec_max() == max_checkpoints,
            m.wf(),
    {
        let m = CheckpointManager { checkpoints: Vec::new(), max_checkpoints };
        proof {
            assert(m@ =~= Seq::<CheckpointModel>::empty());
        }
        m
    }

    /// Record a handle, evicting the oldest handles while over the limit.
    pub fn record(&mut self, checkpoint: Checkpoint)
        requires
            old(self).wf(),
        ensures
            final(self)@ == evict_handles_to(
                old(self)@.push(checkpoint@),
                old(self).spec_max(),
            ),
            final(self).spec_max() == old(self).spec_max(),
            final(self).wf(),
    {
        let ghost before = self@;
        self.checkpoints.push(checkpoint);
        proof {
            assert(self@ =~= before.push(checkpoint@));
        }
        let ghost pushed = self@;
        proof {
            assert(pushed.skip(0) =~= pushed);
        }
        while self.checkpoints.len() > self.max_checkpoints
            invariant
                self@.len() <= pushed.len(),
                self@ == pushed.skip(pushed.len() - self@.len()),
                self@.len() >= self.max_checkpoints || self@ == pushed,
                self.max_checkpoints == old(self).spec_max(),
            decreases self@.len(),
        {
            let ghost prev = self@;
            self.checkpoints.remove(0);
            proof {
                assert(self@ =~= prev.remove(0));
                let k = pushed.len() - self@.len();
                assert(prev == pushed.skip(k - 1));
                assert(self@ =~= pushed.skip(k)) by {
                    assert(forall|w: int|
                        0 <= w < self@.len() ==> #[trigger] self@[w] == prev[w + 1]);
                }
            }
        }
        proof {
            if pushed.len() <= self.max_checkpoints {
                assert(self@ == pushed);
            } else {
                assert(self@.len() == self.max_checkpoints);
            }
        }
    }

    /// The most recent handle, if any.
    pub fn latest(&self) -> (r: Option<&Checkpoint>)
        ensures
            r is Some <==> self@.len() > 0,
            match r {
                Some(c) => c@ == self@.last(),
                None => true,
            },
    {
        let n = self.checkpoints.len();
        if n == 0 {
            None
        } else {
            Some(&self.checkpoints[n - 1])
        }
    }

    /// The first handle with the given id, if any.
    pub fn get(&self, id: &str) -> (r: Option<&Checkpoint>)
        ensures
            r is Some <==> exists|i: int| 0 <= i < self@.len() && #[trigger] self@[i].id == id@,
            match r {
                Some(c) => exists|i: int|
                    {
                        &&& 0 <= i < self@.len()
                        &&& #[trigger] self@[i].id == id@
                        &&& c@ == self@[i]
                        &&& forall|j: int| 0 <= j < i ==> #[trigger] self@[j].id != id@
                    },
                None => true,
            },
    {
        let owned: String = id.to_owned();
        let n = self.checkpoints.len();
        let mut i: usize = 0;
        while i < n
            invariant
                n == self@.len(),
                0 <= i <= n,
                owned@ == id@,
                forall|j: int| 0 <= j < i ==> #[trigger] self@[j].id != id@,
            decreases n - i,
        {
            if self.checkpoints[i].id == owned {
                proof {
                    assert(self@[i as int].id == id@);
                }
                return Some(&self.checkpoints[i]);
            }
            i = i + 1;
        }
        None
    }

    /// All retained handles, oldest first.
    pub fn list(&self) -> (r: &[Checkpoint])
        ensures
            handles_model(r@) == self@,
    {
        self.checkpoints.as_slice()
    }

    /// Forget all handles.
    pub fn clear(&mut self)
        ensures
            final(self)@ == Seq::<CheckpointModel>::empty(),
            final(self).spec_max() == old(self).spec_max(),
            final(self).wf(),
    {
        self.checkpoints.clear();
        proof {
            assert(self@ =~= Seq::<CheckpointModel>::empty());
        }
    }
}

} // verus!
