//! Opaque engine state carried through checkpoints.
//!
//! The inference engine is an external collaborator; its serialized state
//! is a tagged byte blob that the checkpoint system stores and hands back
//! without interpreting it.

use vstd::prelude::*;

verus! {

/// Mathematical model of an [`EngineState`].
pub ghost struct EngineStateModel {
    pub data: Seq<u8>,
    pub n_tokens: usize,
    pub engine_id: Seq<char>,
}

/// Engine state for checkpointing: an opaque blob, a token count, and the
/// identifier of the engine that produced it.
#[derive(Debug)]
pub struct EngineState {
    /// Serialized engine context (opaque to this crate).
    pub data: Vec<u8>,
    /// Number of tokens in context.
    pub n_tokens: usize,
    /// Engine identifier tag.
    pub engine_id: String,
}

impl View for EngineState {
    type V = EngineStateModel;

    open spec fn view(&self) -> EngineStateModel {
        EngineStateModel {
            data: self.data@,
            n_tokens: self.n_tokens,
            engine_id: self.engine_id@,
        }
    }
}

impl Default for EngineState {
    /// The empty state: no data, no tokens, tagged "none".
    fn default() -> (s: Self)
        ensures
            s@.data == Seq::<u8>::empty(),
            s@.n_tokens == 0,
            s@.engine_id == "none"@,
    {
        EngineState { data: Vec::new(), n_tokens: 0, engine_id: "none".to_owned() }
    }
}

impl EngineState {
    /// An independent copy of this state.
    pub fn duplicate(&self) -> (r: EngineState)
        ensures
            r@ == self@,
    {
        let mut data: Vec<u8> = Vec::new();
        let mut i: usize = 0;
        while i < self.data.len()
            invariant
                0 <= i <= self.data@.len(),
                data@ == self.data@.take(i as int),
            decreases self.data@.len() - i,
        {
            data.push(self.data[i]);
            proof {
                assert(self.data@.take(i + 1) =~= self.data@.take(i as int).push(
                    self.data@[i as int],
                ));
            }
            i = i + 1;
        }
        proof {
            assert(self.data@.take(self.data@.len() as int) =~= self.data@);
        }
        EngineState { data, n_tokens: self.n_tokens, engine_id: self.engine_id.clone() }
    }

    /// Whether an engine with the given identifier can accept this state:
    /// the tags match, or the state is the empty "none" state.
    pub fn compatible_with(&self, engine_id: &str) -> (r: bool)
        ensures
            r == (self@.engine_id == engine_id@ || self@.engine_id == "none"@),
    {
        let none_tag: String = "none".to_owned();
        let own: String = engine_id.to_owned();
        self.engine_id == own || self.engine_id == none_tag
    }
}

} // verus!
