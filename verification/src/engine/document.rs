//! What a document must offer to be replayed.
use crate::engine::op::{actions, Action, ActionView, Op, OpView};
use vstd::prelude::*;

verus! {

/// A document that operations are folded into.
pub trait Document: Sized {
    /// What the document is, as far as operations and rendering go.
    type State;

    /// The state that the document is in.
    spec fn state(&self) -> Self::State;

    /// The state of a document without operations.
    spec fn initial() -> Self::State;

    /// The state after one operation.
    spec fn folded(s: Self::State, op: OpView) -> Self::State;

    /// The state rendered as a text.
    spec fn rendered(s: Self::State) -> Seq<char>;

    /// The actions that lead from one text to another.
    spec fn changes(base: Seq<char>, new_snapshot: Seq<char>) -> Seq<ActionView>;

    /// A document without operations.
    fn fresh() -> (r: Self)
        ensures
            r.state() == Self::initial(),
    ;

    /// Folds an accepted operation into the document.
    fn apply(&mut self, op: &Op)
        ensures
            final(self).state() == Self::folded(old(self).state(), op@),
    ;

    /// Renders the document.
    fn materialize(&self) -> (r: String)
        ensures
            r@ == Self::rendered(self.state()),
    ;

    /// The actions that lead from the producer's base to its new text.
    fn diff(base: &str, new_snapshot: &str) -> (r: Vec<Action>)
        ensures
            actions(r@) == Self::changes(base@, new_snapshot@),
    ;
}

} // verus!
