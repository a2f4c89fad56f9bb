//! Operations: the events of the shared history.
use crate::chars::copy_text;
use crate::engine::identity::AgentId;
use vstd::prelude::*;

verus! {

/// The identity of an operation: its author, and its number among the author's.
#[derive(Clone, Copy, PartialEq, Eq, Debug, Hash, PartialOrd, Ord, Structural)]
pub struct OpId {
    pub agent: AgentId,
    pub seq: u64,
}

/// What an operation does.
#[derive(Clone, Debug)]
pub enum Action {
    /// Adds a text at the end.
    Append(String),
}

/// What an action says.
pub enum ActionView {
    Append(Seq<char>),
}

impl View for Action {
    type V = ActionView;

    open spec fn view(&self) -> ActionView {
        match self {
            Action::Append(s) => ActionView::Append(s@),
        }
    }
}

/// What a list of actions says.
pub open spec fn actions(v: Seq<Action>) -> Seq<ActionView> {
    v.map_values(|a: Action| a@)
}

/// An event of the shared history.
#[derive(Clone, Debug)]
pub struct Op {
    pub id: OpId,
    pub lamport: u64,
    /// What the author had seen.
    pub parents: Vec<OpId>,
    pub action: Action,
}

/// What an operation says.
pub struct OpView {
    pub id: OpId,
    pub lamport: u64,
    pub parents: Seq<OpId>,
    pub action: ActionView,
}

impl View for Op {
    type V = OpView;

    open spec fn view(&self) -> OpView {
        OpView {
            id: self.id,
            lamport: self.lamport,
            parents: self.parents@,
            action: self.action@,
        }
    }
}

/// What a list of operations says.
pub open spec fn ops(v: Seq<Op>) -> Seq<OpView> {
    v.map_values(|o: Op| o@)
}

impl OpView {
    /// The key by which every peer orders operations: time stamp, author, number.
    pub open spec fn key(self) -> (u64, u64, u64) {
        (self.lamport, self.id.agent.0, self.id.seq)
    }
}

/// The order of keys: lexicographic.
pub open spec fn key_lt(a: (u64, u64, u64), b: (u64, u64, u64)) -> bool {
    a.0 < b.0 || (a.0 == b.0 && (a.1 < b.1 || (a.1 == b.1 && a.2 < b.2)))
}

impl Op {
    /// The key by which every peer orders operations.
    pub fn total_order_key(&self) -> (r: (u64, AgentId, u64))
        ensures
            (r.0, r.1.0, r.2) == self@.key(),
    {
        (self.lamport, self.id.agent, self.id.seq)
    }

    /// Whether this operation comes before another.
    pub fn before(&self, other: &Op) -> (r: bool)
        ensures
            r == key_lt(self@.key(), other@.key()),
    {
        let (l, a, s) = self.total_order_key();
        let (m, b, t) = other.total_order_key();
        l < m || (l == m && (a.0 < b.0 || (a.0 == b.0 && s < t)))
    }

    /// A copy of the operation.
    pub fn copy(&self) -> (r: Self)
        ensures
            r@ == self@,
    {
        let action = match &self.action {
            Action::Append(s) => Action::Append(copy_text(s.as_str())),
        };
        Op { id: self.id, lamport: self.lamport, parents: copy_ids(&self.parents), action }
    }
}

/// A copy of a list of identities.
pub fn copy_ids(v: &Vec<OpId>) -> (r: Vec<OpId>)
    ensures
        r@ == v@,
{
    let mut out: Vec<OpId> = Vec::new();
    let mut i: usize = 0;
    while i < v.len()
        invariant
            i <= v@.len(),
            out@ == v@.take(i as int),
        decreases v@.len() - i,
    {
        out.push(v[i]);
        i += 1;
        assert(v@.take(i as int) =~= v@.take(i - 1).push(v@[i - 1]));
    }
    assert(v@.take(i as int) =~= v@);
    out
}

} // verus!
