//! Rules: which operations are accepted.
use crate::chars::{chars_of, copy_text, deep, lines, split_lines};
use crate::engine::identity::{AgentId, RuleFingerprint};
use crate::engine::op::{Op, OpView};
use vstd::prelude::*;

verus! {

/// What a rule says of an operation.
#[derive(Clone, Debug, PartialEq, Eq)]
pub enum Verdict {
    Accept,
    /// Rejected, with the reason.
    Reject(String),
}

/// What a verdict says.
pub enum VerdictView {
    Accept,
    Reject(Seq<char>),
}

impl View for Verdict {
    type V = VerdictView;

    open spec fn view(&self) -> VerdictView {
        match self {
            Verdict::Accept => VerdictView::Accept,
            Verdict::Reject(s) => VerdictView::Reject(s@),
        }
    }
}

/// A rule judges an operation by the rendered state before it, and by nothing
/// else.
pub trait Rule: Sized {
    /// The verdict on an operation.
    spec fn verdict(&self, op: OpView, state_before: Seq<char>) -> VerdictView;

    /// The rule's fingerprint.
    spec fn print(&self) -> RuleFingerprint;

    /// The verdict on an operation.
    fn validate(&self, op: &Op, state_before: &str) -> (r: Verdict)
        ensures
            r@ == self.verdict(op@, state_before@),
    ;

    /// The rule's fingerprint.
    fn fingerprint(&self) -> (r: RuleFingerprint)
        ensures
            r == self.print(),
    ;
}

/// Accepts everything.
pub struct AllowAll;

impl Rule for AllowAll {
    open spec fn verdict(&self, op: OpView, state_before: Seq<char>) -> VerdictView {
        VerdictView::Accept
    }

    open spec fn print(&self) -> RuleFingerprint {
        RuleFingerprint(0x0A11_0A11)
    }

    fn validate(&self, _op: &Op, _state_before: &str) -> (r: Verdict) {
        Verdict::Accept
    }

    fn fingerprint(&self) -> (r: RuleFingerprint) {
        RuleFingerprint(0x0A11_0A11)
    }
}

/// Two agents take turns. Whose turn it is follows from the number of lines in
/// the state, one for each accepted move.
pub struct TwoPlayerTurns {
    pub first: AgentId,
    pub second: AgentId,
}

impl TwoPlayerTurns {
    /// Whose turn it is.
    pub open spec fn turn(&self, state_before: Seq<char>) -> AgentId {
        if lines(state_before).len() % 2 == 0 {
            self.first
        } else {
            self.second
        }
    }
}

impl Rule for TwoPlayerTurns {
    open spec fn verdict(&self, op: OpView, state_before: Seq<char>) -> VerdictView {
        if op.id.agent == self.turn(state_before) {
            VerdictView::Accept
        } else if op.id.agent == self.first || op.id.agent == self.second {
            VerdictView::Reject("out of turn"@)
        } else {
            VerdictView::Reject("not a participant"@)
        }
    }

    open spec fn print(&self) -> RuleFingerprint {
        RuleFingerprint(0x7000_0002)
    }

    fn validate(&self, op: &Op, state_before: &str) -> (r: Verdict) {
        let cs = chars_of(state_before);
        let ls = split_lines(cs.as_slice());
        assert(deep(ls@).len() == ls@.len());
        let turn = if ls.len() % 2 == 0 {
            self.first
        } else {
            self.second
        };
        if op.id.agent == turn {
            Verdict::Accept
        } else if op.id.agent == self.first || op.id.agent == self.second {
            Verdict::Reject(copy_text("out of turn"))
        } else {
            Verdict::Reject(copy_text("not a participant"))
        }
    }

    fn fingerprint(&self) -> (r: RuleFingerprint) {
        RuleFingerprint(0x7000_0002)
    }
}

/// Two players take turns: a participant's move is accepted exactly where it is theirs to
/// move, the first one's after an even number of moves and the other's after an odd one,
/// and nobody else's ever is.
pub proof fn law_players_take_turns(r: TwoPlayerTurns, op: OpView, state: Seq<char>)
    requires
        r.first != r.second,
    ensures
        op.id.agent == r.first ==> (r.verdict(op, state) is Accept <==> lines(state).len() % 2 == 0),
        op.id.agent == r.second ==> (r.verdict(op, state) is Accept <==> lines(state).len() % 2 == 1),
        op.id.agent != r.first && op.id.agent != r.second ==> r.verdict(op, state)
            == VerdictView::Reject("not a participant"@),
        op.id.agent == r.first || op.id.agent == r.second ==> r.verdict(op, state) is Accept || r.verdict(
            op,
            state,
        ) == VerdictView::Reject("out of turn"@),
{
}

} // verus!
