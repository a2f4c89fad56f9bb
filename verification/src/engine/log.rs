//! A document that only grows.
use crate::chars::{chars_of, copy_text, push_text, starts_with_chars, string_of};
use crate::engine::document::Document;
use crate::engine::op::{actions, Action, ActionView, Op, OpView};
use vstd::prelude::*;
use vstd::slice::slice_subrange;

verus! {

/// A text to which operations append.
pub struct AppendLog {
    text: String,
}

impl Document for AppendLog {
    type State = Seq<char>;

    closed spec fn state(&self) -> Seq<char> {
        self.text@
    }

    open spec fn initial() -> Seq<char> {
        Seq::empty()
    }

    open spec fn folded(s: Seq<char>, op: OpView) -> Seq<char> {
        match op.action {
            ActionView::Append(t) => s + t,
        }
    }

    open spec fn rendered(s: Seq<char>) -> Seq<char> {
        s
    }

    /// What was appended; the whole new text where it does not start with the
    /// old one.
    open spec fn changes(base: Seq<char>, new_snapshot: Seq<char>) -> Seq<ActionView> {
        if base == new_snapshot {
            Seq::empty()
        } else if base.is_prefix_of(new_snapshot) {
            seq![ActionView::Append(new_snapshot.skip(base.len() as int))]
        } else {
            seq![ActionView::Append(new_snapshot)]
        }
    }

    fn fresh() -> (r: Self) {
        let r = AppendLog { text: String::new() };
        assert(r.state() =~= Seq::empty());
        r
    }

    fn apply(&mut self, op: &Op) {
        match &op.action {
            Action::Append(s) => {
                let mut cs = chars_of(self.text.as_str());
                push_text(&mut cs, s.as_str());
                self.text = string_of(cs.as_slice());
            },
        }
    }

    fn materialize(&self) -> (r: String) {
        copy_text(self.text.as_str())
    }

    fn diff(base: &str, new_snapshot: &str) -> (r: Vec<Action>) {
        let b = chars_of(base);
        let n = chars_of(new_snapshot);
        let mut out: Vec<Action> = Vec::new();
        if starts_with_chars(n.as_slice(), b.as_slice()) {
            if b.len() == n.len() {
                assert(b@ =~= n@);
                assert(actions(out@) =~= Seq::empty());
                return out;
            }
            let rest = slice_subrange(n.as_slice(), b.len(), n.len());
            assert(rest@ =~= n@.skip(b@.len() as int));
            out.push(Action::Append(string_of(rest)));
            assert(actions(out@) =~= seq![ActionView::Append(rest@)]);
        } else {
            assert(b@ != n@) by {
                if b@ == n@ {
                    assert(b@.is_prefix_of(n@));
                }
            }
            out.push(Action::Append(copy_text(new_snapshot)));
            assert(actions(out@) =~= seq![ActionView::Append(new_snapshot@)]);
        }
        out
    }
}

/// Folding in what was appended leads from the old text to the new one.
pub proof fn law_diff_leads_to_the_new_text(base: Seq<char>, new_snapshot: Seq<char>, op: OpView)
    requires
        base.is_prefix_of(new_snapshot),
        base != new_snapshot,
        AppendLog::changes(base, new_snapshot) == seq![op.action],
    ensures
        AppendLog::folded(base, op) == new_snapshot,
{
    let c = AppendLog::changes(base, new_snapshot);
    assert(c[0] == seq![op.action][0]);
    assert(base + new_snapshot.skip(base.len() as int) =~= new_snapshot);
}

} // verus!
