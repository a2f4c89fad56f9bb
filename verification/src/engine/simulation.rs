//! Golden runs: histories with the outcome that a rule must give.
use crate::chars::{copy_text, same_text};
use crate::engine::document::Document;
use crate::engine::hashing::{feed_text, text_writes};
use crate::engine::op::{ops, Op, OpId, OpView};
use crate::engine::replay::{ordered, replayed, Engine};
use crate::engine::rules::Rule;
use std::collections::hash_map::DefaultHasher;
use std::hash::Hasher;
use vstd::prelude::*;
use vstd::std_specs::hash::DefaultHasherAdditionalSpecFns;

verus! {

/// A history and the outcome it must have.
pub struct Vector {
    pub name: String,
    pub events: Vec<Op>,
    pub expect_state: String,
    pub expect_rejected: Vec<OpId>,
}

/// The outcome that a history had.
pub struct VectorResult {
    pub name: String,
    pub passed: bool,
    pub got_state: String,
    pub got_rejected: Vec<OpId>,
}

/// A list of golden runs.
pub struct Suite {
    pub vectors: Vec<Vector>,
}

/// The identities of a list of rejections.
pub open spec fn rejected_ids(v: Seq<(OpId, Seq<char>)>) -> Seq<OpId> {
    v.map_values(|r: (OpId, Seq<char>)| r.0)
}

/// `r` is the outcome of the golden run under the rule.
pub open spec fn is_outcome<D: Document, R: Rule>(v: Vector, rule: R, r: VectorResult) -> bool {
    let (state, rejected) = replayed::<D, R>(rule, ordered(ops(v.events@)));
    &&& r.name@ == v.name@
    &&& r.got_state@ == D::rendered(state)
    &&& r.got_rejected@ == rejected_ids(rejected)
    &&& r.passed == (r.got_state@ == v.expect_state@ && r.got_rejected@ == v.expect_rejected@)
}

/// `r` is the outcome of the golden run under a rule that `make_rule` made.
pub open spec fn has_outcome<D: Document, R: Rule, F: Fn() -> R>(
    v: Vector,
    make_rule: F,
    r: VectorResult,
) -> bool {
    exists|rule: R| call_ensures(make_rule, (), rule) && #[trigger] is_outcome::<D, R>(v, rule, r)
}

/// `r` holds the outcome of each golden run under a rule that `make_rule` made.
pub open spec fn are_outcomes<D: Document, R: Rule, F: Fn() -> R>(
    s: Suite,
    make_rule: F,
    r: Seq<VectorResult>,
) -> bool {
    &&& r.len() == s.vectors@.len()
    &&& forall|i: int|
        0 <= i < r.len() ==> has_outcome::<D, R, F>(s.vectors@[i], make_rule, #[trigger] r[i])
}

/// The writes for a list of outcomes.
pub open spec fn outcome_writes(r: Seq<VectorResult>) -> Seq<Seq<u8>>
    decreases r.len(),
{
    if r.len() == 0 {
        Seq::empty()
    } else {
        outcome_writes(r.drop_last()) + text_writes(r.last().name@) + text_writes(
            r.last().got_state@,
        )
    }
}

/// Whether two lists of identities are the same.
fn same_ids(a: &Vec<OpId>, b: &Vec<OpId>) -> (r: bool)
    ensures
        r == (a@ == b@),
{
    if a.len() != b.len() {
        return false;
    }
    let mut i: usize = 0;
    while i < a.len()
        invariant
            i <= a@.len(),
            a@.len() == b@.len(),
            forall|j: int| 0 <= j < i ==> a@[j] == b@[j],
        decreases a@.len() - i,
    {
        if a[i] != b[i] {
            return false;
        }
        i += 1;
    }
    assert(a@ =~= b@);
    true
}

/// Runs one golden history under a rule.
fn run_one<D: Document, R: Rule>(v: &Vector, rule: R) -> (r: VectorResult)
    ensures
        is_outcome::<D, R>(*v, rule, r),
{
    let mut eng: Engine<D, R> = Engine::new(rule);
    let ghost all = ops(v.events@);
    let mut i: usize = 0;
    assert(all.take(0) =~= Seq::<OpView>::empty());
    while i < v.events.len()
        invariant
            i <= v.events@.len(),
            all == ops(v.events@),
            eng.rule() == rule,
            eng.events() == all.take(i as int),
        decreases v.events@.len() - i,
    {
        eng.ingest(v.events[i].copy());
        assert(all.take(i + 1) =~= all.take(i as int).push(all[i as int]));
        i += 1;
    }
    assert(all.take(i as int) =~= all);
    let ghost rej = eng.outcome().1;
    let got_state = eng.materialize();
    let got_rejected = eng.rejected_ids();
    let passed = same_text(got_state.as_str(), v.expect_state.as_str()) && same_ids(
        &got_rejected,
        &v.expect_rejected,
    );
    VectorResult { name: copy_text(v.name.as_str()), passed, got_state, got_rejected }
}

impl Suite {
    /// Runs every golden history, each under a rule of its own.
    pub fn run<D: Document, R: Rule, F: Fn() -> R>(&self, make_rule: F) -> (r: Vec<VectorResult>)
        requires
            call_requires(make_rule, ()),
        ensures
            are_outcomes::<D, R, F>(*self, make_rule, r@),
    {
        let mut out: Vec<VectorResult> = Vec::new();
        let mut i: usize = 0;
        while i < self.vectors.len()
            invariant
                i <= self.vectors@.len(),
                call_requires(make_rule, ()),
                out@.len() == i,
                forall|j: int|
                    0 <= j < i ==> has_outcome::<D, R, F>(
                        self.vectors@[j],
                        make_rule,
                        #[trigger] out@[j],
                    ),
            decreases self.vectors@.len() - i,
        {
            let rule = make_rule();
            let ghost made = rule;
            let r = run_one::<D, R>(&self.vectors[i], rule);
            out.push(r);
            assert(call_ensures(make_rule, (), made) && is_outcome::<D, R>(
                self.vectors@[i as int],
                made,
                out@[i as int],
            ));
            i += 1;
        }
        out
    }

    /// A fingerprint of how the rule behaves on the golden histories: peers with
    /// different fingerprints disagree on the rule.
    pub fn transcript_hash<D: Document, R: Rule, F: Fn() -> R>(&self, make_rule: F) -> (r: u64)
        requires
            call_requires(make_rule, ()),
        ensures
            exists|rs: Seq<VectorResult>| #[trigger]
                are_outcomes::<D, R, F>(*self, make_rule, rs) && r == DefaultHasher::spec_finish(
                    outcome_writes(rs),
                ),
    {
        let results = self.run::<D, R, F>(make_rule);
        let ghost rs = results@;
        let mut h = DefaultHasher::new();
        let mut i: usize = 0;
        assert(h@ =~= outcome_writes(rs.take(0)));
        while i < results.len()
            invariant
                i <= results@.len(),
                rs == results@,
                h@ == outcome_writes(rs.take(i as int)),
            decreases results@.len() - i,
        {
            assert(rs.take(i + 1).drop_last() =~= rs.take(i as int));
            assert(rs.take(i + 1).last() == rs[i as int]);
            feed_text(&mut h, results[i].name.as_str());
            feed_text(&mut h, results[i].got_state.as_str());
            assert(h@ =~= outcome_writes(rs.take(i + 1)));
            i += 1;
        }
        assert(rs.take(i as int) =~= rs);
        h.finish()
    }
}

} // verus!
