//! Deterministic replay: the shared history in one order, each operation judged
//! by the rule before it is folded in.
use crate::engine::document::Document;
use crate::engine::hashing::{feed_text, feed_u64, number_writes, text_writes};
use crate::engine::op::{key_lt, ops, Op, OpId, OpView};
use crate::engine::rules::{Rule, Verdict, VerdictView};
use std::collections::hash_map::DefaultHasher;
use std::hash::Hasher;
use std::marker::PhantomData;
use vstd::prelude::*;
use vstd::std_specs::hash::DefaultHasherAdditionalSpecFns;

verus! {

/// The first place in an ordered list behind everything that does not come after
/// the operation.
pub open spec fn place_of(s: Seq<OpView>, op: OpView) -> int
    decreases s.len(),
{
    if s.len() == 0 || !key_lt(op.key(), s.last().key()) {
        s.len() as int
    } else {
        place_of(s.drop_last(), op)
    }
}

/// The operations in the order that every peer uses; operations with one key
/// stay in the order of arrival.
pub open spec fn ordered(s: Seq<OpView>) -> Seq<OpView>
    decreases s.len(),
{
    if s.len() == 0 {
        Seq::empty()
    } else {
        let front = ordered(s.drop_last());
        front.insert(place_of(front, s.last()), s.last())
    }
}

/// The state that operations lead to in the given order, and those that the rule
/// rejected, with the reasons.
pub open spec fn replayed<D: Document, R: Rule>(rule: R, s: Seq<OpView>) -> (
    D::State,
    Seq<(OpId, Seq<char>)>,
)
    decreases s.len(),
{
    if s.len() == 0 {
        (D::initial(), Seq::empty())
    } else {
        let (state, rejected) = replayed::<D, R>(rule, s.drop_last());
        match rule.verdict(s.last(), D::rendered(state)) {
            VerdictView::Accept => (D::folded(state, s.last()), rejected),
            VerdictView::Reject(why) => (state, rejected.push((s.last().id, why))),
        }
    }
}

/// Rejections with their reasons as texts.
pub open spec fn rejections(v: Seq<(OpId, String)>) -> Seq<(OpId, Seq<char>)> {
    v.map_values(|r: (OpId, String)| (r.0, r.1@))
}

/// The writes for a list of rejections.
pub open spec fn rejection_writes(v: Seq<(OpId, Seq<char>)>) -> Seq<Seq<u8>>
    decreases v.len(),
{
    if v.len() == 0 {
        Seq::empty()
    } else {
        rejection_writes(v.drop_last()) + number_writes(v.last().0.agent.0) + number_writes(
            v.last().0.seq,
        )
    }
}

/// A shared history under a rule.
pub struct Engine<D: Document, R: Rule> {
    rule: R,
    events: Vec<Op>,
    /// The operations that the rule rejected on the last replay, with the reasons.
    pub rejected: Vec<(OpId, String)>,
    _doc: PhantomData<D>,
}

impl<D: Document, R: Rule> Engine<D, R> {
    /// The operations in the order of arrival.
    pub closed spec fn events(&self) -> Seq<OpView> {
        ops(self.events@)
    }

    /// The rule.
    pub closed spec fn rule(&self) -> R {
        self.rule
    }

    /// What the rule rejected on the last replay.
    pub closed spec fn last_rejected(&self) -> Seq<(OpId, Seq<char>)> {
        rejections(self.rejected@)
    }

    /// What replay leads to.
    pub open spec fn outcome(&self) -> (D::State, Seq<(OpId, Seq<char>)>) {
        replayed::<D, R>(self.rule(), ordered(self.events()))
    }

    /// A history without operations.
    pub fn new(rule: R) -> (r: Self)
        ensures
            r.rule() == rule,
            r.events() == Seq::<OpView>::empty(),
            r.last_rejected().len() == 0,
    {
        let r = Engine { rule, events: Vec::new(), rejected: Vec::new(), _doc: PhantomData };
        assert(r.events() =~= Seq::<OpView>::empty());
        r
    }

    /// Adds an operation.
    pub fn ingest(&mut self, op: Op)
        ensures
            final(self).events() == old(self).events().push(op@),
            final(self).rule() == old(self).rule(),
            final(self).last_rejected() == old(self).last_rejected(),
    {
        let ghost before = self.events@;
        let ghost v = op@;
        self.events.push(op);
        assert(ops(self.events@) =~= ops(before).push(v));
    }

    /// The operations at the given places.
    spec fn at(&self, idx: Seq<usize>) -> Seq<OpView> {
        idx.map_values(|i: usize| self.events@[i as int]@)
    }

    /// The places of the operations, in the order that every peer uses.
    fn order(&self) -> (idx: Vec<usize>)
        ensures
            forall|k: int| 0 <= k < idx@.len() ==> (#[trigger] idx@[k]) < self.events@.len(),
            self.at(idx@) == ordered(self.events()),
    {
        let ghost all = self.events();
        let mut idx: Vec<usize> = Vec::new();
        let mut n: usize = 0;
        assert(self.at(idx@) =~= ordered(all.take(0)));
        while n < self.events.len()
            invariant
                n <= self.events@.len(),
                all == ops(self.events@),
                forall|k: int| 0 <= k < idx@.len() ==> (#[trigger] idx@[k]) < self.events@.len(),
                self.at(idx@) == ordered(all.take(n as int)),
            decreases self.events@.len() - n,
        {
            let ghost front = self.at(idx@);
            let ghost op = all[n as int];
            assert(all.take(n + 1).drop_last() =~= all.take(n as int));
            assert(all.take(n + 1).last() == op);
            let mut p: usize = idx.len();
            assert(front.take(p as int) =~= front);
            while p > 0 && self.events[n].before(&self.events[idx[p - 1]])
                invariant
                    p <= idx@.len(),
                    n < self.events@.len(),
                    front == self.at(idx@),
                    all == ops(self.events@),
                    op == self.events@[n as int]@,
                    forall|k: int| 0 <= k < idx@.len() ==> (#[trigger] idx@[k]) < self.events@.len(),
                    place_of(front, op) == place_of(front.take(p as int), op),
                decreases p,
            {
                assert(front.take(p as int).last() == self.events@[idx@[p - 1] as int]@);
                assert(front.take(p as int).drop_last() =~= front.take(p - 1));
                p -= 1;
            }
            proof {
                if p > 0 {
                    assert(front.take(p as int).last() == self.events@[idx@[p - 1] as int]@);
                }
                assert(place_of(front, op) == p);
            }
            let ghost before = idx@;
            idx.insert(p, n);
            assert(idx@ =~= before.insert(p as int, n));
            assert(self.at(idx@) =~= front.insert(p as int, op));
            n += 1;
        }
        assert(all.take(n as int) =~= all);
        idx
    }

    /// Replays the history and renders where it leads. Notes what was rejected.
    pub fn materialize(&mut self) -> (r: String)
        ensures
            final(self).events() == old(self).events(),
            final(self).rule() == old(self).rule(),
            r@ == D::rendered(old(self).outcome().0),
            final(self).last_rejected() == old(self).outcome().1,
    {
        let idx = self.order();
        let ghost line = ordered(self.events());
        let mut doc = D::fresh();
        self.rejected = Vec::new();
        assert(rejections(self.rejected@) =~= Seq::empty());
        assert(line.take(0) =~= Seq::<OpView>::empty());
        let mut k: usize = 0;
        while k < idx.len()
            invariant
                k <= idx@.len(),
                self.events() == old(self).events(),
                self.rule() == old(self).rule(),
                line == ordered(self.events()),
                self.at(idx@) == line,
                forall|j: int| 0 <= j < idx@.len() ==> (#[trigger] idx@[j]) < self.events@.len(),
                (doc.state(), rejections(self.rejected@)) == replayed::<D, R>(
                    self.rule(),
                    line.take(k as int),
                ),
            decreases idx@.len() - k,
        {
            assert(line.take(k + 1).drop_last() =~= line.take(k as int));
            assert(line.take(k + 1).last() == self.at(idx@)[k as int]);
            let ghost before = self.rejected@;
            let state_before = doc.materialize();
            let op = &self.events[idx[k]];
            let id = op.id;
            match self.rule.validate(op, state_before.as_str()) {
                Verdict::Accept => doc.apply(op),
                Verdict::Reject(why) => {
                    let ghost w = why@;
                    self.rejected.push((id, why));
                    assert(rejections(self.rejected@) =~= rejections(before).push((id, w)));
                },
            }
            k += 1;
        }
        assert(line.take(k as int) =~= line);
        doc.materialize()
    }

    /// The operations that the rule rejected on the last replay.
    pub fn rejected_ids(&self) -> (r: Vec<OpId>)
        ensures
            r@ == self.last_rejected().map_values(|x: (OpId, Seq<char>)| x.0),
    {
        let ghost all = self.last_rejected().map_values(|x: (OpId, Seq<char>)| x.0);
        let mut out: Vec<OpId> = Vec::new();
        let mut i: usize = 0;
        while i < self.rejected.len()
            invariant
                i <= self.rejected@.len(),
                all == rejections(self.rejected@).map_values(|x: (OpId, Seq<char>)| x.0),
                out@ == all.take(i as int),
            decreases self.rejected@.len() - i,
        {
            out.push(self.rejected[i].0);
            assert(all.take(i + 1) =~= all.take(i as int).push(all[i as int]));
            i += 1;
        }
        assert(all.take(i as int) =~= all);
        out
    }

    /// A fingerprint of where replay leads: the rendered state and what was
    /// rejected.
    pub fn state_hash(&mut self) -> (r: u64)
        ensures
            final(self).events() == old(self).events(),
            final(self).rule() == old(self).rule(),
            final(self).last_rejected() == old(self).outcome().1,
            r == DefaultHasher::spec_finish(
                text_writes(D::rendered(old(self).outcome().0)) + rejection_writes(
                    old(self).outcome().1,
                ),
            ),
    {
        let state = self.materialize();
        let mut h = DefaultHasher::new();
        feed_text(&mut h, state.as_str());
        let ghost head = text_writes(state@);
        let ghost rej = rejections(self.rejected@);
        assert(h@ =~= head + rejection_writes(rej.take(0)));
        let mut i: usize = 0;
        while i < self.rejected.len()
            invariant
                i <= self.rejected@.len(),
                rej == rejections(self.rejected@),
                h@ == head + rejection_writes(rej.take(i as int)),
            decreases self.rejected@.len() - i,
        {
            assert(rej.take(i + 1).drop_last() =~= rej.take(i as int));
            assert(rej.take(i + 1).last() == rej[i as int]);
            let id = self.rejected[i].0;
            feed_u64(&mut h, id.agent.0);
            feed_u64(&mut h, id.seq);
            assert(h@ =~= head + rejection_writes(rej.take(i + 1)));
            i += 1;
        }
        assert(rej.take(i as int) =~= rej);
        h.finish()
    }
}

// ---------------------------------------------------------------------------
// Laws
// ---------------------------------------------------------------------------

/// No operation stands before one that comes earlier.
pub open spec fn in_sequence(s: Seq<OpView>) -> bool {
    forall|i: int, j: int|
        0 <= i < j < s.len() ==> !key_lt((#[trigger] s[j]).key(), (#[trigger] s[i]).key())
}

proof fn lemma_place(s: Seq<OpView>, op: OpView)
    requires
        in_sequence(s),
    ensures
        0 <= place_of(s, op) <= s.len(),
        forall|i: int| 0 <= i < place_of(s, op) ==> !key_lt(op.key(), (#[trigger] s[i]).key()),
        forall|i: int| place_of(s, op) <= i < s.len() ==> key_lt(op.key(), (#[trigger] s[i]).key()),
    decreases s.len(),
{
    if s.len() > 0 {
        if key_lt(op.key(), s.last().key()) {
            let t = s.drop_last();
            assert forall|i: int, j: int| 0 <= i < j < t.len() implies !key_lt(
                (#[trigger] t[j]).key(),
                (#[trigger] t[i]).key(),
            ) by {
                assert(t[j] == s[j] && t[i] == s[i]);
            }
            lemma_place(t, op);
            assert forall|i: int| 0 <= i < place_of(s, op) implies !key_lt(
                op.key(),
                (#[trigger] s[i]).key(),
            ) by {
                assert(t[i] == s[i]);
            }
            assert forall|i: int| place_of(s, op) <= i < s.len() implies key_lt(
                op.key(),
                (#[trigger] s[i]).key(),
            ) by {
                if i < t.len() {
                    assert(t[i] == s[i]);
                }
            }
        } else {
            assert forall|i: int| 0 <= i < s.len() implies !key_lt(
                op.key(),
                (#[trigger] s[i]).key(),
            ) by {
                if i < s.len() - 1 {
                    assert(!key_lt(s[s.len() - 1].key(), s[i].key()));
                }
            }
        }
    }
}

/// The order keeps every operation, each as often as it came, and puts none
/// before one that comes earlier.
pub proof fn law_order_keeps_all_operations(s: Seq<OpView>)
    ensures
        in_sequence(ordered(s)),
        ordered(s).len() == s.len(),
        ordered(s).to_multiset() == s.to_multiset(),
    decreases s.len(),
{
    if s.len() == 0 {
        assert(ordered(s) =~= s);
    } else {
        let front = ordered(s.drop_last());
        let op = s.last();
        law_order_keeps_all_operations(s.drop_last());
        lemma_place(front, op);
        let p = place_of(front, op);
        let t = front.insert(p, op);
        assert forall|i: int, j: int| 0 <= i < j < t.len() implies !key_lt(
            (#[trigger] t[j]).key(),
            (#[trigger] t[i]).key(),
        ) by {
            let fi = if i < p {
                i
            } else {
                i - 1
            };
            let fj = if j < p {
                j
            } else {
                j - 1
            };
            if i != p && j != p {
                assert(t[i] == front[fi] && t[j] == front[fj]);
                assert(!key_lt(front[fj].key(), front[fi].key()));
            } else if i == p {
                assert(t[j] == front[fj]);
            } else {
                assert(t[i] == front[fi]);
            }
        }
        vstd::seq_lib::to_multiset_insert(front, p, op);
        vstd::seq_lib::to_multiset_build(s.drop_last(), op);
        assert(s.drop_last().push(op) =~= s);
    }
}

/// No two operations share a key.
pub open spec fn distinct_keys(s: Seq<OpView>) -> bool {
    forall|i: int, j: int|
        0 <= i < s.len() && 0 <= j < s.len() && (#[trigger] s[i]).key() == (
        #[trigger] s[j]).key() ==> i == j
}

proof fn lemma_sequence_unique(a: Seq<OpView>, b: Seq<OpView>)
    requires
        in_sequence(a),
        in_sequence(b),
        distinct_keys(a),
        a.to_multiset() == b.to_multiset(),
    ensures
        a == b,
    decreases a.len(),
{
    broadcast use vstd::seq_lib::group_to_multiset_ensures;

    vstd::seq_lib::to_multiset_len(a);
    vstd::seq_lib::to_multiset_len(b);
    if a.len() == 0 {
        assert(a =~= b);
    } else {
        let x = a.last();
        let y = b.last();
        assert(a.contains(x)) by {
            assert(a[a.len() - 1] == x);
        }
        assert(b.contains(y)) by {
            assert(b[b.len() - 1] == y);
        }
        assert(a.to_multiset().count(x) > 0);
        assert(b.to_multiset().count(y) > 0);
        assert(b.contains(x));
        assert(a.contains(y));
        let i = a.index_of(y);
        let j = b.index_of(x);
        assert(x == y) by {
            if x != y {
                assert(i < a.len() - 1 && j < b.len() - 1);
                assert(!key_lt(a[a.len() - 1].key(), a[i].key()));
                assert(!key_lt(b[b.len() - 1].key(), b[j].key()));
                assert(x.key() == y.key());
                assert(a[i].key() == a[a.len() - 1].key());
            }
        }
        let a0 = a.drop_last();
        let b0 = b.drop_last();
        assert(a =~= a0.push(x));
        assert(b =~= b0.push(x));
        vstd::seq_lib::to_multiset_build(a0, x);
        vstd::seq_lib::to_multiset_build(b0, x);
        assert(a0.to_multiset() =~= b0.to_multiset()) by {
            assert(a0.to_multiset().insert(x).remove(x) =~= a0.to_multiset());
            assert(b0.to_multiset().insert(x).remove(x) =~= b0.to_multiset());
        }
        assert(in_sequence(a0)) by {
            assert forall|p: int, q: int| 0 <= p < q < a0.len() implies !key_lt(
                (#[trigger] a0[q]).key(),
                (#[trigger] a0[p]).key(),
            ) by {
                assert(a0[q] == a[q] && a0[p] == a[p]);
            }
        }
        assert(in_sequence(b0)) by {
            assert forall|p: int, q: int| 0 <= p < q < b0.len() implies !key_lt(
                (#[trigger] b0[q]).key(),
                (#[trigger] b0[p]).key(),
            ) by {
                assert(b0[q] == b[q] && b0[p] == b[p]);
            }
        }
        assert(distinct_keys(a0)) by {
            assert forall|p: int, q: int|
                0 <= p < a0.len() && 0 <= q < a0.len() && (#[trigger] a0[p]).key() == (
                #[trigger] a0[q]).key() implies p == q by {
                assert(a0[q] == a[q] && a0[p] == a[p]);
            }
        }
        lemma_sequence_unique(a0, b0);
    }
}

/// Putting operations in order keeps their keys distinct.
proof fn lemma_ordered_distinct(s: Seq<OpView>)
    requires
        distinct_keys(s),
    ensures
        distinct_keys(ordered(s)),
        forall|x: OpView| #[trigger] ordered(s).contains(x) <==> s.contains(x),
    decreases s.len(),
{
    if s.len() > 0 {
        let r = s.drop_last();
        let op = s.last();
        assert forall|p: int, q: int|
            0 <= p < r.len() && 0 <= q < r.len() && (#[trigger] r[p]).key() == (
            #[trigger] r[q]).key() implies p == q by {
            assert(r[q] == s[q] && r[p] == s[p]);
        }
        lemma_ordered_distinct(r);
        let front = ordered(r);
        law_order_keeps_all_operations(r);
        lemma_place(front, op);
        let n = place_of(front, op);
        let t = front.insert(n, op);
        assert forall|i: int| 0 <= i < front.len() implies (#[trigger] front[i]).key() != op.key() by {
            assert(front.contains(front[i]));
            let k = r.index_of(front[i]);
            assert(s[k].key() == front[i].key());
            assert(s[s.len() - 1] == op);
        }
        assert forall|p: int, q: int|
            0 <= p < t.len() && 0 <= q < t.len() && (#[trigger] t[p]).key() == (
            #[trigger] t[q]).key() implies p == q by {
            let fp = if p < n {
                p
            } else {
                p - 1
            };
            let fq = if q < n {
                q
            } else {
                q - 1
            };
            if p != n {
                assert(t[p] == front[fp]);
            }
            if q != n {
                assert(t[q] == front[fq]);
            }
        }
        assert forall|x: OpView| #[trigger] t.contains(x) <==> s.contains(x) by {
            if t.contains(x) {
                let i = t.index_of(x);
                if i == n {
                    assert(s[s.len() - 1] == x);
                } else {
                    let fi = if i < n {
                        i
                    } else {
                        i - 1
                    };
                    assert(front[fi] == x);
                    assert(front.contains(x));
                    assert(s[r.index_of(x)] == x);
                }
            }
            if s.contains(x) {
                let i = s.index_of(x);
                if i == s.len() - 1 {
                    assert(t[n] == x);
                } else {
                    assert(r[i] == x);
                    assert(front.contains(x));
                    let k = front.index_of(x);
                    assert(t[if k < n {
                        k
                    } else {
                        k + 1
                    }] == x);
                }
            }
        }
    }
}

/// Peers that hold the same operations replay them to the same state and the
/// same rejections, whatever the order of arrival. Different operations with
/// one key are left out.
pub proof fn law_arrival_order_is_irrelevant<D: Document, R: Rule>(
    rule: R,
    a: Seq<OpView>,
    b: Seq<OpView>,
)
    requires
        a.to_multiset() == b.to_multiset(),
        distinct_keys(a),
    ensures
        ordered(a) == ordered(b),
        replayed::<D, R>(rule, ordered(a)) == replayed::<D, R>(rule, ordered(b)),
{
    law_order_keeps_all_operations(a);
    law_order_keeps_all_operations(b);
    lemma_ordered_distinct(a);
    lemma_sequence_unique(ordered(a), ordered(b));
}

/// The rule decides on each operation in turn, by the state before it: an accepted one is
/// folded in, a rejected one leaves the state and is listed with the reason.
pub proof fn law_the_rule_decides<D: Document, R: Rule>(rule: R, s: Seq<OpView>, op: OpView)
    ensures
        replayed::<D, R>(rule, Seq::empty()) == (D::initial(), Seq::<(OpId, Seq<char>)>::empty()),
        ({
            let before = replayed::<D, R>(rule, s);
            let after = replayed::<D, R>(rule, s.push(op));
            match rule.verdict(op, D::rendered(before.0)) {
                VerdictView::Accept => after == (D::folded(before.0, op), before.1),
                VerdictView::Reject(why) => after == (before.0, before.1.push((op.id, why))),
            }
        }),
{
    assert(s.push(op).drop_last() =~= s);
}

/// Operations are ordered by time, then by who made them, then by number.
pub proof fn law_operations_are_ordered_by_time(a: OpView, b: OpView)
    ensures
        a.lamport < b.lamport ==> key_lt(a.key(), b.key()),
        a.lamport == b.lamport && a.id.agent.0 < b.id.agent.0 ==> key_lt(a.key(), b.key()),
        a.lamport == b.lamport && a.id.agent.0 == b.id.agent.0 ==> (key_lt(a.key(), b.key())
            <==> a.id.seq < b.id.seq),
        key_lt(a.key(), b.key()) ==> !key_lt(b.key(), a.key()),
{
}

} // verus!
