//! A collaborative text: local edits come in as whole texts, and replicas
//! converge by exchanging the events that the other lacks.
use crate::chars::{chars_of, same_chars, same_text, string_of};
use crate::crdt::diff::{
    added, char_diff, diff_chars, in_common, is_script, is_shortest, new_start, old_start, removed,
    Step,
};
use crate::crdt::oplog::{
    after, agree, authored, complete, covered, fits, folded, from_peer, ids, ids_at, is_path,
    is_step, is_tip, is_version, keeps_inserted, log_agents, log_delete, log_doc, log_encode_full,
    log_encode_since, log_events, log_has_since, log_id_at, log_insert, log_merge, log_place_of,
    log_reaches, log_shows, log_text, log_version, only_inserts, patch_from, patch_parts,
    reads_safely, replayed, sound, times_inserted, tip_ids, with_deleted, with_inserted, OpId,
    TextEvent,
};
use diamond_types::list::OpLog;
use vstd::prelude::*;
use vstd::slice::slice_subrange;

verus! {

/// One replica of a shared text.
pub struct EgWalkerText {
    oplog: OpLog,
    agent: u32,
}

/// What a replica holds: the name that it writes under, and the events in the
/// order in which they came to it.
pub struct TextView {
    pub agent: Seq<char>,
    /// The name of the document, if a patch brought one.
    pub doc: Option<Seq<char>>,
    pub events: Seq<TextEvent>,
}

impl TextView {
    /// The events, whatever their order.
    pub open spec fn history(self) -> Set<TextEvent> {
        self.events.to_set()
    }

    /// The text that the events amount to.
    pub open spec fn text(self) -> Seq<char> {
        replayed(self.history())
    }

    /// The first event that came to the replica: by it two replicas tell whether
    /// they hold the same document.
    pub open spec fn origin(self) -> Option<OpId> {
        if self.events.len() == 0 {
            None
        } else {
            Some(self.events[0].id)
        }
    }

    /// The events that the owner of a version vector lacks. Entries of the vector
    /// that are not held here are left out of account.
    pub open spec fn lacking(self, theirs: Set<OpId>) -> Set<TextEvent> {
        after(self.history(), theirs.intersect(ids(self.history())))
    }
}

impl View for EgWalkerText {
    type V = TextView;

    closed spec fn view(&self) -> TextView {
        TextView {
            agent: log_agents(self.oplog)[self.agent as int],
            doc: log_doc(self.oplog),
            events: log_events(self.oplog),
        }
    }
}

/// The identities in a version vector.
pub open spec fn vv_ids(vv: Seq<(String, usize)>) -> Set<OpId> {
    Set::new(
        |id: OpId| exists|k: int| 0 <= k < vv.len() && ((#[trigger] vv[k]).0@, vv[k].1) == id,
    )
}

/// The identities in a version vector, in order.
pub open spec fn vv_list(vv: Seq<(String, usize)>) -> Seq<OpId> {
    vv.map_values(|p: (String, usize)| (p.0@, p.1))
}

/// A version vector as a set of identities.
pub proof fn lemma_vv_ids(vv: Seq<(String, usize)>)
    ensures
        vv_ids(vv) == vv_list(vv).to_set(),
{
    assert forall|id: OpId| vv_ids(vv).contains(id) <==> vv_list(vv).to_set().contains(id) by {
        if vv_ids(vv).contains(id) {
            let k = choose|k: int| 0 <= k < vv.len() && ((#[trigger] vv[k]).0@, vv[k].1) == id;
            assert(vv_list(vv)[k] == id);
        }
        if vv_list(vv).contains(id) {
            let k = vv_list(vv).index_of(id);
            assert((vv[k].0@, vv[k].1) == id);
        }
    }
    assert(vv_ids(vv) =~= vv_list(vv).to_set());
}

/// `vv` lists the identities of the events that are nobody's parent, in the order
/// in which they came to the replica.
pub open spec fn is_version_vector(h: Seq<TextEvent>, vv: Seq<OpId>) -> bool {
    exists|places: Seq<usize>| #[trigger]
        lists_tips(h, places) && vv == places.map_values(|p: usize| h[p as int].id)
}

/// `places` lists the places of the events that are nobody's parent, in order.
pub open spec fn lists_tips(h: Seq<TextEvent>, places: Seq<usize>) -> bool {
    &&& forall|k: int, m: int|
        0 <= k < m < places.len() ==> (#[trigger] places[k]) < (#[trigger] places[m])
    &&& forall|i: int|
        is_tip(h, i) <==> exists|k: int| 0 <= k < places.len() && #[trigger] places[k] == i
}

/// Whether a replica with these events can fold in a patch: it holds what the
/// patch builds on.
pub open spec fn can_fold(events: Set<TextEvent>, base: Set<OpId>, more: Set<TextEvent>) -> bool {
    &&& base.subset_of(ids(events))
    &&& forall|e: TextEvent, p: OpId| #[trigger]
        more.contains(e) && #[trigger] e.parents.contains(p) ==> ids(events).contains(p) || ids(
            more,
        ).contains(p)
}

/// Some events say the same of what a replica has seen as fewer of them, none of
/// which is an ancestor of another.
pub open spec fn boils_down(events: Set<TextEvent>, known: Set<OpId>, base: Set<OpId>) -> bool {
    &&& base.subset_of(known)
    &&& forall|id: OpId| #[trigger] covered(events, base, id) <==> covered(events, known, id)
    &&& forall|a: OpId, b: OpId| #[trigger]
        base.contains(a) && #[trigger] base.contains(b) && a != b ==> !covered(events, set![a], b)
}

/// The bytes hold the events that the owner of a version vector lacks. They build
/// on entries of the vector.
pub open spec fn is_answer(d: TextView, theirs: Set<OpId>, bytes: Seq<u8>) -> bool {
    exists|base: Set<OpId>| #[trigger]
        boils_down(d.history(), theirs.intersect(ids(d.history())), base) && is_patch_of(
            d,
            base,
            d.lacking(theirs),
            bytes,
        )
}

/// The bytes are a patch that this replica wrote, with these events, which build on
/// those of the base. Every replica for which no identity stands for another event
/// than here can read it.
pub open spec fn is_patch_of(
    d: TextView,
    base: Set<OpId>,
    events: Set<TextEvent>,
    bytes: Seq<u8>,
) -> bool {
    &&& patch_parts(bytes) == Some((d.doc, base, events))
    &&& patch_from(bytes, d.history())
    &&& forall|h: Set<TextEvent>| agree(d.history(), h) ==> #[trigger] reads_safely(bytes, h)
}

/// `d1` is `d0` after it has been offered a patch, which it took or not. What is
/// no patch, and what builds on events that are not held here, is not taken. A patch
/// of a replica for which no identity stands for another event than here is taken
/// if it belongs to this document and what it builds on is held here, and then adds
/// its events.
pub open spec fn merged_to(d0: TextView, bytes: Seq<u8>, taken: bool, d1: TextView) -> bool {
    &&& d1.agent == d0.agent
    &&& d0.events.is_prefix_of(d1.events)
    &&& sound(d1.events)
    &&& !taken ==> d1 == d0
    &&& taken ==> patch_parts(bytes) is Some && patch_parts(bytes)->Some_0.1.subset_of(
        ids(d0.history()),
    )
    &&& from_peer(bytes, d0.history()) ==> match patch_parts(bytes) {
        Some((doc, base, more)) => {
            &&& taken <==> fits(d0.doc, doc, d0.events.len() == 0) && base.subset_of(
                ids(d0.history()),
            )
            &&& taken ==> d1.history() == folded(d0.history(), more)
            &&& taken ==> d1.doc == (if doc is Some {
                doc
            } else {
                d0.doc
            })
        },
        None => !taken,
    }
}

/// What an event does: the place, and the character that it puts in, if it puts
/// one in.
pub type Stroke = (int, Option<char>);

/// What the events from place `n` on do, in order.
pub open spec fn strokes_from(h: Seq<TextEvent>, n: int) -> Seq<Stroke> {
    h.skip(n).map_values(|e: TextEvent| (e.pos, e.inserted))
}

/// Takes out `n` characters at a place, one after the other.
pub open spec fn deletions(pos: int, n: int) -> Seq<Stroke> {
    Seq::new(n as nat, |i: int| (pos, None::<char>))
}

/// Puts in a text at a place, one character after the other.
pub open spec fn insertions(pos: int, s: Seq<char>) -> Seq<Stroke> {
    Seq::new(s.len(), |i: int| (pos + i, Some(s[i])))
}

/// What the first `k` steps of a diff do to get to the new text: a stretch that
/// both texts share is left alone, any other is taken out, and what the new text
/// has there is put in.
pub open spec fn script_strokes(steps: Seq<Step>, new_text: Seq<char>, k: int) -> Seq<Stroke>
    decreases k,
{
    if k <= 0 {
        Seq::empty()
    } else {
        script_strokes(steps, new_text, k - 1) + step_strokes(steps[k - 1], new_text)
    }
}

/// What one step of a diff does to get to the new text.
pub open spec fn step_strokes(step: Step, new_text: Seq<char>) -> Seq<Stroke> {
    if step.0 {
        Seq::empty()
    } else {
        deletions(step.3 as int, step.2 - step.1) + insertions(
            step.3 as int,
            new_text.subrange(step.3 as int, step.4 as int),
        )
    }
}

/// What gets from one text to another: the steps of their diff, or nothing where
/// they are the same.
pub open spec fn rewrite(old_text: Seq<char>, new_text: Seq<char>) -> Seq<Stroke> {
    if old_text == new_text {
        Seq::empty()
    } else {
        let steps = char_diff(old_text, new_text);
        script_strokes(steps, new_text, steps.len() as int)
    }
}

/// Strokes that lead from one text to another delete and insert no more than they must:
/// whatever the texts have in common, at least as much is left alone.
pub open spec fn spares_what_is_shared(
    old_text: Seq<char>,
    new_text: Seq<char>,
    strokes: Seq<Stroke>,
) -> bool {
    forall|at_old: Seq<int>, at_new: Seq<int>| #[trigger]
        in_common(old_text, new_text, at_old, at_new) ==> {
            &&& strokes.filter(|s: Stroke| s.1 is None).len() + at_old.len() <= old_text.len()
            &&& strokes.filter(|s: Stroke| s.1 is Some).len() + at_old.len() <= new_text.len()
        }
}

/// The owner of a replica wrote these strokes, each with all before it in view. The
/// document stays the same.
pub open spec fn wrote(d0: TextView, strokes: Seq<Stroke>, d1: TextView) -> bool {
    &&& d1.agent == d0.agent
    &&& d1.doc == d0.doc
    &&& authored(d0.events, d1.events, d0.agent)
    &&& strokes_from(d1.events, d0.events.len() as int) == strokes
}

proof fn lemma_strokes(a: Seq<TextEvent>, b: Seq<TextEvent>, c: Seq<TextEvent>)
    requires
        a.is_prefix_of(b),
        b.is_prefix_of(c),
    ensures
        strokes_from(c, a.len() as int) == strokes_from(b, a.len() as int) + strokes_from(
            c,
            b.len() as int,
        ),
{
    assert forall|i: int| 0 <= i < b.len() implies b[i] == c[i] by {}
    assert(strokes_from(c, a.len() as int) =~= strokes_from(b, a.len() as int) + strokes_from(
        c,
        b.len() as int,
    ));
}

impl EgWalkerText {
    /// The replica can write, and its events are in order.
    pub closed spec fn wf(&self) -> bool {
        &&& self.agent < log_agents(self.oplog).len()
        &&& sound(log_events(self.oplog))
        &&& log_shows(self.oplog)
    }

    /// The events of a replica have different identities and come after their
    /// parents.
    pub proof fn lemma_sound(&self)
        requires
            self.wf(),
        ensures
            sound(self@.events),
    {
    }

    /// A replica holds the parents of every event that it holds.
    pub proof fn lemma_complete(&self)
        requires
            self.wf(),
        ensures
            complete(self@.history()),
    {
        lemma_sound_complete(self@.events);
    }

    /// An empty replica that writes under the given name. The name `ROOT` is
    /// taken.
    pub fn new(agent_name: &str) -> (r: Self)
        requires
            agent_name@ != "ROOT"@,
        ensures
            r.wf(),
            r@ == (TextView { agent: agent_name@, doc: None, events: Seq::empty() }),
    {
        let mut oplog = OpLog::new();
        let agent: u32 = oplog.get_or_create_agent_id(agent_name);
        let r = EgWalkerText { oplog, agent };
        assert(r@.events =~= Seq::empty());
        r
    }

    /// The current text.
    pub fn content(&self) -> (r: String)
        requires
            self.wf(),
        ensures
            r@ == self@.text(),
            self@.events.len() == 0 ==> r@.len() == 0,
            keeps_inserted(self@.history(), r@),
    {
        log_text(&self.oplog)
    }

    fn insert(&mut self, pos: usize, s: &[char])
        requires
            old(self).wf(),
            pos <= old(self)@.text().len(),
            s@.len() > 0,
        ensures
            final(self).wf(),
            final(self)@.agent == old(self)@.agent,
            final(self)@.doc == old(self)@.doc,
            authored(old(self)@.events, final(self)@.events, old(self)@.agent),
            final(self)@.text() == with_inserted(old(self)@.text(), pos as int, s@),
            strokes_from(final(self)@.events, old(self)@.events.len() as int) == insertions(
                pos as int,
                s@,
            ),
    {
        let text = string_of(s);
        log_insert(&mut self.oplog, self.agent, pos, text.as_str());
        assert(strokes_from(self@.events, old(self)@.events.len() as int) =~= insertions(
            pos as int,
            s@,
        ));
    }

    fn delete(&mut self, from: usize, len: usize)
        requires
            old(self).wf(),
            0 < len,
            from + len <= old(self)@.text().len(),
        ensures
            final(self).wf(),
            final(self)@.agent == old(self)@.agent,
            final(self)@.doc == old(self)@.doc,
            authored(old(self)@.events, final(self)@.events, old(self)@.agent),
            final(self)@.text() == with_deleted(old(self)@.text(), from as int, from + len),
            strokes_from(final(self)@.events, old(self)@.events.len() as int) == deletions(
                from as int,
                len as int,
            ),
    {
        log_delete(&mut self.oplog, self.agent, from, len);
        assert(strokes_from(self@.events, old(self)@.events.len() as int) =~= deletions(
            from as int,
            len as int,
        ));
    }

    /// One step of turning the old text `o` into the new one: what lies before
    /// the step is new already, what lies behind it is still old.
    fn apply_step(&mut self, step: Step, target: &[char], Ghost(o): Ghost<Seq<char>>)
        requires
            old(self).wf(),
            step.1 <= step.2 <= o.len(),
            step.3 <= step.4 <= target@.len(),
            step.0 ==> o.subrange(step.1 as int, step.2 as int) == target@.subrange(
                step.3 as int,
                step.4 as int,
            ),
            old(self)@.text() == target@.take(step.3 as int) + o.skip(step.1 as int),
        ensures
            final(self).wf(),
            final(self)@.agent == old(self)@.agent,
            final(self)@.doc == old(self)@.doc,
            authored(old(self)@.events, final(self)@.events, old(self)@.agent),
            final(self)@.text() == target@.take(step.4 as int) + o.skip(step.2 as int),
            strokes_from(final(self)@.events, old(self)@.events.len() as int) == step_strokes(
                step,
                target@,
            ),
    {
        let (equal, os, oe, ns, ne) = step;
        let ghost ev0 = self@.events;
        proof {
            lemma_step(o, target@, os as int, oe as int, ns as int, ne as int);
        }
        if equal {
            assert(strokes_from(ev0, ev0.len() as int) =~= step_strokes(step, target@));
            return;
        }
        if os < oe {
            self.delete(ns, oe - os);
        }
        let ghost ev1 = self@.events;
        assert(strokes_from(ev1, ev0.len() as int) =~= deletions(ns as int, oe - os));
        if ns < ne {
            self.insert(ns, slice_subrange(target, ns, ne));
        }
        proof {
            assert(strokes_from(self@.events, ev1.len() as int) =~= insertions(
                ns as int,
                target@.subrange(ns as int, ne as int),
            ));
            lemma_authored(ev0, ev1, self@.events, self@.agent);
            lemma_strokes(ev0, ev1, self@.events);
        }
    }

    /// Takes in a local edit as the whole new text: the stretches that a diff
    /// finds to have changed become deletions and insertions under this replica's
    /// name. The same text changes nothing.
    pub fn edit_to(&mut self, new_text: &str)
        requires
            old(self).wf(),
        ensures
            final(self).wf(),
            final(self)@.text() == new_text@,
            wrote(old(self)@, rewrite(old(self)@.text(), new_text@), final(self)@),
            old(self)@.text() == new_text@ ==> final(self)@ == old(self)@,
            spares_what_is_shared(
                old(self)@.text(),
                new_text@,
                strokes_from(final(self)@.events, old(self)@.events.len() as int),
            ),
    {
        let current = self.content();
        let before = chars_of(current.as_str());
        let target = chars_of(new_text);
        if same_chars(before.as_slice(), target.as_slice()) {
            assert(strokes_from(self@.events, self@.events.len() as int) =~= Seq::empty());
            proof {
                lemma_nothing_spares(new_text@);
            }
            return;
        }
        let steps = diff_chars(before.as_slice(), target.as_slice());
        let ghost o = before@;
        let ghost n = target@;
        let mut k: usize = 0;
        assert(n.take(0) + o.skip(0) =~= o);
        assert(strokes_from(self@.events, self@.events.len() as int) =~= Seq::empty());
        while k < steps.len()
            invariant
                k <= steps@.len(),
                is_script(steps@, o, n),
                is_shortest(steps@, o, n),
                n == target@,
                self.wf(),
                self@.agent == old(self)@.agent,
                self@.doc == old(self)@.doc,
                authored(old(self)@.events, self@.events, old(self)@.agent),
                strokes_from(self@.events, old(self)@.events.len() as int) == script_strokes(
                    steps@,
                    n,
                    k as int,
                ),
                0 <= new_start(steps@, k as int) <= n.len(),
                0 <= old_start(steps@, k as int) <= o.len(),
                self@.text() == n.take(new_start(steps@, k as int)) + o.skip(
                    old_start(steps@, k as int),
                ),
            decreases steps@.len() - k,
        {
            let step = steps[k];
            let ghost ev0 = self@.events;
            assert(steps@[k as int] == step);
            self.apply_step(step, target.as_slice(), Ghost(o));
            proof {
                lemma_authored(old(self)@.events, ev0, self@.events, self@.agent);
                lemma_strokes(old(self)@.events, ev0, self@.events);
            }
            k += 1;
        }
        assert(n.take(n.len() as int) + o.skip(o.len() as int) =~= n);
        proof {
            lemma_rewrite_spares(o, n);
        }
    }

    /// Inserts a text at a place, or at the end where the place lies beyond it.
    pub fn insert_at(&mut self, pos: usize, text: &str)
        requires
            old(self).wf(),
        ensures
            final(self).wf(),
            final(self)@.text() == with_inserted(
                old(self)@.text(),
                clamped(pos as int, old(self)@.text().len() as int),
                text@,
            ),
            text@.len() == 0 ==> final(self)@ == old(self)@,
            wrote(
                old(self)@,
                insertions(clamped(pos as int, old(self)@.text().len() as int), text@),
                final(self)@,
            ),
    {
        let current = self.content();
        let cur = chars_of(current.as_str());
        let cs = chars_of(text);
        let at: usize = if pos <= cur.len() {
            pos
        } else {
            cur.len()
        };
        if cs.len() == 0 {
            assert(with_inserted(self@.text(), at as int, text@) =~= self@.text());
            assert(strokes_from(self@.events, self@.events.len() as int) =~= insertions(
                at as int,
                text@,
            ));
            return;
        }
        self.insert(at, cs.as_slice());
    }

    /// Deletes `len` characters from a place on, as far as the text goes.
    pub fn delete_at(&mut self, pos: usize, len: usize)
        requires
            old(self).wf(),
        ensures
            final(self).wf(),
            final(self)@.text() == with_deleted(
                old(self)@.text(),
                clamped(pos as int, old(self)@.text().len() as int),
                clamped(pos + len, old(self)@.text().len() as int),
            ),
            wrote(
                old(self)@,
                deletions(
                    clamped(pos as int, old(self)@.text().len() as int),
                    clamped(pos + len, old(self)@.text().len() as int) - clamped(
                        pos as int,
                        old(self)@.text().len() as int,
                    ),
                ),
                final(self)@,
            ),
    {
        let current = self.content();
        let cur = chars_of(current.as_str());
        let total: usize = cur.len();
        let from: usize = if pos <= total {
            pos
        } else {
            total
        };
        let to: usize = if len <= total - from {
            from + len
        } else {
            total
        };
        if to > from {
            self.delete(from, to - from);
        } else {
            assert(with_deleted(self@.text(), from as int, to as int) =~= self@.text());
            assert(strokes_from(self@.events, self@.events.len() as int) =~= deletions(
                from as int,
                0,
            ));
        }
    }

    /// The places of the events that are nobody's parent.
    pub fn version(&self) -> (r: Vec<usize>)
        requires
            self.wf(),
        ensures
            lists_tips(self@.events, r@),
            is_version(self@.events, r@),
    {
        let r = log_version(&self.oplog);
        proof {
            lemma_tips_are_a_version(self@.events, r@);
        }
        r
    }

    /// A version stays one as events come in.
    pub proof fn lemma_version_stays(&self, h: Seq<TextEvent>, places: Seq<usize>)
        requires
            self.wf(),
            h.is_prefix_of(self@.events),
            is_version(h, places),
        ensures
            is_version(self@.events, places),
    {
        lemma_version_grows(h, self@.events, places);
    }

    /// The events since a version, encoded.
    pub fn encode_delta(&self, since: &[usize]) -> (r: Vec<u8>)
        requires
            self.wf(),
            is_version(self@.events, since@),
        ensures
            ({
                let base = ids_at(self@.events, since@);
                is_patch_of(self@, base, after(self@.history(), base), r@)
            }),
    {
        log_encode_since(&self.oplog, since)
    }

    /// All events, encoded.
    pub fn encode_full(&self) -> (r: Vec<u8>)
        requires
            self.wf(),
        ensures
            is_patch_of(self@, Set::empty(), self@.history(), r@),
    {
        log_encode_full(&self.oplog)
    }

    /// The identities of the events that are nobody's parent: what a peer needs
    /// to know to send what is lacking here.
    pub fn version_vector(&self) -> (r: Vec<(String, usize)>)
        ensures
            is_version_vector(self@.events, vv_list(r@)),
    {
        let places = log_version(&self.oplog);
        let ghost h = self@.events;
        let ghost all = places@.map_values(|p: usize| h[p as int].id);
        let mut out: Vec<(String, usize)> = Vec::new();
        let mut k: usize = 0;
        while k < places.len()
            invariant
                k <= places@.len(),
                h == self@.events,
                lists_tips(h, places@),
                all == places@.map_values(|p: usize| h[p as int].id),
                vv_list(out@) == all.take(k as int),
            decreases places@.len() - k,
        {
            let ghost before = out@;
            let p: usize = places[k];
            assert(places@[k as int] == p);
            assert(is_tip(h, p as int));
            out.push(log_id_at(&self.oplog, p));
            assert(vv_list(out@) =~= vv_list(before).push(all[k as int]));
            assert(all.take(k + 1) =~= all.take(k as int).push(all[k as int]));
            k += 1;
        }
        assert(all.take(k as int) =~= all);
        assert(lists_tips(h, places@));
        out
    }

    /// The identity of the first event that came to this replica.
    pub fn origin(&self) -> (r: Option<(String, usize)>)
        ensures
            match r {
                Some(id) => self@.origin() == Some((id.0@, id.1)),
                None => self@.origin() is None,
            },
    {
        if self.oplog.is_empty() {
            None
        } else {
            Some(log_id_at(&self.oplog, 0))
        }
    }

    /// The places of the entries of a version vector that are held here.
    fn held_places(&self, theirs: &[(String, usize)]) -> (r: Vec<usize>)
        requires
            self.wf(),
        ensures
            forall|k: int| 0 <= k < r@.len() ==> (#[trigger] r@[k]) < self@.events.len(),
            ids_at(self@.events, r@) == vv_ids(theirs@).intersect(ids(self@.history())),
    {
        let ghost h = self@.events;
        let ghost held = ids(self@.history());
        let mut out: Vec<usize> = Vec::new();
        let mut k: usize = 0;
        while k < theirs.len()
            invariant
                k <= theirs@.len(),
                self.wf(),
                h == self@.events,
                held == ids(h.to_set()),
                forall|j: int| 0 <= j < out@.len() ==> (#[trigger] out@[j]) < h.len(),
                forall|id: OpId| #[trigger]
                    ids_at(h, out@).contains(id) <==> vv_ids(theirs@.take(k as int)).contains(id)
                        && held.contains(id),
            decreases theirs@.len() - k,
        {
            let name = theirs[k].0.as_str();
            let seq = theirs[k].1;
            let ghost id = (name@, seq);
            let ghost before = out@;
            proof {
                let a = theirs@.take(k as int);
                let b = theirs@.take(k + 1);
                assert forall|x: OpId| #[trigger] vv_ids(b).contains(x) <==> vv_ids(a).contains(x) || x
                    == id by {
                    if vv_ids(a).contains(x) {
                        let j = choose|j: int| 0 <= j < a.len() && ((#[trigger] a[j]).0@, a[j].1) == x;
                        assert((b[j].0@, b[j].1) == x);
                    }
                    if x == id {
                        assert((b[k as int].0@, b[k as int].1) == x);
                    }
                    if vv_ids(b).contains(x) && x != id {
                        let j = choose|j: int| 0 <= j < b.len() && ((#[trigger] b[j]).0@, b[j].1) == x;
                        assert((a[j].0@, a[j].1) == x);
                    }
                }
                if held.contains(id) {
                    let e = choose|e: TextEvent| #[trigger] h.to_set().contains(e) && e.id == id;
                    let j = h.index_of(e);
                    assert(h[j].id.0 != "ROOT"@);
                }
            }
            let place = if same_text(name, "ROOT") {
                None
            } else {
                log_place_of(&self.oplog, name, seq)
            };
            match place {
                Some(p) => {
                    out.push(p);
                    assert forall|x: OpId| #[trigger] ids_at(h, out@).contains(x) <==> ids_at(
                        h,
                        before,
                    ).contains(x) || x == id by {
                        if ids_at(h, before).contains(x) {
                            let j = choose|j: int|
                                0 <= j < before.len() && h[(#[trigger] before[j]) as int].id == x;
                            assert(h[out@[j] as int].id == x);
                        }
                        if x == id {
                            assert(h[out@[before.len() as int] as int].id == x);
                        }
                        if ids_at(h, out@).contains(x) && x != id {
                            let j = choose|j: int|
                                0 <= j < out@.len() && h[(#[trigger] out@[j]) as int].id == x;
                            assert(h[before[j] as int].id == x);
                        }
                    }
                },
                None => {},
            }
            k += 1;
        }
        assert(theirs@.take(k as int) =~= theirs@);
        assert(ids_at(h, out@) =~= vv_ids(theirs@).intersect(held));
        out
    }

    /// The events that the owner of a version vector lacks, encoded; none where
    /// it lacks none.
    pub fn ops_since(&self, theirs: &[(String, usize)]) -> (r: Option<Vec<u8>>)
        requires
            self.wf(),
        ensures
            r is Some <==> exists|e: TextEvent| #[trigger]
                self@.lacking(vv_ids(theirs@)).contains(e),
            r matches Some(b) ==> is_answer(self@, vv_ids(theirs@), b@),
    {
        let places = self.held_places(theirs);
        if !log_has_since(&self.oplog, &places) {
            return None;
        }
        let ghost known = vv_ids(theirs@).intersect(ids(self@.history()));
        let base = self.newest_of(&places);
        let r = log_encode_since(&self.oplog, base.as_slice());
        proof {
            assert(boils_down(self@.history(), known, ids_at(self@.events, base@)));
            assert(after(self@.history(), ids_at(self@.events, base@)) =~= self@.lacking(
                vv_ids(theirs@),
            ));
        }
        Some(r)
    }

    /// The places among the given ones that are not ancestors of others, in order.
    fn newest_of(&self, places: &Vec<usize>) -> (r: Vec<usize>)
        requires
            self.wf(),
            forall|k: int| 0 <= k < places@.len() ==> (#[trigger] places@[k]) < self@.events.len(),
        ensures
            is_version(self@.events, r@),
            boils_down(
                self@.history(),
                ids_at(self@.events, places@),
                ids_at(self@.events, r@),
            ),
    {
        let ghost h = self@.events;
        let mut out: Vec<usize> = Vec::new();
        let mut k: usize = 0;
        assert(ids_at(h, out@) =~= ids_at(h, places@.take(0)));
        while k < places.len()
            invariant
                k <= places@.len(),
                self.wf(),
                h == self@.events,
                sound(h),
                forall|k: int| 0 <= k < places@.len() ==> (#[trigger] places@[k]) < h.len(),
                is_version(h, out@),
                ids_at(h, out@).subset_of(ids_at(h, places@.take(k as int))),
                forall|id: OpId| #[trigger]
                    covered(h.to_set(), ids_at(h, out@), id) <==> covered(
                        h.to_set(),
                        ids_at(h, places@.take(k as int)),
                        id,
                    ),
            decreases places@.len() - k,
        {
            let p: usize = places[k];
            assert(places@[k as int] == p);
            let ghost before = out@;
            let ghost known = ids_at(h, places@.take(k as int));
            proof {
                lemma_ids_at_push(h, places@.take(k as int), p);
                assert(places@.take(k + 1) =~= places@.take(k as int).push(p));
            }
            if self.is_seen(&out, p) {
                proof {
                    lemma_known_adds_nothing(h, before, known, p);
                }
            } else {
                let kept = self.without_ancestors(&out, p);
                let ghost kv = kept@;
                proof {
                    if before.contains(p) {
                        let pid = h[p as int].id;
                        lemma_covers_itself(h.to_set(), set![pid], pid);
                        assert(before[before.index_of(p)] == p);
                    }
                }
                out = put_in_order(kept, p);
                proof {
                    lemma_newest_step(h, before, kv, out@, known, p);
                }
            }
            k += 1;
        }
        proof {
            assert(places@.take(k as int) =~= places@);
            lemma_version_is_antichain(h, out@);
        }
        out
    }

    /// Whether a place is among the given ones, or an ancestor of one.
    fn is_seen(&self, v: &Vec<usize>, p: usize) -> (r: bool)
        requires
            sound(self@.events),
            p < self@.events.len(),
            forall|k: int| 0 <= k < v@.len() ==> (#[trigger] v@[k]) < self@.events.len(),
        ensures
            r == exists|k: int|
                0 <= k < v@.len() && covered(
                    self@.history(),
                    set![self@.events[(#[trigger] v@[k]) as int].id],
                    self@.events[p as int].id,
                ),
    {
        let mut k: usize = 0;
        while k < v.len()
            invariant
                k <= v@.len(),
                sound(self@.events),
                p < self@.events.len(),
                forall|k: int| 0 <= k < v@.len() ==> (#[trigger] v@[k]) < self@.events.len(),
                forall|j: int|
                    0 <= j < k ==> !covered(
                        self@.history(),
                        set![self@.events[(#[trigger] v@[j]) as int].id],
                        self@.events[p as int].id,
                    ),
            decreases v@.len() - k,
        {
            let q: usize = v[k];
            assert(v@[k as int] == q);
            if log_reaches(&self.oplog, q, p) {
                return true;
            }
            k += 1;
        }
        false
    }

    /// The given places, but for the ancestors of one.
    fn without_ancestors(&self, v: &Vec<usize>, p: usize) -> (r: Vec<usize>)
        requires
            sound(self@.events),
            p < self@.events.len(),
            is_version(self@.events, v@),
        ensures
            rises(r@),
            forall|x: usize| #[trigger]
                r@.contains(x) <==> v@.contains(x) && !covered(
                    self@.history(),
                    set![self@.events[p as int].id],
                    self@.events[x as int].id,
                ),
    {
        let mut out: Vec<usize> = Vec::new();
        let mut k: usize = 0;
        while k < v.len()
            invariant
                k <= v@.len(),
                sound(self@.events),
                p < self@.events.len(),
                is_version(self@.events, v@),
                rises(out@),
                forall|x: usize| #[trigger]
                    out@.contains(x) <==> v@.take(k as int).contains(x) && !covered(
                        self@.history(),
                        set![self@.events[p as int].id],
                        self@.events[x as int].id,
                    ),
            decreases v@.len() - k,
        {
            let q: usize = v[k];
            assert(v@[k as int] == q);
            let ghost before = out@;
            assert(v@.take(k + 1) =~= v@.take(k as int).push(q));
            let ancestor = log_reaches(&self.oplog, p, q);
            if !ancestor {
                out.push(q);
            }
            proof {
                assert forall|x: usize| #[trigger] out@.contains(x) <==> before.contains(x) || (x == q
                    && !ancestor) by {
                    if before.contains(x) {
                        assert(out@[before.index_of(x)] == x);
                    }
                    if x == q && !ancestor {
                        assert(out@[before.len() as int] == x);
                    }
                    if out@.contains(x) && x != q {
                        assert(before[out@.index_of(x)] == x);
                    }
                }
                assert forall|x: usize| #[trigger] v@.take(k + 1).contains(x) <==> v@.take(
                    k as int,
                ).contains(x) || x == q by {
                    let a = v@.take(k as int);
                    let b = v@.take(k + 1);
                    if a.contains(x) {
                        assert(b[a.index_of(x)] == x);
                    }
                    if x == q {
                        assert(b[k as int] == x);
                    }
                    if b.contains(x) && x != q {
                        assert(a[b.index_of(x)] == x);
                    }
                }
                assert forall|j: int| 0 <= j < before.len() implies (#[trigger] before[j]) < q by {
                    assert(before.contains(before[j]));
                    let i = v@.take(k as int).index_of(before[j]);
                    assert(v@[i] == before[j]);
                }
            }
            k += 1;
        }
        assert(v@.take(k as int) =~= v@);
        out
    }

    /// Folds in the events of a patch. False, with nothing changed, where it is not
    /// taken. Bytes on which the engine panics are left out: no engine wrote them.
    pub fn merge(&mut self, bytes: &[u8]) -> (r: bool)
        requires
            old(self).wf(),
            reads_safely(bytes@, old(self)@.history()),
        ensures
            final(self).wf(),
            merged_to(old(self)@, bytes@, r, final(self)@),
    {
        log_merge(&mut self.oplog, bytes)
    }
}

/// The places are in order.
spec fn rises(v: Seq<usize>) -> bool {
    forall|k: int, m: int| 0 <= k < m < v.len() ==> (#[trigger] v[k]) < (#[trigger] v[m])
}

/// Puts a place among others, in order.
fn put_in_order(v: Vec<usize>, p: usize) -> (r: Vec<usize>)
    requires
        rises(v@),
        !v@.contains(p),
    ensures
        rises(r@),
        forall|x: usize| #[trigger] r@.contains(x) <==> v@.contains(x) || x == p,
{
    let mut out = v;
    let mut i: usize = out.len();
    while i > 0 && out[i - 1] > p
        invariant
            i <= out@.len(),
            out@ == v@,
            forall|j: int| i <= j < out@.len() ==> (#[trigger] out@[j]) > p,
        decreases i,
    {
        i -= 1;
    }
    out.insert(i, p);
    proof {
        assert(i > 0 ==> v@[i - 1] < p) by {
            if i > 0 {
                assert(v@.contains(v@[i - 1]));
            }
        }
        assert forall|j: int| 0 <= j < i implies (#[trigger] v@[j]) < p by {
            if j < i - 1 {
                assert(v@[j] < v@[i - 1]);
            }
        }
        assert forall|k: int, m: int| 0 <= k < m < out@.len() implies (#[trigger] out@[k]) < (
        #[trigger] out@[m]) by {
            if k < i && m > i {
                assert(out@[k] == v@[k] && out@[m] == v@[m - 1]);
            }
        }
        assert forall|x: usize| #[trigger] out@.contains(x) <==> v@.contains(x) || x == p by {
            if v@.contains(x) {
                let j = v@.index_of(x);
                if j < i {
                    assert(out@[j] == x);
                } else {
                    assert(out@[j + 1] == x);
                }
            }
            if x == p {
                assert(out@[i as int] == x);
            }
            if out@.contains(x) && x != p {
                let j = out@.index_of(x);
                if j < i {
                    assert(v@[j] == x);
                } else {
                    assert(v@[j - 1] == x);
                }
            }
        }
    }
    out
}

proof fn lemma_ids_at(h: Seq<TextEvent>, v: Seq<usize>, id: OpId)
    ensures
        ids_at(h, v).contains(id) <==> exists|x: usize| #[trigger]
            v.contains(x) && h[x as int].id == id,
{
    if ids_at(h, v).contains(id) {
        let k = choose|k: int| 0 <= k < v.len() && h[(#[trigger] v[k]) as int].id == id;
        assert(v.contains(v[k]));
    }
    if exists|x: usize| #[trigger] v.contains(x) && h[x as int].id == id {
        let x = choose|x: usize| #[trigger] v.contains(x) && h[x as int].id == id;
        assert(h[v[v.index_of(x)] as int].id == id);
    }
}

proof fn lemma_ids_at_push(h: Seq<TextEvent>, v: Seq<usize>, p: usize)
    ensures
        ids_at(h, v.push(p)) == ids_at(h, v).insert(h[p as int].id),
{
    let w = v.push(p);
    assert forall|id: OpId| ids_at(h, w).contains(id) <==> ids_at(h, v).insert(
        h[p as int].id,
    ).contains(id) by {
        if ids_at(h, v).contains(id) {
            let k = choose|k: int| 0 <= k < v.len() && h[(#[trigger] v[k]) as int].id == id;
            assert(h[w[k] as int].id == id);
        }
        if id == h[p as int].id {
            assert(h[w[v.len() as int] as int].id == id);
        }
        if ids_at(h, w).contains(id) && id != h[p as int].id {
            let k = choose|k: int| 0 <= k < w.len() && h[(#[trigger] w[k]) as int].id == id;
            assert(h[v[k] as int].id == id);
        }
    }
    assert(ids_at(h, w) =~= ids_at(h, v).insert(h[p as int].id));
}

/// What is covered by more is covered.
proof fn lemma_covered_by_more(e: Set<TextEvent>, k: Set<OpId>, l: Set<OpId>, id: OpId)
    requires
        covered(e, k, id),
        k.subset_of(l),
    ensures
        covered(e, l, id),
{
    let path = choose|path: Seq<OpId>| #[trigger]
        is_path(e, path) && k.contains(path[0]) && path.last() == id;
    assert(is_path(e, path) && l.contains(path[0]) && path.last() == id);
}

/// What is covered is covered by one of the given events.
proof fn lemma_covered_by_one(e: Set<TextEvent>, k: Set<OpId>, id: OpId) -> (a: OpId)
    requires
        covered(e, k, id),
    ensures
        k.contains(a),
        covered(e, set![a], id),
{
    let path = choose|path: Seq<OpId>| #[trigger]
        is_path(e, path) && k.contains(path[0]) && path.last() == id;
    assert(is_path(e, path) && set![path[0]].contains(path[0]) && path.last() == id);
    path[0]
}

/// Each event covers itself.
proof fn lemma_covers_itself(e: Set<TextEvent>, k: Set<OpId>, id: OpId)
    requires
        k.contains(id),
    ensures
        covered(e, k, id),
{
    let path = seq![id];
    assert(is_path(e, path) && k.contains(path[0]) && path.last() == id);
}

/// The ancestors of what is covered are covered.
proof fn lemma_covered_further(e: Set<TextEvent>, k: Set<OpId>, a: OpId, id: OpId)
    requires
        covered(e, k, a),
        covered(e, set![a], id),
    ensures
        covered(e, k, id),
{
    let p = choose|path: Seq<OpId>| #[trigger]
        is_path(e, path) && k.contains(path[0]) && path.last() == a;
    let q = choose|path: Seq<OpId>| #[trigger]
        is_path(e, path) && set![a].contains(path[0]) && path.last() == id;
    assert(q[0] == a);
    let path = p + q.skip(1);
    assert forall|i: int| 0 <= i < path.len() - 1 implies #[trigger] is_step(
        e,
        path[i],
        path[i + 1],
    ) by {
        if i < p.len() - 1 {
            assert(is_step(e, p[i], p[i + 1]));
        } else {
            let j = i - (p.len() - 1);
            assert(is_step(e, q[j], q[j + 1]));
            assert(path[i] == q[j]);
            assert(path[i + 1] == q[j + 1]);
        }
    }
    assert(path[0] == p[0]);
    assert(path.last() == q.last());
    assert(is_path(e, path) && k.contains(path[0]) && path.last() == id);
}

/// A place that is seen already adds nothing to what is known.
proof fn lemma_known_adds_nothing(
    h: Seq<TextEvent>,
    out: Seq<usize>,
    known: Set<OpId>,
    p: usize,
)
    requires
        exists|k: int|
            0 <= k < out.len() && covered(
                h.to_set(),
                set![h[(#[trigger] out[k]) as int].id],
                h[p as int].id,
            ),
        ids_at(h, out).subset_of(known),
        forall|id: OpId| #[trigger]
            covered(h.to_set(), ids_at(h, out), id) <==> covered(h.to_set(), known, id),
    ensures
        ids_at(h, out).subset_of(known.insert(h[p as int].id)),
        forall|id: OpId| #[trigger]
            covered(h.to_set(), ids_at(h, out), id) <==> covered(
                h.to_set(),
                known.insert(h[p as int].id),
                id,
            ),
{
    let e = h.to_set();
    let pid = h[p as int].id;
    let more = known.insert(pid);
    let k = choose|k: int|
        0 <= k < out.len() && covered(e, set![h[(#[trigger] out[k]) as int].id], pid);
    let q = h[out[k] as int].id;
    assert(ids_at(h, out).contains(q));
    assert forall|id: OpId| #[trigger] covered(e, ids_at(h, out), id) <==> covered(e, more, id) by {
        if covered(e, ids_at(h, out), id) {
            lemma_covered_by_more(e, ids_at(h, out), more, id);
        }
        if covered(e, more, id) {
            let a = lemma_covered_by_one(e, more, id);
            if a == pid {
                lemma_covered_by_more(e, set![q], ids_at(h, out), pid);
                lemma_covered_further(e, ids_at(h, out), pid, id);
            } else {
                lemma_covered_by_more(e, set![a], known, id);
            }
        }
    }
}

/// A place that is not seen yet takes the place of its ancestors.
proof fn lemma_newest_step(
    h: Seq<TextEvent>,
    out: Seq<usize>,
    kept: Seq<usize>,
    next: Seq<usize>,
    known: Set<OpId>,
    p: usize,
)
    requires
        sound(h),
        p < h.len(),
        is_version(h, out),
        !(exists|k: int|
            0 <= k < out.len() && covered(
                h.to_set(),
                set![h[(#[trigger] out[k]) as int].id],
                h[p as int].id,
            )),
        forall|x: usize| #[trigger]
            kept.contains(x) <==> out.contains(x) && !covered(
                h.to_set(),
                set![h[p as int].id],
                h[x as int].id,
            ),
        rises(next),
        forall|x: usize| #[trigger] next.contains(x) <==> kept.contains(x) || x == p,
        ids_at(h, out).subset_of(known),
        forall|id: OpId| #[trigger]
            covered(h.to_set(), ids_at(h, out), id) <==> covered(h.to_set(), known, id),
    ensures
        is_version(h, next),
        ids_at(h, next).subset_of(known.insert(h[p as int].id)),
        forall|id: OpId| #[trigger]
            covered(h.to_set(), ids_at(h, next), id) <==> covered(
                h.to_set(),
                known.insert(h[p as int].id),
                id,
            ),
{
    let e = h.to_set();
    let pid = h[p as int].id;
    let more = known.insert(pid);
    let s0 = ids_at(h, out);
    let s1 = ids_at(h, next);
    lemma_ids_at(h, next, pid);
    assert(next.contains(p));
    assert(s1.contains(pid));
    assert forall|id: OpId| #[trigger] s1.contains(id) implies more.contains(id) by {
        lemma_ids_at(h, next, id);
        let x = choose|x: usize| #[trigger] next.contains(x) && h[x as int].id == id;
        if x != p {
            lemma_ids_at(h, out, id);
            assert(out.contains(x));
        }
    }
    assert forall|id: OpId| #[trigger] covered(e, s1, id) <==> covered(e, more, id) by {
        if covered(e, s1, id) {
            lemma_covered_by_more(e, s1, more, id);
        }
        if covered(e, more, id) {
            let a = lemma_covered_by_one(e, more, id);
            if a == pid {
                lemma_covered_by_more(e, set![pid], s1, id);
            } else {
                lemma_covered_by_more(e, set![a], known, id);
                let b = lemma_covered_by_one(e, s0, id);
                lemma_ids_at(h, out, b);
                let x = choose|x: usize| #[trigger] out.contains(x) && h[x as int].id == b;
                lemma_ids_at(h, next, b);
                if kept.contains(x) {
                    assert(next.contains(x));
                    lemma_covered_by_more(e, set![b], s1, id);
                } else {
                    lemma_covered_further(e, set![pid], b, id);
                    lemma_covered_by_more(e, set![pid], s1, id);
                }
            }
        }
    }
    assert forall|k: int| 0 <= k < next.len() implies (#[trigger] next[k]) < h.len() by {
        assert(next.contains(next[k]));
        if next[k] != p {
            let i = out.index_of(next[k]);
            assert(out[i] == next[k]);
        }
    }
    assert forall|k: int, m: int|
        0 <= k < next.len() && 0 <= m < next.len() && k != m implies !covered(
        e,
        set![h[(#[trigger] next[k]) as int].id],
        h[(#[trigger] next[m]) as int].id,
    ) by {
        let x = next[k];
        let y = next[m];
        assert(next.contains(x) && next.contains(y));
        assert(x != y) by {
            if k < m {
                assert(next[k] < next[m]);
            } else {
                assert(next[m] < next[k]);
            }
        }
        if x == p {
            assert(kept.contains(y));
        } else {
            assert(kept.contains(x));
            let i = out.index_of(x);
            assert(out[i] == x);
            if y != p {
                assert(kept.contains(y));
                let j = out.index_of(y);
                assert(out[j] == y);
            }
        }
    }
}

/// No event of a version is an ancestor of another.
proof fn lemma_version_is_antichain(h: Seq<TextEvent>, v: Seq<usize>)
    requires
        is_version(h, v),
    ensures
        forall|a: OpId, b: OpId| #[trigger]
            ids_at(h, v).contains(a) && #[trigger] ids_at(h, v).contains(b) && a != b ==> !covered(
                h.to_set(),
                set![a],
                b,
            ),
{
    assert forall|a: OpId, b: OpId| #[trigger]
        ids_at(h, v).contains(a) && #[trigger] ids_at(h, v).contains(b) && a != b implies !covered(
        h.to_set(),
        set![a],
        b,
    ) by {
        let k = choose|k: int| 0 <= k < v.len() && h[(#[trigger] v[k]) as int].id == a;
        let m = choose|m: int| 0 <= m < v.len() && h[(#[trigger] v[m]) as int].id == b;
        assert(k != m);
    }
}

/// The events that came first are in order by themselves.
proof fn lemma_sound_prefix(h: Seq<TextEvent>, next: Seq<TextEvent>)
    requires
        sound(next),
        h.is_prefix_of(next),
    ensures
        sound(h),
        agree(next.to_set(), h.to_set()),
{
    assert forall|i: int| 0 <= i < h.len() implies (#[trigger] h[i]) == next[i] by {}
    assert forall|i: int, p: OpId|
        0 <= i < h.len() && #[trigger] h[i].parents.contains(p) implies ids(
        h.take(i).to_set(),
    ).contains(p) by {
        assert(next[i].parents.contains(p));
        assert(h.take(i) =~= next.take(i));
    }
    assert forall|x: TextEvent, y: TextEvent| #[trigger]
        next.to_set().contains(x) && #[trigger] h.to_set().contains(y) && x.id == y.id implies x
        == y by {
        let i = next.index_of(x);
        let j = h.index_of(y);
        assert(next[j] == y);
        if i < j {
            assert(next[i].id != next[j].id);
        } else if j < i {
            assert(next[j].id != next[i].id);
        }
    }
}

/// What the events that came first cover does not change as more come in.
proof fn lemma_covered_in_prefix(
    h: Seq<TextEvent>,
    next: Seq<TextEvent>,
    known: Set<OpId>,
    id: OpId,
)
    requires
        sound(next),
        h.is_prefix_of(next),
        known.subset_of(ids(h.to_set())),
    ensures
        covered(next.to_set(), known, id) <==> covered(h.to_set(), known, id),
        covered(next.to_set(), known, id) ==> ids(h.to_set()).contains(id),
{
    let a = next.to_set();
    let b = h.to_set();
    lemma_sound_prefix(h, next);
    lemma_sound_complete(h);
    if covered(a, known, id) {
        let path = choose|path: Seq<OpId>| #[trigger]
            is_path(a, path) && known.contains(path[0]) && path.last() == id;
        lemma_path_held(a, b, path);
        assert forall|k: int| 0 <= k < path.len() - 1 implies #[trigger] is_step(
            b,
            path[k],
            path[k + 1],
        ) by {
            let front = path.take(k + 1);
            assert(is_path(a, front)) by {
                assert forall|j: int| 0 <= j < front.len() - 1 implies #[trigger] is_step(
                    a,
                    front[j],
                    front[j + 1],
                ) by {
                    assert(is_step(a, path[j], path[j + 1]));
                }
            }
            lemma_path_held(a, b, front);
            assert(front.last() == path[k]);
            assert(is_step(a, path[k], path[k + 1]));
            let e = choose|e: TextEvent| #[trigger]
                a.contains(e) && e.id == path[k] && e.parents.contains(path[k + 1]);
            let f = choose|f: TextEvent| #[trigger] b.contains(f) && f.id == path[k];
            assert(a.contains(e) && b.contains(f));
            assert(e == f);
        }
        assert(is_path(b, path) && known.contains(path[0]) && path.last() == id);
    }
    if covered(b, known, id) {
        let path = choose|path: Seq<OpId>| #[trigger]
            is_path(b, path) && known.contains(path[0]) && path.last() == id;
        assert forall|k: int| 0 <= k < path.len() - 1 implies #[trigger] is_step(
            a,
            path[k],
            path[k + 1],
        ) by {
            assert(is_step(b, path[k], path[k + 1]));
            let e = choose|e: TextEvent| #[trigger]
                b.contains(e) && e.id == path[k] && e.parents.contains(path[k + 1]);
            let i = h.index_of(e);
            assert(next[i] == e);
            assert(a.contains(e));
        }
        assert(is_path(a, path) && known.contains(path[0]) && path.last() == id);
    }
}

/// A version stays one as events come in.
proof fn lemma_version_grows(h: Seq<TextEvent>, next: Seq<TextEvent>, places: Seq<usize>)
    requires
        sound(next),
        h.is_prefix_of(next),
        is_version(h, places),
    ensures
        is_version(next, places),
{
    assert forall|k: int, m: int|
        0 <= k < places.len() && 0 <= m < places.len() && k != m implies !covered(
        next.to_set(),
        set![next[(#[trigger] places[k]) as int].id],
        next[(#[trigger] places[m]) as int].id,
    ) by {
        let x = h[places[k] as int];
        assert(x == next[places[k] as int]);
        assert(h[places[m] as int] == next[places[m] as int]);
        assert(h.to_set().contains(x));
        assert(ids(h.to_set()).contains(x.id));
        lemma_covered_in_prefix(h, next, set![x.id], h[places[m] as int].id);
    }
}

/// The events that are nobody's parent name a version.
proof fn lemma_tips_are_a_version(h: Seq<TextEvent>, places: Seq<usize>)
    requires
        sound(h),
        lists_tips(h, places),
    ensures
        is_version(h, places),
{
    assert forall|k: int| 0 <= k < places.len() implies is_tip(h, (#[trigger] places[k]) as int) by {
        assert(places[k] == places[k] as int);
    }
    assert forall|k: int, m: int|
        0 <= k < places.len() && 0 <= m < places.len() && k != m implies !covered(
        h.to_set(),
        set![h[(#[trigger] places[k]) as int].id],
        h[(#[trigger] places[m]) as int].id,
    ) by {
        let a = h[places[k] as int].id;
        let b = h[places[m] as int].id;
        assert(is_tip(h, places[k] as int) && is_tip(h, places[m] as int));
        if covered(h.to_set(), set![a], b) {
            let path = choose|path: Seq<OpId>| #[trigger]
                is_path(h.to_set(), path) && set![a].contains(path[0]) && path.last() == b;
            if path.len() == 1 {
                assert(a == b);
                if k < m {
                    assert(places[k] < places[m]);
                } else {
                    assert(places[m] < places[k]);
                }
            } else {
                let n = path.len() - 2;
                assert(is_step(h.to_set(), path[n], path[n + 1]));
                let e = choose|e: TextEvent| #[trigger]
                    h.to_set().contains(e) && e.id == path[n] && e.parents.contains(path[n + 1]);
                let j = h.index_of(e);
                assert(h[j].parents.contains(b));
            }
        }
    }
}

/// Every event is covered by those that are nobody's parent.
proof fn lemma_tips_cover(h: Seq<TextEvent>, places: Seq<usize>, i: int)
    requires
        sound(h),
        lists_tips(h, places),
        0 <= i < h.len(),
    ensures
        covered(h.to_set(), ids_at(h, places), h[i].id),
    decreases h.len() - i,
{
    let e = h.to_set();
    let tips = ids_at(h, places);
    if is_tip(h, i) {
        let k = choose|k: int| 0 <= k < places.len() && #[trigger] places[k] == i;
        assert(h[places[k] as int].id == h[i].id);
        lemma_covers_itself(e, tips, h[i].id);
    } else {
        let j = choose|j: int| 0 <= j < h.len() && (#[trigger] h[j]).parents.contains(h[i].id);
        assert(ids(h.take(j).to_set()).contains(h[i].id));
        let x = choose|x: TextEvent| #[trigger] h.take(j).to_set().contains(x) && x.id == h[i].id;
        let l = h.take(j).index_of(x);
        assert(h[l] == x);
        assert(l == i) by {
            if l < i {
                assert(h[l].id != h[i].id);
            } else if i < l {
                assert(h[i].id != h[l].id);
            }
        }
        lemma_tips_cover(h, places, j);
        let path = seq![h[j].id, h[i].id];
        assert(e.contains(h[j]));
        assert(is_step(e, path[0], path[1]));
        assert(is_path(e, path) && set![h[j].id].contains(path[0]) && path.last() == h[i].id);
        lemma_covered_further(e, tips, h[j].id, h[i].id);
    }
}

proof fn lemma_step(o: Seq<char>, n: Seq<char>, os: int, oe: int, ns: int, ne: int)
    requires
        0 <= os <= oe <= o.len(),
        0 <= ns <= ne <= n.len(),
    ensures
        os == oe ==> n.take(ns) + o.skip(os) == n.take(ns) + o.skip(oe),
        ns == ne ==> n.take(ns) + o.skip(oe) == n.take(ne) + o.skip(oe),
        with_deleted(n.take(ns) + o.skip(os), ns, ns + (oe - os)) == n.take(ns) + o.skip(oe),
        with_inserted(n.take(ns) + o.skip(oe), ns, n.subrange(ns, ne)) == n.take(ne) + o.skip(oe),
        o.subrange(os, oe) == n.subrange(ns, ne) ==> n.take(ns) + o.skip(os) == n.take(ne) + o.skip(
            oe,
        ),
{
    assert(with_deleted(n.take(ns) + o.skip(os), ns, ns + (oe - os)) =~= n.take(ns) + o.skip(oe));
    assert(with_inserted(n.take(ns) + o.skip(oe), ns, n.subrange(ns, ne)) =~= n.take(ne) + o.skip(
        oe,
    ));
    if o.subrange(os, oe) == n.subrange(ns, ne) {
        assert(o.subrange(os, oe).len() == n.subrange(ns, ne).len());
        let t = n.take(ns) + o.skip(os);
        let u = n.take(ne) + o.skip(oe);
        assert forall|i: int| 0 <= i < t.len() implies t[i] == u[i] by {
            if ns <= i < ne {
                assert(o.subrange(os, oe)[i - ns] == n.subrange(ns, ne)[i - ns]);
            }
        }
        assert(t =~= u);
    }
}

proof fn lemma_authored(
    a: Seq<TextEvent>,
    b: Seq<TextEvent>,
    c: Seq<TextEvent>,
    agent: Seq<char>,
)
    requires
        authored(a, b, agent),
        authored(b, c, agent),
    ensures
        authored(a, c, agent),
{
    assert forall|i: int| 0 <= i < a.len() implies a[i] == c[i] by {
        assert(a[i] == b[i] && b[i] == c[i]);
    }
    assert forall|i: int| a.len() <= i < c.len() implies (#[trigger] c[i]).id.0 == agent
        && c[i].parents == tip_ids(c.take(i)) by {
        if i < b.len() {
            assert(b[i] == c[i]);
            assert(b.take(i) =~= c.take(i));
        }
    }
}

/// The place, or the end of a text of the given length where it lies beyond.
pub open spec fn clamped(pos: int, len: int) -> int {
    if pos <= len {
        pos
    } else {
        len
    }
}

// ---------------------------------------------------------------------------
// Laws
// ---------------------------------------------------------------------------

/// A replica's events are complete.
pub proof fn lemma_sound_complete(h: Seq<TextEvent>)
    requires
        sound(h),
    ensures
        complete(h.to_set()),
{
    assert forall|e: TextEvent, p: OpId| #[trigger]
        h.to_set().contains(e) && #[trigger] e.parents.contains(p) implies ids(h.to_set()).contains(p) by {
        let i = h.index_of(e);
        assert(h[i].parents.contains(p));
        assert(ids(h.take(i).to_set()).contains(p));
        let x = choose|x: TextEvent| #[trigger] h.take(i).to_set().contains(x) && x.id == p;
        let j = h.take(i).index_of(x);
        assert(h[j] == x);
        assert(h.to_set().contains(x));
    }
}

/// What is covered by events that a replica holds, the replica holds.
proof fn lemma_path_held(a: Set<TextEvent>, b: Set<TextEvent>, path: Seq<OpId>)
    requires
        complete(b),
        agree(a, b),
        is_path(a, path),
        ids(b).contains(path[0]),
    ensures
        ids(b).contains(path.last()),
    decreases path.len(),
{
    if path.len() > 1 {
        let front = path.drop_last();
        assert(is_path(a, front)) by {
            assert forall|k: int| 0 <= k < front.len() - 1 implies #[trigger] is_step(
                a,
                front[k],
                front[k + 1],
            ) by {
                assert(is_step(a, path[k], path[k + 1]));
            }
        }
        lemma_path_held(a, b, front);
        let k = path.len() - 2;
        assert(path[k + 1] == path.last());
        assert(is_step(a, path[k], path[k + 1]));
        let e = choose|e: TextEvent| #[trigger]
            a.contains(e) && e.id == path[k] && e.parents.contains(path[k + 1]);
        assert(front.last() == path[k]);
        let f = choose|f: TextEvent| #[trigger] b.contains(f) && f.id == path[k];
        assert(e == f);
        assert(f.parents.contains(path.last()));
    }
}

/// What is encoded since a version is what came after it, and nothing else: an
/// edit is shipped without the text that it was made on.
pub proof fn law_a_delta_is_the_change(
    h: Seq<TextEvent>,
    next: Seq<TextEvent>,
    version: Seq<usize>,
)
    requires
        sound(next),
        h.is_prefix_of(next),
        lists_tips(h, version),
    ensures
        after(next.to_set(), ids_at(next, version)) == next.skip(h.len() as int).to_set(),
{
    let e = next.to_set();
    let known = ids_at(next, version);
    let new = next.skip(h.len() as int);
    lemma_sound_prefix(h, next);
    lemma_tips_are_a_version(h, version);
    assert(known =~= ids_at(h, version)) by {
        assert forall|id: OpId| known.contains(id) <==> ids_at(h, version).contains(id) by {
            assert forall|k: int| 0 <= k < version.len() implies h[(#[trigger] version[k]) as int]
                == next[version[k] as int] by {}
        }
    }
    assert forall|id: OpId| known.contains(id) implies ids(h.to_set()).contains(id) by {
        let k = choose|k: int| 0 <= k < version.len() && h[(#[trigger] version[k]) as int].id == id;
        assert(h.to_set().contains(h[version[k] as int]));
    }
    assert forall|x: TextEvent| after(e, known).contains(x) <==> new.to_set().contains(x) by {
        if after(e, known).contains(x) {
            let i = next.index_of(x);
            if i < h.len() {
                assert(h[i] == x);
                lemma_tips_cover(h, version, i);
                lemma_covered_in_prefix(h, next, known, x.id);
            }
            assert(new[i - h.len()] == x);
        }
        if new.to_set().contains(x) {
            let i = new.index_of(x) + h.len();
            assert(next[i] == x);
            lemma_covered_in_prefix(h, next, known, x.id);
            if ids(h.to_set()).contains(x.id) {
                let y = choose|y: TextEvent| #[trigger] h.to_set().contains(y) && y.id == x.id;
                let j = h.index_of(y);
                assert(next[j] == y);
                assert(next[j].id != next[i].id);
            }
        }
    }
    assert(after(e, known) =~= new.to_set());
}

/// A replica holds the entries of its own version vector.
pub proof fn lemma_vector_is_held(h: Seq<TextEvent>, vv: Seq<OpId>)
    requires
        is_version_vector(h, vv),
    ensures
        vv.to_set().subset_of(ids(h.to_set())),
{
    let places = choose|places: Seq<usize>| #[trigger]
        lists_tips(h, places) && vv == places.map_values(|p: usize| h[p as int].id);
    assert forall|id: OpId| vv.to_set().contains(id) implies ids(h.to_set()).contains(id) by {
        let k = vv.index_of(id);
        assert(places[k] == places[k] as int);
        assert(is_tip(h, places[k] as int));
        assert(h.to_set().contains(h[places[k] as int]));
    }
}

/// What a replica is sent in answer to its version vector leads it to the events
/// of both.
pub proof fn lemma_answer_completes(a: Set<TextEvent>, b: Set<TextEvent>, vv: Set<OpId>)
    requires
        complete(a),
        complete(b),
        agree(a, b),
        vv.subset_of(ids(b)),
    ensures
        ({
            let more = after(a, vv.intersect(ids(a)));
            &&& forall|e: TextEvent, p: OpId| #[trigger]
                more.contains(e) && #[trigger] e.parents.contains(p) ==> ids(b).contains(p) || ids(
                    more,
                ).contains(p)
            &&& folded(b, more) == a.union(b)
        }),
{
    let known = vv.intersect(ids(a));
    let more = after(a, known);
    assert forall|e: TextEvent| #[trigger] a.contains(e) && !more.contains(e) implies b.contains(e) by {
        assert(covered(a, known, e.id));
        let path = choose|path: Seq<OpId>| #[trigger]
            is_path(a, path) && known.contains(path[0]) && path.last() == e.id;
        lemma_path_held(a, b, path);
        let f = choose|f: TextEvent| #[trigger] b.contains(f) && f.id == e.id;
        assert(e == f);
    }
    assert forall|e: TextEvent, p: OpId| #[trigger]
        more.contains(e) && #[trigger] e.parents.contains(p) implies ids(b).contains(p) || ids(
        more,
    ).contains(p) by {
        assert(a.contains(e));
        assert(ids(a).contains(p));
        let f = choose|f: TextEvent| #[trigger] a.contains(f) && f.id == p;
        if more.contains(f) {
            assert(ids(more).contains(p));
        } else {
            assert(b.contains(f));
            assert(ids(b).contains(p));
        }
    }
    assert forall|e: TextEvent| folded(b, more).contains(e) <==> a.union(b).contains(e) by {
        if a.contains(e) && !b.contains(e) {
            assert(more.contains(e));
            if ids(b).contains(e.id) {
                let f = choose|f: TextEvent| #[trigger] b.contains(f) && f.id == e.id;
                assert(e == f);
            }
        }
    }
    assert(folded(b, more) =~= a.union(b));
}

/// A replica can always fold in what another sends in answer to its version
/// vector, and then holds the events of both: no edit of either is lost.
pub proof fn law_answer_brings_up_to_date(
    a: Set<TextEvent>,
    b: Set<TextEvent>,
    vv: Set<OpId>,
    base: Set<OpId>,
)
    requires
        complete(a),
        complete(b),
        agree(a, b),
        vv.subset_of(ids(b)),
        boils_down(a, vv.intersect(ids(a)), base),
    ensures
        ({
            let more = after(a, vv.intersect(ids(a)));
            &&& can_fold(b, base, more)
            &&& folded(b, more) == a.union(b)
        }),
{
    lemma_answer_completes(a, b, vv);
}

/// Two replicas that answered each other's version vectors hold the same events
/// and so show the same text, whatever each had before and in whatever order it
/// came. Replicas that gave one identity to different events are left out.
pub proof fn law_replicas_converge(
    a: Set<TextEvent>,
    b: Set<TextEvent>,
    va: Set<OpId>,
    vb: Set<OpId>,
)
    requires
        complete(a),
        complete(b),
        agree(a, b),
        va.subset_of(ids(a)),
        vb.subset_of(ids(b)),
    ensures
        folded(b, after(a, vb.intersect(ids(a)))) == folded(a, after(b, va.intersect(ids(b)))),
        replayed(folded(b, after(a, vb.intersect(ids(a))))) == replayed(
            folded(a, after(b, va.intersect(ids(b)))),
        ),
{
    lemma_answer_completes(a, b, vb);
    assert(agree(b, a));
    lemma_answer_completes(b, a, va);
    assert(a.union(b) =~= b.union(a));
}

proof fn lemma_folded_is_union(h: Set<TextEvent>, x: Set<TextEvent>)
    requires
        agree(h, x),
    ensures
        folded(h, x) == h.union(x),
{
    assert forall|e: TextEvent| #[trigger] x.contains(e) implies folded(h, x).contains(e) by {
        if ids(h).contains(e.id) {
            let f = choose|f: TextEvent| #[trigger] h.contains(f) && f.id == e.id;
            assert(e == f);
        }
    }
    assert(folded(h, x) =~= h.union(x));
}

/// Folding the same events in again changes nothing, and two patches can be
/// folded in in either order, where no identity stands for two events.
pub proof fn law_folding_is_idempotent_and_commutes(
    h: Set<TextEvent>,
    x: Set<TextEvent>,
    y: Set<TextEvent>,
)
    requires
        agree(h, x),
        agree(h, y),
        agree(x, y),
    ensures
        folded(folded(h, x), x) == folded(h, x),
        folded(folded(h, x), y) == folded(folded(h, y), x),
{
    lemma_folded_is_union(h, x);
    lemma_folded_is_union(h, y);
    assert(agree(h.union(x), y));
    assert(agree(h.union(y), x)) by {
        assert forall|p: TextEvent, q: TextEvent| #[trigger]
            h.union(y).contains(p) && #[trigger] x.contains(q) && p.id == q.id implies p == q by {
            if y.contains(p) {
                assert(x.contains(q) && y.contains(p) && q.id == p.id);
            }
        }
    }
    lemma_folded_is_union(h.union(x), y);
    lemma_folded_is_union(h.union(y), x);
    assert(h.union(x).union(y) =~= h.union(y).union(x));
    assert(folded(h.union(x), x) =~= h.union(x)) by {
        assert forall|e: TextEvent| #[trigger] x.contains(e) implies ids(h.union(x)).contains(e.id) by {
            assert(h.union(x).contains(e));
        }
    }
}

/// What a replica inserted is not lost where its events come together with those of
/// another: each character that the other showed is still there, and so is each
/// one that was inserted here and not there. Replicas that deleted something that
/// the other has not are left out.
pub proof fn law_insertions_survive(
    a: Set<TextEvent>,
    b: Set<TextEvent>,
    text: Seq<char>,
    c: char,
)
    requires
        complete(a),
        forall|e: TextEvent| #[trigger] b.contains(e) && !a.contains(e) ==> e.inserted is Some,
        keeps_inserted(a.union(b), text),
    ensures
        text.to_multiset().count(c) == replayed(a).to_multiset().count(c) + times_inserted(
            b.difference(a),
            c,
        ),
{
    assert(only_inserts(a.union(b), a));
    assert(a.union(b).difference(a) =~= b.difference(a));
}

/// A patch that was taken and comes again is taken again, and changes nothing.
pub proof fn law_a_patch_again_changes_nothing(
    d0: TextView,
    bytes: Seq<u8>,
    d1: TextView,
    taken: bool,
    d2: TextView,
)
    requires
        from_peer(bytes, d0.history()),
        from_peer(bytes, d1.history()),
        merged_to(d0, bytes, true, d1),
        merged_to(d1, bytes, taken, d2),
    ensures
        taken,
        d2.history() == d1.history(),
        d2.text() == d1.text(),
{
    let (doc, base, more) = patch_parts(bytes)->Some_0;
    assert forall|id: OpId| ids(d0.history()).contains(id) implies ids(d1.history()).contains(
        id,
    ) by {
        let e = choose|e: TextEvent| #[trigger] d0.history().contains(e) && e.id == id;
        assert(d1.history().contains(e));
    }
    assert forall|e: TextEvent| #[trigger] more.contains(e) implies ids(d1.history()).contains(
        e.id,
    ) by {
        if !ids(d0.history()).contains(e.id) {
            assert(d1.history().contains(e));
        }
    }
    assert(folded(d1.history(), more) =~= d1.history());
}

/// Two patches that are taken in either order lead to the same events and the same
/// text, where no identity stands for two events.
pub proof fn law_patches_commute(
    d: TextView,
    x: Seq<u8>,
    y: Seq<u8>,
    dx: TextView,
    dxy: TextView,
    dy: TextView,
    dyx: TextView,
)
    requires
        from_peer(x, d.history()),
        from_peer(y, d.history()),
        from_peer(y, dx.history()),
        from_peer(x, dy.history()),
        merged_to(d, x, true, dx),
        merged_to(dx, y, true, dxy),
        merged_to(d, y, true, dy),
        merged_to(dy, x, true, dyx),
        agree(d.history(), patch_parts(x)->Some_0.2),
        agree(d.history(), patch_parts(y)->Some_0.2),
        agree(patch_parts(x)->Some_0.2, patch_parts(y)->Some_0.2),
    ensures
        dxy.history() == dyx.history(),
        dxy.text() == dyx.text(),
{
    law_folding_is_idempotent_and_commutes(
        d.history(),
        patch_parts(x)->Some_0.2,
        patch_parts(y)->Some_0.2,
    );
}

// ---------------------------------------------------------------------------
// Replicas that follow each other
// ---------------------------------------------------------------------------

/// What a replica holds under a name, the owner of the name holds too.
pub open spec fn has_from_owner(h: Set<TextEvent>, owner: TextView) -> bool {
    forall|e: TextEvent| #[trigger]
        h.contains(e) && e.id.0 == owner.agent ==> owner.history().contains(e)
}

/// Two replicas of one document that write under different names, where no identity
/// stands for two events and each has the other's edits from the other.
pub open spec fn paired(a: TextView, b: TextView) -> bool {
    &&& a.agent != b.agent
    &&& a.doc == b.doc
    &&& sound(a.events)
    &&& sound(b.events)
    &&& agree(a.history(), b.history())
    &&& has_from_owner(a.history(), b)
    &&& has_from_owner(b.history(), a)
}

proof fn lemma_one_per_identity(h: Seq<TextEvent>, x: TextEvent, y: TextEvent)
    requires
        sound(h),
        h.to_set().contains(x),
        h.to_set().contains(y),
        x.id == y.id,
    ensures
        x == y,
{
    let i = h.index_of(x);
    let j = h.index_of(y);
    assert(h[i] == x && h[j] == y);
    if i < j {
        assert(h[i].id != h[j].id);
    } else if j < i {
        assert(h[j].id != h[i].id);
    }
}

/// New replicas with different names are paired.
pub proof fn law_new_replicas_are_paired(a: Seq<char>, b: Seq<char>)
    requires
        a != b,
    ensures
        paired(
            TextView { agent: a, doc: None, events: Seq::empty() },
            TextView { agent: b, doc: None, events: Seq::empty() },
        ),
{
}

/// Replicas of one document with different names that hold the same events are
/// paired.
pub proof fn law_replicas_with_one_history_are_paired(a: TextView, b: TextView)
    requires
        a.agent != b.agent,
        a.doc == b.doc,
        sound(a.events),
        sound(b.events),
        a.history() == b.history(),
    ensures
        paired(a, b),
{
    assert forall|x: TextEvent, y: TextEvent| #[trigger]
        a.history().contains(x) && #[trigger] b.history().contains(y) && x.id == y.id implies x
        == y by {
        lemma_one_per_identity(a.events, x, y);
    }
}

/// Pairing goes both ways.
pub proof fn law_pairing_is_mutual(a: TextView, b: TextView)
    requires
        paired(a, b),
    ensures
        paired(b, a),
{
    assert forall|x: TextEvent, y: TextEvent| #[trigger]
        b.history().contains(x) && #[trigger] a.history().contains(y) && x.id == y.id implies x
        == y by {
        assert(a.history().contains(y) && b.history().contains(x));
    }
}

/// Paired replicas can be merged: each is complete, no identity stands for two
/// events, and the patches of one fit the document of the other.
pub proof fn law_paired_replicas_can_merge(a: TextView, b: TextView)
    requires
        paired(a, b),
    ensures
        complete(a.history()),
        complete(b.history()),
        agree(a.history(), b.history()),
        agree(b.history(), a.history()),
        fits(b.doc, a.doc, b.events.len() == 0),
        fits(a.doc, b.doc, a.events.len() == 0),
{
    lemma_sound_complete(a.events);
    lemma_sound_complete(b.events);
    law_pairing_is_mutual(a, b);
}

/// Local edits leave replicas paired.
pub proof fn law_edits_keep_replicas_paired(
    a: TextView,
    strokes: Seq<Stroke>,
    a1: TextView,
    b: TextView,
)
    requires
        paired(a, b),
        wrote(a, strokes, a1),
        sound(a1.events),
    ensures
        paired(a1, b),
        a.history().subset_of(a1.history()),
{
    let n = a.events.len() as int;
    assert forall|e: TextEvent| #[trigger] a.history().contains(e) implies a1.history().contains(
        e,
    ) by {
        let i = a.events.index_of(e);
        assert(a1.events[i] == e);
    }
    assert forall|e: TextEvent| #[trigger] a1.history().contains(e) implies a.history().contains(e)
        || e.id.0 == a.agent by {
        let i = a1.events.index_of(e);
        if i < n {
            assert(a.events[i] == e);
        }
    }
    assert forall|x: TextEvent, y: TextEvent| #[trigger]
        a1.history().contains(x) && #[trigger] b.history().contains(y) && x.id == y.id implies x
        == y by {
        if !a.history().contains(x) {
            // What the other replica has under this name is from here.
            assert(a.history().contains(y));
            lemma_one_per_identity(a1.events, x, y);
        }
    }
}

/// A patch of a paired replica is taken where what it builds on is held, and its
/// events are added. The replicas stay paired.
proof fn lemma_patch_is_taken(
    a: TextView,
    base: Set<OpId>,
    more: Set<TextEvent>,
    bytes: Seq<u8>,
    b: TextView,
    taken: bool,
    b1: TextView,
)
    requires
        paired(a, b),
        is_patch_of(a, base, more, bytes),
        base.subset_of(ids(b.history())),
        more.subset_of(a.history()),
        a.history().subset_of(more.union(b.history())),
        merged_to(b, bytes, taken, b1),
    ensures
        reads_safely(bytes, b.history()),
        taken,
        b1.history() == a.history().union(b.history()),
        paired(a, b1),
{
    assert(from_peer(bytes, b.history()));
    assert(agree(b.history(), more)) by {
        law_pairing_is_mutual(a, b);
    }
    lemma_folded_is_union(b.history(), more);
    assert(b1.history() =~= a.history().union(b.history()));
    assert forall|x: TextEvent, y: TextEvent| #[trigger]
        a.history().contains(x) && #[trigger] b1.history().contains(y) && x.id == y.id implies x
        == y by {
        if a.history().contains(y) {
            lemma_one_per_identity(a.events, x, y);
        }
    }
}

/// A replica takes the answer of a paired one to its version vector and then has
/// the events of both, whatever each has written. The replicas stay paired.
pub proof fn law_answers_are_taken(
    a: TextView,
    vv: Set<OpId>,
    bytes: Seq<u8>,
    b: TextView,
    taken: bool,
    b1: TextView,
)
    requires
        paired(a, b),
        vv.subset_of(ids(b.history())),
        is_answer(a, vv, bytes),
        merged_to(b, bytes, taken, b1),
    ensures
        reads_safely(bytes, b.history()),
        taken,
        b1.history() == a.history().union(b.history()),
        paired(a, b1),
{
    let base = choose|base: Set<OpId>| #[trigger]
        boils_down(a.history(), vv.intersect(ids(a.history())), base) && is_patch_of(
            a,
            base,
            a.lacking(vv),
            bytes,
        );
    lemma_sound_complete(a.events);
    lemma_sound_complete(b.events);
    law_answer_brings_up_to_date(a.history(), b.history(), vv, base);
    let more = a.lacking(vv);
    assert forall|e: TextEvent| #[trigger] a.history().contains(e) implies more.union(
        b.history(),
    ).contains(e) by {
        assert(folded(b.history(), more).contains(e));
    }
    lemma_patch_is_taken(a, base, more, bytes, b, taken, b1);
}

/// A replica takes the change that a paired one made since a state that it holds:
/// the small delta is enough. The replicas stay paired.
pub proof fn law_deltas_are_taken(
    a0: TextView,
    since: Seq<usize>,
    a1: TextView,
    bytes: Seq<u8>,
    b: TextView,
    taken: bool,
    b1: TextView,
)
    requires
        paired(a1, b),
        a0.events.is_prefix_of(a1.events),
        lists_tips(a0.events, since),
        a0.history().subset_of(b.history()),
        is_patch_of(
            a1,
            ids_at(a1.events, since),
            after(a1.history(), ids_at(a1.events, since)),
            bytes,
        ),
        merged_to(b, bytes, taken, b1),
    ensures
        reads_safely(bytes, b.history()),
        taken,
        b1.history() == a1.history().union(b.history()),
        paired(a1, b1),
{
    let base = ids_at(a1.events, since);
    let more = after(a1.history(), base);
    law_a_delta_is_the_change(a0.events, a1.events, since);
    assert forall|id: OpId| #[trigger] base.contains(id) implies ids(b.history()).contains(id) by {
        let k = choose|k: int|
            0 <= k < since.len() && a1.events[(#[trigger] since[k]) as int].id == id;
        assert(is_tip(a0.events, since[k] as int));
        let e = a0.events[since[k] as int];
        assert(a0.history().contains(e));
        assert(b.history().contains(e));
    }
    assert forall|e: TextEvent| #[trigger] a1.history().contains(e) implies more.union(
        b.history(),
    ).contains(e) by {
        let i = a1.events.index_of(e);
        if i < a0.events.len() {
            assert(a0.events[i] == e);
            assert(a0.history().contains(e));
        } else {
            assert(a1.events.skip(a0.events.len() as int)[i - a0.events.len()] == e);
        }
    }
    lemma_patch_is_taken(a1, base, more, bytes, b, taken, b1);
}

/// A replica takes the whole text of a paired one. The replicas stay paired.
pub proof fn law_whole_texts_are_taken(
    a: TextView,
    bytes: Seq<u8>,
    b: TextView,
    taken: bool,
    b1: TextView,
)
    requires
        paired(a, b),
        is_patch_of(a, Set::empty(), a.history(), bytes),
        merged_to(b, bytes, taken, b1),
    ensures
        reads_safely(bytes, b.history()),
        taken,
        b1.history() == a.history().union(b.history()),
        paired(a, b1),
{
    lemma_patch_is_taken(a, Set::empty(), a.history(), bytes, b, taken, b1);
}

/// Replicas stay paired where one of them takes in what a third one has that is
/// paired with both.
pub proof fn law_third_replicas_keep_the_pair(a: TextView, b: TextView, c: TextView, b1: TextView)
    requires
        paired(a, b),
        paired(a, c),
        sound(b1.events),
        b1.agent == b.agent,
        b1.doc == b.doc,
        b1.history() == b.history().union(c.history()),
    ensures
        paired(a, b1),
{
}

/// Concurrent edits converge and lose nothing: two replicas of one document with
/// different names that hold the same events and both edit, and send each other
/// what they did since, both take it, and then hold the events of both and show the
/// same text.
pub proof fn law_concurrent_edits_converge(
    a0: TextView,
    b0: TextView,
    sa: Seq<Stroke>,
    sb: Seq<Stroke>,
    a1: TextView,
    b1: TextView,
    va: Seq<usize>,
    vb: Seq<usize>,
    da: Seq<u8>,
    db: Seq<u8>,
    ta: bool,
    tb: bool,
    a2: TextView,
    b2: TextView,
)
    requires
        a0.agent != b0.agent,
        a0.doc == b0.doc,
        sound(a0.events),
        sound(b0.events),
        a0.history() == b0.history(),
        wrote(a0, sa, a1),
        wrote(b0, sb, b1),
        sound(a1.events),
        sound(b1.events),
        lists_tips(a0.events, va),
        lists_tips(b0.events, vb),
        is_patch_of(a1, ids_at(a1.events, va), after(a1.history(), ids_at(a1.events, va)), da),
        is_patch_of(b1, ids_at(b1.events, vb), after(b1.history(), ids_at(b1.events, vb)), db),
        merged_to(a1, db, ta, a2),
        merged_to(b1, da, tb, b2),
    ensures
        reads_safely(db, a1.history()),
        reads_safely(da, b1.history()),
        ta,
        tb,
        a2.history() == a1.history().union(b1.history()),
        b2.history() == a2.history(),
        a2.text() == b2.text(),
        paired(a2, b2),
{
    law_replicas_with_one_history_are_paired(a0, b0);
    law_edits_keep_replicas_paired(a0, sa, a1, b0);
    law_pairing_is_mutual(a1, b0);
    law_edits_keep_replicas_paired(b0, sb, b1, a1);
    law_deltas_are_taken(b0, vb, b1, db, a1, ta, a2);
    law_pairing_is_mutual(b1, a1);
    law_deltas_are_taken(a0, va, a1, da, b1, tb, b2);
    assert(a2.history() =~= a1.history().union(b1.history()));
    assert(b2.history() =~= a2.history());
    law_replicas_with_one_history_are_paired(a2, b2);
}

/// At most one event was made with nothing in view.
pub open spec fn one_root(h: Set<TextEvent>) -> bool {
    forall|x: TextEvent, y: TextEvent| #[trigger]
        h.contains(x) && #[trigger] h.contains(y) && x.parents == Set::<OpId>::empty() && y.parents
            == Set::<OpId>::empty() ==> x == y
}

/// The first event of a replica was made with nothing in view.
proof fn lemma_first_is_root(h: Seq<TextEvent>)
    requires
        sound(h),
        h.len() > 0,
    ensures
        h[0].parents == Set::<OpId>::empty(),
{
    assert forall|p: OpId| !h[0].parents.contains(p) by {
        if h[0].parents.contains(p) {
            assert(ids(h.take(0).to_set()).contains(p));
        }
    }
    assert(h[0].parents =~= Set::<OpId>::empty());
}

/// Replicas with one root that hold the same events have the same origin, in
/// whatever order the events came.
pub proof fn law_the_root_is_the_origin(a: TextView, b: TextView)
    requires
        sound(a.events),
        sound(b.events),
        one_root(a.history()),
        a.history() == b.history(),
    ensures
        a.origin() == b.origin(),
{
    if a.events.len() > 0 {
        assert(a.history().contains(a.events[0]));
        assert(b.history().contains(b.events[b.events.index_of(a.events[0])]));
        lemma_first_is_root(a.events);
        lemma_first_is_root(b.events);
        assert(b.history().contains(b.events[0]));
    } else if b.events.len() > 0 {
        assert(b.history().contains(b.events[0]));
    }
}

/// Local edits add no root to a text that has one.
pub proof fn law_edits_keep_one_root(d0: TextView, strokes: Seq<Stroke>, d1: TextView)
    requires
        wrote(d0, strokes, d1),
        sound(d1.events),
        one_root(d0.history()),
    ensures
        one_root(d1.history()),
{
    let h = d1.events;
    let n = d0.events.len() as int;
    assert forall|x: TextEvent| #[trigger]
        d1.history().contains(x) && x.parents == Set::<OpId>::empty() implies x == h[0] by {
        let i = h.index_of(x);
        if i >= n && i > 0 {
            let front = h.take(i);
            let last = front[i - 1];
            assert forall|j: int| 0 <= j < front.len() implies !(
            #[trigger] front[j]).parents.contains(last.id) by {
                if front[j].parents.contains(last.id) {
                    assert(h[j].parents.contains(last.id));
                    let e = choose|e: TextEvent| #[trigger]
                        h.take(j).to_set().contains(e) && e.id == last.id;
                    let k = h.take(j).index_of(e);
                    assert(h[k] == e);
                    assert(h[k].id != h[i - 1].id);
                }
            }
            assert(is_tip(front, i - 1));
            assert(h[i].parents == tip_ids(front));
            assert(tip_ids(front).contains(last.id));
            assert(h[i].parents.contains(last.id));
        } else if i > 0 {
            assert(d0.events[i] == x && d0.events[0] == h[0]);
            assert(d0.history().contains(x) && d0.history().contains(d0.events[0]));
            lemma_first_is_root(h);
        }
    }
}

/// Two texts with one root and the same origin have one root together.
pub proof fn law_one_origin_is_one_root(a: TextView, b: TextView)
    requires
        sound(a.events),
        sound(b.events),
        agree(a.history(), b.history()),
        one_root(a.history()),
        one_root(b.history()),
        a.origin() is Some && b.origin() is Some ==> a.origin() == b.origin(),
    ensures
        one_root(a.history().union(b.history())),
{
    if a.events.len() > 0 && b.events.len() > 0 {
        lemma_first_is_root(a.events);
        lemma_first_is_root(b.events);
        assert(a.history().contains(a.events[0]));
        assert(b.history().contains(b.events[0]));
        assert(a.events[0] == b.events[0]);
    } else if a.events.len() == 0 {
        assert(a.history().union(b.history()) =~= b.history());
    } else {
        assert(a.history().union(b.history()) =~= a.history());
    }
}

/// What a replica has just written is lacking in every paired one, whatever that one
/// says of itself.
pub proof fn law_new_edits_are_lacking(
    a: TextView,
    strokes: Seq<Stroke>,
    a1: TextView,
    b: TextView,
    vv: Set<OpId>,
)
    requires
        paired(a, b),
        wrote(a, strokes, a1),
        sound(a1.events),
        a1.events.len() > a.events.len(),
        vv.subset_of(ids(b.history())),
    ensures
        a1.lacking(vv).contains(a1.events.last()),
{
    let e = a1.events.last();
    let known = vv.intersect(ids(a1.history()));
    law_edits_keep_replicas_paired(a, strokes, a1, b);
    lemma_sound_complete(b.events);
    assert(a1.history().contains(e));
    if covered(a1.history(), known, e.id) {
        let path = choose|path: Seq<OpId>| #[trigger]
            is_path(a1.history(), path) && known.contains(path[0]) && path.last() == e.id;
        lemma_path_held(a1.history(), b.history(), path);
        let f = choose|f: TextEvent| #[trigger] b.history().contains(f) && f.id == e.id;
        assert(e.id.0 == a.agent);
        assert(a.history().contains(f));
        let j = a.events.index_of(f);
        assert(a1.events[j] == f);
        assert(a1.events[j].id != a1.events[a1.events.len() - 1].id);
    }
}

/// What one replica puts in while another edits is in the text of both together:
/// each character is there as often as the other shows it, and once more for each
/// time that it was put in. An edit that also deletes is left out.
pub proof fn law_concurrent_insertions_survive(
    a1: TextView,
    b0: TextView,
    strokes: Seq<Stroke>,
    b1: TextView,
    text: Seq<char>,
    c: char,
)
    requires
        paired(a1, b0),
        b0.history().subset_of(a1.history()),
        wrote(b0, strokes, b1),
        forall|i: int| 0 <= i < strokes.len() ==> (#[trigger] strokes[i]).1 is Some,
        keeps_inserted(b1.history(), b1.text()),
        keeps_inserted(a1.history().union(b1.history()), text),
    ensures
        text.to_multiset().count(c) == a1.text().to_multiset().count(c) + (
        b1.text().to_multiset().count(c) - b0.text().to_multiset().count(c)),
{
    let n = b0.events.len() as int;
    assert forall|e: TextEvent| #[trigger] b0.history().contains(e) implies b1.history().contains(
        e,
    ) by {
        assert(b1.events[b0.events.index_of(e)] == e);
    }
    assert forall|e: TextEvent| #[trigger]
        b1.history().contains(e) && !b0.history().contains(e) implies e.inserted is Some && e.id.0
        == b0.agent by {
        let i = b1.events.index_of(e);
        if i < n {
            assert(b0.events[i] == e);
        }
        assert(strokes_from(b1.events, n)[i - n] == (e.pos, e.inserted));
        assert(strokes[i - n].1 is Some);
    }
    lemma_sound_complete(a1.events);
    lemma_sound_complete(b0.events);
    assert(b1.history().difference(a1.history()) =~= b1.history().difference(b0.history()));
    law_insertions_survive(a1.history(), b1.history(), text, c);
    assert(b0.history().union(b1.history()) =~= b1.history());
    law_insertions_survive(b0.history(), b1.history(), b1.text(), c);
}

/// An answer to a version vector holds the gap and nothing else: a replica that has
/// seen part of what another holds is sent what it has not, and one that is level is
/// sent nothing.
pub proof fn law_answers_hold_only_the_gap(a: TextView, b: TextView, vv: Seq<OpId>)
    requires
        sound(a.events),
        sound(b.events),
        b.history().subset_of(a.history()),
        is_version_vector(b.events, vv),
    ensures
        forall|e: TextEvent| #[trigger]
            a.lacking(vv.to_set()).contains(e) <==> a.history().contains(e) && !b.history().contains(
                e,
            ),
{
    let ha = a.history();
    let hb = b.history();
    let known = vv.to_set().intersect(ids(ha));
    let places = choose|places: Seq<usize>| #[trigger]
        lists_tips(b.events, places) && vv == places.map_values(|p: usize| b.events[p as int].id);
    lemma_vector_is_held(b.events, vv);
    lemma_sound_complete(b.events);
    assert forall|x: TextEvent, y: TextEvent| #[trigger]
        ha.contains(x) && #[trigger] hb.contains(y) && x.id == y.id implies x == y by {
        lemma_one_per_identity(a.events, x, y);
    }
    assert forall|e: TextEvent| #[trigger] a.lacking(vv.to_set()).contains(e) <==> ha.contains(e)
        && !hb.contains(e) by {
        if ha.contains(e) && covered(ha, known, e.id) {
            let path = choose|path: Seq<OpId>| #[trigger]
                is_path(ha, path) && known.contains(path[0]) && path.last() == e.id;
            lemma_path_held(ha, hb, path);
            let f = choose|f: TextEvent| #[trigger] hb.contains(f) && f.id == e.id;
            assert(e == f);
        }
        if hb.contains(e) {
            let i = b.events.index_of(e);
            lemma_tips_cover(b.events, places, i);
            let tips = ids_at(b.events, places);
            let path = choose|path: Seq<OpId>| #[trigger]
                is_path(hb, path) && tips.contains(path[0]) && path.last() == e.id;
            assert(is_path(ha, path)) by {
                assert forall|k: int| 0 <= k < path.len() - 1 implies #[trigger] is_step(
                    ha,
                    path[k],
                    path[k + 1],
                ) by {
                    assert(is_step(hb, path[k], path[k + 1]));
                    let x = choose|x: TextEvent| #[trigger]
                        hb.contains(x) && x.id == path[k] && x.parents.contains(path[k + 1]);
                    assert(ha.contains(x));
                }
            }
            let k = choose|k: int|
                0 <= k < places.len() && b.events[(#[trigger] places[k]) as int].id == path[0];
            assert(vv[k] == path[0]);
            assert(is_tip(b.events, places[k] as int));
            assert(ha.contains(b.events[places[k] as int]));
            assert(ids(ha).contains(path[0]));
            assert(covered(ha, known, e.id));
        }
    }
}

/// What a replica writes is lacking to everyone who is not known to have seen more than
/// it had before.
pub proof fn law_new_edits_are_lacking_to_all(
    a: TextView,
    strokes: Seq<Stroke>,
    a1: TextView,
    vv: Set<OpId>,
)
    requires
        wrote(a, strokes, a1),
        sound(a1.events),
        a1.events.len() > a.events.len(),
        forall|id: OpId| #[trigger]
            vv.contains(id) && ids(a1.history()).contains(id) ==> ids(a.history()).contains(id),
    ensures
        a1.lacking(vv).contains(a1.events.last()),
{
    let e = a1.events.last();
    let known = vv.intersect(ids(a1.history()));
    assert(a1.history().contains(e));
    lemma_covered_in_prefix(a.events, a1.events, known, e.id);
    if covered(a1.history(), known, e.id) {
        let f = choose|f: TextEvent| #[trigger] a.history().contains(f) && f.id == e.id;
        let j = a.events.index_of(f);
        assert(a1.events[j] == f);
        assert(a1.events[j].id != a1.events[a1.events.len() - 1].id);
    }
}

pub(crate) proof fn lemma_rewrite_spares(old_text: Seq<char>, new_text: Seq<char>)
    requires
        is_script(char_diff(old_text, new_text), old_text, new_text),
        is_shortest(char_diff(old_text, new_text), old_text, new_text),
    ensures
        spares_what_is_shared(old_text, new_text, rewrite(old_text, new_text)),
{
    assert forall|at_old: Seq<int>, at_new: Seq<int>| #[trigger]
        in_common(old_text, new_text, at_old, at_new) implies {
        let strokes = rewrite(old_text, new_text);
        &&& strokes.filter(|s: Stroke| s.1 is None).len() + at_old.len() <= old_text.len()
        &&& strokes.filter(|s: Stroke| s.1 is Some).len() + at_old.len() <= new_text.len()
    } by {
        law_rewrites_leave_alone_what_is_shared(old_text, new_text, at_old, at_new);
    }
}

proof fn lemma_nothing_spares(text: Seq<char>)
    ensures
        spares_what_is_shared(text, text, Seq::empty()),
{
    lemma_filter_none(Seq::<Stroke>::empty(), |s: Stroke| s.1 is None);
    lemma_filter_none(Seq::<Stroke>::empty(), |s: Stroke| s.1 is Some);
    assert forall|at_old: Seq<int>, at_new: Seq<int>| #[trigger]
        in_common(text, text, at_old, at_new) implies at_old.len() <= text.len() by {
        lemma_rising(at_old, text.len() as int, at_old.len() as int);
    }
}

/// A rewrite leaves alone what both texts share: it deletes no more characters than the
/// old text has beyond what the two have in common, and inserts no more than the new one
/// has beyond that.
pub proof fn law_rewrites_leave_alone_what_is_shared(
    old_text: Seq<char>,
    new_text: Seq<char>,
    at_old: Seq<int>,
    at_new: Seq<int>,
)
    requires
        is_script(char_diff(old_text, new_text), old_text, new_text),
        is_shortest(char_diff(old_text, new_text), old_text, new_text),
        in_common(old_text, new_text, at_old, at_new),
    ensures
        rewrite(old_text, new_text).filter(|s: Stroke| s.1 is None).len() + at_old.len()
            <= old_text.len(),
        rewrite(old_text, new_text).filter(|s: Stroke| s.1 is Some).len() + at_old.len()
            <= new_text.len(),
{
    let steps = char_diff(old_text, new_text);
    let n = steps.len() as int;
    if old_text != new_text {
        lemma_strokes_of_script(steps, old_text, new_text, n);
    } else {
        lemma_filter_none(Seq::<Stroke>::empty(), |s: Stroke| s.1 is None);
        lemma_filter_none(Seq::<Stroke>::empty(), |s: Stroke| s.1 is Some);
        lemma_rising(at_old, old_text.len() as int, at_old.len() as int);
    }
}

proof fn lemma_rising(at: Seq<int>, n: int, k: int)
    requires
        0 <= k <= at.len(),
        forall|i: int| 0 <= i < at.len() ==> 0 <= #[trigger] at[i] < n,
        forall|i: int, j: int| 0 <= i < j < at.len() ==> #[trigger] at[i] < #[trigger] at[j],
        n >= 0,
    ensures
        k > 0 ==> at[k - 1] >= k - 1,
        k <= n,
    decreases k,
{
    if k > 0 {
        lemma_rising(at, n, k - 1);
        if k > 1 {
            assert(at[k - 2] < at[k - 1]);
        }
    }
}

proof fn lemma_filter_none<A>(s: Seq<A>, keep: spec_fn(A) -> bool)
    requires
        forall|i: int| 0 <= i < s.len() ==> !keep(#[trigger] s[i]),
    ensures
        s.filter(keep).len() == 0,
    decreases s.len(),
{
    reveal(Seq::filter);
    if s.len() > 0 {
        let front = s.drop_last();
        assert forall|i: int| 0 <= i < front.len() implies !keep(#[trigger] front[i]) by {
            assert(front[i] == s[i]);
        }
        assert(!keep(s[s.len() - 1]));
        lemma_filter_none(front, keep);
    }
}

proof fn lemma_filter_all<A>(s: Seq<A>, keep: spec_fn(A) -> bool)
    requires
        forall|i: int| 0 <= i < s.len() ==> keep(#[trigger] s[i]),
    ensures
        s.filter(keep).len() == s.len(),
    decreases s.len(),
{
    reveal(Seq::filter);
    if s.len() > 0 {
        let front = s.drop_last();
        assert forall|i: int| 0 <= i < front.len() implies keep(#[trigger] front[i]) by {
            assert(front[i] == s[i]);
        }
        assert(keep(s[s.len() - 1]));
        lemma_filter_all(front, keep);
    }
}

/// The strokes of a diff delete what its steps take out and insert what they put in.
proof fn lemma_strokes_of_script(
    steps: Seq<Step>,
    old_text: Seq<char>,
    new_text: Seq<char>,
    k: int,
)
    requires
        is_script(steps, old_text, new_text),
        0 <= k <= steps.len(),
    ensures
        script_strokes(steps, new_text, k).filter(|s: Stroke| s.1 is None).len() == removed(
            steps,
            k,
        ),
        script_strokes(steps, new_text, k).filter(|s: Stroke| s.1 is Some).len() == added(steps, k),
    decreases k,
{
    let gone = |s: Stroke| s.1 is None;
    let new = |s: Stroke| s.1 is Some;
    if k <= 0 {
        lemma_filter_none(Seq::<Stroke>::empty(), gone);
        lemma_filter_none(Seq::<Stroke>::empty(), new);
    } else {
        lemma_strokes_of_script(steps, old_text, new_text, k - 1);
        let front = script_strokes(steps, new_text, k - 1);
        let s = steps[k - 1];
        let back = step_strokes(s, new_text);
        Seq::filter_distributes_over_add(front, back, gone);
        Seq::filter_distributes_over_add(front, back, new);
        if s.0 {
            lemma_filter_none(back, gone);
            lemma_filter_none(back, new);
        } else {
            let d = deletions(s.3 as int, s.2 - s.1);
            let i = insertions(s.3 as int, new_text.subrange(s.3 as int, s.4 as int));
            Seq::filter_distributes_over_add(d, i, gone);
            Seq::filter_distributes_over_add(d, i, new);
            lemma_filter_all(d, gone);
            lemma_filter_none(i, gone);
            lemma_filter_none(d, new);
            lemma_filter_all(i, new);
        }
    }
}

/// Where nothing is lacking to a paired replica, it holds everything.
pub proof fn lemma_nothing_lacking(a: TextView, b: TextView, vv: Set<OpId>)
    requires
        paired(a, b),
        vv.subset_of(ids(b.history())),
        forall|e: TextEvent| !#[trigger] a.lacking(vv).contains(e),
    ensures
        a.history().subset_of(b.history()),
{
    lemma_sound_complete(b.events);
    let known = vv.intersect(ids(a.history()));
    assert forall|e: TextEvent| #[trigger] a.history().contains(e) implies b.history().contains(
        e,
    ) by {
        assert(!a.lacking(vv).contains(e));
        let path = choose|path: Seq<OpId>| #[trigger]
            is_path(a.history(), path) && known.contains(path[0]) && path.last() == e.id;
        lemma_path_held(a.history(), b.history(), path);
        let f = choose|f: TextEvent| #[trigger] b.history().contains(f) && f.id == e.id;
        assert(e == f);
    }
}

/// What is lacking to one that is known to hold a replica as it was, and nothing that was
/// written since, is what was written since.
pub proof fn law_the_change_is_what_is_lacking(
    d0: TextView,
    strokes: Seq<Stroke>,
    d1: TextView,
    vv: Seq<OpId>,
    known: Set<OpId>,
)
    requires
        wrote(d0, strokes, d1),
        sound(d1.events),
        is_version_vector(d0.events, vv),
        forall|id: OpId| #[trigger] vv.contains(id) ==> known.contains(id),
        forall|id: OpId| #[trigger]
            known.contains(id) && ids(d1.history()).contains(id) ==> ids(d0.history()).contains(id),
    ensures
        forall|e: TextEvent| #[trigger]
            d1.lacking(known).contains(e) <==> d1.history().contains(e) && !d0.history().contains(e),
{
    let h = d0.events;
    let next = d1.events;
    let seen = known.intersect(ids(d1.history()));
    lemma_sound_prefix(h, next);
    let places = choose|places: Seq<usize>| #[trigger]
        lists_tips(h, places) && vv == places.map_values(|p: usize| h[p as int].id);
    assert forall|e: TextEvent| #[trigger] d1.lacking(known).contains(e) <==> d1.history().contains(
        e,
    ) && !d0.history().contains(e) by {
        lemma_covered_in_prefix(h, next, seen, e.id);
        if d0.history().contains(e) {
            let i = h.index_of(e);
            assert(next[i] == e);
            assert(d1.history().contains(e));
            lemma_tips_cover(h, places, i);
            let tips = ids_at(h, places);
            let path = choose|path: Seq<OpId>| #[trigger]
                is_path(h.to_set(), path) && tips.contains(path[0]) && path.last() == e.id;
            let k = choose|k: int|
                0 <= k < places.len() && h[(#[trigger] places[k]) as int].id == path[0];
            assert(vv[k] == path[0]);
            assert(vv.contains(path[0]));
            assert(is_tip(h, places[k] as int));
            assert(next[places[k] as int] == h[places[k] as int]);
            assert(d1.history().contains(h[places[k] as int]));
            assert(ids(d1.history()).contains(path[0]));
            assert(covered(h.to_set(), seen, e.id));
        }
        if d1.history().contains(e) && covered(d1.history(), seen, e.id) {
            let f = choose|f: TextEvent| #[trigger] d0.history().contains(f) && f.id == e.id;
            let j = h.index_of(f);
            assert(next[j] == f);
            lemma_one_per_identity(next, e, f);
        }
    }
}

} // verus!
