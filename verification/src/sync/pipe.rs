//! One shared text between a local frontend and a peer.
//!
//! The frontend sends and receives edits; the peers exchange frames of one tag
//! byte and a payload. A delta carries events to fold in. A sync carries the
//! sender's version vector and is answered with the events that the sender
//! lacks, which recovers whatever was lost.
use crate::bytes::push_bytes;
use crate::chars::{chars_of, same_text, string_of};
use crate::crdt::diff::{
    added, char_diff, diff_chars, in_common, is_script, is_shortest, new_start, old_start, removed,
    Step,
};
use crate::crdt::oplog::{
    after, agree, ids_at, is_version, reads_safely, sound, with_deleted, with_inserted, OpId,
};
use crate::crdt::text::{
    clamped, deletions, insertions, is_patch_of, is_version_vector, law_answers_are_taken,
    law_deltas_are_taken, law_edits_keep_replicas_paired, lemma_nothing_lacking,
    lemma_rewrite_spares, lemma_vector_is_held, lemma_vv_ids, lists_tips, merged_to, paired,
    rewrite, spares_what_is_shared, strokes_from, vv_ids, vv_list, wrote, EgWalkerText, Stroke,
    TextView,
};
use crate::sync::algo::text_crdt::{
    answers, is_vector_of, read_vv, vv_in, vv_json, was_offered, write_vv,
};
use vstd::prelude::*;
use vstd::slice::slice_subrange;

verus! {

/// An edit, as the frontend makes or sees it. Places are counted in characters
/// from the start of the text.
#[derive(Debug, Clone, PartialEq, Eq)]
pub enum EditOp {
    Snapshot { text: String },
    Insert { pos: usize, text: String },
    Delete { pos: usize, len: usize },
}

/// What an edit says.
pub enum EditView {
    Snapshot(Seq<char>),
    Insert(int, Seq<char>),
    Delete(int, int),
}

impl View for EditOp {
    type V = EditView;

    open spec fn view(&self) -> EditView {
        match self {
            EditOp::Snapshot { text } => EditView::Snapshot(text@),
            EditOp::Insert { pos, text } => EditView::Insert(*pos as int, text@),
            EditOp::Delete { pos, len } => EditView::Delete(*pos as int, *len as int),
        }
    }
}

/// What a list of edits says.
pub open spec fn edits(v: Seq<EditOp>) -> Seq<EditView> {
    v.map_values(|e: EditOp| e@)
}

/// A text after an edit. Places beyond the end count as the end.
pub open spec fn edited(text: Seq<char>, e: EditView) -> Seq<char> {
    let n = text.len() as int;
    match e {
        EditView::Snapshot(t) => t,
        EditView::Insert(pos, t) => with_inserted(text, clamped(pos, n), t),
        EditView::Delete(pos, len) => with_deleted(text, clamped(pos, n), clamped(pos + len, n)),
    }
}

/// A text after a list of edits, in order.
pub open spec fn edited_all(text: Seq<char>, es: Seq<EditView>) -> Seq<char>
    decreases es.len(),
{
    if es.len() == 0 {
        text
    } else {
        edited(edited_all(text, es.drop_last()), es.last())
    }
}

/// The edits of one step of a diff.
pub open spec fn step_edits(s: Step, new_text: Seq<char>) -> Seq<EditView> {
    if s.0 {
        Seq::empty()
    } else {
        (if s.1 < s.2 {
            seq![EditView::Delete(s.3 as int, s.2 - s.1)]
        } else {
            Seq::empty()
        }) + (if s.3 < s.4 {
            seq![EditView::Insert(s.3 as int, new_text.subrange(s.3 as int, s.4 as int))]
        } else {
            Seq::empty()
        })
    }
}

/// The edits of the first `k` steps of a diff.
pub open spec fn diff_edits(steps: Seq<Step>, new_text: Seq<char>, k: int) -> Seq<EditView>
    decreases k,
{
    if k <= 0 {
        Seq::empty()
    } else {
        diff_edits(steps, new_text, k - 1) + step_edits(steps[k - 1], new_text)
    }
}

/// The edits that lead from one text to another.
pub open spec fn edits_between(before: Seq<char>, after_text: Seq<char>) -> Seq<EditView> {
    if before == after_text {
        Seq::empty()
    } else {
        let steps = char_diff(before, after_text);
        diff_edits(steps, after_text, steps.len() as int)
    }
}

proof fn lemma_edited_concat(text: Seq<char>, a: Seq<EditView>, b: Seq<EditView>)
    ensures
        edited_all(text, a + b) == edited_all(edited_all(text, a), b),
    decreases b.len(),
{
    if b.len() == 0 {
        assert(a + b =~= a);
    } else {
        lemma_edited_concat(text, a, b.drop_last());
        assert((a + b).drop_last() =~= a + b.drop_last());
        assert((a + b).last() == b.last());
    }
}

proof fn lemma_step_edits(s: Step, o: Seq<char>, n: Seq<char>)
    requires
        s.1 <= s.2 <= o.len(),
        s.3 <= s.4 <= n.len(),
        s.0 ==> o.subrange(s.1 as int, s.2 as int) == n.subrange(s.3 as int, s.4 as int),
    ensures
        edited_all(n.take(s.3 as int) + o.skip(s.1 as int), step_edits(s, n)) == n.take(s.4 as int)
            + o.skip(s.2 as int),
{
    let os = s.1 as int;
    let oe = s.2 as int;
    let ns = s.3 as int;
    let ne = s.4 as int;
    let t0 = n.take(ns) + o.skip(os);
    let t1 = n.take(ns) + o.skip(oe);
    let t2 = n.take(ne) + o.skip(oe);
    if s.0 {
        assert(o.subrange(os, oe).len() == n.subrange(ns, ne).len());
        assert forall|i: int| 0 <= i < t0.len() implies t0[i] == t2[i] by {
            if ns <= i < ne {
                assert(o.subrange(os, oe)[i - ns] == n.subrange(ns, ne)[i - ns]);
            }
        }
        assert(t0 =~= t2);
    } else {
        let d = if os < oe {
            seq![EditView::Delete(ns, oe - os)]
        } else {
            Seq::empty()
        };
        let i = if ns < ne {
            seq![EditView::Insert(ns, n.subrange(ns, ne))]
        } else {
            Seq::empty()
        };
        lemma_edited_concat(t0, d, i);
        assert(edited_all(t0, d) == t1) by {
            if os < oe {
                assert(d.drop_last() =~= Seq::<EditView>::empty());
                assert(edited_all(t0, Seq::<EditView>::empty()) == t0);
                assert(with_deleted(t0, ns, ns + (oe - os)) =~= t1);
            } else {
                assert(t0 =~= t1);
            }
        }
        assert(edited_all(t1, i) == t2) by {
            if ns < ne {
                assert(i.drop_last() =~= Seq::<EditView>::empty());
                assert(edited_all(t1, Seq::<EditView>::empty()) == t1);
                assert(with_inserted(t1, ns, n.subrange(ns, ne)) =~= t2);
            } else {
                assert(t1 =~= t2);
            }
        }
    }
}

proof fn lemma_diff_edits(steps: Seq<Step>, o: Seq<char>, n: Seq<char>, k: int)
    requires
        is_script(steps, o, n),
        0 <= k <= steps.len(),
    ensures
        edited_all(o, diff_edits(steps, n, k)) == n.take(new_start(steps, k)) + o.skip(
            old_start(steps, k),
        ),
    decreases k,
{
    if k == 0 {
        assert(n.take(0) + o.skip(0) =~= o);
    } else {
        lemma_diff_edits(steps, o, n, k - 1);
        let s = steps[k - 1];
        lemma_step_edits(s, o, n);
        lemma_edited_concat(o, diff_edits(steps, n, k - 1), step_edits(s, n));
    }
}

/// The edits that lead from one text to another: made to `before` in order, they
/// give `after_text`.
pub fn diff_to_ops(before: &str, after_text: &str) -> (r: Vec<EditOp>)
    ensures
        edits(r@) == edits_between(before@, after_text@),
        edited_all(before@, edits(r@)) == after_text@,
        before@ == after_text@ ==> r@.len() == 0,
        before@ != after_text@ ==> edits_spare_what_is_shared(before@, after_text@, edits(r@)),
{
    let mut ops: Vec<EditOp> = Vec::new();
    assert(edits(ops@) =~= Seq::<EditView>::empty());
    if same_text(before, after_text) {
        return ops;
    }
    let o = chars_of(before);
    let n = chars_of(after_text);
    let steps = diff_chars(o.as_slice(), n.as_slice());
    let mut k: usize = 0;
    while k < steps.len()
        invariant
            k <= steps@.len(),
            is_script(steps@, o@, n@),
            is_shortest(steps@, o@, n@),
            edits(ops@) == diff_edits(steps@, n@, k as int),
        decreases steps@.len() - k,
    {
        let (equal, os, oe, ns, ne) = steps[k];
        let ghost s = steps@[k as int];
        let ghost was = edits(ops@);
        if !equal {
            if os < oe {
                ops.push(EditOp::Delete { pos: ns, len: oe - os });
            }
            let ghost mid = edits(ops@);
            assert(mid =~= was + (if os < oe {
                seq![EditView::Delete(ns as int, oe - os)]
            } else {
                Seq::empty()
            }));
            if ns < ne {
                let piece = slice_subrange(n.as_slice(), ns, ne);
                ops.push(EditOp::Insert { pos: ns, text: string_of(piece) });
            }
        }
        assert(edits(ops@) =~= was + step_edits(s, n@));
        k += 1;
    }
    proof {
        lemma_diff_edits(steps@, o@, n@, steps@.len() as int);
        law_edits_leave_alone_what_is_shared(o@, n@);
        assert(n@.take(n@.len() as int) + o@.skip(o@.len() as int) =~= n@);
    }
    ops
}

// ---------------------------------------------------------------------------
// The peer
// ---------------------------------------------------------------------------

/// The local replica of the text.
pub struct PipePeer {
    doc: EgWalkerText,
    last_sent: Vec<usize>,
}

/// What the replica holds.
pub struct PeerView {
    pub doc: TextView,
    pub last_sent: Seq<usize>,
}

impl View for PipePeer {
    type V = PeerView;

    closed spec fn view(&self) -> PeerView {
        PeerView { doc: self.doc@, last_sent: self.last_sent@ }
    }
}

/// A local edit leads from one document to the other.
pub open spec fn edits_doc(d0: TextView, e: EditView, d1: TextView) -> bool {
    &&& d1.text() == edited(d0.text(), e)
    &&& wrote(d0, edit_strokes(d0.text(), e), d1)
}

/// What an edit does, character by character.
pub open spec fn edit_strokes(text: Seq<char>, e: EditView) -> Seq<Stroke> {
    let n = text.len() as int;
    match e {
        EditView::Snapshot(t) => rewrite(text, t),
        EditView::Insert(pos, t) => insertions(clamped(pos, n), t),
        EditView::Delete(pos, len) => deletions(
            clamped(pos, n),
            clamped(pos + len, n) - clamped(pos, n),
        ),
    }
}

/// The bytes are the events since the last shipment, encoded.
pub open spec fn is_shipment(p: PeerView, r: Seq<u8>) -> bool {
    let base = ids_at(p.doc.events, p.last_sent);
    is_patch_of(p.doc, base, after(p.doc.history(), base), r)
}

impl PipePeer {
    /// The replica can write, and what was shipped is part of it.
    pub closed spec fn wf(&self) -> bool {
        &&& self.doc.wf()
        &&& is_version(self.doc@.events, self.last_sent@)
    }

    /// The events of the replica have different identities and come after their
    /// parents.
    pub proof fn lemma_sound(&self)
        requires
            self.wf(),
        ensures
            sound(self@.doc.events),
    {
        self.doc.lemma_sound();
    }

    /// An empty replica that writes under the given name. The name `ROOT` is
    /// taken.
    pub fn new(name: &str) -> (r: Self)
        requires
            name@ != "ROOT"@,
        ensures
            r.wf(),
            r@.doc == (TextView { agent: name@, doc: None, events: Seq::empty() }),
            r@.last_sent == Seq::<usize>::empty(),
    {
        let doc = EgWalkerText::new(name);
        let last_sent = doc.version();
        proof {
            if last_sent@.len() > 0 {
                assert(last_sent@[0] < doc@.events.len());
            }
            assert(last_sent@ =~= Seq::<usize>::empty());
        }
        PipePeer { doc, last_sent }
    }

    /// Makes a local edit.
    pub fn apply_local(&mut self, op: &EditOp)
        requires
            old(self).wf(),
        ensures
            final(self).wf(),
            final(self)@.last_sent == old(self)@.last_sent,
            edits_doc(old(self)@.doc, op@, final(self)@.doc),
    {
        let ghost h = self.doc@.events;
        match op {
            EditOp::Snapshot { text } => self.doc.edit_to(text.as_str()),
            EditOp::Insert { pos, text } => self.doc.insert_at(*pos, text.as_str()),
            EditOp::Delete { pos, len } => self.doc.delete_at(*pos, *len),
        }
        proof {
            self.doc.lemma_version_stays(h, self.last_sent@);
        }
    }

    /// The current text.
    pub fn content(&self) -> (r: String)
        requires
            self.wf(),
        ensures
            r@ == self@.doc.text(),
    {
        self.doc.content()
    }

    /// The places of the events that are nobody's parent.
    pub fn version(&self) -> (r: Vec<usize>)
        requires
            self.wf(),
        ensures
            lists_tips(self@.doc.events, r@),
    {
        self.doc.version()
    }

    /// The events since the last shipment, encoded. They count as shipped.
    pub fn encode_since_sent(&mut self) -> (r: Vec<u8>)
        requires
            old(self).wf(),
        ensures
            final(self).wf(),
            is_shipment(old(self)@, r@),
            final(self)@.doc == old(self)@.doc,
            lists_tips(final(self)@.doc.events, final(self)@.last_sent),
    {
        let delta = self.doc.encode_delta(self.last_sent.as_slice());
        self.last_sent = self.doc.version();
        delta
    }

    /// Folds in a delta, where it can be taken, and returns the edits that bring
    /// the frontend up to the new text. What came from the peer is not shipped
    /// back to it.
    pub fn merge_remote(&mut self, bytes: &[u8]) -> (r: Vec<EditOp>)
        requires
            old(self).wf(),
            reads_safely(bytes@, old(self)@.doc.history()),
        ensures
            final(self).wf(),
            was_offered(old(self)@.doc, bytes@, final(self)@.doc),
            lists_tips(final(self)@.doc.events, final(self)@.last_sent),
            edits(r@) == edits_between(old(self)@.doc.text(), final(self)@.doc.text()),
            edited_all(old(self)@.doc.text(), edits(r@)) == final(self)@.doc.text(),
    {
        let before = self.doc.content();
        let taken = self.doc.merge(bytes);
        self.last_sent = self.doc.version();
        proof {
            assert(merged_to(old(self)@.doc, bytes@, taken, self@.doc));
        }
        let now = self.doc.content();
        diff_to_ops(before.as_str(), now.as_str())
    }

    /// The version vector.
    pub fn version_vector_pairs(&self) -> (r: Vec<(String, usize)>)
        ensures
            is_version_vector(self@.doc.events, vv_list(r@)),
    {
        self.doc.version_vector()
    }

    /// The version vector, encoded.
    pub fn version_json(&self) -> (r: Vec<u8>)
        ensures
            is_vector_of(self@.doc, r@),
    {
        let vv = self.doc.version_vector();
        assert(is_version_vector(self@.doc.events, vv_list(vv@)));
        write_vv(&vv)
    }

    /// The events that the owner of a version vector lacks, encoded; none where
    /// it lacks none.
    pub fn ops_since(&self, theirs: &[(String, usize)]) -> (r: Option<Vec<u8>>)
        requires
            self.wf(),
        ensures
            answers(self@.doc, vv_ids(theirs@), r),
    {
        self.doc.ops_since(theirs)
    }
}

// ---------------------------------------------------------------------------
// The session
// ---------------------------------------------------------------------------

/// The payload holds events to fold in.
pub const TAG_DELTA: u8 = 0;

/// The payload is the sender's version vector.
pub const TAG_SYNC: u8 = 1;

/// The bytes of a frame.
pub open spec fn frame_bytes(tag: u8, payload: Seq<u8>) -> Seq<u8> {
    seq![tag] + payload
}

/// A frame.
pub fn frame(tag: u8, payload: &[u8]) -> (r: Vec<u8>)
    ensures
        r@ == frame_bytes(tag, payload@),
{
    let mut out: Vec<u8> = Vec::new();
    out.push(tag);
    push_bytes(&mut out, payload);
    assert(out@ =~= frame_bytes(tag, payload@));
    out
}

/// Why a session ended.
#[derive(Debug, Clone, Copy, PartialEq, Eq, Structural)]
pub enum SessionOutcome {
    /// The link is gone: connect again and go on with the same document.
    LinkClosed,
    /// The frontend is gone: stop.
    StdinClosed,
}

/// What happens to a session.
pub enum PipeEvent {
    /// The link has come up.
    Connected,
    /// The frontend made an edit.
    Edit(EditOp),
    /// The frontend is gone.
    EditsClosed,
    /// The peer sent a frame.
    Frame(Vec<u8>),
    /// The link is gone.
    LinkClosed,
    /// Edits have settled.
    Settled,
    /// It is time to compare notes.
    Heartbeat,
}

/// What happens to the timer that waits for edits to settle.
#[derive(Debug, Clone, Copy, PartialEq, Eq, Structural)]
pub enum Timer {
    Keep,
    /// Start it anew.
    Arm,
    /// Stop it.
    Disarm,
}

/// What a session does next.
pub struct PipeStep {
    /// The frame to send.
    pub send: Option<Vec<u8>>,
    /// The edits for the frontend.
    pub emit: Vec<EditOp>,
    pub timer: Timer,
    /// Set where the session ends.
    pub outcome: Option<SessionOutcome>,
}

/// The frame carries the version vector.
pub open spec fn is_sync(d: TextView, f: Option<Vec<u8>>) -> bool {
    f matches Some(b) && exists|p: Seq<u8>| #[trigger]
        is_vector_of(d, p) && b@ == frame_bytes(TAG_SYNC, p)
}

/// Whether a session may do this on an event.
pub open spec fn steps(p0: PeerView, e: PipeEvent, p1: PeerView, s: PipeStep) -> bool {
    match e {
        PipeEvent::Connected | PipeEvent::Heartbeat => {
            &&& p1 == p0
            &&& is_sync(p0.doc, s.send)
            &&& s.emit@.len() == 0
            &&& s.timer == Timer::Keep
            &&& s.outcome is None
        },
        PipeEvent::Settled => {
            &&& p1 == p0
            &&& is_sync(p0.doc, s.send)
            &&& s.emit@.len() == 0
            &&& s.timer == Timer::Disarm
            &&& s.outcome is None
        },
        PipeEvent::EditsClosed => {
            &&& p1 == p0
            &&& s.send is None
            &&& s.emit@.len() == 0
            &&& s.timer == Timer::Keep
            &&& s.outcome == Some(SessionOutcome::StdinClosed)
        },
        PipeEvent::LinkClosed => {
            &&& p1 == p0
            &&& s.send is None
            &&& s.emit@.len() == 0
            &&& s.timer == Timer::Keep
            &&& s.outcome == Some(SessionOutcome::LinkClosed)
        },
        PipeEvent::Edit(op) => {
            &&& edits_doc(p0.doc, op@, p1.doc)
            &&& s.emit@.len() == 0
            &&& s.outcome is None
            &&& if p1.doc.text() == p0.doc.text() {
                p1.last_sent == p0.last_sent && s.send is None && s.timer == Timer::Keep
            } else {
                &&& lists_tips(p1.doc.events, p1.last_sent)
                &&& s.timer == Timer::Arm
                &&& ships(PeerView { doc: p1.doc, last_sent: p0.last_sent }, s.send)
            }
        },
        PipeEvent::Frame(b) => frame_steps(p0, b@, p1, s),
    }
}

/// The frame ships the events since the last shipment.
pub open spec fn ships(p: PeerView, f: Option<Vec<u8>>) -> bool {
    f matches Some(b) && exists|d: Seq<u8>| #[trigger]
        is_shipment(p, d) && b@ == frame_bytes(TAG_DELTA, d)
}

/// The frame answers a version vector.
pub open spec fn is_reply(d: TextView, theirs: Set<OpId>, f: Option<Vec<u8>>) -> bool {
    exists|a: Option<Vec<u8>>| #[trigger]
        answers(d, theirs, a) && match a {
            Some(x) => f matches Some(b) && b@ == frame_bytes(TAG_DELTA, x@),
            None => f is None,
        }
}

/// Whether a session may do this on a frame.
pub open spec fn frame_steps(p0: PeerView, b: Seq<u8>, p1: PeerView, s: PipeStep) -> bool {
    &&& s.outcome is None
    &&& if b.len() > 0 && b[0] == TAG_DELTA {
        &&& was_offered(p0.doc, b.skip(1), p1.doc)
        &&& lists_tips(p1.doc.events, p1.last_sent)
        &&& edits(s.emit@) == edits_between(p0.doc.text(), p1.doc.text())
        &&& edited_all(p0.doc.text(), edits(s.emit@)) == p1.doc.text()
        &&& s.send is None
        &&& s.timer == Timer::Arm
    } else {
        &&& p1 == p0
        &&& s.emit@.len() == 0
        &&& s.timer == Timer::Keep
        &&& if b.len() > 0 && b[0] == TAG_SYNC {
            match vv_in(b.skip(1)) {
                Some(vv) => is_reply(p0.doc, vv.to_set(), s.send),
                None => s.send is None,
            }
        } else {
            s.send is None
        }
    }
}

/// Whether a replica gets through a frame: a delta is one that its engine can read.
pub open spec fn can_take(p: PeerView, b: Seq<u8>) -> bool {
    b.len() > 0 && b[0] == TAG_DELTA ==> reads_safely(b.skip(1), p.doc.history())
}

/// What a session does on an event.
pub fn step(peer: &mut PipePeer, event: PipeEvent) -> (r: PipeStep)
    requires
        old(peer).wf(),
        event matches PipeEvent::Frame(b) ==> can_take(old(peer)@, b@),
    ensures
        final(peer).wf(),
        steps(old(peer)@, event, final(peer)@, r),
{
    let none: Vec<EditOp> = Vec::new();
    match event {
        PipeEvent::Connected | PipeEvent::Heartbeat => {
            let v = peer.version_json();
            assert(is_vector_of(peer@.doc, v@));
            let f = frame(TAG_SYNC, v.as_slice());
            PipeStep { send: Some(f), emit: none, timer: Timer::Keep, outcome: None }
        },
        PipeEvent::Settled => {
            let v = peer.version_json();
            assert(is_vector_of(peer@.doc, v@));
            let f = frame(TAG_SYNC, v.as_slice());
            PipeStep { send: Some(f), emit: none, timer: Timer::Disarm, outcome: None }
        },
        PipeEvent::EditsClosed => PipeStep {
            send: None,
            emit: none,
            timer: Timer::Keep,
            outcome: Some(SessionOutcome::StdinClosed),
        },
        PipeEvent::LinkClosed => PipeStep {
            send: None,
            emit: none,
            timer: Timer::Keep,
            outcome: Some(SessionOutcome::LinkClosed),
        },
        PipeEvent::Edit(op) => {
            let before = peer.content();
            peer.apply_local(&op);
            let now = peer.content();
            if same_text(before.as_str(), now.as_str()) {
                return PipeStep { send: None, emit: none, timer: Timer::Keep, outcome: None };
            }
            let ghost mid = peer@;
            let d = peer.encode_since_sent();
            assert(is_shipment(mid, d@));
            let f = frame(TAG_DELTA, d.as_slice());
            PipeStep { send: Some(f), emit: none, timer: Timer::Arm, outcome: None }
        },
        PipeEvent::Frame(b) => on_frame(peer, b.as_slice()),
    }
}

fn on_frame(peer: &mut PipePeer, b: &[u8]) -> (r: PipeStep)
    requires
        old(peer).wf(),
        can_take(old(peer)@, b@),
    ensures
        final(peer).wf(),
        frame_steps(old(peer)@, b@, final(peer)@, r),
{
    let none: Vec<EditOp> = Vec::new();
    if b.len() == 0 {
        return PipeStep { send: None, emit: none, timer: Timer::Keep, outcome: None };
    }
    let payload = slice_subrange(b, 1, b.len());
    assert(payload@ =~= b@.skip(1));
    if b[0] == TAG_DELTA {
        let emit = peer.merge_remote(payload);
        return PipeStep { send: None, emit, timer: Timer::Arm, outcome: None };
    }
    let mut send: Option<Vec<u8>> = None;
    if b[0] == TAG_SYNC {
        if let Some(theirs) = read_vv(payload) {
            proof {
                lemma_vv_ids(theirs@);
            }
            let a = peer.ops_since(theirs.as_slice());
            assert(answers(peer@.doc, vv_ids(theirs@), a));
            if let Some(x) = &a {
                send = Some(frame(TAG_DELTA, x.as_slice()));
            }
            assert(is_reply(peer@.doc, vv_ids(theirs@), send));
        }
    }
    PipeStep { send, emit: none, timer: Timer::Keep, outcome: None }
}

/// The frontend's buffer follows the document: where it showed the text before a
/// frame came, it shows the text after the edits that the frame gave.
pub proof fn law_frontend_follows(p0: PeerView, b: Seq<u8>, p1: PeerView, s: PipeStep)
    requires
        frame_steps(p0, b, p1, s),
    ensures
        edited_all(p0.doc.text(), edits(s.emit@)) == p1.doc.text(),
{
    if !(b.len() > 0 && b[0] == TAG_DELTA) {
        assert(edits(s.emit@) =~= Seq::<EditView>::empty());
    }
}

/// A replica gets through the shipments of another, where no identity stands for
/// two events.
pub proof fn law_shipments_can_be_read(a: PeerView, d: Seq<u8>, b: PeerView)
    requires
        is_shipment(a, d),
        agree(a.doc.history(), b.doc.history()),
    ensures
        can_take(b, frame_bytes(TAG_DELTA, d)),
{
    assert(frame_bytes(TAG_DELTA, d).skip(1) =~= d);
}

/// A replica takes what a paired one ships, where it holds what that one had when it
/// last shipped, and then has the events of both. The replicas stay paired.
pub proof fn law_shipments_are_taken(
    before: TextView,
    a: PeerView,
    d: Seq<u8>,
    b: PeerView,
    b1: PeerView,
)
    requires
        paired(a.doc, b.doc),
        before.events.is_prefix_of(a.doc.events),
        lists_tips(before.events, a.last_sent),
        before.history().subset_of(b.doc.history()),
        is_shipment(a, d),
        was_offered(b.doc, d, b1.doc),
    ensures
        b1.doc.history() == a.doc.history().union(b.doc.history()),
        paired(a.doc, b1.doc),
{
    let taken = choose|taken: bool| #[trigger] merged_to(b.doc, d, taken, b1.doc);
    law_deltas_are_taken(before, a.last_sent, a.doc, d, b.doc, taken, b1.doc);
}

/// How many characters edits delete.
pub open spec fn chars_deleted(es: Seq<EditView>) -> int
    decreases es.len(),
{
    if es.len() == 0 {
        0
    } else {
        chars_deleted(es.drop_last()) + match es.last() {
            EditView::Delete(pos, len) => len,
            _ => 0,
        }
    }
}

/// How many characters edits insert.
pub open spec fn chars_inserted(es: Seq<EditView>) -> int
    decreases es.len(),
{
    if es.len() == 0 {
        0
    } else {
        chars_inserted(es.drop_last()) + match es.last() {
            EditView::Insert(pos, t) => t.len() as int,
            _ => 0,
        }
    }
}

/// Edits that lead from one text to another move what the two have in common no more than
/// they must, and none of them replaces the text as a whole.
pub open spec fn edits_spare_what_is_shared(
    before: Seq<char>,
    after_text: Seq<char>,
    es: Seq<EditView>,
) -> bool {
    &&& forall|i: int| 0 <= i < es.len() ==> !((#[trigger] es[i]) is Snapshot)
    &&& forall|at_old: Seq<int>, at_new: Seq<int>| #[trigger]
        in_common(before, after_text, at_old, at_new) ==> {
            &&& chars_deleted(es) + at_old.len() <= before.len()
            &&& chars_inserted(es) + at_old.len() <= after_text.len()
        }
}

proof fn lemma_counts_concat(a: Seq<EditView>, b: Seq<EditView>)
    ensures
        chars_deleted(a + b) == chars_deleted(a) + chars_deleted(b),
        chars_inserted(a + b) == chars_inserted(a) + chars_inserted(b),
    decreases b.len(),
{
    if b.len() == 0 {
        assert(a + b =~= a);
    } else {
        lemma_counts_concat(a, b.drop_last());
        assert((a + b).drop_last() =~= a + b.drop_last());
        assert((a + b).last() == b.last());
    }
}

proof fn lemma_counts_one(e: EditView)
    ensures
        chars_deleted(seq![e]) == (match e {
            EditView::Delete(pos, len) => len,
            _ => 0,
        }),
        chars_inserted(seq![e]) == (match e {
            EditView::Insert(pos, t) => t.len() as int,
            _ => 0,
        }),
{
    assert(seq![e].drop_last() =~= Seq::<EditView>::empty());
    assert(chars_deleted(Seq::<EditView>::empty()) == 0);
    assert(chars_inserted(Seq::<EditView>::empty()) == 0);
}

proof fn lemma_counts_of_diff(steps: Seq<Step>, o: Seq<char>, n: Seq<char>, k: int)
    requires
        is_script(steps, o, n),
        0 <= k <= steps.len(),
    ensures
        chars_deleted(diff_edits(steps, n, k)) == removed(steps, k),
        chars_inserted(diff_edits(steps, n, k)) == added(steps, k),
        forall|i: int|
            0 <= i < diff_edits(steps, n, k).len() ==> !((#[trigger] diff_edits(
                steps,
                n,
                k,
            )[i]) is Snapshot),
    decreases k,
{
    if k > 0 {
        lemma_counts_of_diff(steps, o, n, k - 1);
        let s = steps[k - 1];
        let front = diff_edits(steps, n, k - 1);
        let back = step_edits(s, n);
        lemma_counts_concat(front, back);
        let none = Seq::<EditView>::empty();
        assert(chars_deleted(none) == 0 && chars_inserted(none) == 0);
        if !s.0 {
            let d = if s.1 < s.2 {
                seq![EditView::Delete(s.3 as int, s.2 - s.1)]
            } else {
                none
            };
            let i = if s.3 < s.4 {
                seq![EditView::Insert(s.3 as int, n.subrange(s.3 as int, s.4 as int))]
            } else {
                none
            };
            lemma_counts_concat(d, i);
            lemma_counts_one(EditView::Delete(s.3 as int, s.2 - s.1));
            lemma_counts_one(EditView::Insert(s.3 as int, n.subrange(s.3 as int, s.4 as int)));
        }
        assert forall|i: int| 0 <= i < (front + back).len() implies !((#[trigger] (front
            + back)[i]) is Snapshot) by {
            if i < front.len() {
                assert((front + back)[i] == front[i]);
            } else {
                assert((front + back)[i] == back[i - front.len()]);
            }
        }
    }
}

/// The edits between two texts move what they share no more than they must.
pub proof fn law_edits_leave_alone_what_is_shared(before: Seq<char>, after_text: Seq<char>)
    requires
        is_script(char_diff(before, after_text), before, after_text),
        is_shortest(char_diff(before, after_text), before, after_text),
    ensures
        before != after_text ==> edits_spare_what_is_shared(
            before,
            after_text,
            edits_between(before, after_text),
        ),
        before == after_text ==> edits_between(before, after_text).len() == 0,
{
    let steps = char_diff(before, after_text);
    lemma_counts_of_diff(steps, before, after_text, steps.len() as int);
}

/// What an edit does to a text: an insertion puts its text in at its place, or at the end
/// where the place lies beyond it, a deletion takes out what stands at its place, as far
/// as there is any, and a snapshot replaces the text.
pub proof fn law_edits_do_what_they_say(a: Seq<char>, x: Seq<char>, b: Seq<char>, far: int)
    requires
        far >= 0,
    ensures
        edited(a + b, EditView::Insert(a.len() as int, x)) == a + x + b,
        edited(a, EditView::Insert(a.len() + far, x)) == a + x,
        edited(a + x + b, EditView::Delete(a.len() as int, x.len() as int)) == a + b,
        edited(a + x, EditView::Delete(a.len() as int, x.len() + far)) == a,
        edited(a, EditView::Delete(a.len() + far, x.len() as int)) == a,
        edited(a, EditView::Snapshot(x)) == x,
{
    assert(edited(a + b, EditView::Insert(a.len() as int, x)) =~= a + x + b);
    assert(edited(a, EditView::Insert(a.len() + far, x)) =~= a + x);
    assert(edited(a + x + b, EditView::Delete(a.len() as int, x.len() as int)) =~= a + b);
    assert(edited(a + x, EditView::Delete(a.len() as int, x.len() + far)) =~= a);
    assert(edited(a, EditView::Delete(a.len() + far, x.len() as int)) =~= a);
}

/// An edit in one frontend shows in the other: of two paired replicas that are level one
/// gets an edit and sends a frame, and the other, once it has taken the frame in, has the
/// same text and hands its frontend edits that lead there.
pub proof fn law_edits_show_in_the_other_frontend(
    a0: PeerView,
    op: EditOp,
    a1: PeerView,
    s: PipeStep,
    b0: PeerView,
    b1: PeerView,
    t: PipeStep,
    frame: Vec<u8>,
)
    requires
        paired(a0.doc, b0.doc),
        a0.doc.history() == b0.doc.history(),
        lists_tips(a0.doc.events, a0.last_sent),
        sound(a1.doc.events),
        steps(a0, PipeEvent::Edit(op), a1, s),
        a1.doc.text() != a0.doc.text(),
        s.send matches Some(f) ==> f == frame,
        steps(b0, PipeEvent::Frame(frame), b1, t),
    ensures
        s.send is Some,
        a1.doc.text() == edited(a0.doc.text(), op@),
        b1.doc.text() == a1.doc.text(),
        edited_all(b0.doc.text(), edits(t.emit@)) == a1.doc.text(),
        paired(a1.doc, b1.doc),
        lists_tips(a1.doc.events, a1.last_sent),
{
    let mid = PeerView { doc: a1.doc, last_sent: a0.last_sent };
    let d = choose|d: Seq<u8>| #[trigger]
        is_shipment(mid, d) && frame@ == frame_bytes(TAG_DELTA, d);
    law_edits_keep_replicas_paired(a0.doc, edit_strokes(a0.doc.text(), op@), a1.doc, b0.doc);
    assert(frame@.skip(1) =~= d);
    assert(frame@[0] == TAG_DELTA);
    law_shipments_are_taken(a0.doc, mid, d, b0, b1);
    assert(b1.doc.history() =~= a1.doc.history());
}

/// Comparing notes brings a side up to date: it sends what it holds, is answered with what
/// it lacks, if it lacks anything, and then has the events of both, and its frontend the
/// text.
pub proof fn law_comparing_notes_brings_up_to_date(
    a: PeerView,
    e: PipeEvent,
    a1: PeerView,
    s: PipeStep,
    b: PeerView,
    b1: PeerView,
    t: PipeStep,
    a2: PeerView,
    u: PipeStep,
    note: Vec<u8>,
    answer: Vec<u8>,
)
    requires
        paired(b.doc, a.doc),
        e is Connected || e is Heartbeat || e is Settled,
        steps(a, e, a1, s),
        s.send matches Some(f) ==> f == note,
        steps(b, PipeEvent::Frame(note), b1, t),
        t.send matches Some(f) ==> f == answer,
        if t.send is Some {
            steps(a1, PipeEvent::Frame(answer), a2, u)
        } else {
            a2 == a1 && u.emit@.len() == 0
        },
    ensures
        s.send is Some,
        b1 == b,
        a2.doc.history() == a.doc.history().union(b.doc.history()),
        edited_all(a.doc.text(), edits(u.emit@)) == a2.doc.text(),
{
    let p = choose|p: Seq<u8>| #[trigger]
        is_vector_of(a.doc, p) && note@ == frame_bytes(TAG_SYNC, p);
    assert(note@.skip(1) =~= p);
    assert(note@[0] == TAG_SYNC);
    let vv = choose|vv: Seq<OpId>| #[trigger]
        is_version_vector(a.doc.events, vv) && p == vv_json(vv) && vv_in(p) == Some(vv);
    lemma_vector_is_held(a.doc.events, vv);
    let r = choose|r: Option<Vec<u8>>| #[trigger]
        answers(b.doc, vv.to_set(), r) && match r {
            Some(x) => t.send matches Some(f) && f@ == frame_bytes(TAG_DELTA, x@),
            None => t.send is None,
        };
    match r {
        Some(x) => {
            assert(answer@.skip(1) =~= x@);
            assert(answer@[0] == TAG_DELTA);
            let taken = choose|taken: bool| #[trigger] merged_to(a1.doc, x@, taken, a2.doc);
            law_answers_are_taken(b.doc, vv.to_set(), x@, a1.doc, taken, a2.doc);
            assert(a2.doc.history() =~= a.doc.history().union(b.doc.history()));
        },
        None => {
            lemma_nothing_lacking(b.doc, a.doc, vv.to_set());
            assert(a2.doc.history() =~= a.doc.history().union(b.doc.history()));
            assert(edits(u.emit@) =~= Seq::<EditView>::empty());
        },
    }
}

/// A session ends where its frontend or its link is gone, and says which; nothing else
/// ends it.
pub proof fn law_sessions_end_when_a_side_is_gone(
    p0: PeerView,
    e: PipeEvent,
    p1: PeerView,
    s: PipeStep,
)
    requires
        steps(p0, e, p1, s),
    ensures
        s.outcome == Some(SessionOutcome::StdinClosed) <==> e is EditsClosed,
        s.outcome == Some(SessionOutcome::LinkClosed) <==> e is LinkClosed,
        e is Settled <==> s.timer == Timer::Disarm,
        s.timer == Timer::Arm ==> e is Edit || e is Frame,
        s.emit@.len() > 0 ==> e is Frame,
{
}

/// An edit that changes the text is sent at once, and starts the wait for edits to settle;
/// so does a delta that comes in. One that changes nothing does neither.
pub proof fn law_edits_are_sent_at_once(p0: PeerView, op: EditOp, p1: PeerView, s: PipeStep)
    requires
        steps(p0, PipeEvent::Edit(op), p1, s),
    ensures
        edited(p0.doc.text(), op@) != p0.doc.text() ==> s.send is Some && s.timer == Timer::Arm,
        edited(p0.doc.text(), op@) == p0.doc.text() ==> s.send is None && s.timer == Timer::Keep,
{
}

/// A delta starts the wait for edits to settle, and a note is answered at most.
pub proof fn law_frames_are_told_apart(p0: PeerView, b: Vec<u8>, p1: PeerView, s: PipeStep)
    requires
        steps(p0, PipeEvent::Frame(b), p1, s),
    ensures
        b@.len() > 0 && b@[0] == 0 ==> s.send is None && s.timer == Timer::Arm,
        b@.len() == 0 || b@[0] != 0 ==> p1 == p0 && s.emit@.len() == 0 && s.timer == Timer::Keep,
        b@.len() == 0 || b@[0] > 1 ==> s.send is None,
{
}

/// An edit of the frontend touches what it names alone: an insertion deletes nothing, a
/// deletion inserts nothing, and a snapshot does no more than it must to get from the old
/// text to the new one.
pub proof fn law_frontend_edits_spare_what_is_shared(d0: TextView, e: EditView, d1: TextView)
    requires
        edits_doc(d0, e, d1),
        e matches EditView::Snapshot(t) ==> is_script(char_diff(d0.text(), t), d0.text(), t)
            && is_shortest(char_diff(d0.text(), t), d0.text(), t),
    ensures
        e matches EditView::Snapshot(t) ==> spares_what_is_shared(
            d0.text(),
            t,
            strokes_from(d1.events, d0.events.len() as int),
        ),
        e is Insert ==> forall|i: int|
            d0.events.len() <= i < d1.events.len() ==> (#[trigger] d1.events[i]).inserted is Some,
        e is Delete ==> forall|i: int|
            d0.events.len() <= i < d1.events.len() ==> (#[trigger] d1.events[i]).inserted is None,
        e matches EditView::Insert(pos, t) ==> d1.events.len() == d0.events.len() + t.len(),
{
    let n = d0.events.len() as int;
    let strokes = strokes_from(d1.events, n);
    match e {
        EditView::Snapshot(t) => {
            lemma_rewrite_spares(d0.text(), t);
        },
        EditView::Insert(pos, t) => {
            let want = insertions(clamped(pos, d0.text().len() as int), t);
            assert(strokes == want);
            assert forall|i: int| n <= i < d1.events.len() implies (
            #[trigger] d1.events[i]).inserted is Some by {
                assert(strokes[i - n] == (d1.events[i].pos, d1.events[i].inserted));
                assert(want[i - n].1 is Some);
            }
        },
        EditView::Delete(pos, len) => {
            let k = clamped(pos, d0.text().len() as int);
            let want = deletions(k, clamped(pos + len, d0.text().len() as int) - k);
            assert(strokes == want);
            assert forall|i: int| n <= i < d1.events.len() implies (
            #[trigger] d1.events[i]).inserted is None by {
                assert(strokes[i - n] == (d1.events[i].pos, d1.events[i].inserted));
                assert(want[i - n].1 is None);
            }
        },
    }
}

} // verus!
