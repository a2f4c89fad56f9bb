//! A text file kept in step with a peer in rounds: each side ships what it
//! added, folds in what came, and shows the result.
use crate::chars::{copy_text, same_text};
use crate::crdt::oplog::{after, ids_at, is_version, reads_safely, sound};
use crate::crdt::text::{
    is_patch_of, law_concurrent_edits_converge, lists_tips, merged_to, rewrite,
    spares_what_is_shared, strokes_from, wrote, EgWalkerText, Stroke, TextView,
};
use crate::sync::algo::text_crdt::was_offered;
use vstd::prelude::*;

verus! {

/// One side of a mirrored text.
pub struct TextPeer {
    doc: EgWalkerText,
    /// What has been shipped.
    last_sent: Vec<usize>,
    /// What was last read from or shown in the file.
    last_known: String,
}

/// What one side holds.
pub struct MirrorView {
    pub doc: TextView,
    pub last_sent: Seq<usize>,
    pub last_known: Seq<char>,
}

impl View for TextPeer {
    type V = MirrorView;

    closed spec fn view(&self) -> MirrorView {
        MirrorView { doc: self.doc@, last_sent: self.last_sent@, last_known: self.last_known@ }
    }
}

impl TextPeer {
    /// The replica can write, and what was shipped is part of it.
    pub closed spec fn wf(&self) -> bool {
        &&& self.doc.wf()
        &&& is_version(self.doc@.events, self.last_sent@)
    }

    /// The events of the replica have different identities and come after their
    /// parents.
    pub proof fn lemma_sound(&self)
        requires
            self.wf(),
        ensures
            sound(self@.doc.events),
    {
        self.doc.lemma_sound();
    }

    /// An empty text, written under the given name. The name `ROOT` is taken.
    pub fn new(name: &str) -> (r: Self)
        requires
            name@ != "ROOT"@,
        ensures
            r.wf(),
            r@.doc == (TextView { agent: name@, doc: None, events: Seq::empty() }),
            r@.last_sent == Seq::<usize>::empty(),
            r@.last_known == Seq::<char>::empty(),
    {
        let doc = EgWalkerText::new(name);
        let last_sent = doc.version();
        proof {
            if last_sent@.len() > 0 {
                assert(last_sent@[0] < doc@.events.len());
            }
            assert(last_sent@ =~= Seq::<usize>::empty());
        }
        let r = TextPeer { doc, last_sent, last_known: String::new() };
        assert(r@.last_known =~= Seq::<char>::empty());
        r
    }

    /// Takes in what the file holds, as edits. What the file was last known to
    /// hold is no edit.
    pub fn observe_local(&mut self, snapshot: &str)
        requires
            old(self).wf(),
        ensures
            final(self).wf(),
            final(self)@.last_sent == old(self)@.last_sent,
            final(self)@.last_known == snapshot@,
            snapshot@ != old(self)@.last_known ==> final(self)@.doc.text() == snapshot@ && wrote(
                old(self)@.doc,
                rewrite(old(self)@.doc.text(), snapshot@),
                final(self)@.doc,
            ) && spares_what_is_shared(
                old(self)@.doc.text(),
                snapshot@,
                strokes_from(final(self)@.doc.events, old(self)@.doc.events.len() as int),
            ),
            snapshot@ == old(self)@.last_known ==> final(self)@ == old(self)@,
    {
        if !same_text(snapshot, self.last_known.as_str()) {
            let ghost h = self.doc@.events;
            self.doc.edit_to(snapshot);
            proof {
                self.doc.lemma_version_stays(h, self.last_sent@);
            }
            self.last_known = copy_text(snapshot);
        }
    }

    /// The text to show in the file, if it differs from what the file is known to
    /// hold.
    pub fn view_text(&mut self) -> (r: Option<String>)
        requires
            old(self).wf(),
        ensures
            final(self).wf(),
            final(self)@ == (MirrorView { last_known: old(self)@.doc.text(), ..old(self)@ }),
            match r {
                Some(t) => t@ == old(self)@.doc.text() && t@ != old(self)@.last_known,
                None => old(self)@.doc.text() == old(self)@.last_known,
            },
    {
        let content = self.doc.content();
        if same_text(content.as_str(), self.last_known.as_str()) {
            None
        } else {
            self.last_known = copy_text(content.as_str());
            Some(content)
        }
    }

    /// The current text.
    pub fn content(&self) -> (r: String)
        requires
            self.wf(),
        ensures
            r@ == self@.doc.text(),
    {
        self.doc.content()
    }

    /// The first half of a round: takes in what the file holds, and returns what
    /// to ship. Local edits come first, so that they are taken against the text
    /// that they were made on.
    pub fn begin_round(&mut self, local_snapshot: &str) -> (r: Vec<u8>)
        requires
            old(self).wf(),
        ensures
            final(self).wf(),
            final(self)@.last_sent == old(self)@.last_sent,
            final(self)@.last_known == local_snapshot@,
            local_snapshot@ != old(self)@.last_known ==> final(self)@.doc.text()
                == local_snapshot@ && wrote(
                old(self)@.doc,
                rewrite(old(self)@.doc.text(), local_snapshot@),
                final(self)@.doc,
            ) && spares_what_is_shared(
                old(self)@.doc.text(),
                local_snapshot@,
                strokes_from(final(self)@.doc.events, old(self)@.doc.events.len() as int),
            ),
            local_snapshot@ == old(self)@.last_known ==> final(self)@ == old(self)@,
            ({
                let base = ids_at(final(self)@.doc.events, old(self)@.last_sent);
                is_patch_of(
                    final(self)@.doc,
                    base,
                    after(final(self)@.doc.history(), base),
                    r@,
                )
            }),
    {
        self.observe_local(local_snapshot);
        self.doc.encode_delta(self.last_sent.as_slice())
    }

    /// The second half of a round: folds in what came, if anything did, and
    /// returns the text to show in the file where it changed.
    pub fn end_round(&mut self, incoming: Option<&[u8]>) -> (r: Option<String>)
        requires
            old(self).wf(),
            incoming matches Some(b) ==> reads_safely(b@, old(self)@.doc.history()),
        ensures
            final(self).wf(),
            match incoming {
                Some(b) => was_offered(old(self)@.doc, b@, final(self)@.doc),
                None => final(self)@.doc == old(self)@.doc,
            },
            lists_tips(final(self)@.doc.events, final(self)@.last_sent),
            final(self)@.last_known == final(self)@.doc.text(),
            match r {
                Some(t) => t@ == final(self)@.doc.text() && t@ != old(self)@.last_known,
                None => final(self)@.doc.text() == old(self)@.last_known,
            },
    {
        let ghost d0 = self@.doc;
        if let Some(b) = incoming {
            let taken = self.doc.merge(b);
            assert(merged_to(d0, b@, taken, self@.doc));
            assert(was_offered(d0, b@, self@.doc));
        }
        self.last_sent = self.doc.version();
        self.view_text()
    }
}

/// A round brings two mirrored files together: each side takes in what its file holds,
/// sends what it wrote since the last round and takes in what the other sent. Both then
/// show the same text, with the edits of both.
pub proof fn law_rounds_bring_files_together(
    a0: MirrorView,
    b0: MirrorView,
    a1: MirrorView,
    b1: MirrorView,
    sa: Seq<Stroke>,
    sb: Seq<Stroke>,
    da: Seq<u8>,
    db: Seq<u8>,
    a2: MirrorView,
    b2: MirrorView,
)
    requires
        a0.doc.agent != b0.doc.agent,
        a0.doc.doc == b0.doc.doc,
        a0.doc.history() == b0.doc.history(),
        sound(a0.doc.events) && sound(b0.doc.events),
        sound(a1.doc.events) && sound(b1.doc.events),
        lists_tips(a0.doc.events, a0.last_sent),
        lists_tips(b0.doc.events, b0.last_sent),
        wrote(a0.doc, sa, a1.doc),
        wrote(b0.doc, sb, b1.doc),
        is_patch_of(
            a1.doc,
            ids_at(a1.doc.events, a0.last_sent),
            after(a1.doc.history(), ids_at(a1.doc.events, a0.last_sent)),
            da,
        ),
        is_patch_of(
            b1.doc,
            ids_at(b1.doc.events, b0.last_sent),
            after(b1.doc.history(), ids_at(b1.doc.events, b0.last_sent)),
            db,
        ),
        was_offered(a1.doc, db, a2.doc),
        was_offered(b1.doc, da, b2.doc),
    ensures
        a2.doc.text() == b2.doc.text(),
        a2.doc.history() == b2.doc.history(),
        a2.doc.history() == a1.doc.history().union(b1.doc.history()),
        reads_safely(db, a1.doc.history()),
        reads_safely(da, b1.doc.history()),
{
    let ta = choose|t: bool| #[trigger] merged_to(a1.doc, db, t, a2.doc);
    let tb = choose|t: bool| #[trigger] merged_to(b1.doc, da, t, b2.doc);
    law_concurrent_edits_converge(
        a0.doc,
        b0.doc,
        sa,
        sb,
        a1.doc,
        b1.doc,
        a0.last_sent,
        b0.last_sent,
        da,
        db,
        ta,
        tb,
        a2.doc,
        b2.doc,
    );
}

} // verus!
