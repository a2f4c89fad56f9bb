//! Collaborative text behind the common seam.
use crate::bytes::{lossy_text, text_bytes, text_lossy};
use crate::chars::{copy_text, same_text};
use crate::crdt::oplog::{after, ids_at, is_version, reads_safely, sound, OpId, TextEvent};
use crate::crdt::text::{
    is_answer, is_patch_of, is_version_vector, lemma_vv_ids, lists_tips, merged_to, rewrite,
    spares_what_is_shared, strokes_from, vv_ids, vv_list, wrote, EgWalkerText, TextView,
};
use crate::sync::strategy::{Kind, SyncStrategy};
use vstd::prelude::*;
use vstd::utf8::encode_utf8;

verus! {

/// The JSON form of a version vector.
pub uninterp spec fn vv_json(vv: Seq<(Seq<char>, usize)>) -> Seq<u8>;

/// The version vector that JSON text holds, if it holds one.
pub uninterp spec fn vv_in(bytes: Seq<u8>) -> Option<Seq<(Seq<char>, usize)>>;

/// `serde_json::to_vec` on a version vector: its JSON form, which reads back as
/// the same vector.
#[verifier::external_body]
pub(crate) fn write_vv(vv: &Vec<(String, usize)>) -> (r: Vec<u8>)
    ensures
        r@ == vv_json(vv_list(vv@)),
        vv_in(r@) == Some(vv_list(vv@)),
{
    serde_json::to_vec(vv).unwrap_or_default()
}

/// `serde_json::from_slice` for a version vector: the vector that the bytes hold,
/// where they hold one.
#[verifier::external_body]
pub(crate) fn read_vv(bytes: &[u8]) -> (r: Option<Vec<(String, usize)>>)
    ensures
        match r {
            Some(v) => vv_in(bytes@) == Some(vv_list(v@)),
            None => vv_in(bytes@) is None,
        },
{
    serde_json::from_slice(bytes).ok()
}

/// One replica of a shared text file.
pub struct TextCrdtSyncer {
    doc: EgWalkerText,
    /// What has been shipped to the peer.
    last_sent: Vec<usize>,
    /// What was last read from or written to the file, by which a local edit is
    /// told from an echo.
    last_known: String,
}

/// What a replica holds.
pub struct TextSyncView {
    pub doc: TextView,
    pub last_sent: Seq<usize>,
    pub last_known: Seq<char>,
}

impl View for TextCrdtSyncer {
    type V = TextSyncView;

    closed spec fn view(&self) -> TextSyncView {
        TextSyncView { doc: self.doc@, last_sent: self.last_sent@, last_known: self.last_known@ }
    }
}

impl TextCrdtSyncer {
    /// The events of the replica have different identities and come after their
    /// parents.
    pub proof fn lemma_sound(&self)
        requires
            self.wf(),
        ensures
            sound(self@.doc.events),
    {
        self.doc.lemma_sound();
    }

    /// An empty replica that writes under the given name. The name `ROOT` is
    /// taken.
    pub fn new(name: &str) -> (r: Self)
        requires
            name@ != "ROOT"@,
        ensures
            r.wf(),
            r@.doc == (TextView { agent: name@, doc: None, events: Seq::empty() }),
            r@.last_known == Seq::<char>::empty(),
            r@.last_sent == Seq::<usize>::empty(),
    {
        let doc = EgWalkerText::new(name);
        let last_sent = doc.version();
        proof {
            if last_sent@.len() > 0 {
                assert(last_sent@[0] < doc@.events.len());
            }
        }
        let r = TextCrdtSyncer { doc, last_sent, last_known: String::new() };
        assert(r@.last_known =~= Seq::<char>::empty());
        assert(r@.last_sent =~= Seq::<usize>::empty());
        r
    }

    /// The current text.
    pub fn content(&self) -> (r: String)
        requires
            self.wf(),
        ensures
            r@ == self@.doc.text(),
    {
        self.doc.content()
    }

    /// Takes in a local edit of the text. True if the document changed.
    pub fn observe_text(&mut self, text: &str) -> (r: bool)
        requires
            old(self).wf(),
        ensures
            final(self).wf(),
            final(self)@.last_sent == old(self)@.last_sent,
            final(self)@.last_known == text@,
            r == (text@ != old(self)@.last_known && text@ != old(self)@.doc.text()),
            !r ==> final(self)@.doc == old(self)@.doc,
            text@ != old(self)@.last_known ==> final(self)@.doc.text() == text@ && wrote(
                old(self)@.doc,
                rewrite(old(self)@.doc.text(), text@),
                final(self)@.doc,
            ) && spares_what_is_shared(
                old(self)@.doc.text(),
                text@,
                strokes_from(final(self)@.doc.events, old(self)@.doc.events.len() as int),
            ),
    {
        if same_text(text, self.last_known.as_str()) {
            return false;
        }
        let before = self.doc.content();
        let ghost h = self.doc@.events;
        self.doc.edit_to(text);
        proof {
            self.doc.lemma_version_stays(h, self.last_sent@);
        }
        self.last_known = copy_text(text);
        !same_text(before.as_str(), text)
    }

    /// The events that the owner of a version vector lacks, encoded; none where
    /// it lacks none.
    pub fn ops_for(&self, theirs: &Vec<(String, usize)>) -> (r: Option<Vec<u8>>)
        requires
            self.wf(),
        ensures
            answers(self@.doc, vv_ids(theirs@), r),
    {
        self.doc.ops_since(theirs.as_slice())
    }
}

/// `r` brings the owner of the given events up to date, if it lacks any.
pub open spec fn answers(d: TextView, theirs: Set<OpId>, r: Option<Vec<u8>>) -> bool {
    &&& r is Some <==> exists|e: TextEvent| #[trigger] d.lacking(theirs).contains(e)
    &&& r matches Some(b) ==> is_answer(d, theirs, b@)
}

/// The bytes are the document's version vector, encoded.
pub open spec fn is_vector_of(d: TextView, r: Seq<u8>) -> bool {
    exists|vv: Seq<OpId>| #[trigger]
        is_version_vector(d.events, vv) && r == vv_json(vv) && vv_in(r) == Some(vv)
}

/// `d1` is `d0` after it has been offered the delta, whether it took it or not.
pub open spec fn was_offered(d0: TextView, delta: Seq<u8>, d1: TextView) -> bool {
    exists|taken: bool| #[trigger] merged_to(d0, delta, taken, d1)
}

impl SyncStrategy for TextCrdtSyncer {
    closed spec fn wf(&self) -> bool {
        &&& self.doc.wf()
        &&& is_version(self.doc@.events, self.last_sent@)
    }

    open spec fn can_observe(&self) -> bool {
        true
    }

    open spec fn can_merge(&self, delta: Seq<u8>) -> bool {
        reads_safely(delta, self@.doc.history())
    }

    open spec fn spec_kind(&self) -> Kind {
        Kind::TextCrdt
    }

    fn kind(&self) -> (r: Kind) {
        Kind::TextCrdt
    }

    /// Takes in a local edit of the file. True if the document changed.
    fn observe(&mut self, current: &[u8]) -> (r: bool)
        ensures
            final(self)@.last_sent == old(self)@.last_sent,
            final(self)@.last_known == lossy_text(current@),
            r == (lossy_text(current@) != old(self)@.last_known && lossy_text(current@) != old(
                self,
            )@.doc.text()),
            !r ==> final(self)@.doc == old(self)@.doc,
            lossy_text(current@) != old(self)@.last_known ==> final(self)@.doc.text()
                == lossy_text(current@) && wrote(
                old(self)@.doc,
                rewrite(old(self)@.doc.text(), lossy_text(current@)),
                final(self)@.doc,
            ) && spares_what_is_shared(
                old(self)@.doc.text(),
                lossy_text(current@),
                strokes_from(final(self)@.doc.events, old(self)@.doc.events.len() as int),
            ),
    {
        let text = text_lossy(current);
        self.observe_text(text.as_str())
    }

    /// The events since the last shipment, encoded.
    fn push_delta(&mut self) -> (r: Option<Vec<u8>>)
        ensures
            r is Some,
            r matches Some(b) ==> is_patch_of(
                old(self)@.doc,
                ids_at(old(self)@.doc.events, old(self)@.last_sent),
                after(
                    old(self)@.doc.history(),
                    ids_at(old(self)@.doc.events, old(self)@.last_sent),
                ),
                b@,
            ),
            lists_tips(old(self)@.doc.events, final(self)@.last_sent),
            final(self)@.doc == old(self)@.doc,
            final(self)@.last_known == old(self)@.last_known,
    {
        let delta = self.doc.encode_delta(self.last_sent.as_slice());
        self.last_sent = self.doc.version();
        Some(delta)
    }

    /// The version vector, encoded.
    fn state_vector(&self) -> (r: Vec<u8>)
        ensures
            is_vector_of(self@.doc, r@),
    {
        let vv = self.doc.version_vector();
        assert(is_version_vector(self@.doc.events, vv_list(vv@)));
        write_vv(&vv)
    }

    /// The events that the owner of an encoded version vector lacks; none where it
    /// lacks none.
    fn delta_since(&self, theirs: &[u8]) -> (r: Option<Vec<u8>>)
        ensures
            match vv_in(theirs@) {
                Some(vv) => answers(self@.doc, vv.to_set(), r),
                None => r is None,
            },
    {
        match read_vv(theirs) {
            Some(v) => {
                proof {
                    lemma_vv_ids(v@);
                }
                self.ops_for(&v)
            },
            None => None,
        }
    }

    /// Folds in a delta, where it can be taken, and returns the new text where it
    /// changed. What came from the peer is not shipped back to it.
    fn merge(&mut self, delta: &[u8]) -> (r: Option<Vec<u8>>)
        ensures
            was_offered(old(self)@.doc, delta@, final(self)@.doc),
            lists_tips(final(self)@.doc.events, final(self)@.last_sent),
            r is Some <==> final(self)@.doc.text() != old(self)@.doc.text(),
            r matches Some(b) ==> b@ == encode_utf8(final(self)@.doc.text()),
            final(self)@.last_known == (if r is Some {
                final(self)@.doc.text()
            } else {
                old(self)@.last_known
            }),
    {
        let before = self.doc.content();
        let taken = self.doc.merge(delta);
        self.last_sent = self.doc.version();
        let now = self.doc.content();
        let changed = !same_text(before.as_str(), now.as_str());
        if changed {
            self.last_known = copy_text(now.as_str());
        }
        assert(merged_to(old(self)@.doc, delta@, taken, self@.doc));
        if changed {
            Some(text_bytes(now.as_str()))
        } else {
            None
        }
    }
}

} // verus!
