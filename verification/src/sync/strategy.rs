//! The seam between the session and the sync algorithms.
use crate::crdt::diff::{char_diff, is_script, is_shortest};
use crate::bytes::lossy_text;
use crate::chars::same_text;
use crate::crdt::oplog::{after, ids_at, patch_parts, reads_safely, sound, TextEvent};
use crate::crdt::text::{
    is_patch_of, law_a_delta_is_the_change, lemma_rewrite_spares, lists_tips, rewrite,
    spares_what_is_shared, strokes_from, wrote, TextView,
};
use crate::sync::algo::image::ImageSyncer;
use crate::sync::algo::lww_record::{
    canonical, entries_in, entries_of, lacking, law_entries_are_those_of_the_keys, merged, observed,
    parsed, stamps_in, stamps_of, touched, LwwRecordSyncer, LwwView,
};
use crate::sync::algo::rsync::{advert_of, patch_of, RsyncSyncer, RsyncView};
use crate::sync::algo::text_crdt::{
    answers, is_vector_of, vv_in, was_offered, TextCrdtSyncer, TextSyncView,
};
use crate::sync::algo::wal::WalDb;
use vstd::prelude::*;
use vstd::utf8::encode_utf8;

verus! {

/// The sync algorithms that a workspace can assign to a resource.
#[derive(Debug, Clone, Copy, PartialEq, Eq, Structural)]
pub enum Kind {
    /// Collaborative text.
    TextCrdt,
    /// Block diff for opaque files.
    RsyncFile,
    /// Append-only log replication for databases.
    WalDb,
    /// Last writer wins, key by key, for `key = value` files.
    LwwRecord,
    /// Codec-aware image merge. Planned.
    Image,
}

/// One sync algorithm bound to one resource.
///
/// State flows in two ways. On a local change the session calls `observe`, and
/// ships what `push_delta` returns where the algorithm can push. To reconcile, a
/// peer sends its `state_vector`, gets `delta_since` back and folds it in with
/// `merge`. All payloads are opaque to the session.
pub trait SyncStrategy: Sized {
    /// The algorithm's state is sound.
    spec fn wf(&self) -> bool;

    /// The algorithm can take in one more local write.
    spec fn can_observe(&self) -> bool;

    /// Whether a delta can be offered. The engine behind a text panics on some
    /// bytes that no engine wrote.
    spec fn can_merge(&self, delta: Seq<u8>) -> bool;

    /// Which algorithm this is.
    spec fn spec_kind(&self) -> Kind;

    /// Which algorithm this is.
    fn kind(&self) -> (r: Kind)
        ensures
            r == self.spec_kind(),
    ;

    /// Folds the resource's current local bytes in. True if this changed the
    /// state.
    fn observe(&mut self, current: &[u8]) -> (r: bool)
        requires
            old(self).wf(),
            old(self).can_observe(),
        ensures
            final(self).wf(),
            final(self).spec_kind() == old(self).spec_kind(),
    ;

    /// A delta to push eagerly after a local change; `None` where the algorithm
    /// only syncs when asked.
    fn push_delta(&mut self) -> (r: Option<Vec<u8>>)
        requires
            old(self).wf(),
        ensures
            final(self).wf(),
            final(self).spec_kind() == old(self).spec_kind(),
    ;

    /// A compact advertisement of what this side holds.
    fn state_vector(&self) -> (r: Vec<u8>)
        requires
            self.wf(),
    ;

    /// The delta that brings the owner of the given state vector up to this
    /// side; `None` where there is nothing to send.
    fn delta_since(&self, theirs: &[u8]) -> (r: Option<Vec<u8>>)
        requires
            self.wf(),
    ;

    /// Folds a delta from a peer in, and returns the new bytes where they
    /// changed.
    fn merge(&mut self, delta: &[u8]) -> (r: Option<Vec<u8>>)
        requires
            old(self).wf(),
            old(self).can_merge(delta@),
        ensures
            final(self).wf(),
            final(self).spec_kind() == old(self).spec_kind(),
    ;
}

/// The name of an algorithm, as a manifest spells it.
pub open spec fn kind_name(k: Kind) -> Seq<char> {
    match k {
        Kind::TextCrdt => "text-crdt"@,
        Kind::RsyncFile => "rsync-file"@,
        Kind::WalDb => "wal-db"@,
        Kind::LwwRecord => "lww-record"@,
        Kind::Image => "image"@,
    }
}

/// The algorithm with a name.
pub open spec fn kind_named(s: Seq<char>) -> Option<Kind> {
    if s == "text-crdt"@ {
        Some(Kind::TextCrdt)
    } else if s == "rsync-file"@ {
        Some(Kind::RsyncFile)
    } else if s == "wal-db"@ {
        Some(Kind::WalDb)
    } else if s == "lww-record"@ {
        Some(Kind::LwwRecord)
    } else if s == "image"@ {
        Some(Kind::Image)
    } else {
        None
    }
}

/// Every algorithm is found by its name.
pub proof fn law_names_find_kinds(k: Kind)
    ensures
        kind_named(kind_name(k)) == Some(k),
{
    reveal_strlit("text-crdt");
    reveal_strlit("rsync-file");
    reveal_strlit("wal-db");
    reveal_strlit("lww-record");
    reveal_strlit("image");
    assert("text-crdt"@[0] == 't' && "rsync-file"@[0] == 'r' && "wal-db"@[0] == 'w');
    assert("lww-record"@[0] == 'l' && "image"@[0] == 'i');
}

impl Kind {
    /// The name of the algorithm, as a manifest spells it.
    pub fn name(self) -> (r: &'static str)
        ensures
            r@ == kind_name(self),
    {
        match self {
            Kind::TextCrdt => "text-crdt",
            Kind::RsyncFile => "rsync-file",
            Kind::WalDb => "wal-db",
            Kind::LwwRecord => "lww-record",
            Kind::Image => "image",
        }
    }

    /// The algorithm with a name.
    pub fn from_name(s: &str) -> (r: Option<Kind>)
        ensures
            r == kind_named(s@),
    {
        if same_text(s, "text-crdt") {
            Some(Kind::TextCrdt)
        } else if same_text(s, "rsync-file") {
            Some(Kind::RsyncFile)
        } else if same_text(s, "wal-db") {
            Some(Kind::WalDb)
        } else if same_text(s, "lww-record") {
            Some(Kind::LwwRecord)
        } else if same_text(s, "image") {
            Some(Kind::Image)
        } else {
            None
        }
    }

    /// Whether the workspace takes resources of this kind.
    pub fn is_implemented(self) -> (r: bool)
        ensures
            r == (self != Kind::Image),
    {
        match self {
            Kind::Image => false,
            _ => true,
        }
    }

    /// The algorithm for a resource. A collaborative text cannot be named `ROOT`.
    pub fn build(self, name: &str) -> (r: AnySyncer)
        requires
            self == Kind::TextCrdt ==> name@ != "ROOT"@,
        ensures
            r.wf(),
            r.spec_kind() == self,
            r@ == fresh_view(self, name@),
    {
        match self {
            Kind::TextCrdt => AnySyncer::Text(TextCrdtSyncer::new(name)),
            Kind::RsyncFile => AnySyncer::Rsync(RsyncSyncer::new(name)),
            Kind::WalDb => AnySyncer::Wal(WalDb::new(name)),
            Kind::LwwRecord => AnySyncer::Lww(LwwRecordSyncer::new(name)),
            Kind::Image => AnySyncer::Image(ImageSyncer::new(name)),
        }
    }
}

/// One of the algorithms, bound to a resource.
pub enum AnySyncer {
    Text(TextCrdtSyncer),
    Rsync(RsyncSyncer),
    Wal(WalDb),
    Lww(LwwRecordSyncer),
    Image(ImageSyncer),
}

/// What an algorithm holds.
pub enum AnyView {
    Text(TextSyncView),
    Rsync(RsyncView),
    Wal,
    Lww(LwwView),
    Image,
}

impl View for AnySyncer {
    type V = AnyView;

    open spec fn view(&self) -> AnyView {
        match self {
            AnySyncer::Text(s) => AnyView::Text(s@),
            AnySyncer::Rsync(s) => AnyView::Rsync(s@),
            AnySyncer::Wal(_) => AnyView::Wal,
            AnySyncer::Lww(s) => AnyView::Lww(s@),
            AnySyncer::Image(_) => AnyView::Image,
        }
    }
}

/// The state that an algorithm starts in.
pub open spec fn fresh_view(k: Kind, name: Seq<char>) -> AnyView {
    match k {
        Kind::TextCrdt => AnyView::Text(
            TextSyncView {
                doc: TextView { agent: name, doc: None, events: Seq::empty() },
                last_sent: Seq::empty(),
                last_known: Seq::empty(),
            },
        ),
        Kind::RsyncFile => AnyView::Rsync(RsyncView { content: Seq::empty(), version: 0 }),
        Kind::WalDb => AnyView::Wal,
        Kind::LwwRecord => AnyView::Lww(LwwView { records: Map::empty(), dirty: Set::empty() }),
        Kind::Image => AnyView::Image,
    }
}

/// Taking in local bytes leads from one state to the other, and reports this.
pub open spec fn observes(v0: AnyView, current: Seq<u8>, changed: bool, v1: AnyView) -> bool {
    match (v0, v1) {
        (AnyView::Text(a), AnyView::Text(b)) => {
            let text = lossy_text(current);
            &&& b.last_sent == a.last_sent
            &&& b.last_known == text
            &&& changed == (text != a.last_known && text != a.doc.text())
            &&& !changed ==> b.doc == a.doc
            &&& text != a.last_known ==> b.doc.text() == text && wrote(
                a.doc,
                rewrite(a.doc.text(), text),
                b.doc,
            )
        },
        (AnyView::Rsync(a), AnyView::Rsync(b)) => {
            &&& changed == (current != a.content)
            &&& b == (RsyncView {
                content: current,
                version: if changed {
                    (a.version + 1) as u64
                } else {
                    a.version
                },
            })
        },
        (AnyView::Lww(a), AnyView::Lww(b)) => {
            let p = parsed(lossy_text(current));
            &&& changed == (observed(a.records, p) != a.records)
            &&& b == (LwwView {
                records: observed(a.records, p),
                dirty: a.dirty.union(touched(a.records, p)),
            })
        },
        _ => v0 == v1 && !changed,
    }
}

/// Whether a delta can be offered to a resource in this state: one for a text is
/// one that its engine can read.
pub open spec fn can_fold_in(v: AnyView, delta: Seq<u8>) -> bool {
    match v {
        AnyView::Text(a) => reads_safely(delta, a.doc.history()),
        _ => true,
    }
}

/// Pushing leads from one state to the other, and ships this.
pub open spec fn pushes(v0: AnyView, r: Option<Vec<u8>>, v1: AnyView) -> bool {
    match (v0, v1) {
        (AnyView::Text(a), AnyView::Text(b)) => {
            let base = ids_at(a.doc.events, a.last_sent);
            &&& r is Some
            &&& is_patch_of(a.doc, base, after(a.doc.history(), base), r->Some_0@)
            &&& lists_tips(a.doc.events, b.last_sent)
            &&& b.doc == a.doc
            &&& b.last_known == a.last_known
        },
        (AnyView::Lww(a), AnyView::Lww(b)) => {
            &&& b == (LwwView { records: a.records, dirty: Set::empty() })
            &&& r is None <==> a.dirty =~= Set::empty()
            &&& r matches Some(x) ==> entries_in(x@) == Some(entries_of(a.records, a.dirty))
        },
        _ => v0 == v1 && r is None,
    }
}

/// The bytes advertise the state.
pub open spec fn advertises(v: AnyView, r: Seq<u8>) -> bool {
    match v {
        AnyView::Text(a) => is_vector_of(a.doc, r),
        AnyView::Rsync(a) => advert_of(r) == Some(a.advert()),
        AnyView::Lww(a) => stamps_in(r) == Some(stamps_of(a.records)),
        _ => r.len() == 0,
    }
}

/// The delta brings the owner of the advertisement up to the state, where it is
/// behind.
pub open spec fn replies(v: AnyView, theirs: Seq<u8>, r: Option<Vec<u8>>) -> bool {
    match v {
        AnyView::Text(a) => match vv_in(theirs) {
            Some(vv) => answers(a.doc, vv.to_set(), r),
            None => r is None,
        },
        AnyView::Rsync(a) => match advert_of(theirs) {
            Some(ad) => match (a.patch_for(ad), r) {
                (Some(p), Some(b)) => patch_of(b@) == Some(p),
                (None, None) => true,
                _ => false,
            },
            None => r is None,
        },
        AnyView::Lww(a) => match stamps_in(theirs) {
            Some(stamps) => {
                let es = entries_of(a.records, lacking(a.records, stamps));
                match r {
                    Some(b) => es.len() > 0 && entries_in(b@) == Some(es),
                    None => es.len() == 0,
                }
            },
            None => r is None,
        },
        _ => r is None,
    }
}

/// Folding in a delta leads from one state to the other, and gives these bytes to
/// store.
pub open spec fn merges(v0: AnyView, delta: Seq<u8>, r: Option<Vec<u8>>, v1: AnyView) -> bool {
    match (v0, v1) {
        (AnyView::Text(a), AnyView::Text(b)) => {
            &&& was_offered(a.doc, delta, b.doc)
            &&& lists_tips(b.doc.events, b.last_sent)
            &&& r is Some <==> b.doc.text() != a.doc.text()
            &&& r matches Some(x) ==> x@ == encode_utf8(b.doc.text())
            &&& b.last_known == if r is Some {
                b.doc.text()
            } else {
                a.last_known
            }
        },
        (AnyView::Rsync(a), AnyView::Rsync(b)) => match patch_of(delta) {
            Some(p) => {
                &&& b == a.merged(p)
                &&& r is Some <==> a.takes(p)
                &&& r matches Some(x) ==> x@ == b.content
            },
            None => r is None && b == a,
        },
        (AnyView::Lww(a), AnyView::Lww(b)) => {
            &&& b.dirty == a.dirty
            &&& match entries_in(delta) {
                Some(es) => {
                    &&& b.records == merged(a.records, es)
                    &&& r is Some <==> encode_utf8(canonical(b.records)) != encode_utf8(
                        canonical(a.records),
                    )
                    &&& r matches Some(x) ==> x@ == encode_utf8(canonical(b.records))
                },
                None => r is None && b == a,
            }
        },
        _ => v0 == v1 && r is None,
    }
}

impl AnySyncer {
    /// The algorithm's state is sound.
    pub open spec fn wf(&self) -> bool {
        match self {
            AnySyncer::Text(s) => s.wf(),
            AnySyncer::Rsync(s) => s.wf(),
            AnySyncer::Lww(s) => s.wf(),
            _ => true,
        }
    }

    /// The algorithm can take in one more local write.
    pub open spec fn can_observe(&self) -> bool {
        match self {
            AnySyncer::Text(s) => s.can_observe(),
            AnySyncer::Rsync(s) => s.can_observe(),
            AnySyncer::Lww(s) => s.can_observe(),
            _ => true,
        }
    }

    /// The events of a text have different identities and come after their parents.
    pub proof fn lemma_sound(&self)
        requires
            self.wf(),
        ensures
            self@ matches AnyView::Text(a) ==> sound(a.doc.events),
    {
        if let AnySyncer::Text(t) = self {
            t.lemma_sound();
        }
    }

    /// Which algorithm this is.
    pub open spec fn spec_kind(&self) -> Kind {
        match self {
            AnySyncer::Text(_) => Kind::TextCrdt,
            AnySyncer::Rsync(_) => Kind::RsyncFile,
            AnySyncer::Wal(_) => Kind::WalDb,
            AnySyncer::Lww(_) => Kind::LwwRecord,
            AnySyncer::Image(_) => Kind::Image,
        }
    }

    /// Which algorithm this is.
    pub fn kind(&self) -> (r: Kind)
        ensures
            r == self.spec_kind(),
    {
        match self {
            AnySyncer::Text(s) => s.kind(),
            AnySyncer::Rsync(s) => s.kind(),
            AnySyncer::Wal(s) => s.kind(),
            AnySyncer::Lww(s) => s.kind(),
            AnySyncer::Image(s) => s.kind(),
        }
    }

    /// Whether the algorithm can take in one more local write.
    pub fn is_writable(&self) -> (r: bool)
        requires
            self.wf(),
        ensures
            r == self.can_observe(),
    {
        match self {
            AnySyncer::Rsync(s) => s.version() < u64::MAX,
            AnySyncer::Lww(s) => s.is_writable(),
            _ => true,
        }
    }

    /// Takes in the resource's local bytes. True if this changed the state. What
    /// does not sync yet takes in nothing.
    pub fn observe(&mut self, current: &[u8]) -> (r: bool)
        requires
            old(self).wf(),
            old(self).can_observe(),
        ensures
            final(self).wf(),
            final(self).spec_kind() == old(self).spec_kind(),
            observes(old(self)@, current@, r, final(self)@),
    {
        match self {
            AnySyncer::Text(s) => s.observe(current),
            AnySyncer::Rsync(s) => s.observe(current),
            AnySyncer::Lww(s) => s.observe(current),
            _ => false,
        }
    }

    /// What to ship eagerly after a local change.
    pub fn push_delta(&mut self) -> (r: Option<Vec<u8>>)
        requires
            old(self).wf(),
        ensures
            final(self).wf(),
            final(self).spec_kind() == old(self).spec_kind(),
            pushes(old(self)@, r, final(self)@),
    {
        match self {
            AnySyncer::Text(s) => s.push_delta(),
            AnySyncer::Rsync(s) => s.push_delta(),
            AnySyncer::Lww(s) => s.push_delta(),
            _ => None,
        }
    }

    /// What this side holds, in brief.
    pub fn state_vector(&self) -> (r: Vec<u8>)
        requires
            self.wf(),
        ensures
            advertises(self@, r@),
    {
        match self {
            AnySyncer::Text(s) => s.state_vector(),
            AnySyncer::Rsync(s) => s.state_vector(),
            AnySyncer::Lww(s) => s.state_vector(),
            _ => Vec::new(),
        }
    }

    /// What brings the owner of the advertisement up to this side.
    pub fn delta_since(&self, theirs: &[u8]) -> (r: Option<Vec<u8>>)
        requires
            self.wf(),
        ensures
            replies(self@, theirs@, r),
    {
        match self {
            AnySyncer::Text(s) => s.delta_since(theirs),
            AnySyncer::Rsync(s) => s.delta_since(theirs),
            AnySyncer::Lww(s) => s.delta_since(theirs),
            _ => None,
        }
    }

    /// Folds in a delta, and returns the bytes to store where they changed.
    pub fn merge(&mut self, delta: &[u8]) -> (r: Option<Vec<u8>>)
        requires
            old(self).wf(),
            can_fold_in(old(self)@, delta@),
        ensures
            final(self).wf(),
            final(self).spec_kind() == old(self).spec_kind(),
            merges(old(self)@, delta@, r, final(self)@),
    {
        match self {
            AnySyncer::Text(s) => s.merge(delta),
            AnySyncer::Rsync(s) => s.merge(delta),
            AnySyncer::Lww(s) => s.merge(delta),
            _ => None,
        }
    }
}

/// An algorithm has one name: what names it is that, letter for letter.
pub proof fn law_kinds_have_one_name(s: Seq<char>)
    ensures
        kind_named(s) matches Some(k) ==> s == kind_name(k),
        (forall|k: Kind| s != #[trigger] kind_name(k)) ==> kind_named(s) is None,
{
    assert(kind_name(Kind::TextCrdt) == "text-crdt"@);
    assert(kind_name(Kind::RsyncFile) == "rsync-file"@);
    assert(kind_name(Kind::WalDb) == "wal-db"@);
    assert(kind_name(Kind::LwwRecord) == "lww-record"@);
    assert(kind_name(Kind::Image) == "image"@);
}

/// Looking at local bytes notices a change, and takes it in: a file gets the new content
/// and the next version exactly where the content differs; a text becomes the new text,
/// unless that is what it was last known as; records follow the file.
pub proof fn law_changes_are_noticed(v0: AnyView, current: Seq<u8>, changed: bool, v1: AnyView)
    requires
        observes(v0, current, changed, v1),
    ensures
        v0 matches AnyView::Rsync(a) ==> (v1 matches AnyView::Rsync(b) && b.content == current && (
        changed <==> current != a.content) && (a.version < u64::MAX && changed ==> b.version
            == a.version + 1) && (!changed ==> b == a)),
        v0 matches AnyView::Text(a) ==> (v1 matches AnyView::Text(b) && b.last_known == lossy_text(
            current,
        ) && (changed <==> lossy_text(current) != a.last_known && lossy_text(current)
            != a.doc.text()) && (changed ==> b.doc.text() == lossy_text(current)) && (!changed
            ==> b.doc == a.doc)),
        v0 matches AnyView::Lww(a) ==> (v1 matches AnyView::Lww(b) && (changed <==> b.records
            != a.records) && forall|k: Seq<char>| #[trigger]
            parsed(lossy_text(current)).contains_key(k) ==> b.records.contains_key(k)
                && b.records[k].value == Some(parsed(lossy_text(current))[k])),
        v0 is Wal || v0 is Image ==> !changed && v1 == v0,
{
}

/// What was merged in is no local change: where the bytes that a merge gave are found in
/// place afterwards, nothing is noticed.
pub proof fn law_merged_bytes_are_no_change(
    v0: AnyView,
    delta: Seq<u8>,
    bytes: Vec<u8>,
    v1: AnyView,
    changed: bool,
    v2: AnyView,
)
    requires
        merges(v0, delta, Some(bytes), v1),
        observes(v1, bytes@, changed, v2),
        v1 matches AnyView::Text(b) ==> lossy_text(bytes@) == b.doc.text(),
        !(v1 is Lww),
    ensures
        !changed,
        v1 is Rsync ==> v2 == v1,
        v1 matches AnyView::Text(b) ==> (v2 matches AnyView::Text(c) && c.doc == b.doc),
{
}

/// A resource starts empty, whatever its algorithm: an empty text, an empty file, no
/// records.
pub proof fn law_resources_start_empty(k: Kind, name: Seq<char>)
    ensures
        k == Kind::TextCrdt ==> (fresh_view(k, name) matches AnyView::Text(a) && a.doc.events.len()
            == 0 && a.doc.agent == name && a.last_known.len() == 0),
        k == Kind::RsyncFile ==> (fresh_view(k, name) matches AnyView::Rsync(a) && a.content.len()
            == 0 && a.version == 0),
        k == Kind::LwwRecord ==> (fresh_view(k, name) matches AnyView::Lww(a) && a.records.dom()
            =~= Set::empty() && a.dirty =~= Set::empty()),
{
}

/// Local edits of records are pushed: every register that a look at the file changed goes
/// out with the next push, and then none is left to push.
pub proof fn law_changed_registers_are_pushed(
    a: LwwView,
    current: Seq<u8>,
    changed: bool,
    b: LwwView,
    r: Option<Vec<u8>>,
    c: LwwView,
    k: Seq<char>,
)
    requires
        observes(AnyView::Lww(a), current, changed, AnyView::Lww(b)),
        pushes(AnyView::Lww(b), r, AnyView::Lww(c)),
        b.dirty.finite(),
        b.records.contains_key(k),
        !a.records.contains_key(k) || b.records[k] != a.records[k],
    ensures
        changed,
        r matches Some(x) && (entries_in(x@) matches Some(es) && es.contains(
            (k, b.records[k].value, b.records[k].version),
        )),
        c.dirty == Set::<Seq<char>>::empty(),
        c.records == b.records,
{
    assert(b.dirty.contains(k));
    law_entries_are_those_of_the_keys(
        b.records,
        b.dirty,
        (k, b.records[k].value, b.records[k].version),
    );
    if !changed {
        assert(b.records == a.records);
    }
    if r is None {
        assert(b.dirty =~= Set::empty());
    }
}

/// A look at a text's file touches what changed alone: it deletes and inserts no more than
/// it must to get from the old text to the new one.
pub proof fn law_looks_spare_what_is_shared(
    a: TextSyncView,
    current: Seq<u8>,
    changed: bool,
    b: TextSyncView,
)
    requires
        observes(AnyView::Text(a), current, changed, AnyView::Text(b)),
        lossy_text(current) != a.last_known,
        is_script(char_diff(a.doc.text(), lossy_text(current)), a.doc.text(), lossy_text(current)),
        is_shortest(char_diff(a.doc.text(), lossy_text(current)), a.doc.text(), lossy_text(current)),
    ensures
        spares_what_is_shared(
            a.doc.text(),
            lossy_text(current),
            strokes_from(b.doc.events, a.doc.events.len() as int),
        ),
{
    lemma_rewrite_spares(a.doc.text(), lossy_text(current));
}

/// A merge that changes a text makes the new text the one that its file is known to hold,
/// and hands it out; what came from the peer is not shipped back to it.
pub proof fn law_merged_texts_are_known_and_not_shipped_back(
    a: TextSyncView,
    delta: Seq<u8>,
    r: Option<Vec<u8>>,
    b: TextSyncView,
    sent: Option<Vec<u8>>,
    c: TextSyncView,
)
    requires
        merges(AnyView::Text(a), delta, r, AnyView::Text(b)),
        sound(b.doc.events),
        pushes(AnyView::Text(b), sent, AnyView::Text(c)),
    ensures
        r is Some <==> b.doc.text() != a.doc.text(),
        r matches Some(x) ==> x@ == encode_utf8(b.doc.text()) && b.last_known == b.doc.text(),
        r is None ==> b.last_known == a.last_known,
        sent matches Some(y) && (patch_parts(y@) matches Some((doc, base, events)) && events
            == Set::<TextEvent>::empty()),
{
    law_a_delta_is_the_change(b.doc.events, b.doc.events, b.last_sent);
    let rest = b.doc.events.skip(b.doc.events.len() as int);
    assert(rest.to_set() =~= Set::<TextEvent>::empty());
}

/// A push ships what was written since the last one: a second push in a row ships nothing.
pub proof fn law_pushes_ship_what_is_new(
    a: TextSyncView,
    first: Option<Vec<u8>>,
    b: TextSyncView,
    second: Option<Vec<u8>>,
    c: TextSyncView,
)
    requires
        sound(a.doc.events),
        pushes(AnyView::Text(a), first, AnyView::Text(b)),
        pushes(AnyView::Text(b), second, AnyView::Text(c)),
    ensures
        b.doc == a.doc,
        second matches Some(y) && (patch_parts(y@) matches Some((doc, base, events)) && events
            == Set::<TextEvent>::empty()),
{
    law_a_delta_is_the_change(b.doc.events, b.doc.events, b.last_sent);
    let rest = b.doc.events.skip(b.doc.events.len() as int);
    assert(rest.to_set() =~= Set::<TextEvent>::empty());
}

} // verus!
