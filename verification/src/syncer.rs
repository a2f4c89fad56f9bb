//! Keeping a tree of files in step with a peer, without I/O and without a clock.
//!
//! Text files are collaborative texts: on connect the peers exchange version
//! vectors, and from there on each ships only the events that the other lacks.
//! Other files go by the newest version as a whole; the same handshake carries
//! their inventory, so that a peer that lacks a file or is behind gets it at
//! once. The caller persists what comes out and passes the time in.
use crate::crdt::diff::{char_diff, is_script, is_shortest};
use crate::bytes::{copy_bytes, text_bytes};
use crate::chars::{copy_text, same_text, text_less, text_lt};
use crate::crdt::oplog::{
    agree, complete, fits, folded, from_peer, ids, patch_parts, reads_safely, sound, OpId,
    TextEvent,
};
use crate::crdt::text::{
    boils_down, can_fold, is_answer, is_patch_of, is_version_vector, law_answer_brings_up_to_date,
    law_answers_are_taken, law_answers_hold_only_the_gap, law_edits_keep_one_root,
    law_edits_keep_replicas_paired, law_new_edits_are_lacking, law_new_edits_are_lacking_to_all,
    law_one_origin_is_one_root, law_paired_replicas_can_merge, law_pairing_is_mutual,
    law_replicas_with_one_history_are_paired, law_the_change_is_what_is_lacking,
    law_the_root_is_the_origin, lemma_answer_completes, lemma_rewrite_spares, lemma_vector_is_held,
    lemma_vv_ids, merged_to, one_root, paired, rewrite, spares_what_is_shared, strokes_from, vv_ids,
    vv_list, wrote, EgWalkerText, TextView,
};
use crate::textmap::{
    in_order, lemma_in_order_exists, lemma_picks_done, lemma_picks_step, picks, TextMap,
};
use vstd::prelude::*;
use vstd::utf8::encode_utf8;

verus! {

/// The latest events of a document by author and number.
pub type Vv = Vec<(String, usize)>;

/// The first event of a document.
pub type Origin = Option<(String, usize)>;

/// What peers say to each other.
pub enum SyncMsg {
    /// On connect: the version vectors of the sender's texts and the versions of
    /// its other files. It asks for whatever the sender lacks.
    Hello { versions: Vec<(String, Vv)>, lww_versions: Vec<(String, u64)> },
    /// Events that the receiver lacks, the sender's version vector, and the first
    /// event of the document, by which texts made independently under one path
    /// are told apart.
    TextDelta { path: String, ops: Vec<u8>, vv: Vv, origin: Origin },
    /// A delta could not be taken: asks for the whole document.
    Resync { path: String },
    /// A whole file; the newest version wins.
    Lww { path: String, version: u64, bytes: Vec<u8> },
}

/// What a message says.
pub enum MsgView {
    Hello { versions: Seq<(Seq<char>, Seq<OpId>)>, lww_versions: Seq<(Seq<char>, u64)> },
    TextDelta { path: Seq<char>, ops: Seq<u8>, vv: Seq<OpId>, origin: Option<OpId> },
    Resync { path: Seq<char> },
    Lww { path: Seq<char>, version: u64, bytes: Seq<u8> },
}

/// The value of an identity that may be absent.
pub open spec fn origin_view(o: Origin) -> Option<OpId> {
    match o {
        Some(id) => Some((id.0@, id.1)),
        None => None,
    }
}

/// The version vectors of a message.
pub open spec fn versions_view(v: Seq<(String, Vv)>) -> Seq<(Seq<char>, Seq<OpId>)> {
    v.map_values(|x: (String, Vv)| (x.0@, vv_list(x.1@)))
}

/// The file versions of a message.
pub open spec fn numbers_view(v: Seq<(String, u64)>) -> Seq<(Seq<char>, u64)> {
    v.map_values(|x: (String, u64)| (x.0@, x.1))
}

impl View for SyncMsg {
    type V = MsgView;

    open spec fn view(&self) -> MsgView {
        match self {
            SyncMsg::Hello { versions, lww_versions } => MsgView::Hello {
                versions: versions_view(versions@),
                lww_versions: numbers_view(lww_versions@),
            },
            SyncMsg::TextDelta { path, ops, vv, origin } => MsgView::TextDelta {
                path: path@,
                ops: ops@,
                vv: vv_list(vv@),
                origin: origin_view(*origin),
            },
            SyncMsg::Resync { path } => MsgView::Resync { path: path@ },
            SyncMsg::Lww { path, version, bytes } => MsgView::Lww {
                path: path@,
                version: *version,
                bytes: bytes@,
            },
        }
    }
}

/// What a list of messages says.
pub open spec fn msgs(v: Seq<SyncMsg>) -> Seq<MsgView> {
    v.map_values(|m: SyncMsg| m@)
}

/// The files of one peer, and what it knows of the other.
pub struct SyncerView {
    /// The name that it writes texts under.
    pub agent: Seq<char>,
    pub docs: Map<Seq<char>, TextView>,
    /// For each text, how far the peer is known to hold each author's events.
    pub peer_vv: Map<Seq<char>, Map<Seq<char>, usize>>,
    /// Texts that were asked for as a whole and have not come yet.
    pub awaiting: Set<Seq<char>>,
    pub lww: Map<Seq<char>, (u64, Seq<u8>)>,
}

/// The greater of two event numbers.
pub open spec fn later(a: usize, b: usize) -> usize {
    if a >= b {
        a
    } else {
        b
    }
}

/// What is known of a peer after it has been found to hold one more event.
pub open spec fn advanced_by(known: Map<Seq<char>, usize>, id: OpId) -> Map<Seq<char>, usize> {
    known.insert(
        id.0,
        if known.contains_key(id.0) {
            later(known[id.0], id.1)
        } else {
            id.1
        },
    )
}

/// What is known of a peer after it has reported a version vector. It never
/// falls behind what was known.
pub open spec fn advanced(known: Map<Seq<char>, usize>, vv: Seq<OpId>) -> Map<Seq<char>, usize>
    decreases vv.len(),
{
    if vv.len() == 0 {
        known
    } else {
        advanced_by(advanced(known, vv.drop_last()), vv.last())
    }
}

/// What is known of the peer's copy of one text.
pub open spec fn known_of(
    pv: Map<Seq<char>, Map<Seq<char>, usize>>,
    path: Seq<char>,
) -> Map<Seq<char>, usize> {
    if pv.contains_key(path) {
        pv[path]
    } else {
        Map::empty()
    }
}

/// The knowledge after a report on one text.
pub open spec fn noted(
    pv: Map<Seq<char>, Map<Seq<char>, usize>>,
    path: Seq<char>,
    vv: Seq<OpId>,
) -> Map<Seq<char>, Map<Seq<char>, usize>> {
    pv.insert(path, advanced(known_of(pv, path), vv))
}

/// The events that a state of knowledge names.
pub open spec fn known_ids(known: Map<Seq<char>, usize>) -> Set<OpId> {
    Set::new(|id: OpId| known.contains_key(id.0) && known[id.0] == id.1)
}

/// The last entry of a list for each path.
pub open spec fn last_of<T>(list: Seq<(Seq<char>, T)>) -> Map<Seq<char>, T>
    decreases list.len(),
{
    if list.len() == 0 {
        Map::empty()
    } else {
        last_of(list.drop_last()).insert(list.last().0, list.last().1)
    }
}

/// The knowledge after a handshake reported the given version vectors.
pub open spec fn heard(
    pv: Map<Seq<char>, Map<Seq<char>, usize>>,
    their: Map<Seq<char>, Seq<OpId>>,
) -> Map<Seq<char>, Map<Seq<char>, usize>> {
    Map::new(
        |p: Seq<char>| pv.contains_key(p) || their.contains_key(p),
        |p: Seq<char>|
            if their.contains_key(p) {
                advanced(known_of(pv, p), their[p])
            } else {
                pv[p]
            },
    )
}

/// The knowledge after the given messages have been sent: the peer is taken to
/// receive them.
pub open spec fn told(
    pv: Map<Seq<char>, Map<Seq<char>, usize>>,
    sent: Seq<MsgView>,
) -> Map<Seq<char>, Map<Seq<char>, usize>>
    decreases sent.len(),
{
    if sent.len() == 0 {
        pv
    } else {
        let before = told(pv, sent.drop_last());
        match sent.last() {
            MsgView::TextDelta { path, ops, vv, origin } => noted(before, path, vv),
            _ => before,
        }
    }
}

/// The message brings the owner of the given events up to date with a text.
pub open spec fn is_delta(d: TextView, path: Seq<char>, theirs: Set<OpId>, m: MsgView) -> bool {
    match m {
        MsgView::TextDelta { path: p, ops, vv, origin } => {
            &&& p == path
            &&& is_answer(d, theirs, ops)
            &&& is_version_vector(d.events, vv)
            &&& origin == d.origin()
        },
        _ => false,
    }
}

/// The message carries a whole text.
pub open spec fn is_whole(d: TextView, path: Seq<char>, m: MsgView) -> bool {
    match m {
        MsgView::TextDelta { path: p, ops, vv, origin } => {
            &&& p == path
            &&& is_patch_of(d, Set::<OpId>::empty(), d.history(), ops)
            &&& is_version_vector(d.events, vv)
            &&& origin == d.origin()
        },
        _ => false,
    }
}

/// The identities in a list of version vectors, for one path.
pub open spec fn theirs_for(their: Map<Seq<char>, Seq<OpId>>, p: Seq<char>) -> Set<OpId> {
    if their.contains_key(p) {
        their[p].to_set()
    } else {
        Set::empty()
    }
}

/// The texts of which the owner of the given version vectors lacks events.
pub open spec fn behind(
    docs: Map<Seq<char>, TextView>,
    their: Map<Seq<char>, Seq<OpId>>,
) -> Set<Seq<char>> {
    docs.dom().filter(
        |p: Seq<char>|
            exists|e: TextEvent| #[trigger] docs[p].lacking(theirs_for(their, p)).contains(e),
    )
}

/// The messages bring the owner of the given version vectors up to date with
/// every text that it is behind with, in the order of the paths.
pub open spec fn are_deltas(
    docs: Map<Seq<char>, TextView>,
    their: Map<Seq<char>, Seq<OpId>>,
    ms: Seq<MsgView>,
) -> bool {
    let paths = in_order(behind(docs, their));
    &&& ms.len() == paths.len()
    &&& forall|i: int|
        0 <= i < ms.len() ==> is_delta(
            docs[paths[i]],
            paths[i],
            theirs_for(their, paths[i]),
            #[trigger] ms[i],
        )
}

/// The files that the owner of the given versions lacks or has older.
pub open spec fn stale(
    lww: Map<Seq<char>, (u64, Seq<u8>)>,
    their: Map<Seq<char>, u64>,
) -> Set<Seq<char>> {
    lww.dom().filter(|p: Seq<char>| !their.contains_key(p) || lww[p].0 > their[p])
}

/// The messages that carry those files, in the order of the paths.
pub open spec fn lww_updates(
    lww: Map<Seq<char>, (u64, Seq<u8>)>,
    their: Map<Seq<char>, u64>,
) -> Seq<MsgView> {
    in_order(stale(lww, their)).map_values(
        |p: Seq<char>| MsgView::Lww { path: p, version: lww[p].0, bytes: lww[p].1 },
    )
}

/// The version of a file; zero where there is none.
pub open spec fn version_of(lww: Map<Seq<char>, (u64, Seq<u8>)>, path: Seq<char>) -> u64 {
    if lww.contains_key(path) {
        lww[path].0
    } else {
        0
    }
}

/// The files after a whole file has been received: it is kept where its version
/// is newer. A path that was not known gets an empty entry at version zero.
pub open spec fn lww_applied(
    lww: Map<Seq<char>, (u64, Seq<u8>)>,
    path: Seq<char>,
    version: u64,
    bytes: Seq<u8>,
) -> Map<Seq<char>, (u64, Seq<u8>)> {
    lww.insert(
        path,
        if version > version_of(lww, path) {
            (version, bytes)
        } else if lww.contains_key(path) {
            lww[path]
        } else {
            (0, Seq::empty())
        },
    )
}

/// The text under a path; an empty one where there is none.
pub open spec fn doc_of(s: SyncerView, path: Seq<char>) -> TextView {
    if s.docs.contains_key(path) {
        s.docs[path]
    } else {
        TextView { agent: s.agent, doc: None, events: Seq::empty() }
    }
}

/// A local edit of a text leads from one state to the other, with this message
/// for the peer: the events that it is not known to hold, if there are any.
pub open spec fn text_edited(
    s0: SyncerView,
    path: Seq<char>,
    content: Seq<char>,
    s1: SyncerView,
    m: Option<MsgView>,
) -> bool {
    let d0 = doc_of(s0, path);
    let d1 = s1.docs[path];
    let known = known_ids(known_of(s0.peer_vv, path));
    &&& d1.text() == content
    &&& wrote(d0, rewrite(d0.text(), content), d1)
    &&& d0.text() == content ==> d1 == d0
    &&& m is Some <==> exists|e: TextEvent| #[trigger] d1.lacking(known).contains(e)
    &&& m matches Some(x) ==> is_delta(d1, path, known, x)
    &&& s1 == (SyncerView {
        docs: s0.docs.insert(path, d1),
        peer_vv: match m {
            Some(x) => told(s0.peer_vv, seq![x]),
            None => s0.peer_vv,
        },
        ..s0
    })
}

/// A local write of a whole file leads from one state to the other, with this
/// message for the peer. The version is the time, or one more than the last
/// version where the time is not later.
pub open spec fn file_written(
    s0: SyncerView,
    path: Seq<char>,
    bytes: Seq<u8>,
    now: u64,
    s1: SyncerView,
    m: MsgView,
) -> bool {
    let last = version_of(s0.lww, path);
    let version = if now > last {
        now
    } else {
        (last + 1) as u64
    };
    &&& m == (MsgView::Lww { path, version, bytes })
    &&& s1 == (SyncerView { lww: s0.lww.insert(path, (version, bytes)), ..s0 })
}

/// Whether a delta is for another document than the one under its path.
pub open spec fn conflicts(s: SyncerView, path: Seq<char>, origin: Option<OpId>) -> bool {
    &&& s.docs.contains_key(path)
    &&& s.docs[path].origin() is Some
    &&& origin is Some
    &&& s.docs[path].origin() != origin
}

/// Whether a peer gets through a message: the events of a text that it would fold
/// in are such that its engine can read them.
pub open spec fn can_take(s: SyncerView, m: MsgView) -> bool {
    match m {
        MsgView::TextDelta { path, ops, vv, origin } => if conflicts(s, path, origin) {
            text_lt(s.docs[path].origin()->Some_0.0, origin->Some_0.0) ==> reads_safely(
                ops,
                Set::empty(),
            )
        } else {
            reads_safely(ops, doc_of(s, path).history())
        },
        _ => true,
    }
}

/// Whether a peer in state `s0` that receives the delta may end in state `s1`,
/// with these bytes to persist and these replies.
pub open spec fn delta_applied(
    s0: SyncerView,
    path: Seq<char>,
    ops: Seq<u8>,
    vv: Seq<OpId>,
    origin: Option<OpId>,
    s1: SyncerView,
    out: Option<(Seq<char>, Seq<u8>)>,
    replies: Seq<MsgView>,
) -> bool {
    let asks = seq![MsgView::Resync { path }];
    let keeps = SyncerView { peer_vv: noted(s0.peer_vv, path, vv), ..s0 };
    if conflicts(s0, path, origin) {
        if text_lt(s0.docs[path].origin()->Some_0.0, origin->Some_0.0) {
            // The other document wins: it is adopted as a whole.
            let fresh = TextView { agent: s0.agent, doc: None, events: Seq::empty() };
            if out is Some {
                let d1 = s1.docs[path];
                &&& merged_to(fresh, ops, true, d1)
                &&& s1 == (SyncerView { docs: s0.docs.insert(path, d1), ..keeps })
                &&& out == Some((path, encode_utf8(d1.text())))
                &&& replies == Seq::<MsgView>::empty()
            } else {
                &&& merged_to(fresh, ops, false, fresh)
                &&& s1 == s0
                &&& replies == asks
            }
        } else {
            // Ours wins: the delta is dropped.
            &&& s1 == keeps
            &&& out is None
            &&& replies == Seq::<MsgView>::empty()
        }
    } else {
        let d0 = doc_of(s0, path);
        let d1 = s1.docs[path];
        &&& merged_to(d0, ops, out is Some, d1)
        &&& if out is Some {
            &&& s1 == (SyncerView {
                docs: s0.docs.insert(path, d1),
                awaiting: s0.awaiting.remove(path),
                ..keeps
            })
            &&& out == Some((path, encode_utf8(d1.text())))
            &&& replies == Seq::<MsgView>::empty()
        } else {
            &&& s1 == (SyncerView {
                docs: s0.docs.insert(path, d0),
                awaiting: s0.awaiting.insert(path),
                ..s0
            })
            &&& replies == if s0.awaiting.contains(path) {
                Seq::<MsgView>::empty()
            } else {
                asks
            }
        }
    }
}

/// Whether a peer in state `s0` that receives the message may end in state `s1`,
/// with these bytes to persist and these replies.
pub open spec fn applied(
    s0: SyncerView,
    m: MsgView,
    s1: SyncerView,
    out: Option<(Seq<char>, Seq<u8>)>,
    replies: Seq<MsgView>,
) -> bool {
    match m {
        MsgView::Hello { versions, lww_versions } => {
            let their = last_of(versions);
            let files = lww_updates(s0.lww, last_of(lww_versions));
            let n = replies.len() - files.len();
            &&& out is None
            &&& n >= 0
            &&& are_deltas(s0.docs, their, replies.take(n))
            &&& replies.skip(n) == files
            &&& s1 == (SyncerView {
                peer_vv: told(heard(s0.peer_vv, their), replies.take(n)),
                ..s0
            })
        },
        MsgView::TextDelta { path, ops, vv, origin } => delta_applied(
            s0,
            path,
            ops,
            vv,
            origin,
            s1,
            out,
            replies,
        ),
        MsgView::Resync { path } => {
            &&& out is None
            &&& if s0.docs.contains_key(path) {
                &&& replies.len() == 1
                &&& is_whole(s0.docs[path], path, replies[0])
                &&& s1 == (SyncerView { peer_vv: told(s0.peer_vv, replies), ..s0 })
            } else {
                replies == Seq::<MsgView>::empty() && s1 == s0
            }
        },
        MsgView::Lww { path, version, bytes } => {
            &&& replies == Seq::<MsgView>::empty()
            &&& s1 == (SyncerView { lww: lww_applied(s0.lww, path, version, bytes), ..s0 })
            &&& out == (if version > version_of(s0.lww, path) {
                Some((path, bytes))
            } else {
                None
            })
        },
    }
}

/// The files of one peer, and what it knows of the other. Texts are written under
/// a name that no other peer uses.
pub struct Syncer {
    agent: String,
    docs: TextMap<EgWalkerText>,
    peer_vv: TextMap<TextMap<usize>>,
    awaiting: TextMap<()>,
    lww: TextMap<(u64, Vec<u8>)>,
}

/// The texts of a map of replicas.
pub open spec fn doc_views(m: Map<Seq<char>, EgWalkerText>) -> Map<Seq<char>, TextView> {
    m.map_values(|d: EgWalkerText| d@)
}

/// The contents of a map of files.
pub open spec fn file_views(m: Map<Seq<char>, (u64, Vec<u8>)>) -> Map<Seq<char>, (u64, Seq<u8>)> {
    m.map_values(|f: (u64, Vec<u8>)| (f.0, f.1@))
}

/// The contents of a map of knowledge.
pub open spec fn knowledge(m: Map<Seq<char>, TextMap<usize>>) -> Map<
    Seq<char>,
    Map<Seq<char>, usize>,
> {
    m.map_values(|k: TextMap<usize>| k@)
}

impl View for Syncer {
    type V = SyncerView;

    closed spec fn view(&self) -> SyncerView {
        SyncerView {
            agent: self.agent@,
            docs: doc_views(self.docs@),
            peer_vv: knowledge(self.peer_vv@),
            awaiting: self.awaiting@.dom(),
            lww: file_views(self.lww@),
        }
    }
}

/// A copy of a version vector.
fn copy_vv(v: &Vv) -> (r: Vv)
    ensures
        vv_list(r@) == vv_list(v@),
{
    let mut out: Vv = Vec::new();
    let mut i: usize = 0;
    while i < v.len()
        invariant
            i <= v@.len(),
            vv_list(out@) == vv_list(v@).take(i as int),
        decreases v@.len() - i,
    {
        let ghost before = out@;
        out.push((copy_text(v[i].0.as_str()), v[i].1));
        assert(vv_list(out@) =~= vv_list(before).push(vv_list(v@)[i as int]));
        assert(vv_list(v@).take(i + 1) =~= vv_list(v@).take(i as int).push(vv_list(v@)[i as int]));
        i += 1;
    }
    assert(vv_list(v@).take(i as int) =~= vv_list(v@));
    out
}

/// The version vector that a state of knowledge amounts to.
fn known_list(m: &TextMap<usize>) -> (r: Vv)
    requires
        m.wf(),
    ensures
        vv_ids(r@) == known_ids(m@),
{
    let mut out: Vv = Vec::new();
    let mut i: usize = 0;
    while i < m.len()
        invariant
            i <= m.keys().len(),
            m.wf(),
            out@.len() == i,
            forall|j: int|
                0 <= j < i ==> (#[trigger] out@[j]).0@ == m.keys()[j] && out@[j].1 == m@[m.keys()[j]],
        decreases m.keys().len() - i,
    {
        out.push((copy_text(m.key(i)), *m.value(i)));
        i += 1;
    }
    assert forall|id: OpId| vv_ids(out@).contains(id) <==> known_ids(m@).contains(id) by {
        if vv_ids(out@).contains(id) {
            let k = choose|k: int| 0 <= k < out@.len() && ((#[trigger] out@[k]).0@, out@[k].1) == id;
            m.lemma_entry(k);
        }
        if known_ids(m@).contains(id) {
            let k = m.lemma_listed(id.0);
            assert((out@[k].0@, out@[k].1) == id);
        }
    }
    assert(vv_ids(out@) =~= known_ids(m@));
    out
}

/// Notes that the peer holds the events of a version vector.
fn advance(known: &mut TextMap<usize>, vv: &Vv)
    requires
        old(known).wf(),
    ensures
        final(known).wf(),
        final(known)@ == advanced(old(known)@, vv_list(vv@)),
{
    let ghost list = vv_list(vv@);
    let mut i: usize = 0;
    assert(list.take(0) =~= Seq::<OpId>::empty());
    while i < vv.len()
        invariant
            i <= vv@.len(),
            list == vv_list(vv@),
            known.wf(),
            known@ == advanced(old(known)@, list.take(i as int)),
        decreases vv@.len() - i,
    {
        assert(list.take(i + 1).drop_last() =~= list.take(i as int));
        assert(list.take(i + 1).last() == list[i as int]);
        let name = vv[i].0.as_str();
        let seq: usize = vv[i].1;
        let best: usize = match known.get(name) {
            Some(n) => if *n >= seq {
                *n
            } else {
                seq
            },
            None => seq,
        };
        known.insert(name, best);
        i += 1;
    }
    assert(list.take(i as int) =~= list);
}

/// Collects a list of version vectors by path; the last entry for a path counts.
fn collect_versions(v: &Vec<(String, Vv)>) -> (r: TextMap<Vv>)
    ensures
        r.wf(),
        vvs(r@) == last_of(versions_view(v@)),
{
    let ghost list = versions_view(v@);
    let mut out: TextMap<Vv> = TextMap::new();
    let mut i: usize = 0;
    assert(list.take(0) =~= Seq::<(Seq<char>, Seq<OpId>)>::empty());
    assert(vvs(out@) =~= Map::empty());
    while i < v.len()
        invariant
            i <= v@.len(),
            list == versions_view(v@),
            out.wf(),
            vvs(out@) == last_of(list.take(i as int)),
        decreases v@.len() - i,
    {
        assert(list.take(i + 1).drop_last() =~= list.take(i as int));
        assert(list.take(i + 1).last() == list[i as int]);
        let ghost before = out@;
        let vv = copy_vv(&v[i].1);
        let ghost val = vv_list(vv@);
        out.insert(v[i].0.as_str(), vv);
        assert(vvs(out@) =~= vvs(before).insert(v@[i as int].0@, val));
        i += 1;
    }
    assert(list.take(i as int) =~= list);
    out
}

/// The version vectors of a map.
pub open spec fn vvs(m: Map<Seq<char>, Vv>) -> Map<Seq<char>, Seq<OpId>> {
    m.map_values(|v: Vv| vv_list(v@))
}

/// Collects a list of versions by path; the last entry for a path counts.
pub(crate) fn collect_numbers(v: &Vec<(String, u64)>) -> (r: TextMap<u64>)
    ensures
        r.wf(),
        r@ == last_of(numbers_view(v@)),
{
    let ghost list = numbers_view(v@);
    let mut out: TextMap<u64> = TextMap::new();
    let mut i: usize = 0;
    assert(list.take(0) =~= Seq::<(Seq<char>, u64)>::empty());
    while i < v.len()
        invariant
            i <= v@.len(),
            list == numbers_view(v@),
            out.wf(),
            out@ == last_of(list.take(i as int)),
        decreases v@.len() - i,
    {
        assert(list.take(i + 1).drop_last() =~= list.take(i as int));
        assert(list.take(i + 1).last() == list[i as int]);
        out.insert(v[i].0.as_str(), v[i].1);
        i += 1;
    }
    assert(list.take(i as int) =~= list);
    out
}

impl Syncer {
    /// Every part is in order, and every text is written under the peer's name.
    pub closed spec fn wf(&self) -> bool {
        &&& self.agent@ != "ROOT"@
        &&& self.docs.wf()
        &&& self.peer_vv.wf()
        &&& self.awaiting.wf()
        &&& self.lww.wf()
        &&& forall|p: Seq<char>| #[trigger]
            self.docs@.contains_key(p) ==> self.docs@[p].wf() && self.docs@[p]@.agent == self.agent@
        &&& forall|p: Seq<char>| #[trigger] self.peer_vv@.contains_key(p) ==> self.peer_vv@[p].wf()
    }

    /// Every text holds the parents of every event that it holds.
    pub proof fn lemma_complete(&self, path: Seq<char>)
        requires
            self.wf(),
        ensures
            complete(doc_of(self@, path).history()),
    {
        if self@.docs.contains_key(path) {
            self.docs@[path].lemma_complete();
        }
    }

    /// The events of every text have different identities and come after their
    /// parents, and all texts are written under the peer's name.
    pub proof fn lemma_sound(&self, path: Seq<char>)
        requires
            self.wf(),
        ensures
            sound(doc_of(self@, path).events),
            doc_of(self@, path).agent == self@.agent,
    {
        if self@.docs.contains_key(path) {
            self.docs@[path].lemma_sound();
        }
    }

    /// A peer without files that writes under the given name. The name `ROOT` is
    /// taken.
    pub fn new(agent: &str) -> (r: Self)
        requires
            agent@ != "ROOT"@,
        ensures
            r.wf(),
            r@ == (SyncerView {
                agent: agent@,
                docs: Map::empty(),
                peer_vv: Map::empty(),
                awaiting: Set::empty(),
                lww: Map::empty(),
            }),
    {
        let r = Syncer {
            agent: copy_text(agent),
            docs: TextMap::new(),
            peer_vv: TextMap::new(),
            awaiting: TextMap::new(),
            lww: TextMap::new(),
        };
        assert(r@.docs =~= Map::empty());
        assert(r@.peer_vv =~= Map::empty());
        assert(r@.awaiting =~= Set::empty());
        assert(r@.lww =~= Map::empty());
        r
    }

    /// Notes that the peer holds the events of a version vector.
    fn advance_peer_vv(&mut self, path: &str, vv: &Vv)
        requires
            old(self).wf(),
        ensures
            final(self).wf(),
            final(self)@ == (SyncerView {
                peer_vv: noted(old(self)@.peer_vv, path@, vv_list(vv@)),
                ..old(self)@
            }),
    {
        let ghost pv = self.peer_vv@;
        let mut known = match self.peer_vv.remove(path) {
            Some(k) => k,
            None => TextMap::new(),
        };
        assert(known@ == known_of(knowledge(pv), path@));
        advance(&mut known, vv);
        let ghost k = known@;
        self.peer_vv.insert(path, known);
        assert(knowledge(self.peer_vv@) =~= noted(knowledge(pv), path@, vv_list(vv@)));
    }

    /// What the peer is known to hold of a text, as a version vector.
    fn peer_list(&self, path: &str) -> (r: Vv)
        requires
            self.wf(),
        ensures
            vv_ids(r@) == known_ids(known_of(self@.peer_vv, path@)),
    {
        match self.peer_vv.get(path) {
            Some(k) => known_list(k),
            None => {
                let r: Vv = Vec::new();
                assert(vv_ids(r@) =~= known_ids(Map::empty()));
                r
            },
        }
    }

    /// The text under a path.
    pub fn text(&self, path: &str) -> (r: Option<String>)
        requires
            self.wf(),
        ensures
            match r {
                Some(t) => self@.docs.contains_key(path@) && t@ == self@.docs[path@].text(),
                None => !self@.docs.contains_key(path@),
            },
    {
        match self.docs.get(path) {
            Some(d) => Some(d.content()),
            None => None,
        }
    }

    /// The version and the bytes of the file under a path.
    pub fn file(&self, path: &str) -> (r: Option<(u64, Vec<u8>)>)
        requires
            self.wf(),
        ensures
            match r {
                Some(f) => self@.lww.contains_key(path@) && (f.0, f.1@) == self@.lww[path@],
                None => !self@.lww.contains_key(path@),
            },
    {
        match self.lww.get(path) {
            Some(e) => Some((e.0, copy_bytes(e.1.as_slice()))),
            None => None,
        }
    }

    /// The message to send on connect.
    pub fn hello(&self) -> (r: SyncMsg)
        requires
            self.wf(),
        ensures
            is_hello(self@, r@),
    {
        let ghost dk = self.docs.keys();
        let ghost lk = self.lww.keys();
        proof {
            self.docs.lemma_keys();
            self.lww.lemma_keys();
            assert(self@.docs.dom() =~= self.docs@.dom());
            assert(self@.lww.dom() =~= self.lww@.dom());
        }
        let mut versions: Vec<(String, Vv)> = Vec::new();
        let mut i: usize = 0;
        while i < self.docs.len()
            invariant
                i <= dk.len(),
                dk == self.docs.keys(),
                self.wf(),
                versions@.len() == i,
                forall|j: int|
                    0 <= j < i ==> (#[trigger] versions@[j]).0@ == dk[j] && is_version_vector(
                        self@.docs[dk[j]].events,
                        vv_list(versions@[j].1@),
                    ),
            decreases dk.len() - i,
        {
            let doc = self.docs.value(i);
            assert(self@.docs[dk[i as int]] == doc@);
            versions.push((copy_text(self.docs.key(i)), doc.version_vector()));
            i += 1;
        }
        let mut lww_versions: Vec<(String, u64)> = Vec::new();
        let mut n: usize = 0;
        while n < self.lww.len()
            invariant
                n <= lk.len(),
                lk == self.lww.keys(),
                self.wf(),
                lww_versions@.len() == n,
                forall|j: int|
                    0 <= j < n ==> (#[trigger] lww_versions@[j]).0@ == lk[j] && lww_versions@[j].1
                        == self@.lww[lk[j]].0,
            decreases lk.len() - n,
        {
            let f = self.lww.value(n);
            assert(self@.lww[lk[n as int]].0 == f.0);
            lww_versions.push((copy_text(self.lww.key(n)), f.0));
            n += 1;
        }
        let r = SyncMsg::Hello { versions, lww_versions };
        assert(numbers_view(lww_versions@) =~= lk.map_values(
            |p: Seq<char>| (p, self@.lww[p].0),
        ));
        r
    }

    /// The files that the owner of the given versions lacks or has older.
    fn lww_updates_for(&self, their: &TextMap<u64>) -> (r: Vec<SyncMsg>)
        requires
            self.wf(),
            their.wf(),
        ensures
            msgs(r@) == lww_updates(self@.lww, their@),
    {
        let ghost keys = self.lww.keys();
        let ghost m = self@.lww;
        let ghost want = stale(m, their@);
        let ghost f = |p: Seq<char>| MsgView::Lww { path: p, version: m[p].0, bytes: m[p].1 };
        proof {
            self.lww.lemma_keys();
            assert(m.dom() =~= self.lww@.dom());
        }
        let ghost mut picked: Seq<Seq<char>> = Seq::empty();
        let mut out: Vec<SyncMsg> = Vec::new();
        let mut i: usize = 0;
        assert(msgs(out@) =~= picked.map_values(f));
        while i < self.lww.len()
            invariant
                i <= keys.len(),
                keys == self.lww.keys(),
                self.wf(),
                their.wf(),
                m == self@.lww,
                want == stale(m, their@),
                f == (|p: Seq<char>| MsgView::Lww { path: p, version: m[p].0, bytes: m[p].1 }),
                picks(picked, keys.take(i as int), want),
                msgs(out@) == picked.map_values(f),
            decreases keys.len() - i,
        {
            let path = self.lww.key(i);
            let e = self.lww.value(i);
            let ghost pp = path@;
            assert(m.contains_key(pp) && m[pp] == (e.0, e.1@));
            let send = match their.get(path) {
                Some(v) => e.0 > *v,
                None => true,
            };
            proof {
                lemma_picks_step(picked, keys, i as int, want);
            }
            if send {
                let ghost before = out@;
                let ghost was = picked;
                out.push(
                    SyncMsg::Lww {
                        path: copy_text(path),
                        version: e.0,
                        bytes: copy_bytes(e.1.as_slice()),
                    },
                );
                proof {
                    picked = was.push(pp);
                    assert(msgs(out@) =~= msgs(before).push(f(pp)));
                    assert(picked.map_values(f) =~= was.map_values(f).push(f(pp)));
                }
            }
            i += 1;
        }
        proof {
            assert(keys.take(i as int) =~= keys);
            lemma_picks_done(picked, keys, m.dom(), want);
        }
        out
    }

    /// Takes the text under a path out, or a new empty one.
    fn take_doc(&mut self, path: &str) -> (d: EgWalkerText)
        requires
            old(self).wf(),
        ensures
            final(self).wf(),
            d.wf(),
            d@.agent == old(self)@.agent,
            d@ == doc_of(old(self)@, path@),
            final(self)@ == (SyncerView { docs: old(self)@.docs.remove(path@), ..old(self)@ }),
    {
        let ghost m = self.docs@;
        let taken = self.docs.remove(path);
        assert(doc_views(self.docs@) =~= doc_views(m).remove(path@));
        match taken {
            Some(d) => d,
            None => EgWalkerText::new(self.agent.as_str()),
        }
    }

    /// Puts a text under a path.
    fn put_doc(&mut self, path: &str, d: EgWalkerText)
        requires
            old(self).wf(),
            d.wf(),
            d@.agent == old(self)@.agent,
        ensures
            final(self).wf(),
            final(self)@ == (SyncerView { docs: old(self)@.docs.insert(path@, d@), ..old(self)@ }),
    {
        let ghost m = self.docs@;
        let ghost v = d@;
        self.docs.insert(path, d);
        assert(doc_views(self.docs@) =~= doc_views(m).insert(path@, v));
    }

    /// The message that brings the owner of a version vector up to date with a
    /// text, if it lacks anything.
    fn delta_for(doc: &EgWalkerText, path: &str, theirs: &Vv) -> (r: Option<(SyncMsg, Vv)>)
        requires
            doc.wf(),
        ensures
            r is Some <==> exists|e: TextEvent| #[trigger]
                doc@.lacking(vv_ids(theirs@)).contains(e),
            r matches Some((m, vv)) ==> is_delta(doc@, path@, vv_ids(theirs@), m@) && m@
                is TextDelta && m@->TextDelta_vv == vv_list(vv@),
    {
        match doc.ops_since(theirs.as_slice()) {
            Some(ops) => {
                let vv = doc.version_vector();
                let sent = copy_vv(&vv);
                Some(
                    (
                        SyncMsg::TextDelta {
                            path: copy_text(path),
                            ops,
                            vv: sent,
                            origin: doc.origin(),
                        },
                        vv,
                    ),
                )
            },
            None => None,
        }
    }

    /// Takes in a local edit of a text, and returns what to send to the peer: the
    /// events that it is not known to hold, if there are any.
    pub fn local_text(&mut self, path: &str, content: &str) -> (r: Option<SyncMsg>)
        requires
            old(self).wf(),
        ensures
            final(self).wf(),
            text_edited(
                old(self)@,
                path@,
                content@,
                final(self)@,
                match r {
                    Some(m) => Some(m@),
                    None => None,
                },
            ),
            spares_what_is_shared(
                doc_of(old(self)@, path@).text(),
                content@,
                strokes_from(
                    final(self)@.docs[path@].events,
                    doc_of(old(self)@, path@).events.len() as int,
                ),
            ),
    {
        let ghost s0 = self@;
        let peer = self.peer_list(path);
        let mut doc = self.take_doc(path);
        doc.edit_to(content);
        let delta = Self::delta_for(&doc, path, &peer);
        let ghost d1 = doc@;
        self.put_doc(path, doc);
        assert(s0.docs.remove(path@).insert(path@, d1) =~= s0.docs.insert(path@, d1));
        match delta {
            Some((m, vv)) => {
                self.advance_peer_vv(path, &vv);
                proof {
                    lemma_told_one(s0.peer_vv, m@);
                }
                Some(m)
            },
            None => None,
        }
    }

    /// Everything, for a peer of which nothing is known.
    pub fn full_state(&self) -> (r: Vec<SyncMsg>)
        requires
            self.wf(),
        ensures
            ({
                let files = lww_updates(self@.lww, Map::empty());
                let n = msgs(r@).len() - files.len();
                &&& n >= 0
                &&& are_deltas(self@.docs, Map::empty(), msgs(r@).take(n))
                &&& msgs(r@).skip(n) == files
            }),
    {
        let nothing: TextMap<Vv> = TextMap::new();
        let ghost d = self@.docs;
        let (deltas, _) = self.deltas_for(&nothing);
        assert(vvs(nothing@) =~= Map::empty());
        let none: TextMap<u64> = TextMap::new();
        let files = self.lww_updates_for(&none);
        join_msgs(deltas, files)
    }

    /// The messages that bring the owner of the given version vectors up to date
    /// with every text that it is behind with, and the path and version vector of
    /// each.
    fn deltas_for(&self, their: &TextMap<Vv>) -> (r: (Vec<SyncMsg>, Vec<(String, Vv)>))
        requires
            self.wf(),
            their.wf(),
        ensures
            are_deltas(self@.docs, vvs(their@), msgs(r.0@)),
            r.1@.len() == r.0@.len(),
            forall|i: int|
                0 <= i < r.0@.len() ==> carries((#[trigger] r.0@[i])@, r.1@[i]),
    {
        let ghost keys = self.docs.keys();
        let ghost m = self@.docs;
        let ghost tv = vvs(their@);
        let ghost want = behind(m, tv);
        proof {
            self.docs.lemma_keys();
            assert(m.dom() =~= self.docs@.dom());
        }
        let ghost mut picked: Seq<Seq<char>> = Seq::empty();
        let mut out: Vec<SyncMsg> = Vec::new();
        let mut sent: Vec<(String, Vv)> = Vec::new();
        let mut i: usize = 0;
        while i < self.docs.len()
            invariant
                i <= keys.len(),
                keys == self.docs.keys(),
                self.wf(),
                their.wf(),
                m == self@.docs,
                tv == vvs(their@),
                want == behind(m, tv),
                picks(picked, keys.take(i as int), want),
                out@.len() == picked.len(),
                sent@.len() == out@.len(),
                forall|j: int|
                    0 <= j < out@.len() ==> is_delta(
                        m[picked[j]],
                        picked[j],
                        theirs_for(tv, picked[j]),
                        (#[trigger] out@[j])@,
                    ),
                forall|j: int| 0 <= j < out@.len() ==> carries((#[trigger] out@[j])@, sent@[j]),
            decreases keys.len() - i,
        {
            let path = self.docs.key(i);
            let doc = self.docs.value(i);
            let ghost pp = path@;
            assert(m.contains_key(pp) && m[pp] == doc@);
            let theirs: Vv = match their.get(path) {
                Some(v) => copy_vv(v),
                None => Vec::new(),
            };
            proof {
                lemma_vv_ids(theirs@);
                assert(vv_ids(theirs@) =~= theirs_for(tv, pp));
                lemma_picks_step(picked, keys, i as int, want);
            }
            match Self::delta_for(doc, path, &theirs) {
                Some((msg, vv)) => {
                    assert(want.contains(pp));
                    out.push(msg);
                    sent.push((copy_text(path), vv));
                    proof {
                        picked = picked.push(pp);
                    }
                },
                None => {
                    assert(!want.contains(pp));
                },
            }
            i += 1;
        }
        proof {
            assert(keys.take(i as int) =~= keys);
            lemma_picks_done(picked, keys, m.dom(), want);
        }
        (out, sent)
    }

    /// Whether a file can get one more local version.
    pub fn can_write(&self, path: &str) -> (r: bool)
        requires
            self.wf(),
        ensures
            r == (version_of(self@.lww, path@) < u64::MAX),
    {
        match self.lww.get(path) {
            Some(e) => e.0 < u64::MAX,
            None => true,
        }
    }

    /// Takes in a local write of a whole file. Its version is the time, or one
    /// more than the last version where the time is not later.
    pub fn local_lww(&mut self, path: &str, bytes: Vec<u8>, now: u64) -> (r: SyncMsg)
        requires
            old(self).wf(),
            version_of(old(self)@.lww, path@) < u64::MAX,
        ensures
            final(self).wf(),
            file_written(old(self)@, path@, bytes@, now, final(self)@, r@),
    {
        let last: u64 = match self.lww.get(path) {
            Some(e) => e.0,
            None => 0,
        };
        let version: u64 = if now > last {
            now
        } else {
            last + 1
        };
        let ghost m = self.lww@;
        let kept = copy_bytes(bytes.as_slice());
        self.lww.insert(path, (version, kept));
        assert(file_views(self.lww@) =~= file_views(m).insert(path@, (version, bytes@)));
        SyncMsg::Lww { path: copy_text(path), version, bytes }
    }

    /// Takes in a message from the peer, and returns what to persist and what to
    /// send back.
    pub fn apply(&mut self, msg: SyncMsg) -> (r: (Option<(String, Vec<u8>)>, Vec<SyncMsg>))
        requires
            old(self).wf(),
            can_take(old(self)@, msg@),
        ensures
            final(self).wf(),
            applied(
                old(self)@,
                msg@,
                final(self)@,
                match r.0 {
                    Some(f) => Some((f.0@, f.1@)),
                    None => None,
                },
                msgs(r.1@),
            ),
    {
        match msg {
            SyncMsg::Hello { versions, lww_versions } => (
                None,
                self.apply_hello(&versions, &lww_versions),
            ),
            SyncMsg::TextDelta { path, ops, vv, origin } => self.apply_delta(path, &ops, &vv, &origin),
            SyncMsg::Resync { path } => (None, self.apply_resync(path)),
            SyncMsg::Lww { path, version, bytes } => {
                let none: Vec<SyncMsg> = Vec::new();
                assert(msgs(none@) =~= Seq::empty());
                (self.apply_lww(path, version, bytes), none)
            },
        }
    }

    fn apply_hello(&mut self, versions: &Vec<(String, Vv)>, lww_versions: &Vec<(String, u64)>) -> (r: Vec<
        SyncMsg,
    >)
        requires
            old(self).wf(),
        ensures
            final(self).wf(),
            applied(
                old(self)@,
                MsgView::Hello {
                    versions: versions_view(versions@),
                    lww_versions: numbers_view(lww_versions@),
                },
                final(self)@,
                None,
                msgs(r@),
            ),
    {
        let ghost s0 = self@;
        let their = collect_versions(versions);
        let ghost tv = vvs(their@);
        let ghost keys = their.keys();
        let mut i: usize = 0;
        assert(heard_upto(s0.peer_vv, tv, keys.take(0)) =~= s0.peer_vv);
        while i < their.len()
            invariant
                i <= keys.len(),
                keys == their.keys(),
                their.wf(),
                tv == vvs(their@),
                self.wf(),
                self@ == (SyncerView {
                    peer_vv: heard_upto(s0.peer_vv, tv, keys.take(i as int)),
                    ..s0
                }),
            decreases keys.len() - i,
        {
            let ghost pv = self@.peer_vv;
            let path = their.key(i);
            let vv = their.value(i);
            assert(tv[path@] == vv_list(vv@));
            self.advance_peer_vv(path, vv);
            proof {
                lemma_heard_step(s0.peer_vv, tv, keys, i as int);
            }
            i += 1;
        }
        proof {
            assert(keys.take(i as int) =~= keys);
            their.lemma_keys();
            assert forall|p: Seq<char>| keys.contains(p) <==> tv.contains_key(p) by {
                assert(keys.to_set().contains(p) <==> their@.contains_key(p));
            }
            assert(heard_upto(s0.peer_vv, tv, keys) =~= heard(s0.peer_vv, tv));
        }
        let (deltas, sent) = self.deltas_for(&their);
        let ghost dv = msgs(deltas@);
        let ghost pv = self@.peer_vv;
        let mut k: usize = 0;
        assert(dv.take(0) =~= Seq::<MsgView>::empty());
        while k < sent.len()
            invariant
                k <= sent@.len(),
                sent@.len() == deltas@.len(),
                dv == msgs(deltas@),
                forall|j: int| 0 <= j < deltas@.len() ==> carries((#[trigger] deltas@[j])@, sent@[j]),
                self.wf(),
                self@ == (SyncerView { peer_vv: told(pv, dv.take(k as int)), ..s0 }),
            decreases sent@.len() - k,
        {
            assert(carries(deltas@[k as int]@, sent@[k as int]));
            assert(dv.take(k + 1).drop_last() =~= dv.take(k as int));
            assert(dv.take(k + 1).last() == deltas@[k as int]@);
            self.advance_peer_vv(sent[k].0.as_str(), &sent[k].1);
            k += 1;
        }
        assert(dv.take(k as int) =~= dv);
        let their_lww = collect_numbers(lww_versions);
        let files = self.lww_updates_for(&their_lww);
        let r = join_msgs(deltas, files);
        proof {
            let n = msgs(r@).len() - msgs(files@).len();
            assert(msgs(r@).take(n) =~= dv);
            assert(msgs(r@).skip(n) =~= msgs(files@));
        }
        r
    }

    fn apply_delta(&mut self, path: String, ops: &Vec<u8>, vv: &Vv, origin: &Origin) -> (r: (
        Option<(String, Vec<u8>)>,
        Vec<SyncMsg>,
    ))
        requires
            old(self).wf(),
            can_take(
                old(self)@,
                MsgView::TextDelta {
                    path: path@,
                    ops: ops@,
                    vv: vv_list(vv@),
                    origin: origin_view(*origin),
                },
            ),
        ensures
            final(self).wf(),
            delta_applied(
                old(self)@,
                path@,
                ops@,
                vv_list(vv@),
                origin_view(*origin),
                final(self)@,
                match r.0 {
                    Some(f) => Some((f.0@, f.1@)),
                    None => None,
                },
                msgs(r.1@),
            ),
    {
        let ghost s0 = self@;
        let none: Vec<SyncMsg> = Vec::new();
        assert(msgs(none@) =~= Seq::<MsgView>::empty());
        let mine: Origin = match self.docs.get(path.as_str()) {
            Some(d) => d.origin(),
            None => None,
        };
        if let (Some(m), Some(t)) = (&mine, origin) {
            if m.1 != t.1 || !same_text(m.0.as_str(), t.0.as_str()) {
                assert(conflicts(s0, path@, origin_view(*origin)));
                if text_less(m.0.as_str(), t.0.as_str()) {
                    let mut fresh = EgWalkerText::new(self.agent.as_str());
                    assert(fresh@.history() =~= Set::empty());
                    if fresh.merge(ops.as_slice()) {
                        let content = text_bytes(fresh.content().as_str());
                        self.put_doc(path.as_str(), fresh);
                        self.advance_peer_vv(path.as_str(), vv);
                        return (Some((path, content)), none);
                    }
                    let ask = ask_resync(path);
                    return (None, ask);
                }
                self.advance_peer_vv(path.as_str(), vv);
                return (None, none);
            }
        }
        assert(!conflicts(s0, path@, origin_view(*origin)));
        let mut doc = self.take_doc(path.as_str());
        let taken = doc.merge(ops.as_slice());
        let ghost d1 = doc@;
        let content = doc.content();
        self.put_doc(path.as_str(), doc);
        assert(s0.docs.remove(path@).insert(path@, d1) =~= s0.docs.insert(path@, d1));
        if !taken {
            let ghost aw = self.awaiting@;
            let asked = self.awaiting.contains_key(path.as_str());
            self.awaiting.insert(path.as_str(), ());
            assert(self@.awaiting =~= s0.awaiting.insert(path@));
            if asked {
                return (None, none);
            }
            let ask = ask_resync(path);
            return (None, ask);
        }
        self.awaiting.remove(path.as_str());
        assert(self@.awaiting =~= s0.awaiting.remove(path@));
        self.advance_peer_vv(path.as_str(), vv);
        let bytes = text_bytes(content.as_str());
        (Some((path, bytes)), none)
    }

    fn apply_resync(&mut self, path: String) -> (r: Vec<SyncMsg>)
        requires
            old(self).wf(),
        ensures
            final(self).wf(),
            applied(old(self)@, MsgView::Resync { path: path@ }, final(self)@, None, msgs(r@)),
    {
        let ghost s0 = self@;
        let mut out: Vec<SyncMsg> = Vec::new();
        let (ops, vv, origin) = match self.docs.get(path.as_str()) {
            Some(doc) => {
                assert(s0.docs[path@] == doc@);
                (doc.encode_full(), doc.version_vector(), doc.origin())
            },
            None => {
                assert(msgs(out@) =~= Seq::<MsgView>::empty());
                return out;
            },
        };
        let sent = copy_vv(&vv);
        self.advance_peer_vv(path.as_str(), &vv);
        out.push(SyncMsg::TextDelta { path, ops, vv: sent, origin });
        proof {
            assert(msgs(out@) =~= seq![out@[0]@]);
            lemma_told_one(s0.peer_vv, out@[0]@);
        }
        out
    }

    fn apply_lww(&mut self, path: String, version: u64, bytes: Vec<u8>) -> (r: Option<
        (String, Vec<u8>),
    >)
        requires
            old(self).wf(),
        ensures
            final(self).wf(),
            final(self)@ == (SyncerView {
                lww: lww_applied(old(self)@.lww, path@, version, bytes@),
                ..old(self)@
            }),
            match r {
                Some(f) => version > version_of(old(self)@.lww, path@) && f.0@ == path@ && f.1@
                    == bytes@,
                None => version <= version_of(old(self)@.lww, path@),
            },
    {
        let ghost m = self.lww@;
        let ghost before = self@.lww;
        let (held, last) = match self.lww.get(path.as_str()) {
            Some(e) => (true, e.0),
            None => (false, 0),
        };
        if version > last {
            let kept = copy_bytes(bytes.as_slice());
            self.lww.insert(path.as_str(), (version, kept));
            assert(self@.lww =~= before.insert(path@, (version, bytes@)));
            Some((path, bytes))
        } else {
            if !held {
                let empty: Vec<u8> = Vec::new();
                let ghost ev = empty@;
                self.lww.insert(path.as_str(), (0, empty));
                assert(self@.lww =~= before.insert(path@, (0, ev)));
                assert(ev =~= Seq::<u8>::empty());
            } else {
                assert(before =~= lww_applied(before, path@, version, bytes@));
            }
            None
        }
    }
}

/// A request for a whole text.
fn ask_resync(path: String) -> (r: Vec<SyncMsg>)
    ensures
        msgs(r@) == seq![MsgView::Resync { path: path@ }],
{
    let mut out: Vec<SyncMsg> = Vec::new();
    let ghost p = path@;
    out.push(SyncMsg::Resync { path });
    assert(msgs(out@) =~= seq![MsgView::Resync { path: p }]);
    out
}

/// Two lists of messages, one behind the other.
fn join_msgs(a: Vec<SyncMsg>, b: Vec<SyncMsg>) -> (r: Vec<SyncMsg>)
    ensures
        msgs(r@) == msgs(a@) + msgs(b@),
        msgs(r@).take(msgs(r@).len() - msgs(b@).len()) == msgs(a@),
        msgs(r@).skip(msgs(r@).len() - msgs(b@).len()) == msgs(b@),
{
    let ghost av = a@;
    let ghost bv = b@;
    let mut out = a;
    let mut rest = b;
    out.append(&mut rest);
    assert(msgs(out@) =~= msgs(av) + msgs(bv));
    assert(msgs(out@).take(msgs(out@).len() - msgs(bv).len()) =~= msgs(av));
    assert(msgs(out@).skip(msgs(out@).len() - msgs(bv).len()) =~= msgs(bv));
    out
}

/// The message carries a delta for this path with this version vector.
spec fn carries(m: MsgView, e: (String, Vv)) -> bool {
    m is TextDelta && m->TextDelta_path == e.0@ && m->TextDelta_vv == vv_list(e.1@)
}

/// The knowledge after the version vectors of some paths have been heard.
spec fn heard_upto(
    pv: Map<Seq<char>, Map<Seq<char>, usize>>,
    their: Map<Seq<char>, Seq<OpId>>,
    paths: Seq<Seq<char>>,
) -> Map<Seq<char>, Map<Seq<char>, usize>> {
    Map::new(
        |p: Seq<char>| pv.contains_key(p) || paths.contains(p),
        |p: Seq<char>|
            if paths.contains(p) {
                advanced(known_of(pv, p), their[p])
            } else {
                pv[p]
            },
    )
}

proof fn lemma_heard_step(
    pv: Map<Seq<char>, Map<Seq<char>, usize>>,
    their: Map<Seq<char>, Seq<OpId>>,
    keys: Seq<Seq<char>>,
    i: int,
)
    requires
        0 <= i < keys.len(),
        crate::textmap::ascending(keys),
    ensures
        heard_upto(pv, their, keys.take(i + 1)) == noted(
            heard_upto(pv, their, keys.take(i)),
            keys[i],
            their[keys[i]],
        ),
{
    crate::textmap::lemma_ascending_distinct(keys);
    let a = keys.take(i);
    let b = keys.take(i + 1);
    let k = keys[i];
    assert forall|y: Seq<char>| #[trigger] b.contains(y) <==> a.contains(y) || y == k by {
        if a.contains(y) {
            assert(b[a.index_of(y)] == y);
        }
        if y == k {
            assert(b[i] == y);
        }
        if b.contains(y) && y != k {
            assert(a[b.index_of(y)] == y);
        }
    }
    if a.contains(k) {
        assert(keys[a.index_of(k)] == keys[i]);
    }
    assert(heard_upto(pv, their, b) =~= noted(heard_upto(pv, their, a), k, their[k]));
}

proof fn lemma_told_one(pv: Map<Seq<char>, Map<Seq<char>, usize>>, m: MsgView)
    requires
        m is TextDelta,
    ensures
        told(pv, seq![m]) == noted(pv, m->TextDelta_path, m->TextDelta_vv),
{
    assert(seq![m].drop_last() =~= Seq::<MsgView>::empty());
    assert(told(pv, Seq::<MsgView>::empty()) == pv);
}

/// The message advertises all texts and files.
pub open spec fn is_hello(s: SyncerView, m: MsgView) -> bool {
    match m {
        MsgView::Hello { versions, lww_versions } => {
            let paths = in_order(s.docs.dom());
            &&& versions.len() == paths.len()
            &&& forall|i: int|
                0 <= i < versions.len() ==> (#[trigger] versions[i]).0 == paths[i] && is_version_vector(
                    s.docs[paths[i]].events,
                    versions[i].1,
                )
            &&& lww_versions == in_order(s.lww.dom()).map_values(
                |p: Seq<char>| (p, s.lww[p].0),
            )
        },
        _ => false,
    }
}

// ---------------------------------------------------------------------------
// Laws
// ---------------------------------------------------------------------------

/// A report never takes back what a peer is known to hold, and adds what it
/// names.
pub proof fn law_knowledge_never_regresses(
    known: Map<Seq<char>, usize>,
    vv: Seq<OpId>,
    agent: Seq<char>,
)
    ensures
        known.contains_key(agent) ==> advanced(known, vv).contains_key(agent) && advanced(
            known,
            vv,
        )[agent] >= known[agent],
        forall|i: int|
            0 <= i < vv.len() ==> advanced(known, vv).contains_key((#[trigger] vv[i]).0) && advanced(
                known,
                vv,
            )[vv[i].0] >= vv[i].1,
    decreases vv.len(),
{
    if vv.len() > 0 {
        law_knowledge_never_regresses(known, vv.drop_last(), agent);
        assert forall|i: int| 0 <= i < vv.len() implies advanced(known, vv).contains_key(
            (#[trigger] vv[i]).0,
        ) && advanced(known, vv)[vv[i].0] >= vv[i].1 by {
            if i < vv.len() - 1 {
                assert(vv.drop_last()[i] == vv[i]);
            }
        }
    }
}

/// Of whole files the newest version wins whatever the order of arrival: a
/// version never falls, the same update a second time changes nothing, and two
/// updates of one file commute unless they give one version different bytes.
pub proof fn law_newest_file_wins(
    lww: Map<Seq<char>, (u64, Seq<u8>)>,
    path: Seq<char>,
    v: u64,
    b: Seq<u8>,
    w: u64,
    c: Seq<u8>,
)
    requires
        v == w ==> b == c,
    ensures
        version_of(lww_applied(lww, path, v, b), path) >= version_of(lww, path),
        version_of(lww_applied(lww, path, v, b), path) >= v,
        lww_applied(lww_applied(lww, path, v, b), path, v, b) == lww_applied(lww, path, v, b),
        lww_applied(lww_applied(lww, path, v, b), path, w, c) == lww_applied(
            lww_applied(lww, path, w, c),
            path,
            v,
            b,
        ),
{
    let x = lww_applied(lww, path, v, b);
    let y = lww_applied(lww, path, w, c);
    assert(lww_applied(x, path, v, b) =~= x);
    assert(lww_applied(x, path, w, c) =~= lww_applied(y, path, v, b));
}

/// No message sets off an endless exchange: a handshake is answered with deltas
/// and files only, a request for a whole text with one delta at most, a delta
/// with one request at most and with none while an earlier one is open, and a
/// file with nothing.
pub proof fn law_exchange_ends(
    s0: SyncerView,
    m: MsgView,
    s1: SyncerView,
    out: Option<(Seq<char>, Seq<u8>)>,
    replies: Seq<MsgView>,
)
    requires
        applied(s0, m, s1, out, replies),
    ensures
        m is Hello ==> forall|i: int|
            0 <= i < replies.len() ==> (#[trigger] replies[i]) is TextDelta || replies[i] is Lww,
        m is Resync ==> replies.len() <= 1 && forall|i: int|
            0 <= i < replies.len() ==> (#[trigger] replies[i]) is TextDelta,
        m is TextDelta ==> replies.len() <= 1 && forall|i: int|
            0 <= i < replies.len() ==> (#[trigger] replies[i]) is Resync,
        m matches MsgView::TextDelta { path, ops, vv, origin } ==> (s0.awaiting.contains(path)
            && !conflicts(s0, path, origin) ==> replies.len() == 0),
        m is Lww ==> replies.len() == 0,
{
    match m {
        MsgView::Hello { versions, lww_versions } => {
            let files = lww_updates(s0.lww, last_of(lww_versions));
            let n = replies.len() - files.len();
            assert forall|i: int| 0 <= i < replies.len() implies (#[trigger] replies[i]) is TextDelta
                || replies[i] is Lww by {
                if i < n {
                    assert(replies.take(n)[i] == replies[i]);
                } else {
                    assert(replies.skip(n)[i - n] == replies[i]);
                }
            }
        },
        _ => {},
    }
}

/// A replica that is sent what it lacks, by its own version vector, holds the
/// events of both sides afterwards and persists the text that they amount to.
/// Texts that were made independently under one path, and identities that stand
/// for two events, are left out.
pub proof fn law_answer_converges(
    sa: SyncerView,
    sb: SyncerView,
    path: Seq<char>,
    va: Set<OpId>,
    m: MsgView,
    sa1: SyncerView,
    out: Option<(Seq<char>, Seq<u8>)>,
    replies: Seq<MsgView>,
)
    requires
        sb.docs.contains_key(path),
        complete(doc_of(sa, path).history()),
        complete(sb.docs[path].history()),
        agree(sb.docs[path].history(), doc_of(sa, path).history()),
        fits(doc_of(sa, path).doc, sb.docs[path].doc, doc_of(sa, path).events.len() == 0),
        va.subset_of(ids(doc_of(sa, path).history())),
        is_delta(sb.docs[path], path, va, m),
        !conflicts(sa, path, sb.docs[path].origin()),
        applied(sa, m, sa1, out, replies),
    ensures
        sa1.docs[path].history() == sb.docs[path].history().union(doc_of(sa, path).history()),
        out == Some((path, encode_utf8(sa1.docs[path].text()))),
        replies.len() == 0,
{
    let d = sb.docs[path];
    let known = va.intersect(ids(d.history()));
    let base = choose|base: Set<OpId>| #[trigger]
        boils_down(d.history(), known, base) && is_patch_of(
            d,
            base,
            d.lacking(va),
            m->TextDelta_ops,
        );
    assert(from_peer(m->TextDelta_ops, doc_of(sa, path).history()));
    law_answer_brings_up_to_date(d.history(), doc_of(sa, path).history(), va, base);
}

/// A message leads from one state to the other, whatever is persisted and replied.
pub open spec fn receives(s0: SyncerView, m: MsgView, s1: SyncerView) -> bool {
    exists|out: Option<(Seq<char>, Seq<u8>)>, replies: Seq<MsgView>| #[trigger]
        applied(s0, m, s1, out, replies)
}

/// The messages lead through these states, one after the other.
pub open spec fn receives_all(states: Seq<SyncerView>, ms: Seq<MsgView>) -> bool {
    &&& states.len() == ms.len() + 1
    &&& forall|i: int|
        0 <= i < ms.len() ==> #[trigger] receives(states[i], ms[i], states[i + 1])
}

/// The texts of two peers can be merged: no identity stands for two events, and
/// no path for two documents.
pub open spec fn compatible(sa: SyncerView, sb: SyncerView) -> bool {
    forall|p: Seq<char>| #[trigger]
        sa.docs.contains_key(p) ==> {
            let a = sa.docs[p];
            let b = doc_of(sb, p);
            &&& complete(a.history())
            &&& complete(b.history())
            &&& agree(a.history(), b.history())
            &&& fits(b.doc, a.doc, b.events.len() == 0)
            &&& !conflicts(sb, p, a.origin())
        }
}

proof fn lemma_last_of<T>(list: Seq<(Seq<char>, T)>, k: Seq<char>) -> (i: int)
    ensures
        last_of(list).contains_key(k) ==> 0 <= i < list.len() && list[i].0 == k && list[i].1
            == last_of(list)[k],
        forall|j: int| 0 <= j < list.len() && (#[trigger] list[j]).0 == k ==> last_of(list).contains_key(k),
    decreases list.len(),
{
    if list.len() == 0 {
        0
    } else if list.last().0 == k {
        list.len() - 1
    } else {
        let front = list.drop_last();
        let i = lemma_last_of(front, k);
        assert forall|j: int| 0 <= j < list.len() && (#[trigger] list[j]).0 == k implies last_of(
            list,
        ).contains_key(k) by {
            if j < list.len() - 1 {
                assert(front[j].0 == k);
            }
        }
        i
    }
}

/// A handshake names only events that its sender holds.
proof fn lemma_hello_is_held(
    sb: SyncerView,
    versions: Seq<(Seq<char>, Seq<OpId>)>,
    lww_versions: Seq<(Seq<char>, u64)>,
    p: Seq<char>,
)
    requires
        sb.docs.dom().finite(),
        is_hello(sb, MsgView::Hello { versions, lww_versions }),
    ensures
        theirs_for(last_of(versions), p).subset_of(ids(doc_of(sb, p).history())),
{
    let i = lemma_last_of(versions, p);
    if last_of(versions).contains_key(p) {
        let paths = in_order(sb.docs.dom());
        lemma_in_order_exists(sb.docs.dom());
        assert(versions[i].0 == paths[i]);
        assert(paths.contains(paths[i]));
        assert(paths.to_set().contains(p));
        lemma_vector_is_held(sb.docs[p].events, versions[i].1);
    }
}

/// A handshake names the version of each file.
proof fn lemma_hello_versions(sb: SyncerView, lww_versions: Seq<(Seq<char>, u64)>, p: Seq<char>)
    requires
        sb.lww.dom().finite(),
        lww_versions == in_order(sb.lww.dom()).map_values(|p: Seq<char>| (p, sb.lww[p].0)),
    ensures
        last_of(lww_versions).contains_key(p) == sb.lww.contains_key(p),
        sb.lww.contains_key(p) ==> last_of(lww_versions)[p] == sb.lww[p].0,
{
    let paths = in_order(sb.lww.dom());
    lemma_in_order_exists(sb.lww.dom());
    let i = lemma_last_of(lww_versions, p);
    if last_of(lww_versions).contains_key(p) {
        assert(lww_versions[i] == (paths[i], sb.lww[paths[i]].0));
        assert(paths.to_set().contains(paths[i]));
    }
    if sb.lww.contains_key(p) {
        assert(paths.to_set().contains(p));
        let j = paths.index_of(p);
        assert(lww_versions[j].0 == p);
    }
}

/// The texts after the first `i` replies.
spec fn texts_so_far(
    sa: SyncerView,
    sb: SyncerView,
    paths: Seq<Seq<char>>,
    i: int,
    s: SyncerView,
) -> bool {
    &&& s.agent == sb.agent
    &&& s.lww == sb.lww
    &&& forall|j: int|
        0 <= j < i ==> doc_of(s, #[trigger] paths[j]).history() == sa.docs[paths[j]].history().union(
            doc_of(sb, paths[j]).history(),
        )
    &&& forall|p: Seq<char>|
        !paths.take(i).contains(p) ==> #[trigger] same_doc(s, sb, p)
}

/// The path has the same text in both states.
spec fn same_doc(s: SyncerView, t: SyncerView, p: Seq<char>) -> bool {
    s.docs.contains_key(p) == t.docs.contains_key(p) && doc_of(s, p) == doc_of(t, p)
}

/// The path has the same file in both states.
spec fn same_file(s: SyncerView, t: SyncerView, p: Seq<char>) -> bool {
    s.lww.contains_key(p) == t.lww.contains_key(p) && s.lww[p] == t.lww[p]
}

proof fn lemma_texts_arrive(
    sa: SyncerView,
    sb: SyncerView,
    their: Map<Seq<char>, Seq<OpId>>,
    paths: Seq<Seq<char>>,
    states: Seq<SyncerView>,
    ms: Seq<MsgView>,
    i: int,
)
    requires
        0 <= i <= paths.len() <= ms.len(),
        receives_all(states, ms),
        states[0] == sb,
        compatible(sa, sb),
        crate::textmap::ascending(paths),
        forall|j: int| 0 <= j < paths.len() ==> sa.docs.contains_key(#[trigger] paths[j]),
        forall|p: Seq<char>|
            (#[trigger] theirs_for(their, p)).subset_of(ids(doc_of(sb, p).history())),
        forall|j: int|
            0 <= j < paths.len() ==> is_delta(
                sa.docs[paths[j]],
                paths[j],
                theirs_for(their, paths[j]),
                #[trigger] ms[j],
            ),
    ensures
        texts_so_far(sa, sb, paths, i, states[i]),
    decreases i,
{
    if i > 0 {
        let k = i - 1;
        lemma_texts_arrive(sa, sb, their, paths, states, ms, k);
        crate::textmap::lemma_ascending_distinct(paths);
        let s0 = states[k];
        let s1 = states[i];
        let p = paths[k];
        assert(receives(states[k], ms[k], states[k + 1]));
        let (out, replies) = choose|out: Option<(Seq<char>, Seq<u8>)>, replies: Seq<MsgView>|
            #[trigger] applied(s0, ms[k], s1, out, replies);
        let front = paths.take(k);
        assert(!front.contains(p)) by {
            if front.contains(p) {
                let j = front.index_of(p);
                assert(paths[j] == paths[k]);
            }
        }
        assert(same_doc(s0, sb, p));
        assert(sa.docs.contains_key(p));
        let va = theirs_for(their, p);
        assert(!conflicts(s0, p, sa.docs[p].origin())) by {
            assert(s0.docs.contains_key(p) == sb.docs.contains_key(p));
            if s0.docs.contains_key(p) {
                assert(s0.docs[p] == doc_of(s0, p));
                assert(sb.docs[p] == doc_of(sb, p));
            }
        }
        law_answer_converges(s0, sa, p, va, ms[k], s1, out, replies);
        assert(s1.docs == s0.docs.insert(p, s1.docs[p]));
        assert(paths.take(i) =~= front.push(p));
        assert forall|j: int| 0 <= j < i implies doc_of(s1, #[trigger] paths[j]).history()
            == sa.docs[paths[j]].history().union(doc_of(sb, paths[j]).history()) by {
            if j < k {
                assert(paths[j] != p);
                assert(doc_of(s1, paths[j]) == doc_of(s0, paths[j]));
            }
        }
        assert forall|q: Seq<char>| !paths.take(i).contains(q) implies #[trigger] same_doc(
            s1,
            sb,
            q,
        ) by {
            assert(q != p) by {
                assert(paths.take(i)[k] == p);
            }
            if front.contains(q) {
                let j = front.index_of(q);
                assert(paths.take(i)[j] == q);
            }
            assert(same_doc(s0, sb, q));
        }
        assert(s1.agent == sb.agent);
        assert(s1.lww == sb.lww);
    }
}

/// The files after the first `i` of them.
spec fn files_so_far(
    sa: SyncerView,
    s0: SyncerView,
    paths: Seq<Seq<char>>,
    i: int,
    s: SyncerView,
) -> bool {
    &&& s.docs == s0.docs
    &&& s.agent == s0.agent
    &&& forall|j: int|
        0 <= j < i ==> s.lww.contains_key(#[trigger] paths[j]) && s.lww[paths[j]] == lww_applied(
            s0.lww,
            paths[j],
            sa.lww[paths[j]].0,
            sa.lww[paths[j]].1,
        )[paths[j]]
    &&& forall|p: Seq<char>|
        !paths.take(i).contains(p) ==> #[trigger] same_file(s, s0, p)
}

proof fn lemma_files_arrive(
    sa: SyncerView,
    paths: Seq<Seq<char>>,
    states: Seq<SyncerView>,
    ms: Seq<MsgView>,
    n: int,
    i: int,
)
    requires
        0 <= n,
        0 <= i <= paths.len(),
        ms.len() == n + paths.len(),
        receives_all(states, ms),
        crate::textmap::ascending(paths),
        forall|j: int|
            0 <= j < paths.len() ==> ms[n + j] == (MsgView::Lww {
                path: #[trigger] paths[j],
                version: sa.lww[paths[j]].0,
                bytes: sa.lww[paths[j]].1,
            }),
    ensures
        files_so_far(sa, states[n], paths, i, states[n + i]),
    decreases i,
{
    if i > 0 {
        let k = i - 1;
        lemma_files_arrive(sa, paths, states, ms, n, k);
        crate::textmap::lemma_ascending_distinct(paths);
        let s0 = states[n + k];
        let s1 = states[n + i];
        let p = paths[k];
        assert(receives(states[n + k], ms[n + k], states[n + k + 1]));
        let (out, replies) = choose|out: Option<(Seq<char>, Seq<u8>)>, replies: Seq<MsgView>|
            #[trigger] applied(s0, ms[n + k], s1, out, replies);
        let front = paths.take(k);
        assert(!front.contains(p)) by {
            if front.contains(p) {
                let j = front.index_of(p);
                assert(paths[j] == paths[k]);
            }
        }
        assert(same_file(s0, states[n], p));
        assert(version_of(s0.lww, p) == version_of(states[n].lww, p));
        assert(s1.lww == lww_applied(s0.lww, p, sa.lww[p].0, sa.lww[p].1));
        assert(paths.take(i) =~= front.push(p));
        assert forall|j: int| 0 <= j < i implies s1.lww.contains_key(#[trigger] paths[j])
            && s1.lww[paths[j]] == lww_applied(
            states[n].lww,
            paths[j],
            sa.lww[paths[j]].0,
            sa.lww[paths[j]].1,
        )[paths[j]] by {
            if j < k {
                assert(paths[j] != p);
            }
        }
        assert forall|q: Seq<char>| !paths.take(i).contains(q) implies #[trigger] same_file(
            s1,
            states[n],
            q,
        ) by {
            assert(q != p) by {
                assert(paths.take(i)[k] == p);
            }
            if front.contains(q) {
                let j = front.index_of(q);
                assert(paths.take(i)[j] == q);
            }
            assert(same_file(s0, states[n], q));
        }
        assert(s1.docs == s0.docs);
        assert(s1.agent == s0.agent);
    }
}

/// A handshake brings a peer up to date, be it new or long away: once it has taken
/// in the replies, it holds the events of both sides in every text of the other,
/// and the newer version of each of the other's files. Files that are not newer
/// stay as they were.
pub proof fn law_handshake_brings_up_to_date(
    sa: SyncerView,
    sb: SyncerView,
    hello: MsgView,
    sa1: SyncerView,
    replies: Seq<MsgView>,
    states: Seq<SyncerView>,
)
    requires
        sa.docs.dom().finite(),
        sa.lww.dom().finite(),
        sb.docs.dom().finite(),
        sb.lww.dom().finite(),
        compatible(sa, sb),
        is_hello(sb, hello),
        applied(sa, hello, sa1, None, replies),
        receives_all(states, replies),
        states[0] == sb,
    ensures
        forall|p: Seq<char>| #[trigger]
            sa.docs.contains_key(p) ==> doc_of(states.last(), p).history()
                == sa.docs[p].history().union(doc_of(sb, p).history()),
        forall|p: Seq<char>| #[trigger]
            sa.lww.contains_key(p) ==> if !sb.lww.contains_key(p) || sa.lww[p].0 > sb.lww[p].0 {
                sa.lww[p].0 > 0 ==> states.last().lww.contains_key(p) && states.last().lww[p]
                    == sa.lww[p]
            } else {
                states.last().lww.contains_key(p) && states.last().lww[p] == sb.lww[p]
            },
{
    let versions = hello->Hello_versions;
    let numbers = hello->Hello_lww_versions;
    let their = last_of(versions);
    let theirs = last_of(numbers);
    let files = lww_updates(sa.lww, theirs);
    let n = replies.len() - files.len();
    let paths = in_order(behind(sa.docs, their));
    let names = in_order(stale(sa.lww, theirs));
    let last = states.last();
    let mid = states[n];
    lemma_in_order_exists(behind(sa.docs, their));
    lemma_in_order_exists(stale(sa.lww, theirs));
    assert forall|p: Seq<char>|
        (#[trigger] theirs_for(their, p)).subset_of(ids(doc_of(sb, p).history())) by {
        lemma_hello_is_held(sb, versions, numbers, p);
    }
    assert forall|j: int| 0 <= j < paths.len() implies sa.docs.contains_key(#[trigger] paths[j]) by {
        assert(paths.to_set().contains(paths[j]));
    }
    assert forall|j: int| 0 <= j < paths.len() implies is_delta(
        sa.docs[paths[j]],
        paths[j],
        theirs_for(their, paths[j]),
        #[trigger] replies[j],
    ) by {
        assert(replies.take(n)[j] == replies[j]);
    }
    lemma_texts_arrive(sa, sb, their, paths, states, replies, n);
    assert forall|j: int| 0 <= j < names.len() implies replies[n + j] == (MsgView::Lww {
        path: #[trigger] names[j],
        version: sa.lww[names[j]].0,
        bytes: sa.lww[names[j]].1,
    }) by {
        assert(replies.skip(n)[j] == files[j]);
    }
    lemma_files_arrive(sa, names, states, replies, n, names.len() as int);
    assert(states[n + names.len()] == last);
    assert(paths.take(n) =~= paths);
    assert(names.take(names.len() as int) =~= names);
    assert forall|p: Seq<char>| #[trigger] sa.docs.contains_key(p) implies doc_of(last, p).history()
        == sa.docs[p].history().union(doc_of(sb, p).history()) by {
        assert(doc_of(last, p) == doc_of(mid, p));
        if behind(sa.docs, their).contains(p) {
            assert(paths.to_set().contains(p));
            let j = paths.index_of(p);
            assert(paths[j] == p);
        } else {
            if paths.contains(p) {
                assert(paths.to_set().contains(p));
            }
            assert(same_doc(mid, sb, p));
            let a = sa.docs[p].history();
            let b = doc_of(sb, p).history();
            let vv = theirs_for(their, p);
            lemma_answer_completes(a, b, vv);
            assert(sa.docs[p].lacking(vv) =~= Set::empty());
            assert(folded(b, Set::empty()) =~= b);
        }
    }
    assert forall|p: Seq<char>| #[trigger] sa.lww.contains_key(p) implies (if !sb.lww.contains_key(
        p,
    ) || sa.lww[p].0 > sb.lww[p].0 {
        sa.lww[p].0 > 0 ==> last.lww.contains_key(p) && last.lww[p] == sa.lww[p]
    } else {
        last.lww.contains_key(p) && last.lww[p] == sb.lww[p]
    }) by {
        lemma_hello_versions(sb, numbers, p);
        if stale(sa.lww, theirs).contains(p) {
            assert(names.to_set().contains(p));
            let j = names.index_of(p);
            assert(names[j] == p);
        } else {
            if names.contains(p) {
                assert(names.to_set().contains(p));
            }
            assert(same_file(last, mid, p));
        }
    }
}

/// A whole text heals whatever a replica had missed.
pub proof fn law_whole_text_heals(
    sa: SyncerView,
    sb: SyncerView,
    path: Seq<char>,
    m: MsgView,
    sa1: SyncerView,
    out: Option<(Seq<char>, Seq<u8>)>,
    replies: Seq<MsgView>,
)
    requires
        sb.docs.contains_key(path),
        complete(sb.docs[path].history()),
        agree(sb.docs[path].history(), doc_of(sa, path).history()),
        fits(doc_of(sa, path).doc, sb.docs[path].doc, doc_of(sa, path).events.len() == 0),
        is_whole(sb.docs[path], path, m),
        !conflicts(sa, path, sb.docs[path].origin()),
        applied(sa, m, sa1, out, replies),
    ensures
        sa1.docs[path].history() == sb.docs[path].history().union(doc_of(sa, path).history()),
        out is Some,
        !sa1.awaiting.contains(path),
{
    let b = sb.docs[path].history();
    let a = doc_of(sa, path).history();
    assert(can_fold(a, Set::<OpId>::empty(), b));
    assert(from_peer(m->TextDelta_ops, a));
    assert forall|e: TextEvent| b.contains(e) implies folded(a, b).contains(e) by {
        if ids(a).contains(e.id) {
            let f = choose|f: TextEvent| #[trigger] a.contains(f) && f.id == e.id;
            assert(e == f);
        }
    }
    assert(folded(a, b) =~= b.union(a));
}

/// Two texts made independently under one path are not mixed up: of two peers
/// that send each other their whole text, both end with the one whose first
/// event has the greater author. Texts whose first events have one author are
/// left out.
pub proof fn law_independent_texts_do_not_mix(
    sa: SyncerView,
    sb: SyncerView,
    path: Seq<char>,
    ma: MsgView,
    mb: MsgView,
    sa1: SyncerView,
    sb1: SyncerView,
    outa: Option<(Seq<char>, Seq<u8>)>,
    outb: Option<(Seq<char>, Seq<u8>)>,
    ra: Seq<MsgView>,
    rb: Seq<MsgView>,
)
    requires
        sa.docs.contains_key(path),
        sb.docs.contains_key(path),
        complete(sb.docs[path].history()),
        sa.docs[path].origin() is Some,
        sb.docs[path].origin() is Some,
        text_lt(sa.docs[path].origin()->Some_0.0, sb.docs[path].origin()->Some_0.0),
        is_whole(sa.docs[path], path, ma),
        is_whole(sb.docs[path], path, mb),
        applied(sa, mb, sa1, outa, ra),
        applied(sb, ma, sb1, outb, rb),
    ensures
        sa1.docs[path].history() == sb.docs[path].history(),
        sb1.docs[path] == sb.docs[path],
        sa1.docs[path].text() == sb1.docs[path].text(),
        outa is Some,
        outb is None,
{
    let oa = sa.docs[path].origin()->Some_0;
    let ob = sb.docs[path].origin()->Some_0;
    crate::chars::lemma_text_lt_asymmetric(oa.0, ob.0);
    let b = sb.docs[path].history();
    let fresh = TextView { agent: sa.agent, doc: None, events: Seq::empty() };
    assert(fresh.history() =~= Set::empty());
    assert(can_fold(fresh.history(), Set::<OpId>::empty(), b));
    assert(agree(b, fresh.history()));
    assert(from_peer(mb->TextDelta_ops, fresh.history()));
    assert forall|id: OpId| !ids(fresh.history()).contains(id) by {}
    assert(folded(fresh.history(), b) =~= b);
}

// ---------------------------------------------------------------------------
// Peers that follow each other
// ---------------------------------------------------------------------------

/// What one peer takes the other to hold of a text, the other holds.
pub open spec fn knows_rightly(sa: SyncerView, sb: SyncerView, path: Seq<char>) -> bool {
    known_ids(known_of(sa.peer_vv, path)).subset_of(ids(doc_of(sb, path).history()))
}

/// Two peers whose copies of a text are paired and of one origin.
pub open spec fn akin(sa: SyncerView, sb: SyncerView, path: Seq<char>) -> bool {
    let a = doc_of(sa, path);
    let b = doc_of(sb, path);
    &&& paired(a, b)
    &&& one_root(a.history())
    &&& one_root(b.history())
    &&& a.origin() is Some && b.origin() is Some ==> a.origin() == b.origin()
}

/// Two peers whose copies of a text are paired, of one origin, and rightly known to
/// each other.
pub open spec fn in_touch(sa: SyncerView, sb: SyncerView, path: Seq<char>) -> bool {
    &&& akin(sa, sb, path)
    &&& knows_rightly(sa, sb, path)
    &&& knows_rightly(sb, sa, path)
}

/// New peers with different names are in touch.
pub proof fn law_new_peers_are_in_touch(sa: SyncerView, sb: SyncerView, path: Seq<char>)
    requires
        sa.agent != sb.agent,
        sa.docs == Map::<Seq<char>, TextView>::empty(),
        sb.docs == Map::<Seq<char>, TextView>::empty(),
        sa.peer_vv == Map::<Seq<char>, Map<Seq<char>, usize>>::empty(),
        sb.peer_vv == Map::<Seq<char>, Map<Seq<char>, usize>>::empty(),
    ensures
        in_touch(sa, sb, path),
{
}

/// Peers whose texts are akin can merge them, whatever got lost on the way: a
/// handshake brings them together.
pub proof fn law_akin_peers_are_compatible(sa: SyncerView, sb: SyncerView)
    requires
        forall|p: Seq<char>| #[trigger] akin(sa, sb, p),
    ensures
        compatible(sa, sb),
        compatible(sb, sa),
{
    assert forall|p: Seq<char>| #[trigger] sa.docs.contains_key(p) implies {
        let a = sa.docs[p];
        let b = doc_of(sb, p);
        &&& complete(a.history())
        &&& complete(b.history())
        &&& agree(a.history(), b.history())
        &&& fits(b.doc, a.doc, b.events.len() == 0)
        &&& !conflicts(sb, p, a.origin())
    } by {
        assert(akin(sa, sb, p));
        law_paired_replicas_can_merge(doc_of(sa, p), doc_of(sb, p));
    }
    assert forall|p: Seq<char>| #[trigger] sb.docs.contains_key(p) implies {
        let b = sb.docs[p];
        let a = doc_of(sa, p);
        &&& complete(b.history())
        &&& complete(a.history())
        &&& agree(b.history(), a.history())
        &&& fits(a.doc, b.doc, a.events.len() == 0)
        &&& !conflicts(sa, p, b.origin())
    } by {
        assert(akin(sa, sb, p));
        law_paired_replicas_can_merge(doc_of(sa, p), doc_of(sb, p));
    }
}

/// Texts are akin both ways.
pub proof fn law_akin_is_mutual(sa: SyncerView, sb: SyncerView, path: Seq<char>)
    requires
        akin(sa, sb, path),
    ensures
        akin(sb, sa, path),
{
    law_pairing_is_mutual(doc_of(sa, path), doc_of(sb, path));
}

/// What a peer sends of a text another gets through reading, where no identity
/// stands for two events.
pub proof fn law_peers_can_read_each_other(
    d: TextView,
    theirs: Set<OpId>,
    path: Seq<char>,
    m: MsgView,
    sb: SyncerView,
)
    requires
        is_delta(d, path, theirs, m) || is_whole(d, path, m),
        agree(d.history(), doc_of(sb, path).history()),
    ensures
        can_take(sb, m),
{
    assert(agree(d.history(), Set::empty()));
}

/// A local edit leaves texts akin, whether or not the peer gets to know of it. A
/// text that both begin on their own is left out.
pub proof fn law_edits_keep_peers_akin(
    sa: SyncerView,
    sb: SyncerView,
    path: Seq<char>,
    content: Seq<char>,
    sa1: SyncerView,
    m: Option<MsgView>,
    p: Seq<char>,
)
    requires
        akin(sa, sb, p),
        text_edited(sa, path, content, sa1, m),
        sound(sa1.docs[path].events),
        doc_of(sa, path).events.len() == 0 ==> doc_of(sb, path).events.len() == 0,
    ensures
        akin(sa1, sb, p),
{
    let a0 = doc_of(sa, path);
    let a1 = sa1.docs[path];
    if p == path {
        law_edits_keep_replicas_paired(a0, rewrite(a0.text(), content), a1, doc_of(sb, path));
        law_edits_keep_one_root(a0, rewrite(a0.text(), content), a1);
        if a0.events.len() > 0 {
            assert(a1.events[0] == a0.events[0]);
        }
    }
}

/// A report adds only what it names to what is known.
proof fn lemma_advanced_ids(known: Map<Seq<char>, usize>, vv: Seq<OpId>)
    ensures
        known_ids(advanced(known, vv)).subset_of(known_ids(known).union(vv.to_set())),
    decreases vv.len(),
{
    if vv.len() > 0 {
        let front = vv.drop_last();
        lemma_advanced_ids(known, front);
        let before = advanced(known, front);
        assert forall|id: OpId| #[trigger]
            known_ids(advanced(known, vv)).contains(id) implies known_ids(known).union(
            vv.to_set(),
        ).contains(id) by {
            if id == vv.last() {
                assert(vv[vv.len() - 1] == id);
            } else {
                assert(known_ids(before).contains(id));
                if front.to_set().contains(id) {
                    assert(vv[front.index_of(id)] == id);
                }
            }
        }
    }
}

proof fn lemma_known_after(
    pv: Map<Seq<char>, Map<Seq<char>, usize>>,
    path: Seq<char>,
    vv: Seq<OpId>,
    held: Set<OpId>,
)
    requires
        known_ids(known_of(pv, path)).subset_of(held),
        vv.to_set().subset_of(held),
    ensures
        known_ids(known_of(noted(pv, path, vv), path)).subset_of(held),
{
    lemma_advanced_ids(known_of(pv, path), vv);
}

/// A real edit gives something to send, where the peers are in touch.
pub proof fn law_real_edits_are_sent(
    sa: SyncerView,
    sb: SyncerView,
    path: Seq<char>,
    content: Seq<char>,
    sa1: SyncerView,
    m: Option<MsgView>,
)
    requires
        in_touch(sa, sb, path),
        text_edited(sa, path, content, sa1, m),
        sound(sa1.docs[path].events),
        content != doc_of(sa, path).text(),
    ensures
        m is Some,
        sa1.docs[path].events.len() > 0,
{
    let a = doc_of(sa, path);
    let a1 = sa1.docs[path];
    if a1.events.len() == a.events.len() {
        assert(a1.events =~= a.events);
    }
    let known = known_ids(known_of(sa.peer_vv, path));
    law_new_edits_are_lacking(a, rewrite(a.text(), content), a1, doc_of(sb, path), known);
}

/// An edit reaches the peer: of two peers that are in touch one edits the text and
/// the other gets what the edit gave to send. The other takes it, persists its text
/// with the events of both and asks for nothing, and both stay in touch. Where both
/// had written before they knew of each other, see the law on independent texts.
pub proof fn law_edits_reach_the_peer(
    sa: SyncerView,
    sb: SyncerView,
    path: Seq<char>,
    content: Seq<char>,
    sa1: SyncerView,
    m: MsgView,
    sb1: SyncerView,
    out: Option<(Seq<char>, Seq<u8>)>,
    replies: Seq<MsgView>,
)
    requires
        in_touch(sa, sb, path),
        text_edited(sa, path, content, sa1, Some(m)),
        sound(sa1.docs[path].events),
        doc_of(sa, path).events.len() == 0 ==> doc_of(sb, path).events.len() == 0,
        applied(sb, m, sb1, out, replies),
    ensures
        can_take(sb, m),
        sb1.docs[path].history() == sa1.docs[path].history().union(doc_of(sb, path).history()),
        out == Some((path, encode_utf8(sb1.docs[path].text()))),
        replies.len() == 0,
        in_touch(sa1, sb1, path),
        doc_of(sb, path).history().subset_of(doc_of(sa, path).history())
            ==> sb1.docs[path].text() == content,
{
    lemma_edit_is_taken(sa, sb, path, content, sa1, m, sb, sb1, out, replies);
    let a1 = sa1.docs[path];
    let b1 = sb1.docs[path];
    let vv = m->TextDelta_vv;
    lemma_vector_is_held(a1.events, vv);
    lemma_told_one(sa.peer_vv, m);
    lemma_ids_grow(a1.history(), b1.history());
    lemma_ids_grow(doc_of(sb, path).history(), b1.history());
    lemma_ids_grow(doc_of(sa, path).history(), a1.history());
    lemma_known_after(sa.peer_vv, path, vv, ids(b1.history()));
    lemma_known_after(sb.peer_vv, path, vv, ids(a1.history()));
    if doc_of(sb, path).history().subset_of(doc_of(sa, path).history()) {
        assert(b1.history() =~= a1.history());
    }
}

/// What an edit gave to send is taken by a peer that has gone on from one that was
/// in touch.
proof fn lemma_edit_is_taken(
    sa: SyncerView,
    sb: SyncerView,
    path: Seq<char>,
    content: Seq<char>,
    sa1: SyncerView,
    m: MsgView,
    sc: SyncerView,
    sc1: SyncerView,
    out: Option<(Seq<char>, Seq<u8>)>,
    replies: Seq<MsgView>,
)
    requires
        in_touch(sa, sb, path),
        text_edited(sa, path, content, sa1, Some(m)),
        sound(sa1.docs[path].events),
        paired(doc_of(sa, path), doc_of(sc, path)),
        one_root(doc_of(sc, path).history()),
        doc_of(sb, path).history().subset_of(doc_of(sc, path).history()),
        doc_of(sa, path).events.len() == 0 ==> doc_of(sc, path).events.len() == 0,
        doc_of(sc, path).origin() is Some && doc_of(sa, path).origin() is Some ==> doc_of(
            sc,
            path,
        ).origin() == doc_of(sa, path).origin(),
        applied(sc, m, sc1, out, replies),
    ensures
        can_take(sc, m),
        !conflicts(sc, path, sa1.docs[path].origin()),
        sc1.docs.contains_key(path),
        sc1.docs[path].history() == sa1.docs[path].history().union(doc_of(sc, path).history()),
        sc1.docs[path].events.len() > 0 && doc_of(sc, path).events.len() > 0
            ==> sc1.docs[path].origin() == doc_of(sc, path).origin(),
        sc1.docs[path].origin() is Some && sa1.docs[path].origin() is Some
            ==> sc1.docs[path].origin() == sa1.docs[path].origin(),
        paired(sa1.docs[path], sc1.docs[path]),
        sc1.docs[path].agent == doc_of(sc, path).agent,
        one_root(sa1.docs[path].history()),
        one_root(sc1.docs[path].history()),
        doc_of(sa, path).history().subset_of(sa1.docs[path].history()),
        out == Some((path, encode_utf8(sc1.docs[path].text()))),
        replies.len() == 0,
        sc1.peer_vv == noted(sc.peer_vv, path, m->TextDelta_vv),
{
    let a0 = doc_of(sa, path);
    let a1 = sa1.docs[path];
    let c = doc_of(sc, path);
    law_edits_keep_replicas_paired(a0, rewrite(a0.text(), content), a1, c);
    let known = known_ids(known_of(sa.peer_vv, path));
    lemma_ids_grow(doc_of(sb, path).history(), c.history());
    if a0.events.len() > 0 {
        assert(a1.events[0] == a0.events[0]);
    }
    assert(is_answer(a1, known, m->TextDelta_ops));
    law_answers_are_taken(
        a1,
        known,
        m->TextDelta_ops,
        c,
        out is Some,
        sc1.docs[path],
    );
    let c1 = sc1.docs[path];
    law_edits_keep_one_root(a0, rewrite(a0.text(), content), a1);
    law_one_origin_is_one_root(a1, c);
    if c.events.len() > 0 {
        assert(c1.events[0] == c.events[0]);
    } else {
        assert(c1.history() =~= a1.history());
        law_the_root_is_the_origin(a1, c1);
    }
}

/// Concurrent edits converge: of two peers that are in touch and both hold the text
/// both edit it, and each gets what the edit of the other gave to send. Both take
/// it, hold the events of both and show the same text, and stay in touch.
pub proof fn law_concurrent_edits_converge(
    sa: SyncerView,
    sb: SyncerView,
    path: Seq<char>,
    ca: Seq<char>,
    cb: Seq<char>,
    sa1: SyncerView,
    sb1: SyncerView,
    ma: MsgView,
    mb: MsgView,
    sa2: SyncerView,
    sb2: SyncerView,
    outa: Option<(Seq<char>, Seq<u8>)>,
    outb: Option<(Seq<char>, Seq<u8>)>,
    ra: Seq<MsgView>,
    rb: Seq<MsgView>,
)
    requires
        in_touch(sa, sb, path),
        doc_of(sa, path).events.len() > 0,
        doc_of(sb, path).events.len() > 0,
        text_edited(sa, path, ca, sa1, Some(ma)),
        text_edited(sb, path, cb, sb1, Some(mb)),
        sound(sa1.docs[path].events),
        sound(sb1.docs[path].events),
        applied(sa1, mb, sa2, outa, ra),
        applied(sb1, ma, sb2, outb, rb),
    ensures
        can_take(sa1, mb),
        can_take(sb1, ma),
        sa2.docs[path].history() == sa1.docs[path].history().union(sb1.docs[path].history()),
        sb2.docs[path].history() == sa2.docs[path].history(),
        sa2.docs[path].text() == sb2.docs[path].text(),
        outa == Some((path, encode_utf8(sa2.docs[path].text()))),
        outb == Some((path, encode_utf8(sb2.docs[path].text()))),
        ra.len() == 0,
        rb.len() == 0,
        in_touch(sa2, sb2, path),
{
    let a0 = doc_of(sa, path);
    let b0 = doc_of(sb, path);
    let a1 = sa1.docs[path];
    let b1 = sb1.docs[path];
    assert(a1.events[0] == a0.events[0]);
    assert(b1.events[0] == b0.events[0]);
    law_pairing_is_mutual(a0, b0);
    law_edits_keep_replicas_paired(b0, rewrite(b0.text(), cb), b1, a0);
    law_edits_keep_replicas_paired(a0, rewrite(a0.text(), ca), a1, b0);
    law_pairing_is_mutual(b1, a0);
    law_pairing_is_mutual(a1, b0);
    assert(in_touch(sb, sa, path));
    law_edits_keep_one_root(a0, rewrite(a0.text(), ca), a1);
    law_edits_keep_one_root(b0, rewrite(b0.text(), cb), b1);
    lemma_edit_is_taken(sa, sb, path, ca, sa1, ma, sb1, sb2, outb, rb);
    lemma_edit_is_taken(sb, sa, path, cb, sb1, mb, sa1, sa2, outa, ra);
    assert(sa2.docs[path].history() =~= sa1.docs[path].history().union(sb1.docs[path].history()));
    assert(sb2.docs[path].history() =~= sa2.docs[path].history());
    let a2 = sa2.docs[path];
    let b2 = sb2.docs[path];
    law_replicas_with_one_history_are_paired(a2, b2);
    law_the_root_is_the_origin(a2, b2);
    lemma_vector_is_held(a1.events, ma->TextDelta_vv);
    lemma_vector_is_held(b1.events, mb->TextDelta_vv);
    lemma_told_one(sa.peer_vv, ma);
    lemma_told_one(sb.peer_vv, mb);
    lemma_ids_grow(a0.history(), a1.history());
    lemma_ids_grow(b0.history(), b1.history());
    lemma_ids_grow(a1.history(), a2.history());
    lemma_ids_grow(b1.history(), a2.history());
    lemma_known_after(sa.peer_vv, path, ma->TextDelta_vv, ids(a2.history()));
    lemma_known_after(sa1.peer_vv, path, mb->TextDelta_vv, ids(a2.history()));
    lemma_known_after(sb.peer_vv, path, mb->TextDelta_vv, ids(a2.history()));
    lemma_known_after(sb1.peer_vv, path, ma->TextDelta_vv, ids(a2.history()));
}

proof fn lemma_ids_grow(h: Set<TextEvent>, more: Set<TextEvent>)
    requires
        h.subset_of(more),
    ensures
        ids(h).subset_of(ids(more)),
{
    assert forall|id: OpId| #[trigger] ids(h).contains(id) implies ids(more).contains(id) by {
        let e = choose|e: TextEvent| #[trigger] h.contains(e) && e.id == id;
        assert(more.contains(e));
    }
}

// ---------------------------------------------------------------------------
// What is kept, sent and asked for
// ---------------------------------------------------------------------------

/// A received file is kept where its version is newer than the one that is held, with
/// its bytes; else what is held stays. No other file is touched.
pub proof fn law_received_files_are_kept_by_version(
    lww: Map<Seq<char>, (u64, Seq<u8>)>,
    path: Seq<char>,
    version: u64,
    bytes: Seq<u8>,
    q: Seq<char>,
)
    ensures
        lww.contains_key(path) && version > lww[path].0 || !lww.contains_key(path) && version > 0
            ==> lww_applied(lww, path, version, bytes)[path] == (version, bytes),
        lww.contains_key(path) && version <= lww[path].0 ==> lww_applied(
            lww,
            path,
            version,
            bytes,
        )[path] == lww[path],
        q != path ==> (lww_applied(lww, path, version, bytes).contains_key(q)
            <==> lww.contains_key(q)) && (lww.contains_key(q) ==> lww_applied(
            lww,
            path,
            version,
            bytes,
        )[q] == lww[q]),
{
}

/// A file that is written here gets a version that is newer than the one it had and not
/// behind the time, and its bytes reach every peer that has no newer version.
pub proof fn law_written_files_reach_the_peer(
    sa: SyncerView,
    path: Seq<char>,
    bytes: Seq<u8>,
    now: u64,
    sa1: SyncerView,
    m: MsgView,
    sb: SyncerView,
    sb1: SyncerView,
    out: Option<(Seq<char>, Seq<u8>)>,
    replies: Seq<MsgView>,
)
    requires
        sa.lww.contains_key(path) ==> sa.lww[path].0 < u64::MAX,
        file_written(sa, path, bytes, now, sa1, m),
        applied(sb, m, sb1, out, replies),
    ensures
        sa1.lww.contains_key(path) && sa1.lww[path].1 == bytes,
        sa1.lww[path].0 >= now,
        sa.lww.contains_key(path) ==> sa1.lww[path].0 > sa.lww[path].0,
        sa1.lww[path].0 > 0,
        !sb.lww.contains_key(path) || sb.lww[path].0 < sa1.lww[path].0 ==> {
            &&& out == Some((path, bytes))
            &&& sb1.lww.contains_key(path)
            &&& sb1.lww[path] == sa1.lww[path]
        },
        sb.lww.contains_key(path) && sb.lww[path].0 >= sa1.lww[path].0 ==> out is None && sb1.lww[path]
            == sb.lww[path],
        sb1.docs == sb.docs,
        sa1.docs == sa.docs,
{
}

/// A delta that builds on events that are not held here changes no text and is answered
/// with a request for the whole text, once until the text has come.
pub proof fn law_gaps_are_asked_for_once(
    s0: SyncerView,
    path: Seq<char>,
    ops: Seq<u8>,
    vv: Seq<OpId>,
    origin: Option<OpId>,
    s1: SyncerView,
    out: Option<(Seq<char>, Seq<u8>)>,
    replies: Seq<MsgView>,
)
    requires
        applied(s0, MsgView::TextDelta { path, ops, vv, origin }, s1, out, replies),
        !conflicts(s0, path, origin),
        patch_parts(ops) matches Some((doc, base, events)) ==> !base.subset_of(
            ids(doc_of(s0, path).history()),
        ),
    ensures
        out is None,
        doc_of(s1, path) == doc_of(s0, path),
        s1.awaiting.contains(path),
        !s0.awaiting.contains(path) ==> replies == seq![MsgView::Resync { path }],
        s0.awaiting.contains(path) ==> replies.len() == 0,
{
}

/// A request for a whole text is answered with it, where there is one.
pub proof fn law_requests_are_answered(
    s0: SyncerView,
    path: Seq<char>,
    s1: SyncerView,
    out: Option<(Seq<char>, Seq<u8>)>,
    replies: Seq<MsgView>,
)
    requires
        applied(s0, MsgView::Resync { path }, s1, out, replies),
    ensures
        out is None,
        s1.docs == s0.docs,
        s0.docs.contains_key(path) ==> replies.len() == 1 && replies[0] is TextDelta
            && replies[0]->TextDelta_path == path && patch_parts(replies[0]->TextDelta_ops) == Some(
            (s0.docs[path].doc, Set::<OpId>::empty(), s0.docs[path].history()),
        ) && replies[0]->TextDelta_origin == s0.docs[path].origin(),
        !s0.docs.contains_key(path) ==> replies.len() == 0,
{
}

/// An edit that changes the text is sent to every peer that is not known to have seen
/// more than was held here before; the text is then the new one.
pub proof fn law_unseen_edits_are_sent(
    s0: SyncerView,
    path: Seq<char>,
    content: Seq<char>,
    s1: SyncerView,
    m: Option<MsgView>,
)
    requires
        text_edited(s0, path, content, s1, m),
        sound(s1.docs[path].events),
        content != doc_of(s0, path).text(),
        forall|a: Seq<char>, n: usize|
            s0.peer_vv.contains_key(path) && #[trigger] s0.peer_vv[path].contains_key(a)
                && s0.peer_vv[path][a] == n && #[trigger] ids(s1.docs[path].history()).contains((a, n))
                ==> ids(doc_of(s0, path).history()).contains((a, n)),
    ensures
        s1.docs.contains_key(path),
        s1.docs[path].text() == content,
        m matches Some(x) && x is TextDelta && x->TextDelta_path == path,
        forall|q: Seq<char>| q != path ==> (#[trigger] s1.docs.contains_key(q)
            <==> s0.docs.contains_key(q)) && (s0.docs.contains_key(q) ==> s1.docs[q] == s0.docs[q]),
        s1.lww == s0.lww,
{
    let d0 = doc_of(s0, path);
    let d1 = s1.docs[path];
    let known = known_ids(known_of(s0.peer_vv, path));
    if d1.events.len() == d0.events.len() {
        assert(d1.events =~= d0.events);
    }
    assert forall|id: OpId| #[trigger]
        known.contains(id) && ids(d1.history()).contains(id) implies ids(d0.history()).contains(
        id,
    ) by {
        assert(s0.peer_vv.contains_key(path));
        assert(s0.peer_vv[path].contains_key(id.0));
        assert(ids(s1.docs[path].history()).contains((id.0, id.1)));
    }
    law_new_edits_are_lacking_to_all(d0, rewrite(d0.text(), content), d1, known);
}

/// A handshake between peers that are level sets off nothing.
pub proof fn law_level_peers_send_nothing(
    sa: SyncerView,
    sb: SyncerView,
    hello: MsgView,
    sa1: SyncerView,
    out: Option<(Seq<char>, Seq<u8>)>,
    replies: Seq<MsgView>,
)
    requires
        sa.docs.dom().finite(),
        sa.lww.dom().finite(),
        sa.docs.dom() == sb.docs.dom(),
        sa.lww == sb.lww,
        forall|p: Seq<char>| #[trigger]
            sa.docs.contains_key(p) ==> sa.docs[p].history() == sb.docs[p].history() && sound(
                sa.docs[p].events,
            ) && sound(sb.docs[p].events),
        is_hello(sb, hello),
        applied(sa, hello, sa1, out, replies),
    ensures
        replies.len() == 0,
        out is None,
        sa1.docs == sa.docs,
        sa1.lww == sa.lww,
{
    let versions = hello->Hello_versions;
    let numbers = hello->Hello_lww_versions;
    let their = last_of(versions);
    let theirs = last_of(numbers);
    let paths = in_order(sb.docs.dom());
    lemma_in_order_exists(sb.docs.dom());
    assert forall|p: Seq<char>| !behind(sa.docs, their).contains(p) by {
        if sa.docs.contains_key(p) {
            assert(paths.to_set().contains(p));
            let k = paths.index_of(p);
            assert(versions[k].0 == p);
            let i = lemma_last_of(versions, p);
            assert(versions[i].0 == paths[i] && paths[i] == p);
            law_answers_hold_only_the_gap(sa.docs[p], sb.docs[p], versions[i].1);
        }
    }
    assert(behind(sa.docs, their) =~= Set::<Seq<char>>::empty());
    let names = in_order(sb.lww.dom());
    lemma_in_order_exists(sb.lww.dom());
    assert forall|p: Seq<char>| !stale(sa.lww, theirs).contains(p) by {
        if sa.lww.contains_key(p) {
            assert(names.to_set().contains(p));
            let k = names.index_of(p);
            assert(numbers[k] == (p, sb.lww[p].0));
            let i = lemma_last_of(numbers, p);
            assert(numbers[i] == (names[i], sb.lww[names[i]].0));
        }
    }
    assert(stale(sa.lww, theirs) =~= Set::<Seq<char>>::empty());
    lemma_in_order_exists(Set::<Seq<char>>::empty());
    let none = in_order(Set::<Seq<char>>::empty());
    if none.len() > 0 {
        assert(none.to_set().contains(none[0]));
    }
}

/// What was sent of a text counts as known to the peer from there on, and so does what the
/// peer reported or sent itself; what is known of other texts stays.
pub proof fn law_what_was_sent_is_known(
    pv: Map<Seq<char>, Map<Seq<char>, usize>>,
    m: MsgView,
    i: int,
    q: Seq<char>,
)
    requires
        m is TextDelta,
        0 <= i < m->TextDelta_vv.len(),
        q != m->TextDelta_path,
    ensures
        ({
            let path = m->TextDelta_path;
            let (agent, n) = m->TextDelta_vv[i];
            let after_sending = told(pv, seq![m]);
            &&& after_sending.contains_key(path)
            &&& after_sending[path].contains_key(agent)
            &&& after_sending[path][agent] >= n
            &&& after_sending.contains_key(q) <==> pv.contains_key(q)
            &&& pv.contains_key(q) ==> after_sending[q] == pv[q]
            &&& noted(pv, path, m->TextDelta_vv) == after_sending
        }),
{
    lemma_told_one(pv, m);
    law_knowledge_never_regresses(
        known_of(pv, m->TextDelta_path),
        m->TextDelta_vv,
        m->TextDelta_vv[i].0,
    );
}

/// What a handshake reports of a text counts as known to the peer.
pub proof fn law_what_was_reported_is_known(
    pv: Map<Seq<char>, Map<Seq<char>, usize>>,
    their: Map<Seq<char>, Seq<OpId>>,
    path: Seq<char>,
    i: int,
)
    requires
        their.contains_key(path),
        0 <= i < their[path].len(),
    ensures
        heard(pv, their).contains_key(path),
        heard(pv, their)[path].contains_key(their[path][i].0),
        heard(pv, their)[path][their[path][i].0] >= their[path][i].1,
        forall|q: Seq<char>|
            !their.contains_key(q) ==> (#[trigger] heard(pv, their).contains_key(q)
                <==> pv.contains_key(q)) && (pv.contains_key(q) ==> heard(pv, their)[q] == pv[q]),
{
    law_knowledge_never_regresses(known_of(pv, path), their[path], their[path][i].0);
}

/// An edit ships the change alone: to a peer that is known to hold the text as it was, the
/// message carries what the edit added and nothing else.
pub proof fn law_edits_ship_the_change_alone(
    s0: SyncerView,
    path: Seq<char>,
    content: Seq<char>,
    s1: SyncerView,
    m: MsgView,
    vv: Seq<OpId>,
)
    requires
        text_edited(s0, path, content, s1, Some(m)),
        sound(s1.docs[path].events),
        is_version_vector(doc_of(s0, path).events, vv),
        forall|i: int|
            0 <= i < vv.len() ==> s0.peer_vv.contains_key(path) && s0.peer_vv[path].contains_key(
                (#[trigger] vv[i]).0,
            ) && s0.peer_vv[path][vv[i].0] == vv[i].1,
        forall|a: Seq<char>, n: usize|
            s0.peer_vv.contains_key(path) && #[trigger] s0.peer_vv[path].contains_key(a)
                && s0.peer_vv[path][a] == n && #[trigger] ids(s1.docs[path].history()).contains((a, n))
                ==> ids(doc_of(s0, path).history()).contains((a, n)),
    ensures
        m is TextDelta,
        m->TextDelta_path == path,
        patch_parts(m->TextDelta_ops) matches Some((doc, base, events)) && forall|e: TextEvent|
         #[trigger]
            events.contains(e) <==> s1.docs[path].history().contains(e) && !doc_of(
                s0,
                path,
            ).history().contains(e),
{
    let d0 = doc_of(s0, path);
    let d1 = s1.docs[path];
    let known = known_ids(known_of(s0.peer_vv, path));
    assert forall|id: OpId| #[trigger]
        known.contains(id) && ids(d1.history()).contains(id) implies ids(d0.history()).contains(
        id,
    ) by {
        assert(s0.peer_vv.contains_key(path));
        assert(s0.peer_vv[path].contains_key(id.0));
        assert(ids(s1.docs[path].history()).contains((id.0, id.1)));
    }
    assert forall|id: OpId| #[trigger] vv.contains(id) implies known.contains(id) by {
        let i = vv.index_of(id);
        assert(s0.peer_vv[path].contains_key(vv[i].0));
    }
    law_the_change_is_what_is_lacking(d0, rewrite(d0.text(), content), d1, vv, known);
}

/// A local edit of a text touches what changed alone: it deletes and inserts no more than it
/// must to get from the old text to the new one.
pub proof fn law_local_edits_spare_what_is_shared(
    s0: SyncerView,
    path: Seq<char>,
    content: Seq<char>,
    s1: SyncerView,
    m: Option<MsgView>,
)
    requires
        text_edited(s0, path, content, s1, m),
        is_script(char_diff(doc_of(s0, path).text(), content), doc_of(s0, path).text(), content),
        is_shortest(char_diff(doc_of(s0, path).text(), content), doc_of(s0, path).text(), content),
    ensures
        spares_what_is_shared(
            doc_of(s0, path).text(),
            content,
            strokes_from(s1.docs[path].events, doc_of(s0, path).events.len() as int),
        ),
{
    lemma_rewrite_spares(doc_of(s0, path).text(), content);
}

} // verus!
