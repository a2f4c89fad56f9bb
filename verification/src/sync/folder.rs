//! Many resources over one link.
//!
//! A frame is `[length of the path: two bytes, low first][path][tag][payload]`.
//! A change is shipped as a delta. A request advertises what the sender holds
//! and is answered with a delta, if there is one, and with a reply that
//! advertises what the receiver holds; a reply is answered with a delta at most,
//! so an exchange ends. A path that is new to the receiver gets its resource.
use crate::bytes::{copy_bytes, lossy_text, push_bytes, text_bytes, text_strict};
use crate::chars::copy_text;
use crate::crdt::oplog::{
    after, agree, complete, fits, folded, from_peer, ids, ids_at, OpId, TextEvent,
};
use crate::crdt::text::{
    boils_down, is_patch_of, is_version_vector, law_answer_brings_up_to_date,
    lemma_answer_completes, lemma_vector_is_held, TextView,
};
use crate::sync::algo::lww_record::{joined, law_pull_joins, LwwView};
use crate::sync::algo::rsync::{
    law_reconstruct_undoes_diff, signatures_tell_apart, stamp_wins, RsyncView,
};
use crate::sync::algo::text_crdt::{vv_in, vv_json, TextSyncView};
use crate::sync::strategy::{
    advertises, can_fold_in, law_changes_are_noticed, merges, observes, pushes, replies, AnyView,
    Kind,
};
use crate::sync::workspace::{Placement, ResourceView, Slot, Workspace, WorkspaceView};
use crate::textmap::{in_order, lemma_in_order_exists};
use vstd::prelude::*;
use vstd::slice::slice_subrange;
use vstd::utf8::{decode_utf8, encode_utf8, valid_utf8};

verus! {

/// The payload is a delta to fold in.
pub const TAG_DELTA: u8 = 0;

/// The payload advertises what the sender holds, and a reply is expected.
pub const TAG_SYNCREQ: u8 = 1;

/// The payload advertises what the sender holds, in reply.
pub const TAG_SYNCREP: u8 = 2;

/// The bytes of a frame.
pub open spec fn frame_bytes(path: Seq<char>, tag: u8, payload: Seq<u8>) -> Seq<u8> {
    let p = encode_utf8(path);
    seq![(p.len() % 256) as u8, (p.len() / 256 % 256) as u8] + p + seq![tag] + payload
}

/// What a frame holds: the path, the tag and the payload.
pub open spec fn frame_parts(b: Seq<u8>) -> Option<(Seq<char>, u8, Seq<u8>)> {
    let n = b[0] as int + 256 * b[1] as int;
    if b.len() < 3 || b.len() < n + 3 || !valid_utf8(b.subrange(2, 2 + n)) {
        None
    } else {
        Some((decode_utf8(b.subrange(2, 2 + n)), b[2 + n], b.skip(n + 3)))
    }
}

/// A frame for a path. Of the length of a path that is too long for it only the
/// low two bytes are written.
pub fn frame(path: &str, tag: u8, payload: &[u8]) -> (r: Vec<u8>)
    ensures
        r@ == frame_bytes(path@, tag, payload@),
{
    let p = text_bytes(path);
    let n: usize = p.len();
    let mut out: Vec<u8> = Vec::new();
    out.push((n % 256) as u8);
    out.push((n / 256 % 256) as u8);
    push_bytes(&mut out, p.as_slice());
    out.push(tag);
    push_bytes(&mut out, payload);
    assert(out@ =~= frame_bytes(path@, tag, payload@));
    out
}

/// What a frame holds: the path, the tag and the payload.
pub fn parse_frame(bytes: &[u8]) -> (r: Option<(String, u8, Vec<u8>)>)
    ensures
        match r {
            Some((path, tag, payload)) => frame_parts(bytes@) == Some((path@, tag, payload@)),
            None => frame_parts(bytes@) is None,
        },
{
    if bytes.len() < 3 {
        return None;
    }
    let n: usize = bytes[0] as usize + 256 * bytes[1] as usize;
    if bytes.len() < n + 3 {
        return None;
    }
    let path = match text_strict(slice_subrange(bytes, 2, 2 + n)) {
        Some(s) => s,
        None => {
            return None;
        },
    };
    let payload = slice_subrange(bytes, n + 3, bytes.len());
    assert(payload@ =~= bytes@.skip(n + 3));
    Some((path, bytes[2 + n], copy_bytes(payload)))
}

/// A frame reads back as its path, its tag and its payload. Paths of more than
/// 65535 bytes are left out.
pub proof fn law_frames_read_back(path: Seq<char>, tag: u8, payload: Seq<u8>)
    requires
        encode_utf8(path).len() <= 65535,
    ensures
        frame_parts(frame_bytes(path, tag, payload)) == Some((path, tag, payload)),
{
    let p = encode_utf8(path);
    let b = frame_bytes(path, tag, payload);
    let n = p.len() as int;
    assert(b[0] as int + 256 * b[1] as int == n);
    assert(b.subrange(2, 2 + n) =~= p);
    assert(b.skip(n + 3) =~= payload);
    vstd::utf8::encode_utf8_valid_utf8(path);
    vstd::utf8::encode_utf8_decode_utf8(path);
}

/// Lists of bytes, as values.
pub open spec fn frames(v: Seq<Vec<u8>>) -> Seq<Seq<u8>> {
    v.map_values(|b: Vec<u8>| b@)
}

/// The frame advertises the resource at a path, and asks for a reply.
pub open spec fn is_request(path: Seq<char>, v: AnyView, f: Seq<u8>) -> bool {
    exists|sv: Seq<u8>| #[trigger]
        advertises(v, sv) && f == frame_bytes(path, TAG_SYNCREQ, sv)
}

/// The frame advertises the resource at a path in reply.
pub open spec fn is_reply(path: Seq<char>, v: AnyView, f: Seq<u8>) -> bool {
    exists|sv: Seq<u8>| #[trigger]
        advertises(v, sv) && f == frame_bytes(path, TAG_SYNCREP, sv)
}

/// The frames hold the delta for the owner of an advertisement, if there is one.
pub open spec fn is_answer(path: Seq<char>, v: AnyView, theirs: Seq<u8>, fs: Seq<Seq<u8>>) -> bool {
    exists|d: Option<Vec<u8>>| #[trigger]
        replies(v, theirs, d) && fs == (match d {
            Some(b) => seq![frame_bytes(path, TAG_DELTA, b@)],
            None => Seq::<Seq<u8>>::empty(),
        })
}

/// The frames advertise every resource, in the order of the paths.
pub open spec fn are_requests(w: WorkspaceView, fs: Seq<Seq<u8>>) -> bool {
    let paths = in_order(w.resources.dom());
    &&& fs.len() == paths.len()
    &&& forall|i: int|
        0 <= i < fs.len() ==> is_request(
            paths[i],
            w.resources[paths[i]].strategy,
            #[trigger] fs[i],
        )
}

/// The frames to send on connect, and again from time to time: they advertise
/// everything, so that the peer can send what is lacking.
pub fn advertise(ws: &Workspace) -> (r: Vec<Vec<u8>>)
    requires
        ws.wf(),
    ensures
        are_requests(ws@, frames(r@)),
{
    let paths = ws.paths();
    let ghost keys = in_order(ws@.resources.dom());
    let mut out: Vec<Vec<u8>> = Vec::new();
    let mut i: usize = 0;
    while i < paths.len()
        invariant
            i <= paths@.len(),
            ws.wf(),
            keys == in_order(ws@.resources.dom()),
            crate::chars::texts(paths@) == keys,
            out@.len() == i,
            forall|j: int|
                0 <= j < i ==> is_request(
                    keys[j],
                    ws@.resources[keys[j]].strategy,
                    (#[trigger] out@[j])@,
                ),
        decreases paths@.len() - i,
    {
        let path = paths[i].as_str();
        assert(keys[i as int] == path@);
        proof {
            ws.lemma_listed(i as int);
        }
        match ws.get(path) {
            Some(res) => {
                let sv = res.strategy.state_vector();
                assert(advertises(res@.strategy, sv@));
                out.push(frame(path, TAG_SYNCREQ, sv.as_slice()));
            },
            None => {},
        }
        i += 1;
    }
    out
}

/// What a workspace does with a frame: the frames to send, and the bytes to write
/// to the file at a path.
pub struct Handled {
    pub outgoing: Vec<Vec<u8>>,
    pub store: Option<(String, Vec<u8>)>,
}

/// The bytes to write, as a value.
pub open spec fn store_view(s: Option<(String, Vec<u8>)>) -> Option<(Seq<char>, Seq<u8>)> {
    match s {
        Some(p) => Some((p.0@, p.1@)),
        None => None,
    }
}

/// The workspace with another state for the resource at a path.
pub open spec fn with_strategy(w: WorkspaceView, path: Seq<char>, v: AnyView) -> WorkspaceView {
    WorkspaceView {
        resources: w.resources.insert(
            path,
            ResourceView { strategy: v, ..w.resources[path] },
        ),
        ..w
    }
}

/// The workspace with other bytes for a resource that it keeps in memory.
pub open spec fn with_bytes(w: WorkspaceView, path: Seq<char>, bytes: Seq<u8>) -> WorkspaceView {
    match w.resources[path].slot {
        Slot::Memory(i) => WorkspaceView {
            registry: w.registry.update(i as int, (w.registry[i as int].0, bytes)),
            ..w
        },
        Slot::File => w,
    }
}

/// Folding in a delta for a path leads from one workspace to the other, with
/// these bytes to write.
pub open spec fn delta_handled(
    w0: WorkspaceView,
    path: Seq<char>,
    payload: Seq<u8>,
    w1: WorkspaceView,
    store: Option<(Seq<char>, Seq<u8>)>,
) -> bool {
    exists|d: Option<Vec<u8>>|
        #![trigger merges(w0.resources[path].strategy, payload, d, w1.resources[path].strategy)]
        {
            &&& merges(w0.resources[path].strategy, payload, d, w1.resources[path].strategy)
            &&& match d {
                Some(b) => {
                    &&& w1 == with_strategy(
                        with_bytes(w0, path, b@),
                        path,
                        w1.resources[path].strategy,
                    )
                    &&& store == if w0.resources[path].slot is File {
                        Some((path, b@))
                    } else {
                        None
                    }
                },
                None => {
                    &&& w1 == with_strategy(w0, path, w1.resources[path].strategy)
                    &&& store is None
                },
            }
        }
}

/// Whether a workspace that receives a frame may end like this, with these frames
/// to send and these bytes to write.
pub open spec fn handled(
    w: WorkspaceView,
    bytes: Seq<u8>,
    disk: Option<Seq<u8>>,
    w1: WorkspaceView,
    out: Seq<Seq<u8>>,
    store: Option<(Seq<char>, Seq<u8>)>,
) -> bool {
    match frame_parts(bytes) {
        None => w1 == w && out.len() == 0 && store is None,
        Some((path, tag, payload)) => {
            let w0 = w.ensured(path, disk);
            let v = w0.resources[path].strategy;
            if !w0.resources.contains_key(path) {
                w1 == w0 && out.len() == 0 && store is None
            } else if tag == TAG_DELTA {
                out.len() == 0 && delta_handled(w0, path, payload, w1, store)
            } else if tag == TAG_SYNCREQ {
                &&& w1 == w0
                &&& store is None
                &&& out.len() > 0
                &&& is_reply(path, v, out.last())
                &&& is_answer(path, v, payload, out.drop_last())
            } else if tag == TAG_SYNCREP {
                w1 == w0 && store is None && is_answer(path, v, payload, out)
            } else {
                w1 == w0 && store is None && out.len() == 0
            }
        },
    }
}

/// Whether a workspace gets through a frame: a delta for a text is one that its
/// engine can read.
pub open spec fn can_take(w: WorkspaceView, bytes: Seq<u8>, disk: Option<Seq<u8>>) -> bool {
    match frame_parts(bytes) {
        Some((path, tag, payload)) => {
            let w0 = w.ensured(path, disk);
            tag == TAG_DELTA && w0.resources.contains_key(path) ==> can_fold_in(
                w0.resources[path].strategy,
                payload,
            )
        },
        None => true,
    }
}

/// Handles a frame from the peer. `disk` is what the disk has for its path, which
/// matters where the path is new and is kept in memory.
pub fn on_frame(ws: &mut Workspace, bytes: &[u8], disk: Option<&[u8]>) -> (r: Handled)
    requires
        old(ws).wf(),
        can_take(
            old(ws)@,
            bytes@,
            match disk {
                Some(b) => Some(b@),
                None => None,
            },
        ),
    ensures
        final(ws).wf(),
        handled(
            old(ws)@,
            bytes@,
            match disk {
                Some(b) => Some(b@),
                None => None,
            },
            final(ws)@,
            frames(r.outgoing@),
            store_view(r.store),
        ),
{
    let mut outgoing: Vec<Vec<u8>> = Vec::new();
    let (path, tag, payload) = match parse_frame(bytes) {
        Some(p) => p,
        None => {
            return Handled { outgoing, store: None };
        },
    };
    if !ws.ensure(path.as_str(), disk) {
        return Handled { outgoing, store: None };
    }
    let ghost w0 = ws@;
    let ghost pp = path@;
    if tag == TAG_DELTA {
        let store = on_delta(ws, path.as_str(), payload.as_slice());
        return Handled { outgoing, store };
    }
    if tag == TAG_SYNCREQ || tag == TAG_SYNCREP {
        match ws.get(path.as_str()) {
            Some(res) => {
                let ghost v = res@.strategy;
                let d = res.strategy.delta_since(payload.as_slice());
                assert(replies(v, payload@, d));
                if let Some(b) = &d {
                    outgoing.push(frame(path.as_str(), TAG_DELTA, b.as_slice()));
                }
                let ghost front = frames(outgoing@);
                assert(front =~= (match d {
                    Some(b) => seq![frame_bytes(pp, TAG_DELTA, b@)],
                    None => Seq::<Seq<u8>>::empty(),
                }));
                assert(is_answer(pp, v, payload@, front));
                if tag == TAG_SYNCREQ {
                    let sv = res.strategy.state_vector();
                    assert(advertises(v, sv@));
                    outgoing.push(frame(path.as_str(), TAG_SYNCREP, sv.as_slice()));
                    assert(is_reply(pp, v, frames(outgoing@).last()));
                    assert(frames(outgoing@).drop_last() =~= front);
                }
            },
            None => {},
        }
    }
    Handled { outgoing, store: None }
}

fn on_delta(ws: &mut Workspace, path: &str, payload: &[u8]) -> (store: Option<(String, Vec<u8>)>)
    requires
        old(ws).wf(),
        old(ws)@.resources.contains_key(path@),
        can_fold_in(old(ws)@.resources[path@].strategy, payload@),
    ensures
        final(ws).wf(),
        delta_handled(old(ws)@, path@, payload@, final(ws)@, store_view(store)),
{
    let ghost w0 = ws@;
    match ws.take(path) {
        Some(mut res) => {
            let ghost slot = res.slot;
            let d = res.strategy.merge(payload);
            let ghost v1 = res.strategy@;
            assert(merges(w0.resources[path@].strategy, payload@, d, v1));
            let mut store: Option<(String, Vec<u8>)> = None;
            if let Some(b) = &d {
                match res.slot {
                    Slot::Memory(i) => ws.store_memory(i, b.as_slice()),
                    Slot::File => {
                        store = Some((copy_text(path), copy_bytes(b.as_slice())));
                    },
                }
            }
            let ghost wm = ws@;
            ws.put(path, res);
            proof {
                let w1 = ws@;
                assert(w1.resources[path@].strategy == v1);
                let base = match d {
                    Some(b) => with_bytes(w0, path@, b@),
                    None => w0,
                };
                assert(w1.resources =~= with_strategy(base, path@, v1).resources);
                assert(w1.registry =~= with_strategy(base, path@, v1).registry);
                assert(w1 == with_strategy(base, path@, v1));
                assert(merges(
                    w0.resources[path@].strategy,
                    payload@,
                    d,
                    w1.resources[path@].strategy,
                ));
            }
            store
        },
        None => None,
    }
}

/// Whether looking at the local bytes of a path may lead from one workspace to the
/// other, with these frames to send.
pub open spec fn looked(
    w0: WorkspaceView,
    path: Seq<char>,
    bytes: Seq<u8>,
    w1: WorkspaceView,
    out: Seq<Seq<u8>>,
) -> bool {
    if !w0.resources.contains_key(path) {
        w1 == w0 && out.len() == 0
    } else {
        exists|mid: AnyView, changed: bool| #[trigger]
            observes(w0.resources[path].strategy, bytes, changed, mid) && {
                &&& w1 == with_strategy(w0, path, w1.resources[path].strategy)
                &&& if changed {
                    is_shipment(path, mid, w1.resources[path].strategy, out)
                } else {
                    w1.resources[path].strategy == mid && out.len() == 0
                }
            }
    }
}

/// The frames ship a change: the delta, where the algorithm pushes, and then a
/// request.
pub open spec fn is_shipment(path: Seq<char>, v0: AnyView, v1: AnyView, out: Seq<Seq<u8>>) -> bool {
    &&& out.len() > 0
    &&& is_request(path, v1, out.last())
    &&& exists|d: Option<Vec<u8>>| #[trigger]
        pushes(v0, d, v1) && out.drop_last() == (match d {
            Some(b) => seq![frame_bytes(path, TAG_DELTA, b@)],
            None => Seq::<Seq<u8>>::empty(),
        })
}

/// The bytes of the resource at a path: those in memory, or those that the file
/// was found to have.
pub open spec fn local_bytes(w: WorkspaceView, path: Seq<char>, file: Seq<u8>) -> Seq<u8> {
    match w.resources[path].slot {
        Slot::Memory(i) => w.registry[i as int].1,
        Slot::File => file,
    }
}

/// Looks for a local change at a path, and returns the frames that ship it.
/// `file` is what the file has, where the resource is kept in one.
pub fn scan_path(ws: &mut Workspace, path: &str, file: &[u8]) -> (r: Vec<Vec<u8>>)
    requires
        old(ws).wf(),
        old(ws).ready(path@),
    ensures
        final(ws).wf(),
        looked(
            old(ws)@,
            path@,
            local_bytes(old(ws)@, path@, file@),
            final(ws)@,
            frames(r@),
        ),
{
    let ghost w0 = ws@;
    let ghost lb = local_bytes(w0, path@, file@);
    let held = ws.memory_bytes(path);
    let bytes = match held {
        Some(b) => b,
        None => copy_bytes(file),
    };
    let mut out: Vec<Vec<u8>> = Vec::new();
    match ws.take(path) {
        Some(mut res) => {
            assert(bytes@ == lb);
            let ghost v0 = res.strategy@;
            let changed = res.strategy.observe(bytes.as_slice());
            let ghost mid = res.strategy@;
            assert(observes(v0, lb, changed, mid));
            if changed {
                let d = res.strategy.push_delta();
                let ghost v1 = res.strategy@;
                assert(pushes(mid, d, v1));
                if let Some(b) = &d {
                    out.push(frame(path, TAG_DELTA, b.as_slice()));
                }
                let ghost front = frames(out@);
                assert(front =~= (match d {
                    Some(b) => seq![frame_bytes(path@, TAG_DELTA, b@)],
                    None => Seq::<Seq<u8>>::empty(),
                }));
                let sv = res.strategy.state_vector();
                assert(advertises(v1, sv@));
                out.push(frame(path, TAG_SYNCREQ, sv.as_slice()));
                assert(frames(out@).drop_last() =~= front);
                assert(is_request(path@, v1, frames(out@).last()));
                assert(is_shipment(path@, mid, v1, frames(out@)));
            }
            let ghost v1 = res.strategy@;
            ws.put(path, res);
            proof {
                let w1 = ws@;
                assert(w1.resources =~= with_strategy(w0, path@, v1).resources);
                assert(w1 == with_strategy(w0, path@, v1));
                assert(w1.resources[path@].strategy == v1);
                assert(observes(w0.resources[path@].strategy, lb, changed, mid));
            }
        },
        None => {},
    }
    out
}

// ---------------------------------------------------------------------------
// Laws
// ---------------------------------------------------------------------------

/// Whether the frame carries the tag.
pub open spec fn has_tag(path: Seq<char>, f: Seq<u8>, tag: u8) -> bool {
    exists|payload: Seq<u8>| f == #[trigger] frame_bytes(path, tag, payload)
}

/// An exchange ends: a delta is answered with nothing, a reply with a delta at
/// most, and a request with a delta at most and one reply. No frame is answered
/// with a request.
pub proof fn law_exchange_ends(
    w: WorkspaceView,
    bytes: Seq<u8>,
    disk: Option<Seq<u8>>,
    w1: WorkspaceView,
    out: Seq<Seq<u8>>,
    store: Option<(Seq<char>, Seq<u8>)>,
)
    requires
        handled(w, bytes, disk, w1, out, store),
    ensures
        out.len() <= 2,
        frame_parts(bytes) is None ==> out.len() == 0,
        frame_parts(bytes) matches Some((path, tag, payload)) ==> {
            &&& tag == TAG_DELTA ==> out.len() == 0
            &&& tag == TAG_SYNCREP ==> out.len() <= 1 && (out.len() == 1 ==> has_tag(
                path,
                out[0],
                TAG_DELTA,
            ))
            &&& tag == TAG_SYNCREQ && out.len() > 0 ==> has_tag(path, out.last(), TAG_SYNCREP) && (
            out.len() == 2 ==> has_tag(path, out[0], TAG_DELTA))
        },
{
    match frame_parts(bytes) {
        Some((path, tag, payload)) => {
            let w0 = w.ensured(path, disk);
            let v = w0.resources[path].strategy;
            if w0.resources.contains_key(path) && tag == TAG_SYNCREQ {
                let sv = choose|sv: Seq<u8>| #[trigger]
                    advertises(v, sv) && out.last() == frame_bytes(path, TAG_SYNCREP, sv);
                assert(out.last() == frame_bytes(path, TAG_SYNCREP, sv));
                let d = choose|d: Option<Vec<u8>>| #[trigger]
                    replies(v, payload, d) && out.drop_last() == (match d {
                        Some(b) => seq![frame_bytes(path, TAG_DELTA, b@)],
                        None => Seq::<Seq<u8>>::empty(),
                    });
                if let Some(b) = d {
                    assert(out.drop_last() == seq![frame_bytes(path, TAG_DELTA, b@)]);
                    assert(out.drop_last().len() == 1);
                    assert(out.drop_last()[0] == frame_bytes(path, TAG_DELTA, b@));
                    assert(out[0] == out.drop_last()[0]);
                }
                assert(out.drop_last().len() <= 1);
            } else if w0.resources.contains_key(path) && tag == TAG_SYNCREP {
                let d = choose|d: Option<Vec<u8>>| #[trigger]
                    replies(v, payload, d) && out == (match d {
                        Some(b) => seq![frame_bytes(path, TAG_DELTA, b@)],
                        None => Seq::<Seq<u8>>::empty(),
                    });
                if let Some(b) = d {
                    assert(out[0] == frame_bytes(path, TAG_DELTA, b@));
                }
            }
        },
        None => {},
    }
}

/// What a resource shows: the bytes that it keeps in memory, or else those that
/// were to be written to its file.
pub open spec fn shown(
    w: WorkspaceView,
    path: Seq<char>,
    store: Option<(Seq<char>, Seq<u8>)>,
) -> Option<Seq<u8>> {
    match w.resources[path].slot {
        Slot::Memory(i) => Some(w.registry[i as int].1),
        Slot::File => match store {
            Some((p, b)) => if p == path {
                Some(b)
            } else {
                None
            },
            None => None,
        },
    }
}

/// The frame that a peer is sent in answer to what it advertised, where there is
/// something to send.
proof fn lemma_answer_frame(
    w: WorkspaceView,
    path: Seq<char>,
    theirs: Seq<u8>,
    disk: Option<Seq<u8>>,
    w1: WorkspaceView,
    out: Seq<Seq<u8>>,
    store: Option<(Seq<char>, Seq<u8>)>,
) -> (d: Option<Vec<u8>>)
    requires
        encode_utf8(path).len() <= 65535,
        w.resources.contains_key(path),
        handled(w, frame_bytes(path, TAG_SYNCREP, theirs), disk, w1, out, store),
    ensures
        replies(w.resources[path].strategy, theirs, d),
        out == (match d {
            Some(b) => seq![frame_bytes(path, TAG_DELTA, b@)],
            None => Seq::<Seq<u8>>::empty(),
        }),
        w1 == w,
{
    law_frames_read_back(path, TAG_SYNCREP, theirs);
    let v = w.resources[path].strategy;
    choose|d: Option<Vec<u8>>| #[trigger]
        replies(v, theirs, d) && out == (match d {
            Some(b) => seq![frame_bytes(path, TAG_DELTA, b@)],
            None => Seq::<Seq<u8>>::empty(),
        })
}

/// A file whose stamp wins reaches the peer: the peer replies to a request with
/// what it holds, is sent one delta, and then holds the same content under the
/// same version, in memory or on its way to disk. Two different blocks with one
/// signature, and paths of more than 65535 bytes, are left out.
pub proof fn law_files_reach_the_peer(
    wa: WorkspaceView,
    wb: WorkspaceView,
    path: Seq<char>,
    a: RsyncView,
    b: RsyncView,
    reply: Seq<u8>,
    da: Option<Seq<u8>>,
    wa1: WorkspaceView,
    out: Seq<Seq<u8>>,
    sa: Option<(Seq<char>, Seq<u8>)>,
    db: Option<Seq<u8>>,
    wb1: WorkspaceView,
    out2: Seq<Seq<u8>>,
    sb: Option<(Seq<char>, Seq<u8>)>,
)
    requires
        encode_utf8(path).len() <= 65535,
        wa.resources.contains_key(path),
        wb.resources.contains_key(path),
        wa.resources[path].strategy == AnyView::Rsync(a),
        wb.resources[path].strategy == AnyView::Rsync(b),
        wb.resources[path].slot matches Slot::Memory(i) ==> i < wb.registry.len(),
        a.hash() != b.hash(),
        stamp_wins(a.version, a.hash(), b.version, b.hash()),
        signatures_tell_apart(b.content, a.content),
        is_reply(path, wb.resources[path].strategy, reply),
        handled(wa, reply, da, wa1, out, sa),
        out.len() > 0 ==> handled(wb, out[0], db, wb1, out2, sb),
    ensures
        out.len() == 1,
        wa1 == wa,
        wb1.resources[path].strategy == AnyView::Rsync(a),
        shown(wb1, path, sb) == Some(a.content),
{
    let v = wb.resources[path].strategy;
    let theirs = choose|sv: Seq<u8>| #[trigger]
        advertises(v, sv) && reply == frame_bytes(path, TAG_SYNCREP, sv);
    let d = lemma_answer_frame(wa, path, theirs, da, wa1, out, sa);
    let delta = d->Some_0@;
    law_reconstruct_undoes_diff(b.content, a.content);
    assert(out[0] == frame_bytes(path, TAG_DELTA, delta));
    law_frames_read_back(path, TAG_DELTA, delta);
    let e = choose|e: Option<Vec<u8>>|
        #![trigger merges(v, delta, e, wb1.resources[path].strategy)]
        {
            &&& merges(v, delta, e, wb1.resources[path].strategy)
            &&& match e {
                Some(x) => {
                    &&& wb1 == with_strategy(
                        with_bytes(wb, path, x@),
                        path,
                        wb1.resources[path].strategy,
                    )
                    &&& sb == if wb.resources[path].slot is File {
                        Some((path, x@))
                    } else {
                        None
                    }
                },
                None => {
                    &&& wb1 == with_strategy(wb, path, wb1.resources[path].strategy)
                    &&& sb is None
                },
            }
        };
    let p = a.patch_for(b.advert())->Some_0;
    assert(b.merged(p) == a);
    assert(e is Some);
}

/// A folder gets through a text that another wrote, where no identity stands for two
/// events. Paths of more than 65535 bytes are left out.
pub proof fn law_text_deltas_can_be_read(
    a: TextView,
    base: Set<OpId>,
    more: Set<TextEvent>,
    delta: Seq<u8>,
    path: Seq<char>,
    w: WorkspaceView,
    b: TextSyncView,
    disk: Option<Seq<u8>>,
)
    requires
        encode_utf8(path).len() <= 65535,
        is_patch_of(a, base, more, delta),
        w.resources.contains_key(path),
        w.resources[path].strategy == AnyView::Text(b),
        agree(a.history(), b.doc.history()),
    ensures
        can_take(w, frame_bytes(path, TAG_DELTA, delta), disk),
{
    law_frames_read_back(path, TAG_DELTA, delta);
}

/// Texts that were edited on both sides come together: the peer replies to a
/// request with what it holds, is sent what it lacks, if it lacks anything, and
/// then holds the edits of both. Identities that stand for two events, and paths
/// of more than 65535 bytes, are left out.
pub proof fn law_texts_come_together(
    wa: WorkspaceView,
    wb: WorkspaceView,
    path: Seq<char>,
    a: TextSyncView,
    b: TextSyncView,
    reply: Seq<u8>,
    da: Option<Seq<u8>>,
    wa1: WorkspaceView,
    out: Seq<Seq<u8>>,
    sa: Option<(Seq<char>, Seq<u8>)>,
    db: Option<Seq<u8>>,
    wb1: WorkspaceView,
    out2: Seq<Seq<u8>>,
    sb: Option<(Seq<char>, Seq<u8>)>,
)
    requires
        encode_utf8(path).len() <= 65535,
        wa.resources.contains_key(path),
        wb.resources.contains_key(path),
        wa.resources[path].strategy == AnyView::Text(a),
        wb.resources[path].strategy == AnyView::Text(b),
        complete(a.doc.history()),
        complete(b.doc.history()),
        agree(a.doc.history(), b.doc.history()),
        fits(b.doc.doc, a.doc.doc, b.doc.events.len() == 0),
        is_reply(path, wb.resources[path].strategy, reply),
        handled(wa, reply, da, wa1, out, sa),
        if out.len() > 0 {
            handled(wb, out[0], db, wb1, out2, sb)
        } else {
            wb1 == wb
        },
    ensures
        out.len() <= 1,
        wa1 == wa,
        wb1.resources[path].strategy is Text,
        wb1.resources[path].strategy->Text_0.doc.history() == a.doc.history().union(
            b.doc.history(),
        ),
{
    let v = wb.resources[path].strategy;
    let theirs = choose|sv: Seq<u8>| #[trigger]
        advertises(v, sv) && reply == frame_bytes(path, TAG_SYNCREP, sv);
    let d = lemma_answer_frame(wa, path, theirs, da, wa1, out, sa);
    let vv = choose|vv: Seq<OpId>| #[trigger]
        is_version_vector(b.doc.events, vv) && theirs == vv_json(vv) && vv_in(theirs) == Some(vv);
    lemma_vector_is_held(b.doc.events, vv);
    let ha = a.doc.history();
    let hb = b.doc.history();
    let known = vv.to_set().intersect(ids(ha));
    match d {
        Some(x) => {
            let delta = x@;
            let base = choose|base: Set<OpId>| #[trigger]
                boils_down(ha, known, base) && is_patch_of(
                    a.doc,
                    base,
                    a.doc.lacking(vv.to_set()),
                    delta,
                );
            assert(from_peer(delta, hb));
            law_answer_brings_up_to_date(ha, hb, vv.to_set(), base);
            assert(out[0] == frame_bytes(path, TAG_DELTA, delta));
            law_frames_read_back(path, TAG_DELTA, delta);
        },
        None => {
            assert(after(ha, known) =~= Set::empty());
            lemma_answer_completes(ha, hb, vv.to_set());
            assert(folded(hb, Set::empty()) =~= hb);
        },
    }
}

/// Records that were edited on both sides come together: the peer replies to a
/// request with what it holds, is sent what it lacks, if it lacks anything, and
/// then has the winning one of the two for each key. Paths of more than 65535
/// bytes are left out.
pub proof fn law_records_come_together(
    wa: WorkspaceView,
    wb: WorkspaceView,
    path: Seq<char>,
    a: LwwView,
    b: LwwView,
    reply: Seq<u8>,
    da: Option<Seq<u8>>,
    wa1: WorkspaceView,
    out: Seq<Seq<u8>>,
    sa: Option<(Seq<char>, Seq<u8>)>,
    db: Option<Seq<u8>>,
    wb1: WorkspaceView,
    out2: Seq<Seq<u8>>,
    sb: Option<(Seq<char>, Seq<u8>)>,
)
    requires
        encode_utf8(path).len() <= 65535,
        wa.resources.contains_key(path),
        wb.resources.contains_key(path),
        wa.resources[path].strategy == AnyView::Lww(a),
        wb.resources[path].strategy == AnyView::Lww(b),
        a.records.dom().finite(),
        b.records.dom().finite(),
        is_reply(path, wb.resources[path].strategy, reply),
        handled(wa, reply, da, wa1, out, sa),
        if out.len() > 0 {
            handled(wb, out[0], db, wb1, out2, sb)
        } else {
            wb1 == wb
        },
    ensures
        out.len() <= 1,
        wa1 == wa,
        wb1.resources[path].strategy is Lww,
        wb1.resources[path].strategy->Lww_0.records == joined(a.records, b.records),
{
    let v = wb.resources[path].strategy;
    let theirs = choose|sv: Seq<u8>| #[trigger]
        advertises(v, sv) && reply == frame_bytes(path, TAG_SYNCREP, sv);
    let d = lemma_answer_frame(wa, path, theirs, da, wa1, out, sa);
    law_pull_joins(a.records, b.records);
    match d {
        Some(x) => {
            let delta = x@;
            assert(out[0] == frame_bytes(path, TAG_DELTA, delta));
            law_frames_read_back(path, TAG_DELTA, delta);
        },
        None => {},
    }
}

/// A local change of a file is shipped: the peer gets a request that advertises the new
/// content under the next version. Content that is as it was ships nothing.
pub proof fn law_changed_files_are_advertised(
    w0: WorkspaceView,
    path: Seq<char>,
    bytes: Seq<u8>,
    a: RsyncView,
    w1: WorkspaceView,
    out: Seq<Seq<u8>>,
)
    requires
        w0.resources.contains_key(path),
        w0.resources[path].strategy == AnyView::Rsync(a),
        a.version < u64::MAX,
        looked(w0, path, bytes, w1, out),
    ensures
        bytes == a.content ==> out.len() == 0 && w1.resources[path].strategy == AnyView::Rsync(a),
        bytes != a.content ==> {
            let b = RsyncView { content: bytes, version: (a.version + 1) as u64 };
            &&& w1.resources[path].strategy == AnyView::Rsync(b)
            &&& out.len() == 1
            &&& is_request(path, AnyView::Rsync(b), out[0])
        },
{
    let (mid, changed) = choose|mid: AnyView, changed: bool| #[trigger]
        observes(w0.resources[path].strategy, bytes, changed, mid) && {
            &&& w1 == with_strategy(w0, path, w1.resources[path].strategy)
            &&& if changed {
                is_shipment(path, mid, w1.resources[path].strategy, out)
            } else {
                w1.resources[path].strategy == mid && out.len() == 0
            }
        };
    law_changes_are_noticed(w0.resources[path].strategy, bytes, changed, mid);
    if changed {
        let d = choose|d: Option<Vec<u8>>| #[trigger]
            pushes(mid, d, w1.resources[path].strategy) && out.drop_last() == (match d {
                Some(b) => seq![frame_bytes(path, TAG_DELTA, b@)],
                None => Seq::<Seq<u8>>::empty(),
            });
        assert(is_shipment(path, mid, w1.resources[path].strategy, out));
        assert(d is None);
        assert(out.drop_last().len() == 0);
        assert(out[0] == out.last());
    }
}

/// A local change of a text is shipped: first what was written since the last shipment,
/// and then a request that advertises what the text holds.
pub proof fn law_changed_texts_are_shipped(
    w0: WorkspaceView,
    path: Seq<char>,
    bytes: Seq<u8>,
    a: TextSyncView,
    w1: WorkspaceView,
    out: Seq<Seq<u8>>,
)
    requires
        w0.resources.contains_key(path),
        w0.resources[path].strategy == AnyView::Text(a),
        lossy_text(bytes) != a.last_known,
        lossy_text(bytes) != a.doc.text(),
        looked(w0, path, bytes, w1, out),
    ensures
        w1.resources[path].strategy is Text,
        w1.resources[path].strategy->Text_0.doc.text() == lossy_text(bytes),
        out.len() == 2,
        is_request(path, w1.resources[path].strategy, out[1]),
        exists|d: Seq<u8>|
            out[0] == #[trigger] frame_bytes(path, TAG_DELTA, d) && ({
                let doc = w1.resources[path].strategy->Text_0.doc;
                let base = ids_at(doc.events, a.last_sent);
                is_patch_of(doc, base, after(doc.history(), base), d)
            }),
{
    let (mid, changed) = choose|mid: AnyView, changed: bool| #[trigger]
        observes(w0.resources[path].strategy, bytes, changed, mid) && {
            &&& w1 == with_strategy(w0, path, w1.resources[path].strategy)
            &&& if changed {
                is_shipment(path, mid, w1.resources[path].strategy, out)
            } else {
                w1.resources[path].strategy == mid && out.len() == 0
            }
        };
    law_changes_are_noticed(w0.resources[path].strategy, bytes, changed, mid);
    let d = choose|d: Option<Vec<u8>>| #[trigger]
        pushes(mid, d, w1.resources[path].strategy) && out.drop_last() == (match d {
            Some(b) => seq![frame_bytes(path, TAG_DELTA, b@)],
            None => Seq::<Seq<u8>>::empty(),
        });
    assert(changed);
    assert(is_shipment(path, mid, w1.resources[path].strategy, out));
    assert(d is Some);
    assert(out.drop_last().len() == 1);
    assert(out.drop_last()[0] == out[0]);
    assert(out[1] == out.last());
    assert(out[0] == frame_bytes(path, TAG_DELTA, d->Some_0@));
}

/// A frame for a path that is new here gives the path its resource, where its kind is
/// there; a frame that cannot be read changes nothing.
pub proof fn law_frames_bring_new_paths(
    w: WorkspaceView,
    path: Seq<char>,
    tag: u8,
    payload: Seq<u8>,
    disk: Option<Seq<u8>>,
    w1: WorkspaceView,
    out: Seq<Seq<u8>>,
    store: Option<(Seq<char>, Seq<u8>)>,
)
    requires
        encode_utf8(path).len() <= 65535,
        handled(w, frame_bytes(path, tag, payload), disk, w1, out, store),
    ensures
        w1.resources.contains_key(path) <==> w.resources.contains_key(path) || w.manifest.kind_of(
            path,
        ) != Kind::Image,
        !w.resources.contains_key(path) && w.manifest.kind_of(path) == Kind::Image ==> w1 == w
            && out.len() == 0 && store is None,
        forall|q: Seq<char>|
            q != path ==> (#[trigger] w1.resources.contains_key(q) <==> w.resources.contains_key(q))
                && (w.resources.contains_key(q) ==> w1.resources[q] == w.resources[q]),
{
    law_frames_read_back(path, tag, payload);
    let w0 = w.ensured(path, disk);
    if !w.resources.contains_key(path) && w.placement(path) != Placement::Skip {
        assert(w0.resources.contains_key(path));
    }
    if w0.resources.contains_key(path) && tag == TAG_DELTA {
        assert(delta_handled(w0, path, payload, w1, store));
    }
}

/// A resource has its bytes where it is kept: in memory, or in its file.
pub proof fn law_bytes_are_where_they_are_kept(w: WorkspaceView, path: Seq<char>, file: Seq<u8>)
    ensures
        w.resources[path].slot is File ==> local_bytes(w, path, file) == file,
        w.resources[path].slot matches Slot::Memory(i) ==> local_bytes(w, path, file)
            == w.registry[i as int].1,
{
}

/// A request is answered with what a reply would be, and behind that with a reply of one's
/// own, so that both sides learn what the other holds.
pub proof fn law_requests_are_answered_and_returned(
    w: WorkspaceView,
    path: Seq<char>,
    payload: Seq<u8>,
    disk: Option<Seq<u8>>,
    w1: WorkspaceView,
    out: Seq<Seq<u8>>,
    store: Option<(Seq<char>, Seq<u8>)>,
)
    requires
        encode_utf8(path).len() <= 65535,
        w.resources.contains_key(path),
        handled(w, frame_bytes(path, TAG_SYNCREQ, payload), disk, w1, out, store),
    ensures
        w1 == w,
        store is None,
        out.len() > 0,
        exists|sv: Seq<u8>| #[trigger]
            advertises(w.resources[path].strategy, sv) && out.last() == frame_bytes(
                path,
                TAG_SYNCREP,
                sv,
            ),
        exists|d: Option<Vec<u8>>| #[trigger]
            replies(w.resources[path].strategy, payload, d) && (d matches Some(b) ==> out.len() == 2
                && out[0] == frame_bytes(path, TAG_DELTA, b@)) && (d is None ==> out.len() == 1),
{
    law_frames_read_back(path, TAG_SYNCREQ, payload);
    let v = w.resources[path].strategy;
    assert(is_reply(path, v, out.last()));
    assert(is_answer(path, v, payload, out.drop_last()));
    let d = choose|d: Option<Vec<u8>>| #[trigger]
        replies(v, payload, d) && out.drop_last() == (match d {
            Some(b) => seq![frame_bytes(path, TAG_DELTA, b@)],
            None => Seq::<Seq<u8>>::empty(),
        });
    match d {
        Some(b) => {
            assert(out.drop_last().len() == 1);
            assert(out.drop_last()[0] == out[0]);
        },
        None => {
            assert(out.drop_last().len() == 0);
        },
    }
}

/// On connect every resource is advertised, each once.
pub proof fn law_every_resource_is_advertised(w: WorkspaceView, fs: Seq<Seq<u8>>, path: Seq<char>)
    requires
        w.resources.dom().finite(),
        w.resources.contains_key(path),
        are_requests(w, fs),
    ensures
        exists|i: int|
            0 <= i < fs.len() && is_request(path, w.resources[path].strategy, #[trigger] fs[i]),
        fs.len() == w.resources.dom().len(),
{
    lemma_in_order_exists(w.resources.dom());
    let paths = in_order(w.resources.dom());
    assert(paths.to_set().contains(path));
    let i = paths.index_of(path);
    assert(is_request(paths[i], w.resources[paths[i]].strategy, fs[i]));
    crate::textmap::lemma_ascending_distinct(paths);
    paths.unique_seq_to_set();
}

} // verus!
