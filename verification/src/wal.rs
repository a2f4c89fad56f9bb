//! Append-only frames from many writers, and one order for all of them.
//!
//! Each frame names the frames that its writer had seen. `linearize` folds that
//! graph into one list: causes first, and among frames that are free to go the
//! one with the least writer and number. The list depends on the set of frames
//! alone, so replicas that hold the same frames agree on it.
use crate::bytes::copy_bytes;
use crate::chars::{
    copy_text, lemma_text_lt_irreflexive, lemma_text_lt_total, lemma_text_lt_transitive, same_text,
    text_less, text_lt,
};
use crate::ordered::{
    ascends, law_finite_sets_have_their_list, lemma_ascends_distinct, lemma_listed, listed,
    strict_order,
};
use crate::textmap::TextMap;
use vstd::prelude::*;

verus! {

/// A frame's identity: its writer, and its number in that writer's log.
pub type FrameId = (String, u64);

/// The identity of a frame, as a value.
pub type Id = (Seq<char>, u64);

/// The value that an identity stands for.
pub open spec fn id_view(id: FrameId) -> Id {
    (id.0@, id.1)
}

/// The values that a list of identities stands for.
pub open spec fn id_views(v: Seq<FrameId>) -> Seq<Id> {
    v.map_values(|id: FrameId| id_view(id))
}

/// One entry of a log. `deps` is what the writer had seen when it appended.
#[derive(Clone, Debug, PartialEq, Eq)]
pub struct Frame {
    pub writer: String,
    pub seq: u64,
    pub deps: Vec<FrameId>,
    pub payload: Vec<u8>,
}

/// What a frame holds.
pub struct FrameView {
    pub writer: Seq<char>,
    pub seq: u64,
    pub deps: Seq<Id>,
    pub payload: Seq<u8>,
}

impl FrameView {
    /// The frame's identity.
    pub open spec fn id(self) -> Id {
        (self.writer, self.seq)
    }
}

impl View for Frame {
    type V = FrameView;

    open spec fn view(&self) -> FrameView {
        FrameView {
            writer: self.writer@,
            seq: self.seq,
            deps: id_views(self.deps@),
            payload: self.payload@,
        }
    }
}

/// The order of identities: by writer, then by number.
pub open spec fn id_lt(a: Id, b: Id) -> bool {
    text_lt(a.0, b.0) || (a.0 == b.0 && a.1 < b.1)
}

/// The order of identities as a function.
pub open spec fn id_order() -> spec_fn(Id, Id) -> bool {
    |a: Id, b: Id| id_lt(a, b)
}

/// Identities are totally ordered.
pub proof fn lemma_id_order()
    ensures
        strict_order(id_order()),
{
    let lt = id_order();
    assert forall|a: Id| !#[trigger] lt(a, a) by {
        lemma_text_lt_irreflexive(a.0);
    }
    assert forall|a: Id, b: Id, c: Id| #[trigger] lt(a, b) && #[trigger] lt(b, c) implies lt(a, c) by {
        if text_lt(a.0, b.0) && text_lt(b.0, c.0) {
            lemma_text_lt_transitive(a.0, b.0, c.0);
        }
    }
    assert forall|a: Id, b: Id| a == b || #[trigger] lt(a, b) || lt(b, a) by {
        if a.0 != b.0 {
            lemma_text_lt_total(a.0, b.0);
        }
    }
}

/// Whether `a` comes before `b`.
fn id_less(aw: &str, an: u64, bw: &str, bn: u64) -> (r: bool)
    ensures
        r == id_lt((aw@, an), (bw@, bn)),
{
    text_less(aw, bw) || (same_text(aw, bw) && an < bn)
}

/// A copy of a list of identities.
fn copy_ids(v: &Vec<FrameId>) -> (r: Vec<FrameId>)
    ensures
        id_views(r@) == id_views(v@),
{
    let mut out: Vec<FrameId> = Vec::new();
    let mut i: usize = 0;
    while i < v.len()
        invariant
            i <= v@.len(),
            id_views(out@) == id_views(v@).take(i as int),
        decreases v@.len() - i,
    {
        let ghost before = out@;
        out.push((copy_text(v[i].0.as_str()), v[i].1));
        assert(id_views(out@) =~= id_views(before).push(id_view(v@[i as int])));
        assert(id_views(v@).take(i + 1) =~= id_views(v@).take(i as int).push(id_view(v@[i as int])));
        i += 1;
    }
    assert(id_views(v@).take(i as int) =~= id_views(v@));
    out
}

impl Frame {
    /// The frame's identity.
    pub fn id(&self) -> (r: FrameId)
        ensures
            id_view(r) == self@.id(),
    {
        (copy_text(self.writer.as_str()), self.seq)
    }

    /// A copy of the frame.
    pub fn copy(&self) -> (r: Self)
        ensures
            r@ == self@,
    {
        Frame {
            writer: copy_text(self.writer.as_str()),
            seq: self.seq,
            deps: copy_ids(&self.deps),
            payload: copy_bytes(self.payload.as_slice()),
        }
    }
}

/// The union of frames from every writer.
pub struct Replica {
    frames: Vec<Frame>,
}

impl View for Replica {
    type V = Map<Id, FrameView>;

    /// The frames by identity.
    open spec fn view(&self) -> Map<Id, FrameView> {
        by_id(self.list())
    }
}

/// The frames of a list by identity.
pub open spec fn by_id(fs: Seq<FrameView>) -> Map<Id, FrameView> {
    Map::new(
        |id: Id| ids_of(fs).contains(id),
        |id: Id| fs[ids_of(fs).index_of(id)],
    )
}

/// The identities of a list of frames.
pub open spec fn ids_of(fs: Seq<FrameView>) -> Seq<Id> {
    fs.map_values(|f: FrameView| f.id())
}

/// A replica after a frame has been added to it.
pub open spec fn added(m: Map<Id, FrameView>, f: FrameView) -> Map<Id, FrameView> {
    if m.contains_key(f.id()) {
        m
    } else {
        m.insert(f.id(), f)
    }
}

/// Whether some frame depends on `id`.
pub open spec fn depended_on(m: Map<Id, FrameView>, id: Id) -> bool {
    exists|f: Id| #[trigger] m.contains_key(f) && m[f].deps.contains(id)
}

/// The frames that no other depends on, in order.
pub open spec fn frontier_of(m: Map<Id, FrameView>) -> Seq<Id> {
    listed(m.dom().filter(|id: Id| !depended_on(m, id)), id_order())
}

/// The next free number in a writer's log: one more than the highest in use.
pub open spec fn is_next_seq(m: Map<Id, FrameView>, writer: Seq<char>, n: u64) -> bool {
    &&& forall|s: u64| #[trigger] m.contains_key((writer, s)) ==> s < n
    &&& n == 0 || m.contains_key((writer, (n - 1) as u64))
}

/// The frames that a peer lacks which holds each writer's log up to the given
/// number.
pub open spec fn missing(m: Map<Id, FrameView>, have: Map<Seq<char>, u64>) -> Seq<Id> {
    listed(
        m.dom().filter(|id: Id| !have.contains_key(id.0) || id.1 > have[id.0]),
        id_order(),
    )
}

/// `wm` gives each writer's highest number.
pub open spec fn is_watermarks(m: Map<Id, FrameView>, wm: Map<Seq<char>, u64>) -> bool {
    &&& forall|w: Seq<char>| #[trigger] wm.contains_key(w) ==> m.contains_key((w, wm[w]))
    &&& forall|id: Id| #[trigger]
        m.contains_key(id) ==> wm.contains_key(id.0) && id.1 <= wm[id.0]
}

// ---------------------------------------------------------------------------
// The one order
// ---------------------------------------------------------------------------

/// Whether a frame may come next: it has not come yet, and every frame that it
/// depends on has, as far as the replica holds it.
pub open spec fn is_ready(m: Map<Id, FrameView>, done: Set<Id>, id: Id) -> bool {
    &&& m.contains_key(id)
    &&& !done.contains(id)
    &&& forall|d: Id| #[trigger] m[id].deps.contains(d) && m.contains_key(d) ==> done.contains(d)
}

/// Whether `id` is the least of the frames that may come next.
pub open spec fn is_next(m: Map<Id, FrameView>, done: Set<Id>, id: Id) -> bool {
    &&& is_ready(m, done, id)
    &&& forall|o: Id| #[trigger] is_ready(m, done, o) ==> o == id || id_lt(id, o)
}

/// The first `n` frames of the order, or as many as there are.
pub open spec fn order_upto(m: Map<Id, FrameView>, n: nat) -> Seq<Id>
    decreases n,
{
    if n == 0 {
        Seq::empty()
    } else {
        let s = order_upto(m, (n - 1) as nat);
        if exists|id: Id| is_next(m, s.to_set(), id) {
            s.push(choose|id: Id| is_next(m, s.to_set(), id))
        } else {
            s
        }
    }
}

/// All frames in their one order.
pub open spec fn order_of(m: Map<Id, FrameView>) -> Seq<Id> {
    order_upto(m, m.dom().len())
}

proof fn lemma_next_unique(m: Map<Id, FrameView>, done: Set<Id>, a: Id, b: Id)
    requires
        is_next(m, done, a),
        is_next(m, done, b),
    ensures
        a == b,
{
    lemma_id_order();
    let lt = id_order();
    if a != b {
        assert(lt(a, b));
        assert(lt(b, a));
        assert(lt(a, a));
    }
}

/// Once nothing may come next, the order is complete.
proof fn lemma_order_stops(m: Map<Id, FrameView>, k: nat, n: nat)
    requires
        k <= n,
        forall|id: Id| !is_next(m, order_upto(m, k).to_set(), id),
    ensures
        order_upto(m, n) == order_upto(m, k),
    decreases n,
{
    if k < n {
        lemma_order_stops(m, k, (n - 1) as nat);
    }
}

impl Replica {
    /// The frames in the order of their identities.
    pub closed spec fn list(&self) -> Seq<FrameView> {
        self.frames@.map_values(|f: Frame| f@)
    }

    /// The frames stand in the order of their identities, each once.
    pub open spec fn wf(&self) -> bool {
        ascends(ids_of(self.list()), id_order())
    }

    /// The replica without frames.
    pub fn new() -> (r: Self)
        ensures
            r.wf(),
            r@ == Map::<Id, FrameView>::empty(),
    {
        let r = Replica { frames: Vec::new() };
        assert(r.list() =~= Seq::empty());
        assert(r@ =~= Map::empty());
        r
    }

    /// The number of frames.
    pub fn len(&self) -> (r: usize)
        requires
            self.wf(),
        ensures
            r == self@.dom().len(),
            self@.dom().finite(),
    {
        proof {
            self.lemma_dom();
        }
        self.frames.len()
    }

    proof fn lemma_dom(&self)
        requires
            self.wf(),
        ensures
            ids_of(self.list()).to_set() == self@.dom(),
            self@.dom().finite(),
            self@.dom().len() == self.frames@.len(),
            listed(self@.dom(), id_order()) == ids_of(self.list()),
            forall|i: int|
                0 <= i < self.frames@.len() ==> self@.contains_key((#[trigger] self.frames@[i])@.id())
                    && self@[self.frames@[i]@.id()] == self.frames@[i]@,
    {
        let ids = ids_of(self.list());
        lemma_id_order();
        lemma_ascends_distinct(ids, id_order());
        assert(ids.to_set() =~= self@.dom());
        vstd::seq_lib::seq_to_set_is_finite(ids);
        ids.unique_seq_to_set();
        lemma_listed(ids, id_order());
        assert forall|i: int| 0 <= i < self.frames@.len() implies self@.contains_key(
            (#[trigger] self.frames@[i])@.id(),
        ) && self@[self.frames@[i]@.id()] == self.frames@[i]@ by {
            assert(ids[i] == self.frames@[i]@.id());
            assert(ids.contains(ids[i]));
            assert(ids.index_of(ids[i]) == i);
        }
    }

    /// The first place whose frame does not come before the given identity.
    fn lower_bound(&self, writer: &str, seq: u64) -> (r: usize)
        requires
            self.wf(),
        ensures
            r <= self.frames@.len(),
            forall|j: int| 0 <= j < r ==> id_lt((#[trigger] self.frames@[j])@.id(), (writer@, seq)),
            forall|j: int|
                r <= j < self.frames@.len() ==> !id_lt(
                    (#[trigger] self.frames@[j])@.id(),
                    (writer@, seq),
                ),
    {
        let ghost id = (writer@, seq);
        let ghost lt = id_order();
        let ghost ids = ids_of(self.list());
        proof {
            lemma_id_order();
        }
        let mut lo: usize = 0;
        let mut hi: usize = self.frames.len();
        while lo < hi
            invariant
                strict_order(lt),
                lt == id_order(),
                id == (writer@, seq),
                ids == ids_of(self.list()),
                self.wf(),
                lo <= hi <= self.frames@.len(),
                forall|j: int| 0 <= j < lo ==> id_lt((#[trigger] self.frames@[j])@.id(), id),
                forall|j: int|
                    hi <= j < self.frames@.len() ==> !id_lt((#[trigger] self.frames@[j])@.id(), id),
            decreases hi - lo,
        {
            let mid: usize = lo + (hi - lo) / 2;
            let f = &self.frames[mid];
            if id_less(f.writer.as_str(), f.seq, writer, seq) {
                assert forall|j: int| 0 <= j < mid + 1 implies id_lt(
                    (#[trigger] self.frames@[j])@.id(),
                    id,
                ) by {
                    if j < mid {
                        assert(lt(ids[j], ids[mid as int]));
                        assert(lt(ids[mid as int], id));
                        assert(lt(ids[j], id));
                    }
                }
                lo = mid + 1;
            } else {
                assert forall|j: int| mid <= j < self.frames@.len() implies !id_lt(
                    (#[trigger] self.frames@[j])@.id(),
                    id,
                ) by {
                    if j > mid && lt(ids[j], id) {
                        assert(lt(ids[mid as int], ids[j]));
                        assert(lt(ids[mid as int], id));
                    }
                }
                hi = mid;
            }
        }
        lo
    }

    /// The place of a frame, if the replica holds it.
    fn position(&self, writer: &str, seq: u64) -> (r: Option<usize>)
        requires
            self.wf(),
        ensures
            r is Some <==> self@.contains_key((writer@, seq)),
            r matches Some(i) ==> i < self.frames@.len() && self.frames@[i as int]@.id() == (
                writer@,
                seq,
            ),
    {
        let i = self.lower_bound(writer, seq);
        let ghost id = (writer@, seq);
        let ghost ids = ids_of(self.list());
        proof {
            self.lemma_dom();
            lemma_id_order();
        }
        if i < self.frames.len() && self.frames[i].seq == seq && same_text(
            self.frames[i].writer.as_str(),
            writer,
        ) {
            Some(i)
        } else {
            proof {
                if self@.contains_key(id) {
                    assert(ids.to_set().contains(id));
                    let j = ids.index_of(id);
                    assert(self.frames@[j]@.id() == id);
                    let lt = id_order();
                    assert(!lt(id, id));
                    if j > i {
                        assert(lt(ids[i as int], ids[j]));
                        assert(!id_lt(self.frames@[i as int]@.id(), id));
                    }
                }
            }
            None
        }
    }

    /// Adds a frame. True if the replica did not hold it yet.
    pub fn add(&mut self, frame: Frame) -> (r: bool)
        requires
            old(self).wf(),
        ensures
            final(self).wf(),
            final(self)@ == added(old(self)@, frame@),
            r == !old(self)@.contains_key(frame@.id()),
    {
        let i = self.lower_bound(frame.writer.as_str(), frame.seq);
        let ghost id = frame@.id();
        let ghost fv = frame@;
        let ghost before = self.list();
        let ghost ids = ids_of(before);
        let ghost lt = id_order();
        proof {
            self.lemma_dom();
            lemma_id_order();
        }
        if i < self.frames.len() && self.frames[i].seq == frame.seq && same_text(
            self.frames[i].writer.as_str(),
            frame.writer.as_str(),
        ) {
            return false;
        }
        proof {
            if i < ids.len() {
                assert(!id_lt(self.frames@[i as int]@.id(), id));
                assert(ids[i as int] != id);
                assert(lt(id, ids[i as int]));
            }
            assert forall|j: int| i <= j < ids.len() implies lt(id, #[trigger] ids[j]) by {
                if j > i {
                    assert(lt(ids[i as int], ids[j]));
                }
            }
            assert forall|j: int| 0 <= j < i implies lt(#[trigger] ids[j], id) by {
                assert(id_lt(self.frames@[j]@.id(), id));
            }
            if ids.contains(id) {
                let j = ids.index_of(id);
                assert(!lt(id, id));
            }
        }
        self.frames.insert(i, frame);
        proof {
            let now = ids_of(self.list());
            assert(self.list() =~= before.insert(i as int, fv));
            assert(now =~= ids.insert(i as int, id));
            assert(ascends(now, lt)) by {
                assert forall|a: int, b: int| 0 <= a < b < now.len() implies lt(
                    #[trigger] now[a],
                    #[trigger] now[b],
                ) by {
                    if a < i && b > i {
                        assert(lt(ids[a], ids[b - 1]));
                    } else if b < i {
                        assert(lt(ids[a], ids[b]));
                    } else if a > i {
                        assert(lt(ids[a - 1], ids[b - 1]));
                    } else if a == i {
                        assert(lt(id, ids[b - 1]));
                    }
                }
            }
            self.lemma_dom();
            let goal = old(self)@.insert(id, fv);
            assert forall|x: Id| #[trigger] self@.contains_key(x) <==> goal.contains_key(x) by {
                if ids.contains(x) {
                    let j = ids.index_of(x);
                    assert(now[if j < i {
                        j
                    } else {
                        j + 1
                    }] == x);
                }
                if x == id {
                    assert(now[i as int] == x);
                }
                if now.contains(x) && x != id {
                    let j = now.index_of(x);
                    assert(ids[if j < i {
                        j
                    } else {
                        j - 1
                    }] == x);
                }
            }
            assert forall|x: Id| #[trigger] self@.contains_key(x) implies self@[x] == goal[x] by {
                lemma_ascends_distinct(now, lt);
                let j = now.index_of(x);
                assert(self.frames@[j]@.id() == x);
                if j < i {
                    assert(ids[j] == x);
                    assert(old(self).frames@[j]@.id() == x);
                } else if j > i {
                    assert(ids[j - 1] == x);
                    assert(old(self).frames@[j - 1]@.id() == x);
                }
            }
            assert(self@.dom() =~= goal.dom());
            assert(self@ =~= goal);
        }
        true
    }

    /// Whether some frame depends on the given one.
    fn is_dep(&self, writer: &str, seq: u64) -> (r: bool)
        requires
            self.wf(),
        ensures
            r == depended_on(self@, (writer@, seq)),
    {
        let ghost id = (writer@, seq);
        proof {
            self.lemma_dom();
        }
        let mut i: usize = 0;
        while i < self.frames.len()
            invariant
                i <= self.frames@.len(),
                id == (writer@, seq),
                forall|j: int|
                    0 <= j < self.frames@.len() ==> self@.contains_key(
                        (#[trigger] self.frames@[j])@.id(),
                    ) && self@[self.frames@[j]@.id()] == self.frames@[j]@,
                forall|j: int| 0 <= j < i ==> !(#[trigger] self.frames@[j])@.deps.contains(id),
            decreases self.frames@.len() - i,
        {
            let deps = &self.frames[i].deps;
            if holds_id(deps, writer, seq) {
                assert(self@.contains_key(self.frames@[i as int]@.id()));
                return true;
            }
            i += 1;
        }
        proof {
            if depended_on(self@, id) {
                let f = choose|f: Id| #[trigger] self@.contains_key(f) && self@[f].deps.contains(id);
                let ids = ids_of(self.list());
                assert(ids.to_set().contains(f));
                let j = ids.index_of(f);
                assert(self.frames@[j]@.id() == f);
            }
        }
        false
    }

    /// The frames that no other depends on.
    pub fn frontier(&self) -> (r: Vec<FrameId>)
        requires
            self.wf(),
        ensures
            id_views(r@) == frontier_of(self@),
    {
        let ghost m = self@;
        let ghost ids = ids_of(self.list());
        let ghost want = m.dom().filter(|id: Id| !depended_on(m, id));
        proof {
            self.lemma_dom();
            lemma_id_order();
        }
        let mut out: Vec<FrameId> = Vec::new();
        let mut i: usize = 0;
        while i < self.frames.len()
            invariant
                i <= self.frames@.len(),
                self.wf(),
                m == self@,
                ids == ids_of(self.list()),
                want == m.dom().filter(|id: Id| !depended_on(m, id)),
                forall|j: int|
                    0 <= j < self.frames@.len() ==> m.contains_key((#[trigger] self.frames@[j])@.id()),
                picks(id_views(out@), ids.take(i as int), want),
            decreases self.frames@.len() - i,
        {
            let f = &self.frames[i];
            let ghost id = f@.id();
            assert(m.contains_key(id));
            assert(ids[i as int] == id);
            let tip = !self.is_dep(f.writer.as_str(), f.seq);
            let ghost before = out@;
            proof {
                lemma_picks_step(id_views(before), ids, i as int, want);
            }
            if tip {
                out.push(f.id());
                assert(id_views(out@) =~= id_views(before).push(id));
            }
            i += 1;
        }
        proof {
            assert(ids.take(i as int) =~= ids);
            lemma_picks_done(id_views(out@), ids, m.dom(), want);
        }
        out
    }

    /// The next free number in a writer's log.
    fn next_seq(&self, writer: &str) -> (r: u64)
        requires
            self.wf(),
            !self@.contains_key((writer@, u64::MAX)),
        ensures
            is_next_seq(self@, writer@, r),
    {
        proof {
            self.lemma_dom();
        }
        let mut n: u64 = 0;
        let mut i: usize = 0;
        while i < self.frames.len()
            invariant
                i <= self.frames@.len(),
                !self@.contains_key((writer@, u64::MAX)),
                forall|j: int|
                    0 <= j < self.frames@.len() ==> self@.contains_key(
                        (#[trigger] self.frames@[j])@.id(),
                    ),
                n == 0 || self@.contains_key((writer@, (n - 1) as u64)),
                forall|j: int|
                    0 <= j < i && (#[trigger] self.frames@[j])@.writer == writer@
                        ==> self.frames@[j]@.seq < n,
            decreases self.frames@.len() - i,
        {
            let f = &self.frames[i];
            assert(self@.contains_key(f@.id()));
            if same_text(f.writer.as_str(), writer) && f.seq >= n {
                assert(f@.id() == (writer@, f.seq));
                n = f.seq + 1;
            }
            i += 1;
        }
        assert forall|s: u64| #[trigger] self@.contains_key((writer@, s)) implies s < n by {
            let ids = ids_of(self.list());
            assert(ids.to_set().contains((writer@, s)));
            let j = ids.index_of((writer@, s));
            assert(self.frames@[j]@.id() == (writer@, s));
        }
        n
    }

    /// Appends a frame to a writer's log. It depends on the frontier.
    pub fn append(&mut self, writer: &str, payload: Vec<u8>) -> (r: Frame)
        requires
            old(self).wf(),
            !old(self)@.contains_key((writer@, u64::MAX)),
        ensures
            final(self).wf(),
            r@.writer == writer@,
            is_next_seq(old(self)@, writer@, r@.seq),
            r@.deps == frontier_of(old(self)@),
            r@.payload == payload@,
            !old(self)@.contains_key(r@.id()),
            final(self)@ == old(self)@.insert(r@.id(), r@),
    {
        let seq = self.next_seq(writer);
        let frame = Frame { writer: copy_text(writer), seq, deps: self.frontier(), payload };
        let kept = frame.copy();
        assert(!self@.contains_key((writer@, seq)));
        self.add(kept);
        frame
    }

    /// The frames that a peer lacks which holds each writer's log up to the given
    /// number.
    pub fn missing_for(&self, have: &TextMap<u64>) -> (r: Vec<&Frame>)
        requires
            self.wf(),
            have.wf(),
        ensures
            r@.len() == missing(self@, have@).len(),
            forall|i: int|
                0 <= i < r@.len() ==> missing(self@, have@)[i] == (#[trigger] r@[i])@.id()
                    && r@[i]@ == self@[r@[i]@.id()],
    {
        let ghost m = self@;
        let ghost ids = ids_of(self.list());
        let ghost want = m.dom().filter(|id: Id| !have@.contains_key(id.0) || id.1 > have@[id.0]);
        proof {
            self.lemma_dom();
            lemma_id_order();
        }
        let mut out: Vec<&Frame> = Vec::new();
        let ghost mut got: Seq<Id> = Seq::empty();
        let mut i: usize = 0;
        while i < self.frames.len()
            invariant
                i <= self.frames@.len(),
                self.wf(),
                have.wf(),
                m == self@,
                ids == ids_of(self.list()),
                want == m.dom().filter(
                    |id: Id| !have@.contains_key(id.0) || id.1 > have@[id.0],
                ),
                forall|j: int|
                    0 <= j < self.frames@.len() ==> m.contains_key((#[trigger] self.frames@[j])@.id())
                        && m[self.frames@[j]@.id()] == self.frames@[j]@,
                picks(got, ids.take(i as int), want),
                got.len() == out@.len(),
                forall|j: int|
                    0 <= j < out@.len() ==> got[j] == (#[trigger] out@[j])@.id() && out@[j]@
                        == m[out@[j]@.id()],
            decreases self.frames@.len() - i,
        {
            let f = &self.frames[i];
            let ghost id = f@.id();
            assert(m.contains_key(id));
            assert(ids[i as int] == id);
            let send = match have.get(f.writer.as_str()) {
                Some(hw) => f.seq > *hw,
                None => true,
            };
            proof {
                lemma_picks_step(got, ids, i as int, want);
            }
            if send {
                out.push(f);
                proof {
                    got = got.push(id);
                }
            }
            i += 1;
        }
        proof {
            assert(ids.take(i as int) =~= ids);
            lemma_picks_done(got, ids, m.dom(), want);
        }
        out
    }

    /// Each writer's highest number.
    pub fn watermarks(&self) -> (r: TextMap<u64>)
        requires
            self.wf(),
        ensures
            r.wf(),
            is_watermarks(self@, r@),
    {
        proof {
            self.lemma_dom();
        }
        let mut wm: TextMap<u64> = TextMap::new();
        let mut i: usize = 0;
        while i < self.frames.len()
            invariant
                i <= self.frames@.len(),
                wm.wf(),
                forall|j: int|
                    0 <= j < self.frames@.len() ==> self@.contains_key(
                        (#[trigger] self.frames@[j])@.id(),
                    ),
                forall|w: Seq<char>| #[trigger]
                    wm@.contains_key(w) ==> self@.contains_key((w, wm@[w])),
                forall|j: int|
                    0 <= j < i ==> wm@.contains_key((#[trigger] self.frames@[j])@.writer)
                        && self.frames@[j]@.seq <= wm@[self.frames@[j]@.writer],
            decreases self.frames@.len() - i,
        {
            let f = &self.frames[i];
            assert(self@.contains_key(f@.id()));
            let raise = match wm.get(f.writer.as_str()) {
                Some(n) => f.seq > *n,
                None => true,
            };
            if raise {
                wm.insert(f.writer.as_str(), f.seq);
            }
            i += 1;
        }
        assert forall|id: Id| #[trigger] self@.contains_key(id) implies wm@.contains_key(id.0) && id.1
            <= wm@[id.0] by {
            let ids = ids_of(self.list());
            assert(ids.to_set().contains(id));
            let j = ids.index_of(id);
            assert(self.frames@[j]@.id() == id);
        }
        wm
    }
}

/// Whether a list of identities holds the given one.
fn holds_id(v: &Vec<FrameId>, writer: &str, seq: u64) -> (r: bool)
    ensures
        r == id_views(v@).contains((writer@, seq)),
{
    let mut i: usize = 0;
    while i < v.len()
        invariant
            i <= v@.len(),
            forall|j: int| 0 <= j < i ==> #[trigger] id_views(v@)[j] != (writer@, seq),
        decreases v@.len() - i,
    {
        let d = &v[i];
        assert(id_views(v@)[i as int] == (d.0@, d.1));
        if d.1 == seq && same_text(d.0.as_str(), writer) {
            return true;
        }
        i += 1;
    }
    false
}

/// `got` lists the members of `from` that are in `want`, ascending.
spec fn picks(got: Seq<Id>, from: Seq<Id>, want: Set<Id>) -> bool {
    &&& ascends(got, id_order())
    &&& forall|x: Id| #[trigger] got.contains(x) <==> from.contains(x) && want.contains(x)
}

proof fn lemma_picks_step(got: Seq<Id>, ids: Seq<Id>, i: int, want: Set<Id>)
    requires
        ascends(ids, id_order()),
        0 <= i < ids.len(),
        picks(got, ids.take(i), want),
    ensures
        want.contains(ids[i]) ==> picks(got.push(ids[i]), ids.take(i + 1), want),
        !want.contains(ids[i]) ==> picks(got, ids.take(i + 1), want),
{
    let lt = id_order();
    let x = ids[i];
    let a = ids.take(i);
    let b = ids.take(i + 1);
    assert forall|y: Id| #[trigger] b.contains(y) <==> a.contains(y) || y == x by {
        if a.contains(y) {
            assert(b[a.index_of(y)] == y);
        }
        if y == x {
            assert(b[i] == y);
        }
        if b.contains(y) && y != x {
            assert(a[b.index_of(y)] == y);
        }
    }
    if want.contains(x) {
        let now = got.push(x);
        assert forall|p: int, q: int| 0 <= p < q < now.len() implies lt(
            #[trigger] now[p],
            #[trigger] now[q],
        ) by {
            if q == got.len() {
                assert(got.contains(got[p]));
                let j = a.index_of(got[p]);
                assert(lt(ids[j], ids[i]));
            } else {
                assert(lt(got[p], got[q]));
            }
        }
        assert forall|y: Id| #[trigger] now.contains(y) <==> b.contains(y) && want.contains(y) by {
            if got.contains(y) {
                assert(now[got.index_of(y)] == y);
            }
            if y == x {
                assert(now[got.len() as int] == y);
            }
            if now.contains(y) && y != x {
                assert(got[now.index_of(y)] == y);
            }
        }
    } else {
        assert forall|y: Id| #[trigger] got.contains(y) <==> b.contains(y) && want.contains(y) by {
            assert(b.contains(y) <==> a.contains(y) || y == x);
        }
    }
}

proof fn lemma_picks_done(got: Seq<Id>, ids: Seq<Id>, dom: Set<Id>, want: Set<Id>)
    requires
        ids.to_set() == dom,
        want.subset_of(dom),
        picks(got, ids, want),
    ensures
        got == listed(want, id_order()),
{
    lemma_id_order();
    assert(got.to_set() =~= want) by {
        assert forall|x: Id| want.contains(x) implies got.contains(x) by {
            assert(ids.to_set().contains(x));
        }
    }
    lemma_listed(got, id_order());
}

// ---------------------------------------------------------------------------
// Computing the order
// ---------------------------------------------------------------------------

/// Position `i` is free to go: it has not gone, and all that it waits for has.
spec fn free(waits: Seq<Vec<usize>>, gone: Seq<bool>, i: int) -> bool {
    &&& 0 <= i < gone.len()
    &&& !gone[i]
    &&& forall|j: usize| #[trigger] waits[i]@.contains(j) ==> gone[j as int]
}

/// Whether all positions in a list are gone.
fn all_gone(list: &Vec<usize>, gone: &Vec<bool>) -> (r: bool)
    requires
        forall|k: int| 0 <= k < list@.len() ==> (#[trigger] list@[k]) < gone@.len(),
    ensures
        r == forall|j: usize| #[trigger] list@.contains(j) ==> gone@[j as int],
{
    let mut k: usize = 0;
    while k < list.len()
        invariant
            k <= list@.len(),
            forall|x: int| 0 <= x < list@.len() ==> (#[trigger] list@[x]) < gone@.len(),
            forall|x: int| 0 <= x < k ==> gone@[(#[trigger] list@[x]) as int],
        decreases list@.len() - k,
    {
        if !gone[list[k]] {
            assert(list@.contains(list@[k as int]));
            return false;
        }
        k += 1;
    }
    assert forall|j: usize| #[trigger] list@.contains(j) implies gone@[j as int] by {
        assert(list@[list@.index_of(j)] == j);
    }
    true
}

/// The positions stand in ascending order, each once.
spec fn rising(v: Seq<usize>) -> bool {
    forall|a: int, b: int| 0 <= a < b < v.len() ==> (#[trigger] v[a]) < (#[trigger] v[b])
}

/// Puts `x` in its place in an ascending list, if it is not there yet.
fn put_rising(v: &mut Vec<usize>, x: usize)
    requires
        rising(old(v)@),
    ensures
        rising(final(v)@),
        forall|y: usize| #[trigger] final(v)@.contains(y) <==> old(v)@.contains(y) || y == x,
{
    let mut i: usize = 0;
    while i < v.len() && v[i] < x
        invariant
            i <= v@.len(),
            v@ == old(v)@,
            forall|j: int| 0 <= j < i ==> (#[trigger] v@[j]) < x,
        decreases v@.len() - i,
    {
        i += 1;
    }
    let ghost was = v@;
    if i < v.len() && v[i] == x {
        assert(was[i as int] == x);
        return;
    }
    v.insert(i, x);
    proof {
        assert(v@ =~= was.insert(i as int, x));
        assert forall|a: int, b: int| 0 <= a < b < v@.len() implies (#[trigger] v@[a]) < (
        #[trigger] v@[b]) by {
            if a == i {
                if b - 1 > i {
                    assert(was[i as int] < was[b - 1]);
                }
            } else if a > i {
                assert(was[a - 1] < was[b - 1]);
            } else if b < i {
                assert(was[a] < was[b]);
            } else if b > i {
                assert(was[a] < was[b - 1]);
            }
        }
        assert forall|y: usize| #[trigger] v@.contains(y) <==> was.contains(y) || y == x by {
            if was.contains(y) {
                let j = was.index_of(y);
                assert(v@[if j < i {
                    j
                } else {
                    j + 1
                }] == y);
            }
            if y == x {
                assert(v@[i as int] == y);
            }
            if v@.contains(y) && y != x {
                let j = v@.index_of(y);
                assert(was[if j < i {
                    j
                } else {
                    j - 1
                }] == y);
            }
        }
    }
}

impl Replica {
    /// `w` lists for each frame the positions of the frames that it depends on
    /// and the replica holds.
    spec fn waits_ok(&self, w: Seq<Vec<usize>>, n: int) -> bool {
        &&& w.len() == n <= self.frames@.len()
        &&& forall|i: int, k: int|
            0 <= i < n && 0 <= k < w[i]@.len() ==> (#[trigger] w[i]@[k]) < self.frames@.len()
        &&& forall|i: int, j: usize|
            0 <= i < n && j < self.frames@.len() ==> (#[trigger] w[i]@.contains(j)
                <==> self.frames@[i]@.deps.contains(self.frames@[j as int]@.id()))
    }

    fn waits(&self) -> (w: Vec<Vec<usize>>)
        requires
            self.wf(),
        ensures
            self.waits_ok(w@, self.frames@.len() as int),
    {
        let ghost ids = ids_of(self.list());
        proof {
            self.lemma_dom();
            lemma_id_order();
            lemma_ascends_distinct(ids, id_order());
        }
        let mut w: Vec<Vec<usize>> = Vec::new();
        let mut i: usize = 0;
        while i < self.frames.len()
            invariant
                i <= self.frames@.len(),
                self.wf(),
                ids == ids_of(self.list()),
                ids.no_duplicates(),
                ids.to_set() == self@.dom(),
                forall|j: int|
                    0 <= j < self.frames@.len() ==> self@.contains_key(
                        (#[trigger] self.frames@[j])@.id(),
                    ),
                self.waits_ok(w@, i as int),
            decreases self.frames@.len() - i,
        {
            let deps = &self.frames[i].deps;
            let ghost dv = id_views(deps@);
            let mut row: Vec<usize> = Vec::new();
            let mut k: usize = 0;
            while k < deps.len()
                invariant
                    i < self.frames@.len(),
                    k <= deps@.len(),
                    dv == id_views(deps@),
                    self.wf(),
                    ids == ids_of(self.list()),
                    ids.no_duplicates(),
                    forall|j: int|
                        0 <= j < self.frames@.len() ==> self@.contains_key(
                            (#[trigger] self.frames@[j])@.id(),
                        ),
                    forall|x: int| 0 <= x < row@.len() ==> (#[trigger] row@[x]) < self.frames@.len(),
                    forall|j: usize|
                        j < self.frames@.len() ==> (#[trigger] row@.contains(j) <==> dv.take(
                            k as int,
                        ).contains(self.frames@[j as int]@.id())),
                decreases deps@.len() - k,
            {
                let d = &deps[k];
                let ghost id = (d.0@, d.1);
                let ghost was = row@;
                assert(dv[k as int] == id);
                assert forall|x: Id| #[trigger] dv.take(k + 1).contains(x) <==> dv.take(
                    k as int,
                ).contains(x) || x == id by {
                    let a = dv.take(k as int);
                    let b = dv.take(k + 1);
                    if a.contains(x) {
                        assert(b[a.index_of(x)] == x);
                    }
                    if x == id {
                        assert(b[k as int] == x);
                    }
                    if b.contains(x) && x != id {
                        assert(a[b.index_of(x)] == x);
                    }
                }
                match self.position(d.0.as_str(), d.1) {
                    Some(p) => {
                        row.push(p);
                        assert forall|j: usize| j < self.frames@.len() implies (
                        #[trigger] row@.contains(j) <==> dv.take(k + 1).contains(
                            self.frames@[j as int]@.id(),
                        )) by {
                            let x = self.frames@[j as int]@.id();
                            assert(was.contains(j) <==> dv.take(k as int).contains(x));
                            assert(dv.take(k + 1).contains(x) <==> dv.take(k as int).contains(x) || x
                                == id);
                            assert(ids[j as int] == x && ids[p as int] == id);
                            if was.contains(j) {
                                assert(row@[was.index_of(j)] == j);
                            }
                            if j == p {
                                assert(row@[was.len() as int] == j);
                            }
                            if row@.contains(j) && j != p {
                                assert(was[row@.index_of(j)] == j);
                            }
                        }
                    },
                    None => {
                        assert forall|j: usize| j < self.frames@.len() implies (
                        #[trigger] row@.contains(j) <==> dv.take(k + 1).contains(
                            self.frames@[j as int]@.id(),
                        )) by {
                            assert(self@.contains_key(self.frames@[j as int]@.id()));
                        }
                    },
                }
                k += 1;
            }
            assert(dv.take(k as int) =~= dv);
            let ghost before = w@;
            w.push(row);
            i += 1;
        }
        w
    }

    /// For each position the positions that wait for it.
    fn waiters(&self, w: &Vec<Vec<usize>>) -> (r: Vec<Vec<usize>>)
        requires
            self.waits_ok(w@, self.frames@.len() as int),
        ensures
            r@.len() == self.frames@.len(),
            forall|j: int, k: int|
                0 <= j < r@.len() && 0 <= k < r@[j]@.len() ==> (#[trigger] r@[j]@[k])
                    < self.frames@.len(),
            forall|j: usize, i: usize|
                i < r@.len() && j < r@.len() && #[trigger] w@[i as int]@.contains(j)
                    ==> #[trigger] r@[j as int]@.contains(i),
    {
        let n: usize = self.frames.len();
        let mut r: Vec<Vec<usize>> = Vec::new();
        let mut a: usize = 0;
        while a < n
            invariant
                a <= n,
                r@.len() == a,
                forall|j: int| 0 <= j < a ==> (#[trigger] r@[j])@.len() == 0,
            decreases n - a,
        {
            r.push(Vec::new());
            a += 1;
        }
        let mut i: usize = 0;
        while i < n
            invariant
                i <= n,
                n == self.frames@.len(),
                self.waits_ok(w@, n as int),
                r@.len() == n,
                forall|j: int, k: int|
                    0 <= j < n && 0 <= k < r@[j]@.len() ==> (#[trigger] r@[j]@[k]) < n,
                forall|j: usize, x: usize|
                    x < i && j < n && #[trigger] w@[x as int]@.contains(j)
                        ==> #[trigger] r@[j as int]@.contains(x),
            decreases n - i,
        {
            let row = &w[i];
            let mut k: usize = 0;
            while k < row.len()
                invariant
                    i < n,
                    n == self.frames@.len(),
                    k <= row@.len(),
                    row@ == w@[i as int]@,
                    self.waits_ok(w@, n as int),
                    r@.len() == n,
                    forall|j: int, x: int|
                        0 <= j < n && 0 <= x < r@[j]@.len() ==> (#[trigger] r@[j]@[x]) < n,
                    forall|j: usize, x: usize|
                        x < i && j < n && #[trigger] w@[x as int]@.contains(j)
                            ==> #[trigger] r@[j as int]@.contains(x),
                    forall|x: int| 0 <= x < k ==> r@[(#[trigger] row@[x]) as int]@.contains(i),
                decreases row@.len() - k,
            {
                let j: usize = row[k];
                assert(w@[i as int]@[k as int] < n);
                let ghost was = r@;
                r[j].push(i);
                proof {
                    let old_row = was[j as int]@;
                    assert(r@[j as int]@ =~= old_row.push(i));
                    assert(r@[j as int]@[old_row.len() as int] == i);
                    assert forall|b: usize, x: usize|
                        x < i && b < n && #[trigger] w@[x as int]@.contains(
                            b,
                        ) implies #[trigger] r@[b as int]@.contains(x) by {
                        assert(was[b as int]@.contains(x));
                        if b == j {
                            assert(r@[b as int]@[old_row.index_of(x)] == x);
                        }
                    }
                    assert forall|x: int| 0 <= x < k + 1 implies r@[(#[trigger] row@[x]) as int]@.contains(
                        i,
                    ) by {
                        if x < k {
                            let b = row@[x];
                            assert(was[b as int]@.contains(i));
                            if b == j {
                                assert(r@[b as int]@[old_row.index_of(i)] == i);
                            }
                        }
                    }
                    assert forall|b: int, x: int| 0 <= b < n && 0 <= x < r@[b]@.len() implies (
                    #[trigger] r@[b]@[x]) < n by {
                        if b == j {
                            if x < old_row.len() {
                                assert(was[b]@[x] < n);
                            }
                        } else {
                            assert(was[b]@[x] < n);
                        }
                    }
                }
                k += 1;
            }
            assert forall|j: usize, x: usize|
                x < i + 1 && j < n && #[trigger] w@[x as int]@.contains(
                    j,
                ) implies #[trigger] r@[j as int]@.contains(x) by {
                if x == i {
                    assert(row@[row@.index_of(j)] == j);
                }
            }
            i += 1;
        }
        r
    }

    /// The identities of the frames that are gone.
    spec fn gone_ids(&self, gone: Seq<bool>) -> Set<Id> {
        Set::new(
            |id: Id|
                exists|i: int|
                    0 <= i < gone.len() && gone[i] && (#[trigger] self.frames@[i])@.id() == id,
        )
    }

    /// Positions that are free are frames that may come next, and the other way
    /// round.
    proof fn lemma_free(&self, w: Seq<Vec<usize>>, gone: Seq<bool>, i: int)
        requires
            self.wf(),
            self.waits_ok(w, self.frames@.len() as int),
            gone.len() == self.frames@.len(),
            0 <= i < gone.len(),
        ensures
            free(w, gone, i) <==> is_ready(self@, self.gone_ids(gone), self.frames@[i]@.id()),
    {
        let ids = ids_of(self.list());
        let m = self@;
        let done = self.gone_ids(gone);
        self.lemma_dom();
        lemma_id_order();
        lemma_ascends_distinct(ids, id_order());
        let id = self.frames@[i]@.id();
        assert(ids[i] == id);
        assert forall|j: int| 0 <= j < gone.len() implies (gone[j] <==> done.contains(
            (#[trigger] self.frames@[j])@.id(),
        )) by {
            if done.contains(self.frames@[j]@.id()) {
                let x = choose|x: int|
                    0 <= x < gone.len() && gone[x] && (#[trigger] self.frames@[x])@.id()
                        == self.frames@[j]@.id();
                assert(ids[x] == ids[j]);
            }
        }
        if free(w, gone, i) {
            assert forall|d: Id| #[trigger] m[id].deps.contains(d) && m.contains_key(d) implies done.contains(
                d,
            ) by {
                assert(ids.to_set().contains(d));
                let j = ids.index_of(d);
                assert(self.frames@[j]@.id() == d);
                assert(j < self.frames.len() <= usize::MAX);
                assert(w[i]@.contains(j as usize));
            }
        }
        if is_ready(m, done, id) {
            assert forall|j: usize| #[trigger] w[i]@.contains(j) implies gone[j as int] by {
                let k = w[i]@.index_of(j);
                assert(w[i]@[k] < self.frames@.len());
                assert(m[id].deps.contains(self.frames@[j as int]@.id()));
            }
        }
    }

    /// All frames in their one order.
    pub fn linearize(&self) -> (r: Vec<&Frame>)
        requires
            self.wf(),
        ensures
            r@.len() == order_of(self@).len(),
            forall|i: int|
                0 <= i < r@.len() ==> order_of(self@)[i] == (#[trigger] r@[i])@.id() && r@[i]@
                    == self@[r@[i]@.id()],
    {
        let n: usize = self.frames.len();
        let ghost m = self@;
        let ghost ids = ids_of(self.list());
        proof {
            self.lemma_dom();
            lemma_id_order();
            lemma_ascends_distinct(ids, id_order());
        }
        let w = self.waits();
        let after = self.waiters(&w);
        let mut gone: Vec<bool> = Vec::new();
        let mut ready: Vec<usize> = Vec::new();
        let mut a: usize = 0;
        while a < n
            invariant
                a <= n,
                gone@.len() == a,
                forall|i: int| 0 <= i < a ==> !(#[trigger] gone@[i]),
            decreases n - a,
        {
            gone.push(false);
            a += 1;
        }
        let mut b: usize = 0;
        while b < n
            invariant
                b <= n,
                n == self.frames@.len(),
                self.waits_ok(w@, n as int),
                gone@.len() == n,
                forall|i: int| 0 <= i < n ==> !(#[trigger] gone@[i]),
                rising(ready@),
                forall|i: usize| #[trigger] ready@.contains(i) <==> i < b && free(w@, gone@, i as int),
            decreases n - b,
        {
            assert forall|k: int| 0 <= k < w@[b as int]@.len() implies (#[trigger] w@[b as int]@[k])
                < gone@.len() by {
                assert(w@[b as int]@[k] < self.frames@.len());
            }
            if all_gone(&w[b], &gone) {
                put_rising(&mut ready, b);
            }
            b += 1;
        }
        let mut out: Vec<&Frame> = Vec::new();
        let ghost mut order: Seq<Id> = Seq::empty();
        proof {
            assert(order_upto(m, 0) =~= order);
            assert(self.gone_ids(gone@) =~= order.to_set());
        }
        while ready.len() > 0
            invariant
                n == self.frames@.len(),
                n == m.dom().len(),
                self.wf(),
                m == self@,
                ids == ids_of(self.list()),
                ids.no_duplicates(),
                ids.to_set() == m.dom(),
                ascends(ids, id_order()),
                forall|j: int|
                    0 <= j < n ==> m.contains_key((#[trigger] self.frames@[j])@.id())
                        && m[self.frames@[j]@.id()] == self.frames@[j]@,
                self.waits_ok(w@, n as int),
                after@.len() == n,
                forall|j: int, k: int|
                    0 <= j < n && 0 <= k < after@[j]@.len() ==> (#[trigger] after@[j]@[k]) < n,
                forall|j: usize, i: usize|
                    i < n && j < n && #[trigger] w@[i as int]@.contains(j)
                        ==> #[trigger] after@[j as int]@.contains(i),
                gone@.len() == n,
                rising(ready@),
                forall|i: usize| #[trigger] ready@.contains(i) <==> free(w@, gone@, i as int),
                order == order_upto(m, order.len()),
                order.no_duplicates(),
                order.to_set() == self.gone_ids(gone@),
                out@.len() == order.len() <= n,
                forall|i: int|
                    0 <= i < out@.len() ==> order[i] == (#[trigger] out@[i])@.id() && out@[i]@
                        == m[out@[i]@.id()],
            decreases n - order.len(),
        {
            let ghost was = ready@;
            let j: usize = ready.remove(0);
            let ghost old_gone = gone@;
            let ghost id = self.frames@[j as int]@.id();
            proof {
                assert(was[0] == j);
                assert(was.contains(j));
                assert(free(w@, gone@, j as int));
                assert(ready@ =~= was.skip(1));
                // The first free position is the least frame that may come next.
                self.lemma_free(w@, gone@, j as int);
                assert(is_next(m, order.to_set(), id)) by {
                    assert forall|o: Id| #[trigger] is_ready(m, order.to_set(), o) implies o == id
                        || id_lt(id, o) by {
                        assert(ids.to_set().contains(o));
                        let x = ids.index_of(o);
                        assert(self.frames@[x]@.id() == o);
                        self.lemma_free(w@, gone@, x);
                        assert(was.contains(x as usize));
                        let p = was.index_of(x as usize);
                        if p > 0 {
                            assert(was[0] < was[p]);
                            let lt = id_order();
                            assert(lt(ids[j as int], ids[x]));
                        }
                    }
                }
                let c = choose|c: Id| is_next(m, order_upto(m, order.len()).to_set(), c);
                lemma_next_unique(m, order.to_set(), c, id);
                assert(order_upto(m, order.len() + 1) == order.push(id));
                assert(!order.contains(id)) by {
                    assert(!order.to_set().contains(id));
                }
            }
            out.push(&self.frames[j]);
            gone[j] = true;
            proof {
                let next = order.push(id);
                assert(next.to_set() =~= self.gone_ids(gone@)) by {
                    assert forall|x: Id| next.to_set().contains(x) <==> self.gone_ids(gone@).contains(x) by {
                        if next.contains(x) {
                            let p = next.index_of(x);
                            if p < order.len() {
                                assert(order.to_set().contains(order[p]));
                                assert(self.gone_ids(old_gone).contains(x));
                                let q = choose|q: int|
                                    0 <= q < old_gone.len() && old_gone[q] && (
                                    #[trigger] self.frames@[q])@.id() == x;
                                assert(gone@[q] && self.frames@[q]@.id() == x);
                            } else {
                                assert(gone@[j as int] && self.frames@[j as int]@.id() == x);
                            }
                        }
                        if self.gone_ids(gone@).contains(x) {
                            let q = choose|q: int|
                                0 <= q < gone@.len() && gone@[q] && (#[trigger] self.frames@[q])@.id()
                                    == x;
                            if q == j {
                                assert(next[order.len() as int] == x);
                            } else {
                                assert(old_gone[q] && self.frames@[q]@.id() == x);
                                assert(self.gone_ids(old_gone).contains(x));
                                assert(order.to_set().contains(x));
                                assert(next[order.index_of(x)] == x);
                            }
                        }
                    }
                }
                order = next;
                self.lemma_order_len(order);
            }
            let row = &after[j];
            let ghost mid = ready@;
            proof {
                assert forall|a: int, b: int| 0 <= a < b < mid.len() implies (#[trigger] mid[a]) < (
                #[trigger] mid[b]) by {
                    assert(was[a + 1] < was[b + 1]);
                }
                assert forall|i: usize| #[trigger] mid.contains(i) <==> free(w@, old_gone, i as int) && i
                    != j by {
                    if mid.contains(i) {
                        let p = mid.index_of(i);
                        assert(was[p + 1] == i);
                        assert(was[0] < was[p + 1]);
                        assert(was.contains(i));
                    }
                    if free(w@, old_gone, i as int) && i != j {
                        assert(was.contains(i));
                        let p = was.index_of(i);
                        assert(mid[p - 1] == i);
                    }
                }
                assert forall|i: usize| #[trigger] mid.contains(i) implies free(w@, gone@, i as int) by {
                    assert(free(w@, old_gone, i as int));
                    assert forall|x: usize| #[trigger] w@[i as int]@.contains(x) implies gone@[x as int] by {
                        let q = w@[i as int]@.index_of(x);
                        assert(w@[i as int]@[q] < n);
                        assert(old_gone[x as int]);
                    }
                }
            }
            let mut k: usize = 0;
            while k < row.len()
                invariant
                    k <= row@.len(),
                    j < n,
                    n == self.frames@.len(),
                    row@ == after@[j as int]@,
                    self.waits_ok(w@, n as int),
                    after@.len() == n,
                    forall|x: int, y: int|
                        0 <= x < n && 0 <= y < after@[x]@.len() ==> (#[trigger] after@[x]@[y]) < n,
                    gone@.len() == n,
                    rising(ready@),
                    forall|i: usize| #[trigger] mid.contains(i) ==> ready@.contains(i),
                    forall|i: usize| #[trigger] ready@.contains(i) ==> free(w@, gone@, i as int),
                    forall|x: int|
                        0 <= x < k && free(w@, gone@, (#[trigger] row@[x]) as int) ==> ready@.contains(
                            row@[x],
                        ),
                decreases row@.len() - k,
            {
                let i: usize = row[k];
                assert(after@[j as int]@[k as int] < n);
                assert forall|y: int| 0 <= y < w@[i as int]@.len() implies (
                #[trigger] w@[i as int]@[y]) < gone@.len() by {
                    assert(w@[i as int]@[y] < self.frames@.len());
                }
                if !gone[i] && all_gone(&w[i], &gone) {
                    put_rising(&mut ready, i);
                }
                k += 1;
            }
            assert forall|i: usize| #[trigger] ready@.contains(i) <==> free(w@, gone@, i as int) by {
                if free(w@, gone@, i as int) {
                    assert(i != j);
                    if w@[i as int]@.contains(j) {
                        assert(after@[j as int]@.contains(i));
                        let x = row@.index_of(i);
                        assert(row@[x] == i);
                    } else {
                        assert(free(w@, old_gone, i as int)) by {
                            assert forall|x: usize| #[trigger] w@[i as int]@.contains(
                                x,
                            ) implies old_gone[x as int] by {
                                let q = w@[i as int]@.index_of(x);
                                assert(w@[i as int]@[q] < n);
                                assert(gone@[x as int]);
                                assert(x != j);
                            }
                        }
                        assert(mid.contains(i));
                    }
                }
            }
        }
        proof {
            assert forall|id: Id| !is_next(m, order_upto(m, order.len()).to_set(), id) by {
                if is_next(m, order.to_set(), id) {
                    assert(ids.to_set().contains(id));
                    let x = ids.index_of(id);
                    assert(self.frames@[x]@.id() == id);
                    self.lemma_free(w@, gone@, x);
                    assert(ready@.contains(x as usize));
                    assert(ready@[ready@.index_of(x as usize)] == x);
                }
            }
            lemma_order_stops(m, order.len(), m.dom().len());
        }
        out
    }

    /// A list of different frames of the replica is no longer than the replica.
    proof fn lemma_order_len(&self, order: Seq<Id>)
        requires
            self.wf(),
            order.no_duplicates(),
            exists|gone: Seq<bool>|
                gone.len() == self.frames@.len() && order.to_set() == #[trigger] self.gone_ids(gone),
        ensures
            order.len() <= self.frames@.len(),
    {
        let gone = choose|gone: Seq<bool>|
            gone.len() == self.frames@.len() && order.to_set() == #[trigger] self.gone_ids(gone);
        self.lemma_dom();
        order.unique_seq_to_set();
        assert(order.to_set().subset_of(self@.dom())) by {
            assert forall|x: Id| order.to_set().contains(x) implies self@.dom().contains(x) by {
                assert(self.gone_ids(gone).contains(x));
                let q = choose|q: int|
                    0 <= q < gone.len() && gone[q] && (#[trigger] self.frames@[q])@.id() == x;
                assert(self@.contains_key(self.frames@[q]@.id()));
            }
        }
        vstd::set_lib::lemma_len_subset(order.to_set(), self@.dom());
    }
}

// ---------------------------------------------------------------------------
// Laws
// ---------------------------------------------------------------------------

/// Adding a frame twice is adding it once.
pub proof fn law_add_is_idempotent(m: Map<Id, FrameView>, f: FrameView)
    ensures
        added(added(m, f), f) == added(m, f),
{
}

/// Two frames can be added in either order, unless they differ and share an
/// identity.
pub proof fn law_adds_commute(m: Map<Id, FrameView>, f: FrameView, g: FrameView)
    requires
        f.id() == g.id() ==> f == g,
    ensures
        added(added(m, f), g) == added(added(m, g), f),
{
    assert(added(added(m, f), g) =~= added(added(m, g), f));
}

/// A replica after frames have arrived one by one.
pub open spec fn gathered(m: Map<Id, FrameView>, fs: Seq<FrameView>) -> Map<Id, FrameView>
    decreases fs.len(),
{
    if fs.len() == 0 {
        m
    } else {
        added(gathered(m, fs.drop_last()), fs.last())
    }
}

/// Frames that share an identity are the same.
pub open spec fn one_frame_per_id(fs: Seq<FrameView>) -> bool {
    forall|i: int, j: int|
        0 <= i < fs.len() && 0 <= j < fs.len() && (#[trigger] fs[i]).id() == (
        #[trigger] fs[j]).id() ==> fs[i] == fs[j]
}

proof fn lemma_gathered(fs: Seq<FrameView>)
    requires
        one_frame_per_id(fs),
    ensures
        forall|i: int|
            0 <= i < fs.len() ==> gathered(Map::empty(), fs).contains_key((#[trigger] fs[i]).id())
                && gathered(Map::empty(), fs)[fs[i].id()] == fs[i],
        forall|id: Id| #[trigger]
            gathered(Map::empty(), fs).contains_key(id) ==> exists|i: int|
                0 <= i < fs.len() && (#[trigger] fs[i]).id() == id,
    decreases fs.len(),
{
    if fs.len() > 0 {
        let front = fs.drop_last();
        assert forall|i: int, j: int|
            0 <= i < front.len() && 0 <= j < front.len() && (#[trigger] front[i]).id() == (
            #[trigger] front[j]).id() implies front[i] == front[j] by {
            assert(front[i] == fs[i] && front[j] == fs[j]);
        }
        lemma_gathered(front);
        let m = gathered(Map::empty(), front);
        let r = gathered(Map::empty(), fs);
        let l = fs.last();
        assert(fs[fs.len() - 1] == l);
        assert(r.contains_key(l.id()) && r[l.id()] == l) by {
            if m.contains_key(l.id()) {
                let i = choose|i: int| 0 <= i < front.len() && (#[trigger] front[i]).id() == l.id();
                assert(front[i] == fs[i]);
            }
        }
        assert forall|i: int| 0 <= i < fs.len() implies r.contains_key((#[trigger] fs[i]).id())
            && r[fs[i].id()] == fs[i] by {
            if i < front.len() {
                assert(front[i] == fs[i]);
                assert(m.contains_key(front[i].id()));
            }
        }
        assert forall|id: Id| #[trigger] r.contains_key(id) implies exists|i: int|
            0 <= i < fs.len() && (#[trigger] fs[i]).id() == id by {
            if id != l.id() {
                assert(m.contains_key(id));
                let i = choose|i: int| 0 <= i < front.len() && (#[trigger] front[i]).id() == id;
                assert(fs[i].id() == id);
            }
        }
    }
}

/// Replicas that received the same frames hold the same and agree on one order,
/// whatever the order of arrival and however often a frame arrived. Different
/// frames that share an identity are left out.
pub proof fn law_arrival_order_is_irrelevant(fs: Seq<FrameView>, gs: Seq<FrameView>)
    requires
        one_frame_per_id(fs),
        fs.to_set() == gs.to_set(),
    ensures
        gathered(Map::empty(), fs) == gathered(Map::empty(), gs),
        order_of(gathered(Map::empty(), fs)) == order_of(gathered(Map::empty(), gs)),
{
    assert forall|i: int, j: int|
        0 <= i < gs.len() && 0 <= j < gs.len() && (#[trigger] gs[i]).id() == (
        #[trigger] gs[j]).id() implies gs[i] == gs[j] by {
        assert(gs.to_set().contains(gs[i]) && gs.to_set().contains(gs[j]));
        assert(fs.to_set().contains(gs[i]) && fs.to_set().contains(gs[j]));
        let a = fs.index_of(gs[i]);
        let b = fs.index_of(gs[j]);
        assert(fs[a] == gs[i] && fs[b] == gs[j]);
    }
    lemma_gathered(fs);
    lemma_gathered(gs);
    let x = gathered(Map::empty(), fs);
    let y = gathered(Map::empty(), gs);
    assert forall|id: Id|
        (#[trigger] x.contains_key(id) <==> y.contains_key(id)) && (x.contains_key(id) ==> x[id] == y[id]) by {
        if x.contains_key(id) {
            let i = choose|i: int| 0 <= i < fs.len() && (#[trigger] fs[i]).id() == id;
            assert(fs.to_set().contains(fs[i]));
            assert(gs.to_set().contains(fs[i]));
            let j = gs.index_of(fs[i]);
            assert(gs[j].id() == id);
        }
        if y.contains_key(id) {
            let i = choose|i: int| 0 <= i < gs.len() && (#[trigger] gs[i]).id() == id;
            assert(gs.to_set().contains(gs[i]));
            assert(fs.to_set().contains(gs[i]));
            let j = fs.index_of(gs[i]);
            assert(fs[j].id() == id);
        }
    }
    assert(x.dom() =~= y.dom());
    assert(x =~= y);
}

/// In `s` every frame stands behind the frames that it depends on, as far as the
/// replica holds them.
pub open spec fn causal(m: Map<Id, FrameView>, s: Seq<Id>) -> bool {
    forall|q: int, d: Id|
        0 <= q < s.len() && #[trigger] m[s[q]].deps.contains(d) && m.contains_key(d) ==> s.take(
            q,
        ).contains(d)
}

proof fn lemma_order(m: Map<Id, FrameView>, n: nat)
    ensures
        order_upto(m, n).no_duplicates(),
        order_upto(m, n).to_set().subset_of(m.dom()),
        causal(m, order_upto(m, n)),
        order_upto(m, n).len() <= n,
    decreases n,
{
    if n > 0 {
        lemma_order(m, (n - 1) as nat);
        let s = order_upto(m, (n - 1) as nat);
        if exists|id: Id| is_next(m, s.to_set(), id) {
            let id = choose|id: Id| is_next(m, s.to_set(), id);
            let t = s.push(id);
            assert(!s.contains(id)) by {
                assert(!s.to_set().contains(id));
            }
            assert forall|q: int, d: Id|
                0 <= q < t.len() && #[trigger] m[t[q]].deps.contains(d) && m.contains_key(d) implies t.take(
                q,
            ).contains(d) by {
                assert(t.take(q) =~= s.take(q));
                if q == s.len() {
                    assert(s.to_set().contains(d));
                    assert(s.take(q) =~= s);
                } else {
                    assert(t[q] == s[q]);
                }
            }
            assert forall|x: Id| t.to_set().contains(x) implies m.dom().contains(x) by {
                let p = t.index_of(x);
                if p < s.len() {
                    assert(s.to_set().contains(s[p]));
                }
            }
        }
    }
}

/// The order lists frames of the replica, each at most once, and every frame
/// behind the frames that it depends on.
pub proof fn law_order_is_causal(m: Map<Id, FrameView>)
    ensures
        order_of(m).no_duplicates(),
        order_of(m).to_set().subset_of(m.dom()),
        causal(m, order_of(m)),
{
    lemma_order(m, m.dom().len());
}

/// No frame depends on itself, directly or through others: each frame can be
/// given a rank above those of the held frames that it depends on.
pub open spec fn acyclic(m: Map<Id, FrameView>) -> bool {
    exists|rank: spec_fn(Id) -> nat| ranks(m, rank)
}

/// `rank` puts each frame above the held frames that it depends on.
pub open spec fn ranks(m: Map<Id, FrameView>, rank: spec_fn(Id) -> nat) -> bool {
    forall|id: Id, d: Id| #[trigger]
        m.contains_key(id) && #[trigger] m.contains_key(d) && m[id].deps.contains(d) ==> rank(d)
            < rank(id)
}

proof fn lemma_least(s: Set<Id>) -> (r: Id)
    requires
        s.finite(),
        s.len() > 0,
    ensures
        s.contains(r),
        forall|o: Id| #[trigger] s.contains(o) ==> o == r || id_lt(r, o),
    decreases s.len(),
{
    lemma_id_order();
    let lt = id_order();
    let x = s.choose();
    let rest = s.remove(x);
    if rest.len() == 0 {
        assert forall|o: Id| #[trigger] s.contains(o) implies o == x by {
            if o != x {
                assert(rest.contains(o));
            }
        }
        x
    } else {
        let y = lemma_least(rest);
        if lt(x, y) {
            assert forall|o: Id| #[trigger] s.contains(o) implies o == x || id_lt(x, o) by {
                if o != x {
                    assert(rest.contains(o));
                    assert(lt(y, o) || o == y);
                    assert(lt(x, o));
                }
            }
            x
        } else {
            assert(lt(y, x)) by {
                assert(x != y);
            }
            assert forall|o: Id| #[trigger] s.contains(o) implies o == y || id_lt(y, o) by {
                if o != x {
                    assert(rest.contains(o));
                }
            }
            y
        }
    }
}

proof fn lemma_lowest(s: Set<Id>, rank: spec_fn(Id) -> nat) -> (r: Id)
    requires
        s.finite(),
        s.len() > 0,
    ensures
        s.contains(r),
        forall|o: Id| #[trigger] s.contains(o) ==> rank(r) <= rank(o),
    decreases s.len(),
{
    let x = s.choose();
    let rest = s.remove(x);
    if rest.len() == 0 {
        assert forall|o: Id| #[trigger] s.contains(o) implies rank(x) <= rank(o) by {
            if o != x {
                assert(rest.contains(o));
            }
        }
        x
    } else {
        let y = lemma_lowest(rest, rank);
        let r = if rank(x) <= rank(y) {
            x
        } else {
            y
        };
        assert forall|o: Id| #[trigger] s.contains(o) implies rank(r) <= rank(o) by {
            if o != x {
                assert(rest.contains(o));
            }
        }
        r
    }
}

proof fn lemma_order_grows(m: Map<Id, FrameView>, n: nat)
    requires
        m.dom().finite(),
        acyclic(m),
        n <= m.dom().len(),
    ensures
        order_upto(m, n).len() == n,
    decreases n,
{
    if n > 0 {
        lemma_order_grows(m, (n - 1) as nat);
        let s = order_upto(m, (n - 1) as nat);
        lemma_order(m, (n - 1) as nat);
        s.unique_seq_to_set();
        let left = m.dom().difference(s.to_set());
        assert(left.len() > 0) by {
            if left.len() == 0 {
                assert(m.dom().subset_of(s.to_set())) by {
                    assert forall|x: Id| m.dom().contains(x) implies s.to_set().contains(x) by {
                        if !s.to_set().contains(x) {
                            assert(left.contains(x));
                        }
                    }
                }
                vstd::set_lib::lemma_len_subset(m.dom(), s.to_set());
            }
        }
        let rank = choose|rank: spec_fn(Id) -> nat| ranks(m, rank);
        let low = lemma_lowest(left, rank);
        assert(is_ready(m, s.to_set(), low)) by {
            assert forall|d: Id| #[trigger] m[low].deps.contains(d) && m.contains_key(d) implies s.to_set().contains(
                d,
            ) by {
                assert(m.contains_key(low) && m.contains_key(d));
                assert(rank(d) < rank(low));
                if !s.to_set().contains(d) {
                    assert(left.contains(d));
                }
            }
        }
        let open = left.filter(|id: Id| is_ready(m, s.to_set(), id));
        assert(open.contains(low));
        assert(open.len() > 0) by {
            if open.len() == 0 {
                assert(open =~= Set::empty());
            }
        }
        let next = lemma_least(open);
        assert(is_next(m, s.to_set(), next)) by {
            assert forall|o: Id| #[trigger] is_ready(m, s.to_set(), o) implies o == next || id_lt(
                next,
                o,
            ) by {
                assert(open.contains(o));
            }
        }
    }
}

/// The order lists every frame of the replica, unless frames depend on each
/// other in a circle.
pub proof fn law_order_is_complete(m: Map<Id, FrameView>)
    requires
        m.dom().finite(),
        acyclic(m),
    ensures
        order_of(m).to_set() == m.dom(),
        order_of(m).len() == m.dom().len(),
{
    let n = m.dom().len();
    lemma_order_grows(m, n);
    lemma_order(m, n);
    let s = order_of(m);
    s.unique_seq_to_set();
    vstd::set_lib::lemma_subset_equality(s.to_set(), m.dom());
}

/// The replica holds every frame that one of its frames depends on.
pub open spec fn closed(m: Map<Id, FrameView>) -> bool {
    forall|id: Id, d: Id| #[trigger]
        m.contains_key(id) && #[trigger] m[id].deps.contains(d) ==> m.contains_key(d)
}

/// Appending keeps a replica free of circles, and complete where it was: what
/// the new frame depends on is held, and nothing depends on it yet.
pub proof fn law_append_keeps_order_complete(m: Map<Id, FrameView>, f: FrameView)
    requires
        m.dom().finite(),
        acyclic(m),
        closed(m),
        !m.contains_key(f.id()),
        forall|d: Id| #[trigger] f.deps.contains(d) ==> m.contains_key(d),
    ensures
        acyclic(m.insert(f.id(), f)),
        closed(m.insert(f.id(), f)),
        order_of(m.insert(f.id(), f)).to_set() == m.dom().insert(f.id()),
{
    let n = m.insert(f.id(), f);
    let rank = choose|rank: spec_fn(Id) -> nat| ranks(m, rank);
    let top = lemma_bound(m.dom(), rank);
    let up = |id: Id|
        if id == f.id() {
            top
        } else {
            rank(id)
        };
    assert(ranks(n, up)) by {
        assert forall|id: Id, d: Id| #[trigger]
            n.contains_key(id) && #[trigger] n.contains_key(d) && n[id].deps.contains(d) implies up(d)
            < up(id) by {
            if id == f.id() {
                assert(m.contains_key(d));
            } else {
                assert(m.contains_key(id));
                assert(m[id].deps.contains(d));
                assert(m.contains_key(d));
            }
        }
    }
    assert forall|id: Id, d: Id| #[trigger]
        n.contains_key(id) && #[trigger] n[id].deps.contains(d) implies n.contains_key(d) by {
        if id != f.id() {
            assert(m.contains_key(id) && m[id].deps.contains(d));
        } else {
            assert(f.deps.contains(d));
        }
    }
    assert(n.dom() =~= m.dom().insert(f.id()));
    law_order_is_complete(n);
}

proof fn lemma_bound(s: Set<Id>, rank: spec_fn(Id) -> nat) -> (top: nat)
    requires
        s.finite(),
    ensures
        forall|o: Id| #[trigger] s.contains(o) ==> rank(o) < top,
    decreases s.len(),
{
    if s.len() == 0 {
        0
    } else {
        let x = s.choose();
        let t = lemma_bound(s.remove(x), rank);
        let top = if rank(x) < t {
            t
        } else {
            rank(x) + 1
        };
        assert forall|o: Id| #[trigger] s.contains(o) implies rank(o) < top by {
            if o != x {
                assert(s.remove(x).contains(o));
            }
        }
        top
    }
}

/// A writer that catches up by watermarks ends with every frame: what is not
/// missing for it, it holds already. Each writer's log is taken to have no gaps.
pub proof fn law_missing_completes(
    m: Map<Id, FrameView>,
    theirs: Map<Id, FrameView>,
    wm: Map<Seq<char>, u64>,
    id: Id,
)
    requires
        is_watermarks(theirs, wm),
        forall|w: Seq<char>, a: u64, b: u64| #[trigger]
            theirs.contains_key((w, b)) && a <= b ==> #[trigger] theirs.contains_key((w, a)),
        m.contains_key(id),
    ensures
        theirs.contains_key(id) || m.dom().filter(
            |x: Id| !wm.contains_key(x.0) || x.1 > wm[x.0],
        ).contains(id),
{
    if wm.contains_key(id.0) && id.1 <= wm[id.0] {
        assert(theirs.contains_key((id.0, wm[id.0])));
        assert(theirs.contains_key((id.0, id.1)));
    }
}

/// The first frame of an identity is kept, and no other is touched.
pub proof fn law_first_frames_are_kept(m: Map<Id, FrameView>, f: FrameView, id: Id)
    ensures
        added(m, f).contains_key(id) <==> m.contains_key(id) || id == (f.writer, f.seq),
        m.contains_key(id) ==> added(m, f)[id] == m[id],
        !m.contains_key((f.writer, f.seq)) ==> added(m, f)[(f.writer, f.seq)] == f,
{
}

/// Identities are ordered by the writer's name, and under one name by the number.
pub proof fn law_identities_are_ordered_by_writer_and_number(a: Id, b: Id)
    ensures
        a.0 == b.0 ==> (id_lt(a, b) <==> a.1 < b.1),
        a.0 != b.0 ==> (id_lt(a, b) <==> text_lt(a.0, b.0)),
        a != b ==> (id_lt(a, b) <==> !id_lt(b, a)),
{
    crate::chars::lemma_text_lt_irreflexive(a.0);
    if a.0 != b.0 {
        crate::chars::lemma_text_lt_total(a.0, b.0);
        if text_lt(a.0, b.0) {
            crate::chars::lemma_text_lt_asymmetric(a.0, b.0);
        } else {
            crate::chars::lemma_text_lt_asymmetric(b.0, a.0);
        }
    }
}

/// The frontier lists the frames that no frame of the replica depends on, each once and in
/// order.
pub proof fn law_the_frontier_is_what_nothing_depends_on(m: Map<Id, FrameView>, id: Id)
    requires
        m.dom().finite(),
    ensures
        frontier_of(m).contains(id) <==> m.contains_key(id) && forall|f: Id| #[trigger]
            m.contains_key(f) ==> !m[f].deps.contains(id),
        frontier_of(m).no_duplicates(),
        forall|i: int, j: int|
            0 <= i < j < frontier_of(m).len() ==> id_lt(
                #[trigger] frontier_of(m)[i],
                #[trigger] frontier_of(m)[j],
            ),
{
    let want = m.dom().filter(|id: Id| !depended_on(m, id));
    lemma_id_order();
    assert(want.finite()) by {
        vstd::set_lib::lemma_len_subset(want, m.dom());
    }
    law_finite_sets_have_their_list(want, id_order());
    lemma_ascends_distinct(listed(want, id_order()), id_order());
    assert(frontier_of(m).to_set().contains(id) <==> want.contains(id));
}

/// What is missing for a replica is what is held here beyond what it has of each writer,
/// each frame once and in order; a replica that takes it in holds everything.
pub proof fn law_missing_frames_are_those_beyond(
    m: Map<Id, FrameView>,
    have: Map<Seq<char>, u64>,
    id: Id,
)
    requires
        m.dom().finite(),
    ensures
        missing(m, have).contains(id) <==> m.contains_key(id) && (!have.contains_key(id.0) || id.1
            > have[id.0]),
        missing(m, have).no_duplicates(),
        forall|i: int, j: int|
            0 <= i < j < missing(m, have).len() ==> id_lt(
                #[trigger] missing(m, have)[i],
                #[trigger] missing(m, have)[j],
            ),
{
    let want = m.dom().filter(|id: Id| !have.contains_key(id.0) || id.1 > have[id.0]);
    lemma_id_order();
    assert(want.finite()) by {
        vstd::set_lib::lemma_len_subset(want, m.dom());
    }
    law_finite_sets_have_their_list(want, id_order());
    lemma_ascends_distinct(listed(want, id_order()), id_order());
    assert(missing(m, have).to_set().contains(id) <==> want.contains(id));
}

/// Of the frames that can come next in the order the least does: every other frame that is
/// not listed yet and whose dependencies are has a greater identity.
pub proof fn law_the_least_ready_frame_comes_next(m: Map<Id, FrameView>, q: int, o: Id)
    requires
        0 <= q < order_of(m).len(),
        m.contains_key(o),
        !order_of(m).take(q).contains(o),
        forall|d: Id| #[trigger]
            m[o].deps.contains(d) && m.contains_key(d) ==> order_of(m).take(q).contains(d),
    ensures
        o == order_of(m)[q] || id_lt(order_of(m)[q], o),
{
    let n = m.dom().len();
    lemma_order_prefix(m, n, q);
    let done = order_of(m).take(q).to_set();
    assert(is_ready(m, done, o));
}

/// Each place of the order has the frame that came next when those before it were listed.
proof fn lemma_order_prefix(m: Map<Id, FrameView>, n: nat, q: int)
    requires
        0 <= q < order_upto(m, n).len(),
    ensures
        is_next(m, order_upto(m, n).take(q).to_set(), order_upto(m, n)[q]),
    decreases n,
{
    let s = order_upto(m, (n - 1) as nat);
    let t = order_upto(m, n);
    if q < s.len() {
        lemma_order_prefix(m, (n - 1) as nat, q);
        assert(t.take(q) =~= s.take(q));
        assert(t[q] == s[q]);
    } else {
        assert(exists|id: Id| is_next(m, s.to_set(), id));
        assert(t.take(q) =~= s);
    }
}

} // verus!
