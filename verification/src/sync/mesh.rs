//! A tree shared by a swarm: who is next to whom, and what to tell the swarm.
use crate::bytes::{
    bytes_less, bytes_lt, lemma_bytes_lt_irreflexive, lemma_bytes_lt_total, lemma_bytes_lt_transitive,
    same_bytes,
};
use crate::ordered::{
    ascends, law_finite_sets_have_their_list, lemma_ascends_distinct, lemma_listed, listed,
    strict_order,
};
use crate::sync::tree::{is_full_state, TreePeer};
use crate::syncer::{msgs, MsgView, SyncMsg, SyncerView};
use vstd::prelude::*;

verus! {

/// What is broadcast to the swarm.
pub enum MeshMsg {
    /// A message of the tree.
    Sync(SyncMsg),
    /// A member and those next to it.
    Presence { id: [u8; 32], neighbors: Vec<[u8; 32]> },
}

/// What a broadcast says.
pub enum MeshView {
    Sync(MsgView),
    Presence(Seq<u8>, Seq<Seq<u8>>),
}

/// The identities in a list.
pub open spec fn id_list(v: Seq<[u8; 32]>) -> Seq<Seq<u8>> {
    v.map_values(|x: [u8; 32]| x@)
}

impl View for MeshMsg {
    type V = MeshView;

    open spec fn view(&self) -> MeshView {
        match self {
            MeshMsg::Sync(m) => MeshView::Sync(m@),
            MeshMsg::Presence { id, neighbors } => MeshView::Presence(id@, id_list(neighbors@)),
        }
    }
}

/// What a list of broadcasts says.
pub open spec fn mesh_views(v: Seq<MeshMsg>) -> Seq<MeshView> {
    v.map_values(|m: MeshMsg| m@)
}

/// The order of identities.
pub open spec fn id_order() -> spec_fn(Seq<u8>, Seq<u8>) -> bool {
    |a: Seq<u8>, b: Seq<u8>| bytes_lt(a, b)
}

proof fn lemma_id_order()
    ensures
        strict_order(id_order()),
{
    let lt = id_order();
    assert forall|a: Seq<u8>| !#[trigger] lt(a, a) by {
        lemma_bytes_lt_irreflexive(a);
    }
    assert forall|a: Seq<u8>, b: Seq<u8>, c: Seq<u8>| #[trigger] lt(a, b) && #[trigger] lt(
        b,
        c,
    ) implies lt(a, c) by {
        lemma_bytes_lt_transitive(a, b, c);
    }
    assert forall|a: Seq<u8>, b: Seq<u8>| a == b || #[trigger] lt(a, b) || lt(b, a) by {
        if a != b {
            lemma_bytes_lt_total(a, b);
        }
    }
}

/// A set of identities, kept in order.
pub struct IdSet {
    items: Vec<[u8; 32]>,
}

impl View for IdSet {
    type V = Set<Seq<u8>>;

    closed spec fn view(&self) -> Set<Seq<u8>> {
        id_list(self.items@).to_set()
    }
}

impl IdSet {
    /// The identities stand in order, each once.
    pub closed spec fn wf(&self) -> bool {
        ascends(id_list(self.items@), id_order())
    }

    /// The empty set.
    pub fn new() -> (r: Self)
        ensures
            r.wf(),
            r@ == Set::<Seq<u8>>::empty(),
    {
        let r = IdSet { items: Vec::new() };
        assert(r@ =~= Set::empty());
        r
    }

    /// The place of an identity, or where it would go.
    fn place(&self, id: &[u8; 32]) -> (r: (usize, bool))
        requires
            self.wf(),
        ensures
            r.0 <= self.items@.len(),
            r.1 == self@.contains(id@),
            r.1 ==> r.0 < self.items@.len() && self.items@[r.0 as int]@ == id@,
            forall|j: int| 0 <= j < r.0 ==> bytes_lt((#[trigger] self.items@[j])@, id@),
            !r.1 ==> forall|j: int|
                r.0 <= j < self.items@.len() ==> bytes_lt(id@, (#[trigger] self.items@[j])@),
    {
        let ghost ids = id_list(self.items@);
        let ghost lt = id_order();
        proof {
            lemma_id_order();
        }
        let mut i: usize = 0;
        while i < self.items.len() && bytes_less(self.items[i].as_slice(), id.as_slice())
            invariant
                i <= self.items@.len(),
                forall|j: int| 0 <= j < i ==> bytes_lt((#[trigger] self.items@[j])@, id@),
            decreases self.items@.len() - i,
        {
            i += 1;
        }
        let found = i < self.items.len() && same_bytes(self.items[i].as_slice(), id.as_slice());
        proof {
            if found {
                assert(ids[i as int] == id@);
                assert(ids.contains(id@));
            } else {
                assert forall|j: int| i <= j < self.items@.len() implies bytes_lt(
                    id@,
                    (#[trigger] self.items@[j])@,
                ) by {
                    assert(lt(id@, ids[i as int])) by {
                        assert(ids[i as int] != id@);
                        assert(!lt(ids[i as int], id@));
                    }
                    if j > i {
                        assert(lt(ids[i as int], ids[j]));
                        assert(lt(id@, ids[j]));
                    }
                }
                if ids.contains(id@) {
                    let j = ids.index_of(id@);
                    assert(!lt(id@, id@));
                    assert(self.items@[j]@ == id@);
                }
            }
        }
        (i, found)
    }

    /// Adds an identity.
    pub fn insert(&mut self, id: &[u8; 32])
        requires
            old(self).wf(),
        ensures
            final(self).wf(),
            final(self)@ == old(self)@.insert(id@),
    {
        let (i, found) = self.place(id);
        let ghost was = id_list(self.items@);
        let ghost lt = id_order();
        if found {
            assert(self@ =~= old(self)@.insert(id@));
            return;
        }
        self.items.insert(i, *id);
        proof {
            let now = id_list(self.items@);
            assert(now =~= was.insert(i as int, id@));
            assert forall|a: int, b: int| 0 <= a < b < now.len() implies lt(
                #[trigger] now[a],
                #[trigger] now[b],
            ) by {
                if a < i && b > i {
                    assert(lt(was[a], was[b - 1]));
                } else if b < i {
                    assert(lt(was[a], was[b]));
                } else if a > i {
                    assert(lt(was[a - 1], was[b - 1]));
                } else if a == i {
                    assert(bytes_lt(id@, old(self).items@[b - 1]@));
                } else {
                    assert(bytes_lt(old(self).items@[a]@, id@));
                }
            }
            assert forall|x: Seq<u8>| now.contains(x) <==> was.contains(x) || x == id@ by {
                if was.contains(x) {
                    let j = was.index_of(x);
                    assert(now[if j < i {
                        j
                    } else {
                        j + 1
                    }] == x);
                }
                if x == id@ {
                    assert(now[i as int] == x);
                }
                if now.contains(x) && x != id@ {
                    let j = now.index_of(x);
                    assert(was[if j < i {
                        j
                    } else {
                        j - 1
                    }] == x);
                }
            }
            assert(self@ =~= old(self)@.insert(id@));
        }
    }

    /// Takes an identity out.
    pub fn remove(&mut self, id: &[u8; 32])
        requires
            old(self).wf(),
        ensures
            final(self).wf(),
            final(self)@ == old(self)@.remove(id@),
    {
        let (i, found) = self.place(id);
        let ghost was = id_list(self.items@);
        let ghost lt = id_order();
        if !found {
            assert(self@ =~= old(self)@.remove(id@));
            return;
        }
        self.items.remove(i);
        proof {
            lemma_id_order();
            lemma_ascends_distinct(was, lt);
            let now = id_list(self.items@);
            assert(now =~= was.remove(i as int));
            assert forall|a: int, b: int| 0 <= a < b < now.len() implies lt(
                #[trigger] now[a],
                #[trigger] now[b],
            ) by {
                let x = if a < i {
                    a
                } else {
                    a + 1
                };
                let y = if b < i {
                    b
                } else {
                    b + 1
                };
                assert(lt(was[x], was[y]));
            }
            assert forall|x: Seq<u8>| now.contains(x) <==> was.contains(x) && x != id@ by {
                if was.contains(x) && x != id@ {
                    let j = was.index_of(x);
                    assert(now[if j < i {
                        j
                    } else {
                        j - 1
                    }] == x);
                }
                if now.contains(x) {
                    let j = now.index_of(x);
                    let k = if j < i {
                        j
                    } else {
                        j + 1
                    };
                    assert(was[k] == x);
                    assert(was[i as int] == id@);
                }
            }
            assert(self@ =~= old(self)@.remove(id@));
        }
    }

    /// The identities, in order.
    pub fn list(&self) -> (r: Vec<[u8; 32]>)
        requires
            self.wf(),
        ensures
            id_list(r@) == listed(self@, id_order()),
    {
        let mut out: Vec<[u8; 32]> = Vec::new();
        let mut i: usize = 0;
        while i < self.items.len()
            invariant
                i <= self.items@.len(),
                out@ == self.items@.take(i as int),
            decreases self.items@.len() - i,
        {
            out.push(self.items[i]);
            assert(self.items@.take(i + 1) =~= self.items@.take(i as int).push(
                self.items@[i as int],
            ));
            i += 1;
        }
        assert(self.items@.take(i as int) =~= self.items@);
        proof {
            lemma_id_order();
            lemma_listed(id_list(self.items@), id_order());
        }
        out
    }
}

/// One member's picture of the swarm: those next to it, and what others said of
/// themselves.
pub struct MeshState {
    me: [u8; 32],
    neighbors: IdSet,
    routing: Vec<([u8; 32], Vec<[u8; 32]>)>,
}

/// What a member knows.
pub struct SwarmView {
    pub me: Seq<u8>,
    pub neighbors: Set<Seq<u8>>,
    pub routing: Map<Seq<u8>, Seq<Seq<u8>>>,
}

/// The routes of a list; the last entry for a member counts.
pub open spec fn routes(v: Seq<([u8; 32], Vec<[u8; 32]>)>) -> Map<Seq<u8>, Seq<Seq<u8>>>
    decreases v.len(),
{
    if v.len() == 0 {
        Map::empty()
    } else {
        routes(v.drop_last()).insert(v.last().0@, id_list(v.last().1@))
    }
}

impl View for MeshState {
    type V = SwarmView;

    closed spec fn view(&self) -> SwarmView {
        SwarmView {
            me: self.me@,
            neighbors: self.neighbors@,
            routing: routes(self.routing@),
        }
    }
}

/// What a member tells the swarm of itself.
pub open spec fn presence(w: SwarmView) -> MeshView {
    MeshView::Presence(w.me, listed(w.neighbors, id_order()))
}

/// The picture after those next to the member changed.
pub open spec fn with_neighbors(w: SwarmView, neighbors: Set<Seq<u8>>) -> SwarmView {
    SwarmView {
        me: w.me,
        neighbors,
        routing: w.routing.insert(w.me, listed(neighbors, id_order())),
    }
}

impl MeshState {
    /// Every part is in order.
    pub closed spec fn wf(&self) -> bool {
        self.neighbors.wf()
    }

    /// A member that knows nobody.
    pub fn new(me: [u8; 32]) -> (r: Self)
        ensures
            r.wf(),
            r@ == (SwarmView { me: me@, neighbors: Set::empty(), routing: Map::empty() }),
    {
        MeshState { me, neighbors: IdSet::new(), routing: Vec::new() }
    }

    /// Notes what a member said of itself.
    pub fn on_presence(&mut self, id: [u8; 32], neighbors: Vec<[u8; 32]>)
        requires
            old(self).wf(),
        ensures
            final(self).wf(),
            final(self)@ == (SwarmView {
                routing: old(self)@.routing.insert(id@, id_list(neighbors@)),
                ..old(self)@
            }),
    {
        let ghost before = self.routing@;
        // One entry for each member is enough.
        let mut kept: Vec<([u8; 32], Vec<[u8; 32]>)> = Vec::new();
        core::mem::swap(&mut kept, &mut self.routing);
        self.routing = without(kept, &id);
        let ghost mid = self.routing@;
        self.routing.push((id, neighbors));
        assert(self.routing@.drop_last() =~= mid);
        assert(routes(self.routing@) =~= routes(before).insert(id@, id_list(neighbors@)));
    }

    fn announce(&mut self) -> (r: MeshMsg)
        requires
            old(self).wf(),
        ensures
            final(self).wf(),
            final(self)@ == with_neighbors(old(self)@, old(self)@.neighbors),
            r@ == presence(old(self)@),
    {
        let list = self.neighbors.list();
        let told = self.neighbors.list();
        let me = self.me;
        self.on_presence(me, list);
        MeshMsg::Presence { id: me, neighbors: told }
    }

    /// A member came next to this one: it gets everything, and the swarm hears of
    /// it.
    pub fn on_up(&mut self, peer: &TreePeer, id: &[u8; 32]) -> (r: Vec<MeshMsg>)
        requires
            old(self).wf(),
            peer.wf(),
        ensures
            final(self).wf(),
            final(self)@ == with_neighbors(old(self)@, old(self)@.neighbors.insert(id@)),
            mesh_views(r@).len() > 0,
            mesh_views(r@).last() == presence(final(self)@),
            carries_tree(peer@.syncer, mesh_views(r@).drop_last()),
    {
        self.neighbors.insert(id);
        let full = peer.full_state();
        let ghost fv = msgs(full@);
        let mut out = wrap_all(full);
        let ghost front = mesh_views(out@);
        let last = self.announce();
        out.push(last);
        assert(mesh_views(out@).drop_last() =~= front);
        assert(is_full_state(peer@.syncer, fv));
        out
    }

    /// A member left this one's side: the swarm hears of it.
    pub fn on_down(&mut self, id: &[u8; 32]) -> (r: Vec<MeshMsg>)
        requires
            old(self).wf(),
        ensures
            final(self).wf(),
            final(self)@ == with_neighbors(old(self)@, old(self)@.neighbors.remove(id@)),
            mesh_views(r@) == seq![presence(final(self)@)],
    {
        self.neighbors.remove(id);
        let mut out: Vec<MeshMsg> = Vec::new();
        let last = self.announce();
        out.push(last);
        assert(mesh_views(out@) =~= seq![presence(self@)]);
        out
    }
}

/// The broadcasts carry a whole tree.
pub open spec fn carries_tree(s: SyncerView, ms: Seq<MeshView>) -> bool {
    exists|fv: Seq<MsgView>| #[trigger]
        is_full_state(s, fv) && ms == fv.map_values(|m: MsgView| MeshView::Sync(m))
}

/// Messages of the tree as broadcasts.
pub fn wrap_all(v: Vec<SyncMsg>) -> (r: Vec<MeshMsg>)
    ensures
        mesh_views(r@) == msgs(v@).map_values(|m: MsgView| MeshView::Sync(m)),
{
    let ghost all = msgs(v@).map_values(|m: MsgView| MeshView::Sync(m));
    let mut rest = v;
    let mut out: Vec<MeshMsg> = Vec::new();
    let ghost n = rest@.len();
    let ghost vv = rest@;
    while rest.len() > 0
        invariant
            rest@.len() + out@.len() == n,
            n == vv.len(),
            all == msgs(vv).map_values(|m: MsgView| MeshView::Sync(m)),
            rest@ == vv.skip(out@.len() as int),
            mesh_views(out@) == all.take(out@.len() as int),
        decreases rest@.len(),
    {
        let ghost k = out@.len() as int;
        let ghost before = out@;
        let m = rest.remove(0);
        assert(m == vv[k]);
        out.push(MeshMsg::Sync(m));
        assert(mesh_views(out@) =~= mesh_views(before).push(all[k]));
        assert(all.take(k + 1) =~= all.take(k).push(all[k]));
        assert(rest@ =~= vv.skip(k + 1));
    }
    assert(all.take(n as int) =~= all);
    out
}

/// The entries of a list that are not for the given member.
fn without(v: Vec<([u8; 32], Vec<[u8; 32]>)>, id: &[u8; 32]) -> (r: Vec<([u8; 32], Vec<[u8; 32]>)>)
    ensures
        routes(r@) == routes(v@).remove(id@),
{
    let mut rest = v;
    let mut out: Vec<([u8; 32], Vec<[u8; 32]>)> = Vec::new();
    let ghost vv = rest@;
    assert(vv.take(0) =~= Seq::empty());
    assert(routes(out@) =~= routes(vv.take(0)).remove(id@));
    let ghost mut k: int = 0;
    while rest.len() > 0
        invariant
            0 <= k <= vv.len(),
            rest@ == vv.skip(k),
            routes(out@) == routes(vv.take(k)).remove(id@),
        decreases rest@.len(),
    {
        let ghost before = out@;
        assert(vv.take(k + 1).drop_last() =~= vv.take(k));
        assert(vv.take(k + 1).last() == vv[k]);
        let e = rest.remove(0);
        assert(e == vv[k]);
        if same_bytes(e.0.as_slice(), id.as_slice()) {
            assert(routes(vv.take(k + 1)).remove(id@) =~= routes(vv.take(k)).remove(id@));
        } else {
            out.push(e);
            assert(out@.drop_last() =~= before);
            assert(routes(out@) =~= routes(vv.take(k + 1)).remove(id@));
        }
        proof {
            k = k + 1;
            assert(rest@ =~= vv.skip(k));
        }
    }
    assert(vv.take(k) =~= vv);
    out
}

/// What a member tells of itself is who is next to it: those that came up and did not go
/// down, each once and in order. It holds the same of itself.
pub proof fn law_members_tell_who_is_next_to_them(w: SwarmView, id: Seq<u8>)
    requires
        w.neighbors.finite(),
    ensures
        ({
            let up = with_neighbors(w, w.neighbors.insert(id));
            let down = with_neighbors(w, w.neighbors.remove(id));
            &&& presence(up) is Presence && presence(up)->Presence_0 == w.me
            &&& presence(up)->Presence_1.to_set() == w.neighbors.insert(id)
            &&& presence(up)->Presence_1.no_duplicates()
            &&& up.routing.contains_key(w.me) && up.routing[w.me] == presence(up)->Presence_1
            &&& presence(down)->Presence_1.to_set() == w.neighbors.remove(id)
            &&& presence(down)->Presence_1.no_duplicates()
            &&& down.routing.contains_key(w.me) && down.routing[w.me] == presence(down)->Presence_1
            &&& forall|m: Seq<u8>|
                m != w.me ==> (#[trigger] up.routing.contains_key(m) <==> w.routing.contains_key(m))
                    && (w.routing.contains_key(m) ==> up.routing[m] == w.routing[m])
        }),
{
    lemma_id_order();
    law_finite_sets_have_their_list(w.neighbors.insert(id), id_order());
    law_finite_sets_have_their_list(w.neighbors.remove(id), id_order());
    lemma_ascends_distinct(listed(w.neighbors.insert(id), id_order()), id_order());
    lemma_ascends_distinct(listed(w.neighbors.remove(id), id_order()), id_order());
}

} // verus!
