//! Playing the game over a link: each tick the peers exchange the actions that
//! they issued, then both move the game on.
use crate::engine::game::{new_world, Action, ActionKind, Player, World, WorldView, INPUT_DELAY};
use crate::ordered::{
    ascends, law_finite_sets_have_their_list, lemma_ascends_distinct, lemma_listed, listed,
    strict_order,
};
use vstd::prelude::*;

verus! {

/// The identity of an action: the player, and its number among the player's.
pub type ActionId = (int, u64);

/// The place of a player in the order.
pub open spec fn rank(p: Player) -> int {
    match p {
        Player::P1 => 0,
        Player::P2 => 1,
    }
}

/// The identity of an action.
pub open spec fn id_of(a: Action) -> ActionId {
    (rank(a.player), a.seq)
}

/// The order of identities: by player, then by number.
pub open spec fn id_order() -> spec_fn(ActionId, ActionId) -> bool {
    |a: ActionId, b: ActionId| a.0 < b.0 || (a.0 == b.0 && a.1 < b.1)
}

/// The identities of a list of actions.
pub open spec fn ids_of(s: Seq<Action>) -> Seq<ActionId> {
    s.map_values(|a: Action| id_of(a))
}

/// The actions of a list by identity.
pub open spec fn by_id(s: Seq<Action>) -> Map<ActionId, Action> {
    Map::new(
        |id: ActionId| ids_of(s).contains(id),
        |id: ActionId| s[ids_of(s).index_of(id)],
    )
}

/// A log after an action has been recorded. One with a known identity is passed
/// over.
pub open spec fn recorded(log: Map<ActionId, Action>, a: Action) -> Map<ActionId, Action> {
    if log.contains_key(id_of(a)) {
        log
    } else {
        log.insert(id_of(a), a)
    }
}

/// A log after actions have been recorded one by one.
pub open spec fn recorded_all(log: Map<ActionId, Action>, s: Seq<Action>) -> Map<ActionId, Action>
    decreases s.len(),
{
    if s.len() == 0 {
        log
    } else {
        recorded(recorded_all(log, s.drop_last()), s.last())
    }
}

/// The identities of the actions that take effect at a tick, in order.
pub open spec fn due(log: Map<ActionId, Action>, tick: u64) -> Seq<ActionId> {
    listed(log.dom().filter(|id: ActionId| log[id].tick == tick), id_order())
}

/// The game after the actions with the given identities, in order.
pub open spec fn acted_all(w: WorldView, log: Map<ActionId, Action>, ids: Seq<ActionId>) -> WorldView
    decreases ids.len(),
{
    if ids.len() == 0 {
        w
    } else {
        acted_all(w, log, ids.drop_last()).acted(log[ids.last()])
    }
}

/// The game after the actions of the log that take effect now.
pub open spec fn played(w: WorldView, log: Map<ActionId, Action>) -> WorldView {
    acted_all(w, log, due(log, w.tick))
}

/// The game one tick later, by the actions of the log.
pub open spec fn advanced(w: WorldView, log: Map<ActionId, Action>) -> WorldView {
    played(w, log).stepped()
}

/// One player's copy of the game.
pub struct GameClient {
    pub me: Player,
    pub world: World,
    log: Vec<Action>,
    next_seq: u64,
    pending_out: Vec<Action>,
}

/// What a player's copy holds.
pub struct ClientView {
    pub me: Player,
    pub world: WorldView,
    pub log: Map<ActionId, Action>,
    pub next_seq: u64,
    pub pending: Seq<Action>,
}

impl View for GameClient {
    type V = ClientView;

    closed spec fn view(&self) -> ClientView {
        ClientView {
            me: self.me,
            world: self.world@,
            log: by_id(self.log@),
            next_seq: self.next_seq,
            pending: self.pending_out@,
        }
    }
}

/// Identities are totally ordered.
proof fn lemma_id_order()
    ensures
        strict_order(id_order()),
{
}

impl GameClient {
    /// The log is in order, and so is the game.
    pub closed spec fn wf(&self) -> bool {
        &&& ascends(ids_of(self.log@), id_order())
        &&& self.world@.wf()
    }

    /// A new game, for one of the players.
    pub fn new(me: Player) -> (r: Self)
        ensures
            r.wf(),
            r@ == (ClientView {
                me,
                world: new_world(),
                log: Map::empty(),
                next_seq: 0,
                pending: Seq::empty(),
            }),
    {
        let r = GameClient {
            me,
            world: World::default(),
            log: Vec::new(),
            next_seq: 0,
            pending_out: Vec::new(),
        };
        assert(r@.log =~= Map::empty());
        assert(r@.pending =~= Seq::empty());
        r
    }

    proof fn lemma_log(&self)
        requires
            self.wf(),
        ensures
            ids_of(self.log@).to_set() == self@.log.dom(),
            self@.log.dom().finite(),
            self@.log.dom().len() == self.log@.len(),
            forall|i: int|
                0 <= i < self.log@.len() ==> self@.log.contains_key(id_of(#[trigger] self.log@[i]))
                    && self@.log[id_of(self.log@[i])] == self.log@[i],
    {
        let ids = ids_of(self.log@);
        lemma_id_order();
        lemma_ascends_distinct(ids, id_order());
        assert(ids.to_set() =~= self@.log.dom());
        vstd::seq_lib::seq_to_set_is_finite(ids);
        ids.unique_seq_to_set();
        assert forall|i: int| 0 <= i < self.log@.len() implies self@.log.contains_key(
            id_of(#[trigger] self.log@[i]),
        ) && self@.log[id_of(self.log@[i])] == self.log@[i] by {
            assert(ids[i] == id_of(self.log@[i]));
            assert(ids.contains(ids[i]));
            assert(ids.index_of(ids[i]) == i);
        }
    }

    /// Records an action, unless one with its identity is known.
    fn record(&mut self, a: Action)
        requires
            old(self).wf(),
        ensures
            final(self).wf(),
            final(self)@ == (ClientView { log: recorded(old(self)@.log, a), ..old(self)@ }),
    {
        let ghost id = id_of(a);
        let ghost was = self.log@;
        let ghost ids = ids_of(was);
        let ghost lt = id_order();
        proof {
            self.lemma_log();
            lemma_id_order();
        }
        let mut i: usize = 0;
        while i < self.log.len() && less(&self.log[i], &a)
            invariant
                i <= self.log@.len(),
                *self == *old(self),
                was == self.log@,
                ids == ids_of(was),
                id == id_of(a),
                lt == id_order(),
                forall|j: int| 0 <= j < i ==> lt(#[trigger] ids[j], id),
            decreases self.log@.len() - i,
        {
            assert(ids[i as int] == id_of(self.log@[i as int]));
            i += 1;
        }
        if i < self.log.len() && !less(&a, &self.log[i]) {
            assert(ids[i as int] == id);
            assert(ids.contains(id));
            return;
        }
        proof {
            if i < ids.len() {
                assert(lt(id, ids[i as int]));
            }
            assert forall|j: int| i <= j < ids.len() implies lt(id, #[trigger] ids[j]) by {
                if j > i {
                    assert(lt(ids[i as int], ids[j]));
                }
            }
            if ids.contains(id) {
                let j = ids.index_of(id);
                assert(!lt(id, id));
            }
        }
        self.log.insert(i, a);
        proof {
            let now = ids_of(self.log@);
            assert(self.log@ =~= was.insert(i as int, a));
            assert(now =~= ids.insert(i as int, id));
            assert forall|x: int, y: int| 0 <= x < y < now.len() implies lt(
                #[trigger] now[x],
                #[trigger] now[y],
            ) by {
                if x < i && y > i {
                    assert(lt(ids[x], ids[y - 1]));
                } else if y < i {
                    assert(lt(ids[x], ids[y]));
                } else if x > i {
                    assert(lt(ids[x - 1], ids[y - 1]));
                } else if x == i {
                    assert(lt(id, ids[y - 1]));
                }
            }
            self.lemma_log();
            let goal = old(self)@.log.insert(id, a);
            lemma_ascends_distinct(now, lt);
            lemma_ascends_distinct(ids, lt);
            assert forall|k: ActionId|
                (#[trigger] self@.log.contains_key(k) <==> goal.contains_key(k)) && (
                self@.log.contains_key(k) ==> self@.log[k] == goal[k]) by {
                if ids.contains(k) {
                    let j = ids.index_of(k);
                    assert(now[if j < i {
                        j
                    } else {
                        j + 1
                    }] == k);
                }
                if k == id {
                    assert(now[i as int] == k);
                }
                if now.contains(k) {
                    let j = now.index_of(k);
                    assert(id_of(self.log@[j]) == k);
                    if j < i {
                        assert(ids[j] == k);
                        assert(ids.index_of(k) == j);
                    } else if j > i {
                        assert(ids[j - 1] == k);
                        assert(ids.index_of(k) == j - 1);
                    }
                }
            }
            assert(self@.log.dom() =~= goal.dom());
            assert(self@.log =~= goal);
        }
    }

    /// Whether this player can issue one more action.
    pub fn can_issue(&self) -> (r: bool)
        ensures
            r == (self@.world.tick + INPUT_DELAY <= u64::MAX && self@.next_seq < u64::MAX),
    {
        self.world.tick <= u64::MAX - INPUT_DELAY && self.next_seq < u64::MAX
    }

    /// Issues an action of this player. It takes effect a few ticks later, so
    /// that it reaches the other player in time.
    pub fn issue(&mut self, kind: ActionKind)
        requires
            old(self).wf(),
            old(self)@.world.tick + INPUT_DELAY <= u64::MAX,
            old(self)@.next_seq < u64::MAX,
        ensures
            final(self).wf(),
            ({
                let a = Action {
                    tick: (old(self)@.world.tick + INPUT_DELAY) as u64,
                    seq: old(self)@.next_seq,
                    player: old(self)@.me,
                    kind,
                };
                final(self)@ == (ClientView {
                    log: recorded(old(self)@.log, a),
                    next_seq: (old(self)@.next_seq + 1) as u64,
                    pending: old(self)@.pending.push(a),
                    ..old(self)@
                })
            }),
    {
        let a = Action {
            tick: self.world.tick + INPUT_DELAY,
            seq: self.next_seq,
            player: self.me,
            kind,
        };
        self.next_seq = self.next_seq + 1;
        self.record(a);
        self.pending_out.push(a);
    }

    /// Records an action of the other player.
    pub fn ingest(&mut self, a: Action)
        requires
            old(self).wf(),
        ensures
            final(self).wf(),
            final(self)@ == (ClientView { log: recorded(old(self)@.log, a), ..old(self)@ }),
    {
        self.record(a);
    }

    /// Records all actions of a round.
    pub fn ingest_all(&mut self, actions: &Vec<Action>)
        requires
            old(self).wf(),
        ensures
            final(self).wf(),
            final(self)@ == (ClientView { log: recorded_all(old(self)@.log, actions@), ..old(self)@ }),
    {
        let mut i: usize = 0;
        assert(actions@.take(0) =~= Seq::<Action>::empty());
        while i < actions.len()
            invariant
                i <= actions@.len(),
                self.wf(),
                self@ == (ClientView {
                    log: recorded_all(old(self)@.log, actions@.take(i as int)),
                    ..old(self)@
                }),
            decreases actions@.len() - i,
        {
            assert(actions@.take(i + 1).drop_last() =~= actions@.take(i as int));
            assert(actions@.take(i + 1).last() == actions@[i as int]);
            self.ingest(actions[i]);
            i += 1;
        }
        assert(actions@.take(i as int) =~= actions@);
    }

    /// The actions to send this round. They are sent once.
    pub fn take_pending(&mut self) -> (r: Vec<Action>)
        requires
            old(self).wf(),
        ensures
            final(self).wf(),
            r@ == old(self)@.pending,
            final(self)@ == (ClientView { pending: Seq::empty(), ..old(self)@ }),
    {
        let mut out: Vec<Action> = Vec::new();
        core::mem::swap(&mut out, &mut self.pending_out);
        assert(self@.pending =~= Seq::empty());
        out
    }

    /// Whether the game can go on for one tick.
    pub fn can_advance(&self) -> (r: bool)
        requires
            self.wf(),
        ensures
            r == played(self@.world, self@.log).can_step(),
    {
        let trial = self.play();
        trial.is_steppable()
    }

    /// Applies the actions that take effect now, in order, and moves the game on
    /// by one tick.
    pub fn advance(&mut self)
        requires
            old(self).wf(),
            played(old(self)@.world, old(self)@.log).can_step(),
        ensures
            final(self).wf(),
            final(self)@ == (ClientView {
                world: advanced(old(self)@.world, old(self)@.log),
                ..old(self)@
            }),
    {
        let mut world = self.play();
        world.step();
        self.world = world;
    }

    /// The game after the actions that take effect now.
    fn play(&self) -> (r: World)
        requires
            self.wf(),
        ensures
            r@ == played(self@.world, self@.log),
            r@.wf(),
    {
        let ghost log = self@.log;
        let ghost w0 = self@.world;
        let ghost ids = ids_of(self.log@);
        let ghost want = log.dom().filter(|id: ActionId| log[id].tick == w0.tick);
        let ghost mut done: Seq<ActionId> = Seq::empty();
        let tick = self.world.tick;
        let mut world = self.world.copy();
        proof {
            self.lemma_log();
            lemma_id_order();
        }
        let mut i: usize = 0;
        while i < self.log.len()
            invariant
                i <= self.log@.len(),
                self.wf(),
                world@.wf(),
                world@ == acted_all(w0, log, done),
                log == self@.log,
                w0 == self@.world,
                tick == w0.tick,
                ids == ids_of(self.log@),
                want == log.dom().filter(|id: ActionId| log[id].tick == w0.tick),
                ids.to_set() == log.dom(),
                forall|j: int|
                    0 <= j < self.log@.len() ==> log.contains_key(id_of(#[trigger] self.log@[j]))
                        && log[id_of(self.log@[j])] == self.log@[j],
                ascends(done, id_order()),
                forall|x: ActionId| #[trigger]
                    done.contains(x) <==> ids.take(i as int).contains(x) && want.contains(x),
            decreases self.log@.len() - i,
        {
            let a = self.log[i];
            let ghost id = id_of(a);
            assert(ids[i as int] == id);
            assert(log[id] == a);
            let ghost was = done;
            proof {
                lemma_step(was, ids, i as int, want);
            }
            if a.tick == tick {
                world.apply(&a);
                proof {
                    done = was.push(id);
                    assert(done.drop_last() =~= was);
                }
            }
            i += 1;
        }
        proof {
            assert(ids.take(i as int) =~= ids);
            assert(done.to_set() =~= want) by {
                assert forall|x: ActionId| want.contains(x) implies done.contains(x) by {
                    assert(ids.to_set().contains(x));
                }
            }
            lemma_listed(done, id_order());
        }
        world
    }
}

/// Whether one action comes before another.
fn less(a: &Action, b: &Action) -> (r: bool)
    ensures
        r == id_order()(id_of(*a), id_of(*b)),
{
    let x: u8 = match a.player {
        Player::P1 => 0,
        Player::P2 => 1,
    };
    let y: u8 = match b.player {
        Player::P1 => 0,
        Player::P2 => 1,
    };
    x < y || (x == y && a.seq < b.seq)
}

proof fn lemma_step(done: Seq<ActionId>, ids: Seq<ActionId>, i: int, want: Set<ActionId>)
    requires
        ascends(ids, id_order()),
        0 <= i < ids.len(),
        ascends(done, id_order()),
        forall|x: ActionId| #[trigger]
            done.contains(x) <==> ids.take(i).contains(x) && want.contains(x),
    ensures
        want.contains(ids[i]) ==> ascends(done.push(ids[i]), id_order()) && forall|x: ActionId|
            #[trigger]
            done.push(ids[i]).contains(x) <==> ids.take(i + 1).contains(x) && want.contains(x),
        !want.contains(ids[i]) ==> forall|x: ActionId| #[trigger]
            done.contains(x) <==> ids.take(i + 1).contains(x) && want.contains(x),
{
    let lt = id_order();
    let k = ids[i];
    let a = ids.take(i);
    let b = ids.take(i + 1);
    assert forall|y: ActionId| #[trigger] b.contains(y) <==> a.contains(y) || y == k by {
        if a.contains(y) {
            assert(b[a.index_of(y)] == y);
        }
        if y == k {
            assert(b[i] == y);
        }
        if b.contains(y) && y != k {
            assert(a[b.index_of(y)] == y);
        }
    }
    if want.contains(k) {
        let now = done.push(k);
        assert forall|p: int, q: int| 0 <= p < q < now.len() implies lt(
            #[trigger] now[p],
            #[trigger] now[q],
        ) by {
            if q == done.len() {
                assert(done.contains(done[p]));
                let j = a.index_of(done[p]);
                assert(lt(ids[j], ids[i]));
            } else {
                assert(lt(done[p], done[q]));
            }
        }
        assert forall|y: ActionId| #[trigger] now.contains(y) <==> b.contains(y) && want.contains(y) by {
            if done.contains(y) {
                assert(now[done.index_of(y)] == y);
            }
            if y == k {
                assert(now[done.len() as int] == y);
            }
            if now.contains(y) && y != k {
                assert(done[now.index_of(y)] == y);
            }
        }
    } else {
        assert forall|y: ActionId| #[trigger] done.contains(y) <==> b.contains(y) && want.contains(y) by {
            assert(b.contains(y) <==> a.contains(y) || y == k);
        }
    }
}

// ---------------------------------------------------------------------------
// Laws
// ---------------------------------------------------------------------------

/// Recording an action twice is recording it once, and actions can arrive in
/// either order, unless two different ones share an identity.
pub proof fn law_log_is_a_set(log: Map<ActionId, Action>, a: Action, b: Action)
    requires
        id_of(a) == id_of(b) ==> a == b,
    ensures
        recorded(recorded(log, a), a) == recorded(log, a),
        recorded(recorded(log, a), b) == recorded(recorded(log, b), a),
{
    assert(recorded(recorded(log, a), b) =~= recorded(recorded(log, b), a));
}

/// All actions are by the given player and none is known yet, and their
/// identities differ.
pub open spec fn fresh_actions(log: Map<ActionId, Action>, s: Seq<Action>, p: Player) -> bool {
    &&& forall|i: int|
        0 <= i < s.len() ==> (#[trigger] s[i]).player == p && !log.contains_key(id_of(s[i]))
    &&& forall|i: int, j: int|
        0 <= i < j < s.len() ==> id_of(#[trigger] s[i]) != id_of(#[trigger] s[j])
}

proof fn lemma_recorded_all(log: Map<ActionId, Action>, s: Seq<Action>, p: Player)
    requires
        fresh_actions(log, s, p),
    ensures
        forall|id: ActionId| #[trigger]
            recorded_all(log, s).contains_key(id) <==> log.contains_key(id) || ids_of(s).contains(id),
        forall|id: ActionId| #[trigger]
            log.contains_key(id) ==> recorded_all(log, s)[id] == log[id],
        forall|i: int|
            0 <= i < s.len() ==> recorded_all(log, s)[id_of(#[trigger] s[i])] == s[i],
    decreases s.len(),
{
    if s.len() == 0 {
        assert(ids_of(s) =~= Seq::<ActionId>::empty());
    } else {
        let front = s.drop_last();
        let a = s.last();
        assert(fresh_actions(log, front, p)) by {
            assert forall|i: int| 0 <= i < front.len() implies (#[trigger] front[i]).player == p
                && !log.contains_key(id_of(front[i])) by {
                assert(front[i] == s[i]);
            }
            assert forall|i: int, j: int| 0 <= i < j < front.len() implies id_of(#[trigger] front[i])
                != id_of(#[trigger] front[j]) by {
                assert(front[i] == s[i] && front[j] == s[j]);
            }
        }
        lemma_recorded_all(log, front, p);
        let m = recorded_all(log, front);
        assert(s[s.len() - 1] == a);
        assert(!m.contains_key(id_of(a))) by {
            if ids_of(front).contains(id_of(a)) {
                let i = ids_of(front).index_of(id_of(a));
                assert(id_of(s[i]) == id_of(front[i]));
            }
        }
        assert(ids_of(s) =~= ids_of(front).push(id_of(a)));
        assert forall|id: ActionId| #[trigger] recorded_all(log, s).contains_key(id)
            <==> log.contains_key(id) || ids_of(s).contains(id) by {
            assert(m.contains_key(id) <==> log.contains_key(id) || ids_of(front).contains(id));
            if ids_of(front).contains(id) {
                assert(ids_of(s)[ids_of(front).index_of(id)] == id);
            }
            if id == id_of(a) {
                assert(ids_of(s)[front.len() as int] == id);
            }
            if ids_of(s).contains(id) && id != id_of(a) {
                assert(ids_of(front)[ids_of(s).index_of(id)] == id);
            }
        }
        assert forall|i: int| 0 <= i < s.len() implies recorded_all(log, s)[id_of(#[trigger] s[i])]
            == s[i] by {
            if i < front.len() {
                assert(front[i] == s[i]);
                assert(id_of(s[i]) != id_of(s[s.len() - 1]));
            }
        }
    }
}

/// Lockstep keeps the two players' games equal: where both have the same game
/// and the same log but for what each is about to send, they have the same log
/// after they exchanged that, and the same game one tick later.
pub proof fn law_lockstep_converges(
    w: WorldView,
    log: Map<ActionId, Action>,
    s1: Seq<Action>,
    s2: Seq<Action>,
)
    requires
        fresh_actions(log, s1, Player::P1),
        fresh_actions(log, s2, Player::P2),
    ensures
        recorded_all(recorded_all(log, s1), s2) == recorded_all(recorded_all(log, s2), s1),
        advanced(w, recorded_all(recorded_all(log, s1), s2)) == advanced(
            w,
            recorded_all(recorded_all(log, s2), s1),
        ),
{
    lemma_recorded_all(log, s1, Player::P1);
    lemma_recorded_all(log, s2, Player::P2);
    let l1 = recorded_all(log, s1);
    let l2 = recorded_all(log, s2);
    assert forall|i: int| 0 <= i < s2.len() implies !l1.contains_key(id_of(#[trigger] s2[i])) by {
        if ids_of(s1).contains(id_of(s2[i])) {
            let j = ids_of(s1).index_of(id_of(s2[i]));
            assert(s1[j].player == Player::P1);
            assert(s2[i].player == Player::P2);
        }
    }
    assert forall|i: int| 0 <= i < s1.len() implies !l2.contains_key(id_of(#[trigger] s1[i])) by {
        if ids_of(s2).contains(id_of(s1[i])) {
            let j = ids_of(s2).index_of(id_of(s1[i]));
            assert(s2[j].player == Player::P2);
            assert(s1[i].player == Player::P1);
        }
    }
    assert(fresh_actions(l1, s2, Player::P2));
    assert(fresh_actions(l2, s1, Player::P1));
    lemma_recorded_all(l1, s2, Player::P2);
    lemma_recorded_all(l2, s1, Player::P1);
    let x = recorded_all(l1, s2);
    let y = recorded_all(l2, s1);
    assert forall|id: ActionId|
        (#[trigger] x.contains_key(id) <==> y.contains_key(id)) && (x.contains_key(id) ==> x[id] == y[id]) by {
        if log.contains_key(id) {
            assert(l1.contains_key(id) && l2.contains_key(id));
        } else if ids_of(s1).contains(id) {
            let i = ids_of(s1).index_of(id);
            assert(id_of(s1[i]) == id);
            assert(l1.contains_key(id));
        } else if ids_of(s2).contains(id) {
            let i = ids_of(s2).index_of(id);
            assert(id_of(s2[i]) == id);
            assert(l2.contains_key(id));
        }
    }
    assert(x.dom() =~= y.dom());
    assert(x =~= y);
}

/// An action never takes effect before it can have reached the other player in
/// the same round: its tick lies ahead of the game.
pub proof fn law_actions_lie_ahead(w: WorldView, kind: ActionKind, seq: u64, me: Player)
    requires
        w.tick + INPUT_DELAY <= u64::MAX,
    ensures
        (Action { tick: (w.tick + INPUT_DELAY) as u64, seq, player: me, kind }).tick > w.tick,
{
}

/// A tick for which the log has no action only moves the game on.
pub proof fn law_idle_ticks_only_step(w: WorldView, log: Map<ActionId, Action>)
    requires
        forall|id: ActionId| #[trigger] log.contains_key(id) ==> log[id].tick != w.tick,
    ensures
        played(w, log) == w,
        advanced(w, log) == w.stepped(),
{
    let none: Seq<ActionId> = Seq::empty();
    assert(none.to_set() =~= log.dom().filter(|id: ActionId| log[id].tick == w.tick));
    lemma_id_order();
    lemma_listed(none, id_order());
}

/// A tick for which the log has one action applies it and moves the game on.
pub proof fn law_single_actions_are_applied(
    w: WorldView,
    log: Map<ActionId, Action>,
    id: ActionId,
)
    requires
        log.contains_key(id),
        log[id].tick == w.tick,
        forall|x: ActionId| #[trigger] log.contains_key(x) && x != id ==> log[x].tick != w.tick,
    ensures
        played(w, log) == w.acted(log[id]),
        advanced(w, log) == w.acted(log[id]).stepped(),
{
    let one: Seq<ActionId> = seq![id];
    assert forall|x: ActionId| one.contains(x) <==> x == id by {
        assert(one[0] == id);
    }
    assert(one.to_set() =~= log.dom().filter(|id: ActionId| log[id].tick == w.tick));
    lemma_id_order();
    lemma_listed(one, id_order());
    assert(one.drop_last() =~= Seq::<ActionId>::empty());
    assert(acted_all(w, log, one.drop_last()) == w);
}

/// At a tick exactly the actions that are recorded for it take effect, each once, those of
/// the first player before those of the second and each player's in their order.
pub proof fn law_due_actions_are_those_of_the_tick(
    log: Map<ActionId, Action>,
    tick: u64,
    id: ActionId,
)
    requires
        log.dom().finite(),
    ensures
        due(log, tick).contains(id) <==> log.contains_key(id) && log[id].tick == tick,
        due(log, tick).no_duplicates(),
        forall|i: int, j: int|
            0 <= i < j < due(log, tick).len() ==> {
                let x = #[trigger] due(log, tick)[i];
                let y = #[trigger] due(log, tick)[j];
                x.0 < y.0 || (x.0 == y.0 && x.1 < y.1)
            },
{
    let want = log.dom().filter(|id: ActionId| log[id].tick == tick);
    lemma_id_order();
    assert(want.finite()) by {
        vstd::set_lib::lemma_len_subset(want, log.dom());
    }
    law_finite_sets_have_their_list(want, id_order());
    lemma_ascends_distinct(listed(want, id_order()), id_order());
    assert(due(log, tick).to_set().contains(id) <==> want.contains(id));
    assert forall|i: int, j: int| 0 <= i < j < due(log, tick).len() implies {
        let x = #[trigger] due(log, tick)[i];
        let y = #[trigger] due(log, tick)[j];
        x.0 < y.0 || (x.0 == y.0 && x.1 < y.1)
    } by {
        assert(id_order()(due(log, tick)[i], due(log, tick)[j]));
    }
}

/// The first record of an action is kept, and no other is touched.
pub proof fn law_first_records_are_kept(log: Map<ActionId, Action>, a: Action, id: ActionId)
    ensures
        recorded(log, a).contains_key(id) <==> log.contains_key(id) || id == id_of(a),
        log.contains_key(id) ==> recorded(log, a)[id] == log[id],
        !log.contains_key(id_of(a)) ==> recorded(log, a)[id_of(a)] == a,
        id_of(a).1 == a.seq,
{
}

} // verus!
