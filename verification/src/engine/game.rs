//! A tower defence game whose world is a function of the actions and the number
//! of ticks alone.
use crate::chars::{push_chars, push_text, string_of};
use crate::engine::hashing::{feed_u32, feed_u64, number_writes};
use crate::numerals::{decimal, decimal_chars, decimal_int, decimal_int_chars, pad_left, padded};
use std::collections::hash_map::DefaultHasher;
use std::hash::Hasher;
use vstd::bytes::spec_u32_to_le_bytes;
use vstd::prelude::*;
use vstd::std_specs::hash::DefaultHasherAdditionalSpecFns;

verus! {

/// Tiles per lane.
pub const WIDTH: usize = 12;

/// Steps per tile.
pub const SUBTILE: u32 = 100;

/// Steps that an enemy takes per tick.
pub const ENEMY_SPEED: u32 = 20;

pub const TOWER_COST: i32 = 50;

/// In tiles.
pub const TOWER_RANGE: i32 = 2;

pub const TOWER_DMG: i32 = 4;

/// Ticks between shots.
pub const TOWER_COOLDOWN: u32 = 5;

pub const CREEP_COST: i32 = 25;

pub const ENEMY_HP: i32 = 10;

pub const ENEMY_BOUNTY: i32 = 8;

/// Ticks between enemies that come by themselves.
pub const SPAWN_PERIOD: u32 = 40;

pub const START_GOLD: i32 = 120;

pub const START_LIVES: i32 = 10;

/// Ticks between issuing an action and its effect.
pub const INPUT_DELAY: u64 = 4;

/// One of the two players.
#[derive(Clone, Copy, PartialEq, Eq, Debug, Hash, Structural)]
pub enum Player {
    P1,
    P2,
}

impl Player {
    /// The other player.
    pub open spec fn other(self) -> Player {
        match self {
            Player::P1 => Player::P2,
            Player::P2 => Player::P1,
        }
    }

    /// The other player.
    pub fn opponent(self) -> (r: Player)
        ensures
            r == self.other(),
    {
        match self {
            Player::P1 => Player::P2,
            Player::P2 => Player::P1,
        }
    }
}

/// What a player can do.
#[derive(Clone, Copy, PartialEq, Eq, Debug, Structural)]
pub enum ActionKind {
    /// Build a tower on one's own lane.
    PlaceTower { tile: usize },
    /// Pay for an enemy in the opponent's lane.
    SendCreep,
}

/// An action, with the tick at which it takes effect and its number among the
/// player's actions.
#[derive(Clone, Copy, PartialEq, Eq, Debug, Structural)]
pub struct Action {
    pub tick: u64,
    pub seq: u64,
    pub player: Player,
    pub kind: ActionKind,
}

#[derive(Clone, Copy, PartialEq, Eq, Debug, Hash, Structural)]
pub struct Tower {
    pub tile: usize,
    pub cooldown: u32,
}

#[derive(Clone, Copy, PartialEq, Eq, Debug, Hash, Structural)]
pub struct Enemy {
    /// In steps along the lane.
    pub pos: u32,
    pub hp: i32,
}

/// One player's side.
#[derive(Clone, Debug)]
pub struct Lane {
    pub towers: Vec<Tower>,
    pub enemies: Vec<Enemy>,
    pub lives: i32,
    pub gold: i32,
    pub spawn_timer: u32,
}

/// What a lane holds.
pub struct LaneView {
    pub towers: Seq<Tower>,
    pub enemies: Seq<Enemy>,
    pub lives: i32,
    pub gold: i32,
    pub spawn_timer: u32,
}

impl View for Lane {
    type V = LaneView;

    open spec fn view(&self) -> LaneView {
        LaneView {
            towers: self.towers@,
            enemies: self.enemies@,
            lives: self.lives,
            gold: self.gold,
            spawn_timer: self.spawn_timer,
        }
    }
}

/// Where the base begins.
pub open spec fn reach() -> int {
    WIDTH * SUBTILE
}

impl LaneView {
    /// Towers stand on the lane, and enemies are alive and have not reached the
    /// base.
    pub open spec fn wf(self) -> bool {
        &&& forall|i: int| 0 <= i < self.towers.len() ==> (#[trigger] self.towers[i]).tile < WIDTH
        &&& forall|i: int|
            0 <= i < self.enemies.len() ==> (#[trigger] self.enemies[i]).pos < reach()
                && self.enemies[i].hp > 0
    }

    /// Whether a tower stands on the tile.
    pub open spec fn occupied(self, tile: usize) -> bool {
        exists|i: int| 0 <= i < self.towers.len() && (#[trigger] self.towers[i]).tile == tile
    }

    /// Whether a tower on the tile can hit the enemy.
    pub open spec fn in_range(e: Enemy, tile: int) -> bool {
        let d = (e.pos as int) / (SUBTILE as int) - tile;
        e.hp > 0 && -TOWER_RANGE <= d <= TOWER_RANGE
    }

    /// The enemy that a tower on the tile fires at, among the first `n`: the one
    /// that has come furthest, and the first of several.
    pub open spec fn target(self, tile: int, n: int) -> Option<int>
        decreases n,
    {
        if n <= 0 {
            None
        } else {
            let best = self.target(tile, n - 1);
            let e = self.enemies[n - 1];
            if LaneView::in_range(e, tile) && (best is None || e.pos
                > self.enemies[best->Some_0].pos) {
                Some(n - 1)
            } else {
                best
            }
        }
    }

    /// The lane after the tower at place `t` had its turn: it cools down, or
    /// fires at its target, which pays when it dies.
    pub open spec fn fired(self, t: int) -> LaneView {
        let tower = self.towers[t];
        if tower.cooldown > 0 {
            LaneView {
                towers: self.towers.update(
                    t,
                    Tower { tile: tower.tile, cooldown: (tower.cooldown - 1) as u32 },
                ),
                ..self
            }
        } else {
            match self.target(tower.tile as int, self.enemies.len() as int) {
                Some(k) => {
                    let hit = Enemy {
                        pos: self.enemies[k].pos,
                        hp: (self.enemies[k].hp - TOWER_DMG) as i32,
                    };
                    LaneView {
                        towers: self.towers.update(
                            t,
                            Tower { tile: tower.tile, cooldown: TOWER_COOLDOWN },
                        ),
                        enemies: self.enemies.update(k, hit),
                        gold: if hit.hp <= 0 {
                            (self.gold + ENEMY_BOUNTY) as i32
                        } else {
                            self.gold
                        },
                        ..self
                    }
                },
                None => self,
            }
        }
    }

    /// The lane after the first `n` towers had their turns.
    pub open spec fn fired_upto(self, n: int) -> LaneView
        decreases n,
    {
        if n <= 0 {
            self
        } else {
            self.fired_upto(n - 1).fired(n - 1)
        }
    }

    /// Whether the tower at place `t` kills its target in its turn.
    pub open spec fn kills(self, t: int) -> bool {
        let tower = self.towers[t];
        tower.cooldown == 0 && match self.target(tower.tile as int, self.enemies.len() as int) {
            Some(k) => self.enemies[k].hp - TOWER_DMG <= 0,
            None => false,
        }
    }

    /// How many enemies the first `n` towers kill in their turns.
    pub open spec fn killed(self, n: int) -> int
        decreases n,
    {
        if n <= 0 {
            0
        } else {
            self.killed(n - 1) + if self.fired_upto(n - 1).kills(n - 1) {
                1int
            } else {
                0int
            }
        }
    }

    /// Gold and lives stay within the range of their numbers over one tick.
    pub open spec fn can_step(self) -> bool {
        let n = self.towers.len() as int;
        &&& self.gold + ENEMY_BOUNTY * self.killed(n) <= i32::MAX
        &&& self.lives - self.fired_upto(n).leaked(self.enemies.len() as int) >= i32::MIN
    }

    /// Whether a living enemy reaches the base with its next move.
    pub open spec fn leaks(e: Enemy) -> bool {
        e.hp > 0 && e.pos + ENEMY_SPEED >= reach()
    }

    /// The first `n` enemies after they moved, without those that died or reached
    /// the base.
    pub open spec fn moved(self, n: int) -> Seq<Enemy>
        decreases n,
    {
        if n <= 0 {
            Seq::empty()
        } else {
            let e = self.enemies[n - 1];
            let front = self.moved(n - 1);
            if e.hp > 0 && !LaneView::leaks(e) {
                front.push(Enemy { pos: (e.pos + ENEMY_SPEED) as u32, hp: e.hp })
            } else {
                front
            }
        }
    }

    /// How many of the first `n` enemies reach the base.
    pub open spec fn leaked(self, n: int) -> int
        decreases n,
    {
        if n <= 0 {
            0
        } else {
            self.leaked(n - 1) + if LaneView::leaks(self.enemies[n - 1]) {
                1int
            } else {
                0int
            }
        }
    }

    /// The lane after its enemies moved; each that reaches the base costs a life.
    pub open spec fn marched(self) -> LaneView {
        let n = self.enemies.len() as int;
        LaneView {
            enemies: self.moved(n),
            lives: (self.lives - self.leaked(n)) as i32,
            ..self
        }
    }

    /// The lane after the timer for new enemies.
    pub open spec fn spawned(self) -> LaneView {
        if self.spawn_timer == 0 {
            LaneView {
                enemies: self.enemies.push(Enemy { pos: 0, hp: ENEMY_HP }),
                spawn_timer: SPAWN_PERIOD,
                ..self
            }
        } else {
            LaneView { spawn_timer: (self.spawn_timer - 1) as u32, ..self }
        }
    }

    /// The lane one tick later.
    pub open spec fn stepped(self) -> LaneView {
        self.fired_upto(self.towers.len() as int).marched().spawned()
    }
}

impl Lane {
    /// An empty lane.
    pub fn new() -> (r: Self)
        ensures
            r@ == (LaneView {
                towers: Seq::empty(),
                enemies: Seq::empty(),
                lives: START_LIVES,
                gold: START_GOLD,
                spawn_timer: SPAWN_PERIOD,
            }),
            r@.wf(),
    {
        let r = Lane {
            towers: Vec::new(),
            enemies: Vec::new(),
            lives: START_LIVES,
            gold: START_GOLD,
            spawn_timer: SPAWN_PERIOD,
        };
        assert(r@.towers =~= Seq::empty());
        assert(r@.enemies =~= Seq::empty());
        r
    }

    /// Whether a tower stands on the tile.
    pub fn tile_occupied(&self, tile: usize) -> (r: bool)
        ensures
            r == self@.occupied(tile),
    {
        let mut i: usize = 0;
        while i < self.towers.len()
            invariant
                i <= self.towers@.len(),
                forall|j: int| 0 <= j < i ==> (#[trigger] self.towers@[j]).tile != tile,
            decreases self.towers@.len() - i,
        {
            if self.towers[i].tile == tile {
                assert(self@.towers[i as int].tile == tile);
                return true;
            }
            i += 1;
        }
        false
    }

    /// The enemy that a tower on the tile fires at.
    fn find_target(&self, tile: usize) -> (r: Option<usize>)
        requires
            tile < WIDTH,
            forall|i: int| 0 <= i < self.enemies@.len() ==> (#[trigger] self.enemies@[i]).pos < reach(),
        ensures
            match r {
                Some(k) => self@.target(tile as int, self@.enemies.len() as int) == Some(k as int) && k
                    < self@.enemies.len() && self@.enemies[k as int].hp > 0,
                None => self@.target(tile as int, self@.enemies.len() as int) is None,
            },
    {
        let mut best: Option<usize> = None;
        let mut n: usize = 0;
        while n < self.enemies.len()
            invariant
                n <= self.enemies@.len(),
                tile < WIDTH,
                forall|i: int|
                    0 <= i < self.enemies@.len() ==> (#[trigger] self.enemies@[i]).pos < reach(),
                match best {
                    Some(k) => self@.target(tile as int, n as int) == Some(k as int) && k < n
                        && self.enemies@[k as int].hp > 0,
                    None => self@.target(tile as int, n as int) is None,
                },
            decreases self.enemies@.len() - n,
        {
            let e = self.enemies[n];
            assert(self.enemies@[n as int].pos < reach());
            let at: i32 = (e.pos / SUBTILE) as i32;
            let d: i32 = at - tile as i32;
            let near = e.hp > 0 && -TOWER_RANGE <= d && d <= TOWER_RANGE;
            let further = match best {
                Some(k) => e.pos > self.enemies[k].pos,
                None => true,
            };
            assert(near == LaneView::in_range(e, tile as int));
            if near && further {
                best = Some(n);
            }
            n += 1;
        }
        best
    }
}

proof fn lemma_actions_keep_the_game_sound(w: WorldView, a: Action)
    requires
        w.wf(),
    ensures
        w.acted(a).wf(),
{
    let mine = w.side(a.player);
    let theirs = w.side(a.player.other());
    match a.kind {
        ActionKind::PlaceTower { tile } => {
            if w.allows(a) {
                let towers = mine.towers.push(Tower { tile, cooldown: 0 });
                assert forall|i: int| 0 <= i < towers.len() implies (#[trigger] towers[i]).tile
                    < WIDTH by {
                    if i < mine.towers.len() {
                        assert(towers[i] == mine.towers[i]);
                    }
                }
            }
        },
        ActionKind::SendCreep => {
            let enemies = theirs.enemies.push(Enemy { pos: 0, hp: ENEMY_HP });
            assert forall|i: int| 0 <= i < enemies.len() implies (#[trigger] enemies[i]).pos
                < reach() && enemies[i].hp > 0 by {
                if i < theirs.enemies.len() {
                    assert(enemies[i] == theirs.enemies[i]);
                }
            }
        },
    }
}

/// What holds of a lane while its towers fire: towers stay where they are, and
/// enemies lose at most one hit below zero.
spec fn firing(l0: LaneView, l: LaneView) -> bool {
    &&& l.towers.len() == l0.towers.len()
    &&& l.enemies.len() == l0.enemies.len()
    &&& l.lives == l0.lives
    &&& l.spawn_timer == l0.spawn_timer
    &&& forall|i: int| 0 <= i < l.towers.len() ==> (#[trigger] l.towers[i]).tile == l0.towers[i].tile
    &&& forall|i: int|
        0 <= i < l.enemies.len() ==> (#[trigger] l.enemies[i]).pos == l0.enemies[i].pos
            && l.enemies[i].hp > -TOWER_DMG
}

/// The target is a matter of the enemies alone.
proof fn lemma_target(l: LaneView, m: LaneView, tile: int, n: int)
    requires
        l.enemies == m.enemies,
    ensures
        l.target(tile, n) == m.target(tile, n),
    decreases n,
{
    if n > 0 {
        lemma_target(l, m, tile, n - 1);
    }
}

/// A target is alive.
proof fn lemma_target_lives(l: LaneView, tile: int, n: int)
    ensures
        l.target(tile, n) matches Some(k) ==> 0 <= k < n && l.enemies[k].hp > 0,
    decreases n,
{
    if n > 0 {
        lemma_target_lives(l, tile, n - 1);
    }
}

/// The gold after the first towers had their turns.
proof fn lemma_bounties(l: LaneView, n: int)
    requires
        l.gold + ENEMY_BOUNTY * l.killed(n) <= i32::MAX,
    ensures
        l.fired_upto(n).gold == l.gold + ENEMY_BOUNTY * l.killed(n),
        0 <= l.killed(n),
        n >= 0 ==> l.killed(n) <= n,
    decreases n,
{
    if n > 0 {
        lemma_bounties(l, n - 1);
        let m = l.fired_upto(n - 1);
        lemma_target_lives(m, m.towers[n - 1].tile as int, m.enemies.len() as int);
    }
}

/// Lets the towers have their turns, and returns how many enemies they killed. The
/// gold for these is left to the caller.
fn fire(lane: &mut Lane) -> (kills: usize)
    requires
        old(lane)@.wf(),
    ensures
        final(lane)@ == (LaneView {
            gold: old(lane)@.gold,
            ..old(lane)@.fired_upto(old(lane)@.towers.len() as int)
        }),
        firing(old(lane)@, final(lane)@),
        kills == old(lane)@.killed(old(lane)@.towers.len() as int),
{
    let ghost l0 = lane@;
    let mut kills: usize = 0;
    let mut t: usize = 0;
    while t < lane.towers.len()
        invariant
            t <= l0.towers.len(),
            kills <= t,
            l0.wf(),
            firing(l0, lane@),
            kills == l0.killed(t as int),
            lane@ == (LaneView { gold: l0.gold, ..l0.fired_upto(t as int) }),
        decreases l0.towers.len() - t,
    {
        let ghost before = lane@;
        let ghost mid = l0.fired_upto(t as int);
        let tower = lane.towers[t];
        proof {
            lemma_target(mid, before, tower.tile as int, before.enemies.len() as int);
        }
        assert(before.towers[t as int].tile == l0.towers[t as int].tile);
        if tower.cooldown > 0 {
            lane.towers[t] = Tower { tile: tower.tile, cooldown: tower.cooldown - 1 };
            assert(lane@.towers =~= mid.fired(t as int).towers);
        } else {
            assert forall|i: int| 0 <= i < lane.enemies@.len() implies (
            #[trigger] lane.enemies@[i]).pos < reach() by {
                assert(before.enemies[i].pos == l0.enemies[i].pos);
            }
            match lane.find_target(tower.tile) {
                Some(k) => {
                    let e = lane.enemies[k];
                    let hp: i32 = e.hp - TOWER_DMG;
                    lane.enemies[k] = Enemy { pos: e.pos, hp };
                    lane.towers[t] = Tower { tile: tower.tile, cooldown: TOWER_COOLDOWN };
                    if hp <= 0 {
                        kills += 1;
                    }
                    assert(lane@.towers =~= mid.fired(t as int).towers);
                    assert(lane@.enemies =~= mid.fired(t as int).enemies);
                },
                None => {},
            }
        }
        t += 1;
    }
    kills
}

/// Moves a lane on by one tick.
pub fn step_lane(lane: &mut Lane)
    requires
        old(lane)@.wf(),
        old(lane)@.can_step(),
    ensures
        final(lane)@ == old(lane)@.stepped(),
        final(lane)@.wf(),
{
    let ghost l0 = lane@;
    let kills = fire(lane);
    proof {
        lemma_bounties(l0, l0.towers.len() as int);
    }
    lane.gold = (lane.gold as i64 + (ENEMY_BOUNTY as i64) * (kills as i64)) as i32;
    assert(lane@ == l0.fired_upto(l0.towers.len() as int));
    let ghost l1 = lane@;
    let mut kept: Vec<Enemy> = Vec::new();
    let mut leaked: usize = 0;
    let mut n: usize = 0;
    while n < lane.enemies.len()
        invariant
            n <= l1.enemies.len(),
            lane@ == l1,
            firing(l0, l1),
            l0.wf(),
            kept@ == l1.moved(n as int),
            leaked == l1.leaked(n as int),
            leaked <= n,
            forall|i: int|
                0 <= i < kept@.len() ==> (#[trigger] kept@[i]).pos < reach() && kept@[i].hp > 0,
        decreases l1.enemies.len() - n,
    {
        let e = lane.enemies[n];
        assert(l1.enemies[n as int].pos == l0.enemies[n as int].pos);
        assert(l0.enemies[n as int].pos < reach());
        if e.hp > 0 {
            let pos: u32 = e.pos + ENEMY_SPEED;
            if pos >= (WIDTH as u32) * SUBTILE {
                leaked += 1;
            } else {
                kept.push(Enemy { pos, hp: e.hp });
            }
        }
        n += 1;
    }
    lane.enemies = kept;
    lane.lives = (lane.lives as i64 - leaked as i64) as i32;
    assert(lane@.enemies =~= l1.marched().enemies);
    assert(lane@ == l1.marched());
    if lane.spawn_timer == 0 {
        lane.enemies.push(Enemy { pos: 0, hp: ENEMY_HP });
        lane.spawn_timer = SPAWN_PERIOD;
    } else {
        lane.spawn_timer = lane.spawn_timer - 1;
    }
    assert(lane@ == l0.stepped());
    assert forall|i: int| 0 <= i < lane@.towers.len() implies (#[trigger] lane@.towers[i]).tile
        < WIDTH by {
        assert(l1.towers[i].tile == l0.towers[i].tile);
    }
}

/// The whole game.
#[derive(Clone, Debug)]
pub struct World {
    pub tick: u64,
    pub p1: Lane,
    pub p2: Lane,
}

/// What the game is.
pub struct WorldView {
    pub tick: u64,
    pub p1: LaneView,
    pub p2: LaneView,
}

impl View for World {
    type V = WorldView;

    open spec fn view(&self) -> WorldView {
        WorldView { tick: self.tick, p1: self.p1@, p2: self.p2@ }
    }
}

/// A new lane.
pub open spec fn new_lane() -> LaneView {
    LaneView {
        towers: Seq::empty(),
        enemies: Seq::empty(),
        lives: START_LIVES,
        gold: START_GOLD,
        spawn_timer: SPAWN_PERIOD,
    }
}

/// A new game.
pub open spec fn new_world() -> WorldView {
    WorldView { tick: 0, p1: new_lane(), p2: new_lane() }
}

impl WorldView {
    /// Both lanes are in order.
    pub open spec fn wf(self) -> bool {
        self.p1.wf() && self.p2.wf()
    }

    /// The game can go on for one tick without leaving the range of its numbers.
    pub open spec fn can_step(self) -> bool {
        &&& self.p1.can_step()
        &&& self.p2.can_step()
        &&& self.tick < u64::MAX
    }

    /// A player's lane.
    pub open spec fn side(self, p: Player) -> LaneView {
        match p {
            Player::P1 => self.p1,
            Player::P2 => self.p2,
        }
    }

    /// The game with another lane for a player.
    pub open spec fn with_side(self, p: Player, l: LaneView) -> WorldView {
        match p {
            Player::P1 => WorldView { p1: l, ..self },
            Player::P2 => WorldView { p2: l, ..self },
        }
    }

    /// Whether an action is allowed: the tile is on the lane and free, and the
    /// player can pay.
    pub open spec fn allows(self, a: Action) -> bool {
        match a.kind {
            ActionKind::PlaceTower { tile } => {
                &&& tile < WIDTH
                &&& self.side(a.player).gold >= TOWER_COST
                &&& !self.side(a.player).occupied(tile)
            },
            ActionKind::SendCreep => self.side(a.player).gold >= CREEP_COST,
        }
    }

    /// The game after an action; one that is not allowed changes nothing.
    pub open spec fn acted(self, a: Action) -> WorldView {
        let mine = self.side(a.player);
        if !self.allows(a) {
            self
        } else {
            match a.kind {
                ActionKind::PlaceTower { tile } => self.with_side(
                    a.player,
                    LaneView {
                        gold: (mine.gold - TOWER_COST) as i32,
                        towers: mine.towers.push(Tower { tile, cooldown: 0 }),
                        ..mine
                    },
                ),
                ActionKind::SendCreep => {
                    let paid = self.with_side(
                        a.player,
                        LaneView { gold: (mine.gold - CREEP_COST) as i32, ..mine },
                    );
                    let theirs = paid.side(a.player.other());
                    paid.with_side(
                        a.player.other(),
                        LaneView {
                            enemies: theirs.enemies.push(Enemy { pos: 0, hp: ENEMY_HP }),
                            ..theirs
                        },
                    )
                },
            }
        }
    }

    /// The game one tick later.
    pub open spec fn stepped(self) -> WorldView {
        WorldView {
            tick: (self.tick + 1) as u64,
            p1: self.p1.stepped(),
            p2: self.p2.stepped(),
        }
    }

    /// The player who is left, once only one is.
    pub open spec fn won_by(self) -> Option<Player> {
        if self.p1.lives > 0 && self.p2.lives <= 0 {
            Some(Player::P1)
        } else if self.p1.lives <= 0 && self.p2.lives > 0 {
            Some(Player::P2)
        } else {
            None
        }
    }
}

/// The writes for a list of towers.
pub open spec fn tower_writes(v: Seq<Tower>) -> Seq<Seq<u8>>
    decreases v.len(),
{
    if v.len() == 0 {
        Seq::empty()
    } else {
        tower_writes(v.drop_last()) + number_writes(v.last().tile as u64) + seq![
            spec_u32_to_le_bytes(v.last().cooldown),
        ]
    }
}

/// The writes for a list of enemies.
pub open spec fn enemy_writes(v: Seq<Enemy>) -> Seq<Seq<u8>>
    decreases v.len(),
{
    if v.len() == 0 {
        Seq::empty()
    } else {
        enemy_writes(v.drop_last()) + seq![spec_u32_to_le_bytes(v.last().pos)] + seq![
            spec_u32_to_le_bytes(v.last().hp as u32),
        ]
    }
}

/// The writes for a lane.
pub open spec fn lane_writes(l: LaneView) -> Seq<Seq<u8>> {
    seq![spec_u32_to_le_bytes(l.lives as u32)] + seq![spec_u32_to_le_bytes(l.gold as u32)] + seq![
        spec_u32_to_le_bytes(l.spawn_timer),
    ] + tower_writes(l.towers) + enemy_writes(l.enemies)
}

/// The bits of a signed number.
#[verifier::truncate]
fn bits(x: i32) -> (r: u32)
    ensures
        r == x as u32,
{
    #[verifier::truncate]
    (x as u32)
}

fn feed_lane(h: &mut DefaultHasher, l: &Lane)
    ensures
        final(h)@ == old(h)@ + lane_writes(l@),
{
    let ghost h0 = h@;
    feed_u32(h, bits(l.lives));
    feed_u32(h, bits(l.gold));
    feed_u32(h, l.spawn_timer);
    let ghost h1 = h@;
    assert(h1 =~= h0 + (seq![spec_u32_to_le_bytes(l@.lives as u32)] + seq![
        spec_u32_to_le_bytes(l@.gold as u32),
    ] + seq![spec_u32_to_le_bytes(l@.spawn_timer)]));
    let mut i: usize = 0;
    assert(h@ =~= h1 + tower_writes(l@.towers.take(0)));
    while i < l.towers.len()
        invariant
            i <= l.towers@.len(),
            h@ == h1 + tower_writes(l@.towers.take(i as int)),
        decreases l.towers@.len() - i,
    {
        assert(l@.towers.take(i + 1).drop_last() =~= l@.towers.take(i as int));
        assert(l@.towers.take(i + 1).last() == l@.towers[i as int]);
        let t = l.towers[i];
        feed_u64(h, t.tile as u64);
        feed_u32(h, t.cooldown);
        assert(h@ =~= h1 + tower_writes(l@.towers.take(i + 1)));
        i += 1;
    }
    assert(l@.towers.take(i as int) =~= l@.towers);
    let ghost h2 = h@;
    let mut k: usize = 0;
    assert(h@ =~= h2 + enemy_writes(l@.enemies.take(0)));
    while k < l.enemies.len()
        invariant
            k <= l.enemies@.len(),
            h@ == h2 + enemy_writes(l@.enemies.take(k as int)),
        decreases l.enemies@.len() - k,
    {
        assert(l@.enemies.take(k + 1).drop_last() =~= l@.enemies.take(k as int));
        assert(l@.enemies.take(k + 1).last() == l@.enemies[k as int]);
        let e = l.enemies[k];
        feed_u32(h, e.pos);
        feed_u32(h, bits(e.hp));
        assert(h@ =~= h2 + enemy_writes(l@.enemies.take(k + 1)));
        k += 1;
    }
    assert(l@.enemies.take(k as int) =~= l@.enemies);
    assert(h@ =~= h0 + lane_writes(l@));
}

impl Default for World {
    fn default() -> (r: Self)
        ensures
            r@ == new_world(),
            r@.wf(),
    {
        World { tick: 0, p1: Lane::new(), p2: Lane::new() }
    }
}

impl World {
    /// A player's lane.
    pub fn lane(&self, p: Player) -> (r: &Lane)
        ensures
            r@ == self@.side(p),
    {
        match p {
            Player::P1 => &self.p1,
            Player::P2 => &self.p2,
        }
    }

    /// A player's lane.
    fn lane_mut(&mut self, p: Player) -> (r: &mut Lane)
        ensures
            (*r)@ == old(self)@.side(p),
            final(self)@ == old(self)@.with_side(p, (*final(r))@),
    {
        match p {
            Player::P1 => &mut self.p1,
            Player::P2 => &mut self.p2,
        }
    }

    /// Whether both players are left.
    pub fn alive(&self) -> (r: bool)
        ensures
            r == (self@.p1.lives > 0 && self@.p2.lives > 0),
    {
        self.p1.lives > 0 && self.p2.lives > 0
    }

    /// The player who is left, once only one is.
    pub fn winner(&self) -> (r: Option<Player>)
        ensures
            r == self@.won_by(),
    {
        if self.p1.lives > 0 {
            if self.p2.lives > 0 {
                None
            } else {
                Some(Player::P1)
            }
        } else if self.p2.lives > 0 {
            Some(Player::P2)
        } else {
            None
        }
    }

    /// Applies an action, if it is allowed, and says whether it was.
    pub fn apply(&mut self, a: &Action) -> (r: bool)
        ensures
            r == old(self)@.allows(*a),
            final(self)@ == old(self)@.acted(*a),
            old(self)@.wf() ==> final(self)@.wf(),
    {
        proof {
            if self@.wf() {
                lemma_actions_keep_the_game_sound(self@, *a);
            }
        }
        match a.kind {
            ActionKind::PlaceTower { tile } => {
                if tile >= WIDTH {
                    return false;
                }
                let lane = self.lane_mut(a.player);
                if lane.gold < TOWER_COST || lane.tile_occupied(tile) {
                    return false;
                }
                lane.gold = lane.gold - TOWER_COST;
                lane.towers.push(Tower { tile, cooldown: 0 });
                true
            },
            ActionKind::SendCreep => {
                let lane = self.lane_mut(a.player);
                if lane.gold < CREEP_COST {
                    return false;
                }
                lane.gold = lane.gold - CREEP_COST;
                let other = self.lane_mut(a.player.opponent());
                other.enemies.push(Enemy { pos: 0, hp: ENEMY_HP });
                true
            },
        }
    }

    /// Whether the game can go on for one tick.
    pub fn is_steppable(&self) -> (r: bool)
        requires
            self@.wf(),
        ensures
            r == self@.can_step(),
    {
        self.tick < u64::MAX && lane_can_step(&self.p1) && lane_can_step(&self.p2)
    }

    /// Another game in the same state.
    pub(crate) fn copy(&self) -> (r: World)
        ensures
            r@ == self@,
    {
        World { tick: self.tick, p1: copy_lane(&self.p1), p2: copy_lane(&self.p2) }
    }

    /// Moves the game on by one tick.
    pub fn step(&mut self)
        requires
            old(self)@.wf(),
            old(self)@.can_step(),
        ensures
            final(self)@ == old(self)@.stepped(),
            final(self)@.wf(),
    {
        step_lane(&mut self.p1);
        step_lane(&mut self.p2);
        self.tick = self.tick + 1;
    }

    /// A fingerprint of the game, by which peers notice that they differ.
    pub fn state_hash(&self) -> (r: u64)
        ensures
            r == DefaultHasher::spec_finish(
                number_writes(self@.tick) + lane_writes(self@.p1) + lane_writes(self@.p2),
            ),
    {
        let mut h = DefaultHasher::new();
        feed_u64(&mut h, self.tick);
        feed_lane(&mut h, &self.p1);
        feed_lane(&mut h, &self.p2);
        assert(h@ =~= number_writes(self@.tick) + lane_writes(self@.p1) + lane_writes(self@.p2));
        h.finish()
    }
}

fn copy_lane(l: &Lane) -> (r: Lane)
    ensures
        r@ == l@,
{
    let mut towers: Vec<Tower> = Vec::new();
    let mut i: usize = 0;
    while i < l.towers.len()
        invariant
            i <= l.towers@.len(),
            towers@ == l.towers@.take(i as int),
        decreases l.towers@.len() - i,
    {
        towers.push(l.towers[i]);
        i += 1;
        assert(towers@ =~= l.towers@.take(i as int));
    }
    let mut enemies: Vec<Enemy> = Vec::new();
    let mut k: usize = 0;
    while k < l.enemies.len()
        invariant
            k <= l.enemies@.len(),
            enemies@ == l.enemies@.take(k as int),
        decreases l.enemies@.len() - k,
    {
        enemies.push(l.enemies[k]);
        k += 1;
        assert(enemies@ =~= l.enemies@.take(k as int));
    }
    assert(towers@ =~= l.towers@);
    assert(enemies@ =~= l.enemies@);
    Lane { towers, enemies, lives: l.lives, gold: l.gold, spawn_timer: l.spawn_timer }
}

/// Whether a lane can go on for one tick: the turn is tried on a copy.
fn lane_can_step(l: &Lane) -> (r: bool)
    requires
        l@.wf(),
    ensures
        r == l@.can_step(),
{
    let ghost l0 = l@;
    let ghost l1 = l0.fired_upto(l0.towers.len() as int);
    let mut trial = copy_lane(l);
    let kills = fire(&mut trial);
    let mut leaked: usize = 0;
    let mut n: usize = 0;
    while n < trial.enemies.len()
        invariant
            n <= trial.enemies@.len(),
            trial@.enemies == l1.enemies,
            l0.wf(),
            firing(l0, trial@),
            leaked == l1.leaked(n as int),
            leaked <= n,
        decreases trial.enemies@.len() - n,
    {
        let e = trial.enemies[n];
        assert(trial@.enemies[n as int].pos == l0.enemies[n as int].pos);
        assert(l0.enemies[n as int].pos < reach());
        if e.hp > 0 && e.pos + ENEMY_SPEED >= (WIDTH as u32) * SUBTILE {
            leaked += 1;
        }
        n += 1;
    }
    l.gold as i128 + (ENEMY_BOUNTY as i128) * (kills as i128) <= 0x7fff_ffff && l.lives as i128
        - leaked as i128 >= -0x8000_0000
}

// ---------------------------------------------------------------------------
// The board
// ---------------------------------------------------------------------------

/// The picture of a tile: an enemy, a tower or the ground.
pub open spec fn tile_picture(l: LaneView, tile: int) -> Seq<char> {
    if exists|i: int|
        0 <= i < l.enemies.len() && (#[trigger] l.enemies[i]).pos as int / SUBTILE as int == tile {
        "👾"@
    } else if exists|i: int| 0 <= i < l.towers.len() && (#[trigger] l.towers[i]).tile == tile {
        "🗼"@
    } else {
        "🟫"@
    }
}

/// The pictures of the first `n` tiles.
pub open spec fn tile_row(l: LaneView, n: int) -> Seq<char>
    decreases n,
{
    if n <= 0 {
        Seq::empty()
    } else {
        tile_row(l, n - 1) + tile_picture(l, n - 1)
    }
}

/// The line of a lane.
pub open spec fn lane_line(name: Seq<char>, l: LaneView) -> Seq<char> {
    name + " "@ + tile_row(l, WIDTH as int) + "🏰 ❤️"@ + padded(
        decimal_int(l.lives as int),
        2,
        ' ',
    ) + " 💰"@ + padded(decimal_int(l.gold as int), 3, ' ') + "\n"@
}

/// The whole board.
pub open spec fn board(w: WorldView) -> Seq<char> {
    "  tick "@ + decimal(w.tick as nat) + "\n"@ + lane_line("P1"@, w.p1) + lane_line("P2"@, w.p2) + (
    match w.won_by() {
        Some(p) => "  *** "@ + (if p == Player::P1 {
            "P1"@
        } else {
            "P2"@
        }) + " WINS ***\n"@,
        None => Seq::empty(),
    })
}

fn push_tile(out: &mut Vec<char>, l: &Lane, tile: usize)
    ensures
        final(out)@ == old(out)@ + tile_picture(l@, tile as int),
{
    let mut k: usize = 0;
    while k < l.enemies.len()
        invariant
            k <= l.enemies@.len(),
            out@ == old(out)@,
            forall|i: int|
                0 <= i < k ==> (#[trigger] l.enemies@[i]).pos as int / SUBTILE as int != tile,
        decreases l.enemies@.len() - k,
    {
        if (l.enemies[k].pos / SUBTILE) as usize == tile {
            assert(l@.enemies[k as int].pos as int / SUBTILE as int == tile);
            push_text(out, "👾");
            return;
        }
        k += 1;
    }
    if l.tile_occupied(tile) {
        push_text(out, "🗼");
    } else {
        push_text(out, "🟫");
    }
}

fn push_lane(out: &mut Vec<char>, name: &str, l: &Lane)
    ensures
        final(out)@ == old(out)@ + lane_line(name@, l@),
{
    push_text(out, name);
    push_text(out, " ");
    let ghost head = out@;
    let mut n: usize = 0;
    assert(out@ =~= head + tile_row(l@, 0));
    while n < WIDTH
        invariant
            n <= WIDTH,
            out@ == head + tile_row(l@, n as int),
        decreases WIDTH - n,
    {
        push_tile(out, l, n);
        n += 1;
        assert(out@ =~= head + tile_row(l@, n as int));
    }
    push_text(out, "🏰 ❤️");
    let lives = decimal_int_chars(l.lives as i64);
    push_chars(out, pad_left(lives.as_slice(), 2, ' ').as_slice());
    push_text(out, " 💰");
    let gold = decimal_int_chars(l.gold as i64);
    push_chars(out, pad_left(gold.as_slice(), 3, ' ').as_slice());
    push_text(out, "\n");
    assert(out@ =~= old(out)@ + lane_line(name@, l@));
}

/// Draws the board: the tick, both lanes, and the winner once there is one.
pub fn render(world: &World) -> (r: String)
    ensures
        r@ == board(world@),
{
    let mut out: Vec<char> = Vec::new();
    push_text(&mut out, "  tick ");
    let tick = decimal_chars(world.tick);
    push_chars(&mut out, tick.as_slice());
    push_text(&mut out, "\n");
    push_lane(&mut out, "P1", &world.p1);
    push_lane(&mut out, "P2", &world.p2);
    if let Some(p) = world.winner() {
        push_text(&mut out, "  *** ");
        push_text(
            &mut out,
            if p == Player::P1 {
                "P1"
            } else {
                "P2"
            },
        );
        push_text(&mut out, " WINS ***\n");
    }
    assert(out@ =~= board(world@));
    string_of(out.as_slice())
}

// ---------------------------------------------------------------------------
// Laws
// ---------------------------------------------------------------------------

/// The opponent's opponent is oneself.
pub proof fn law_opponent_is_mutual(p: Player)
    ensures
        p.other().other() == p,
        p.other() != p,
{
}

/// An action that is not allowed leaves the game as it is, so that every peer
/// rejects it alike; one that is allowed costs its price and nothing else of the
/// player's gold, and leaves the gold of the other alone.
pub proof fn law_actions_are_paid(w: WorldView, a: Action)
    ensures
        !w.allows(a) ==> w.acted(a) == w,
        w.allows(a) ==> w.acted(a).side(a.player).gold == w.side(a.player).gold - (match a.kind {
            ActionKind::PlaceTower { tile } => TOWER_COST,
            ActionKind::SendCreep => CREEP_COST,
        }),
        w.acted(a).side(a.player.other()).gold == w.side(a.player.other()).gold,
        w.acted(a).tick == w.tick,
{
}

/// No tile ever holds two towers, as far as actions go.
pub proof fn law_one_tower_per_tile(w: WorldView, a: Action, p: Player)
    requires
        forall|i: int, j: int|
            0 <= i < j < w.side(p).towers.len() ==> (#[trigger] w.side(p).towers[i]).tile != (
            #[trigger] w.side(p).towers[j]).tile,
    ensures
        forall|i: int, j: int|
            0 <= i < j < w.acted(a).side(p).towers.len() ==> (#[trigger] w.acted(a).side(
                p,
            ).towers[i]).tile != (#[trigger] w.acted(a).side(p).towers[j]).tile,
{
    let before = w.side(p).towers;
    let after = w.acted(a).side(p).towers;
    assert forall|i: int, j: int| 0 <= i < j < after.len() implies (#[trigger] after[i]).tile != (
    #[trigger] after[j]).tile by {
        if after.len() > before.len() {
            if j < before.len() {
                assert(after[i] == before[i] && after[j] == before[j]);
            } else {
                assert(after[i] == before[i]);
            }
        }
    }
}

/// Towers stay where they were built.
pub proof fn law_towers_stay(l: LaneView, n: int)
    requires
        0 <= n <= l.towers.len(),
    ensures
        l.fired_upto(n).towers.len() == l.towers.len(),
        forall|i: int|
            0 <= i < l.towers.len() ==> (#[trigger] l.fired_upto(n).towers[i]).tile
                == l.towers[i].tile,
        n == l.towers.len() ==> l.stepped().towers == l.fired_upto(n).towers,
    decreases n,
{
    if n > 0 {
        law_towers_stay(l, n - 1);
        let m = l.fired_upto(n - 1);
        assert forall|i: int| 0 <= i < l.towers.len() implies (
        #[trigger] l.fired_upto(n).towers[i]).tile == l.towers[i].tile by {
            assert(m.towers[i].tile == l.towers[i].tile);
        }
    }
}

proof fn lemma_leaked(l: LaneView, n: int)
    ensures
        0 <= l.leaked(n),
    decreases n,
{
    if n > 0 {
        lemma_leaked(l, n - 1);
    }
}

/// A tick never brings lives back, and gold only for kills: a bounty for each.
pub proof fn law_ticks_cost_lives_and_pay_bounties(l: LaneView)
    requires
        l.can_step(),
    ensures
        l.stepped().lives <= l.lives,
        l.stepped().gold == l.gold + ENEMY_BOUNTY * l.killed(l.towers.len() as int),
        0 <= l.killed(l.towers.len() as int) <= l.towers.len(),
{
    let n = l.towers.len() as int;
    lemma_bounties(l, n);
    lemma_same_count(l, n);
    let m = l.fired_upto(n);
    lemma_leaked(m, m.enemies.len() as int);
}

proof fn lemma_same_count(l: LaneView, n: int)
    ensures
        l.fired_upto(n).enemies.len() == l.enemies.len(),
        l.fired_upto(n).lives == l.lives,
    decreases n,
{
    if n > 0 {
        lemma_same_count(l, n - 1);
        let m = l.fired_upto(n - 1);
        lemma_target_lives(m, m.towers[n - 1].tile as int, m.enemies.len() as int);
    }
}

/// A tower fires at an enemy exactly where one is alive and within two tiles: at the one
/// that has come furthest, and at the first of those.
pub proof fn law_towers_fire_at_the_furthest(l: LaneView, tile: int, i: int)
    ensures
        l.target(tile, l.enemies.len() as int) is None <==> forall|j: int|
            0 <= j < l.enemies.len() ==> !((#[trigger] l.enemies[j]).hp > 0 && -2 <= (
            l.enemies[j].pos as int) / 100 - tile <= 2),
        l.target(tile, l.enemies.len() as int) matches Some(k) ==> {
            &&& 0 <= k < l.enemies.len()
            &&& l.enemies[k].hp > 0
            &&& -2 <= (l.enemies[k].pos as int) / 100 - tile <= 2
            &&& 0 <= i < l.enemies.len() && l.enemies[i].hp > 0 && -2 <= (l.enemies[i].pos as int)
                / 100 - tile <= 2 ==> l.enemies[i].pos < l.enemies[k].pos || (l.enemies[i].pos
                == l.enemies[k].pos && k <= i)
        },
{
    lemma_furthest(l, tile, l.enemies.len() as int);
}

proof fn lemma_furthest(l: LaneView, tile: int, n: int)
    requires
        0 <= n <= l.enemies.len(),
    ensures
        l.target(tile, n) is None ==> forall|j: int|
            0 <= j < n ==> !LaneView::in_range(#[trigger] l.enemies[j], tile),
        l.target(tile, n) matches Some(k) ==> 0 <= k < n && LaneView::in_range(l.enemies[k], tile)
            && forall|j: int|
            0 <= j < n && LaneView::in_range(#[trigger] l.enemies[j], tile) ==> l.enemies[j].pos
                < l.enemies[k].pos || (l.enemies[j].pos == l.enemies[k].pos && k <= j),
    decreases n,
{
    if n > 0 {
        lemma_furthest(l, tile, n - 1);
    }
}

/// A tower that is ready and has a target takes four from its life, and then cools down for
/// five ticks; one that cools down does nothing else, and one without a target waits. No
/// other tower and no other enemy is touched.
pub proof fn law_shots_hit_their_target(l: LaneView, t: int, i: int)
    requires
        0 <= t < l.towers.len(),
    ensures
        l.towers[t].cooldown > 0 ==> l.fired(t).enemies == l.enemies && l.fired(t).gold == l.gold
            && l.fired(t).towers[t].cooldown == l.towers[t].cooldown - 1,
        l.towers[t].cooldown == 0 && l.target(l.towers[t].tile as int, l.enemies.len() as int) is None
            ==> l.fired(t) == l,
        l.towers[t].cooldown == 0 ==> (l.target(
            l.towers[t].tile as int,
            l.enemies.len() as int,
        ) matches Some(k) ==> {
            &&& l.fired(t).enemies.len() == l.enemies.len()
            &&& l.fired(t).enemies[k].hp == l.enemies[k].hp - 4
            &&& l.fired(t).enemies[k].pos == l.enemies[k].pos
            &&& 0 <= i < l.enemies.len() && i != k ==> l.fired(t).enemies[i] == l.enemies[i]
            &&& l.fired(t).towers[t].cooldown == 5
        }),
        0 <= i < l.towers.len() && i != t ==> l.fired(t).towers[i] == l.towers[i],
        l.fired(t).lives == l.lives,
{
    lemma_target_lives(l, l.towers[t].tile as int, l.enemies.len() as int);
}

/// Enemies that live move on by twenty steps and keep their order; those that died, and
/// those that reach the end of the lane, are gone, and each of the latter costs a life.
pub proof fn law_enemies_march(l: LaneView)
    requires
        l.lives - l.enemies.len() >= i32::MIN,
    ensures
        l.marched().enemies == l.enemies.filter(
            |e: Enemy| e.hp > 0 && e.pos + 20 < 1200,
        ).map_values(|e: Enemy| Enemy { pos: (e.pos + 20) as u32, hp: e.hp }),
        l.marched().lives == l.lives - l.enemies.filter(
            |e: Enemy| e.hp > 0 && e.pos + 20 >= 1200,
        ).len(),
        l.marched().gold == l.gold,
        l.marched().towers == l.towers,
{
    let n = l.enemies.len() as int;
    lemma_march(l, n);
    assert(l.enemies.take(n) =~= l.enemies);
    l.enemies.lemma_filter_len(|e: Enemy| e.hp > 0 && e.pos + 20 >= 1200);
}

proof fn lemma_march(l: LaneView, n: int)
    requires
        0 <= n <= l.enemies.len(),
    ensures
        l.moved(n) == l.enemies.take(n).filter(
            |e: Enemy| e.hp > 0 && e.pos + 20 < 1200,
        ).map_values(|e: Enemy| Enemy { pos: (e.pos + 20) as u32, hp: e.hp }),
        l.leaked(n) == l.enemies.take(n).filter(
            |e: Enemy| e.hp > 0 && e.pos + 20 >= 1200,
        ).len(),
    decreases n,
{
    reveal(Seq::filter);
    let stay = |e: Enemy| e.hp > 0 && e.pos + 20 < 1200;
    let go = |e: Enemy| e.hp > 0 && e.pos + 20 >= 1200;
    let on = |e: Enemy| Enemy { pos: (e.pos + 20) as u32, hp: e.hp };
    if n > 0 {
        lemma_march(l, n - 1);
        let front = l.enemies.take(n - 1);
        let all = l.enemies.take(n);
        assert(all.drop_last() =~= front);
        let e = all.last();
        assert(e == l.enemies[n - 1]);
        if stay(e) {
            assert(front.filter(stay).push(e).map_values(on) =~= front.filter(stay).map_values(
                on,
            ).push(on(e)));
        }
        assert(l.moved(n) =~= all.filter(stay).map_values(on));
    } else {
        assert(l.enemies.take(0) =~= Seq::<Enemy>::empty());
        assert(l.moved(0) =~= Seq::<Enemy>::empty().filter(stay).map_values(on));
    }
}

/// When the timer has run down one enemy starts at the beginning of the lane with full
/// life, and the timer starts again; until then it counts down.
pub proof fn law_enemies_come_when_the_timer_runs_down(l: LaneView)
    ensures
        l.spawn_timer > 0 ==> l.spawned().enemies == l.enemies && l.spawned().spawn_timer
            == l.spawn_timer - 1,
        l.spawn_timer == 0 ==> l.spawned().enemies == l.enemies.push(Enemy { pos: 0, hp: 10 })
            && l.spawned().spawn_timer == 40,
        l.spawned().lives == l.lives,
        l.spawned().gold == l.gold,
        l.spawned().towers == l.towers,
{
}

/// An action takes effect where it is allowed: a tower stands on its tile in the player's
/// lane, an enemy starts in the other's. It is allowed where the player can pay and, for a
/// tower, the tile is on the lane and free.
pub proof fn law_actions_take_effect(w: WorldView, a: Action)
    ensures
        a.kind matches ActionKind::PlaceTower { tile } ==> {
            let mine = w.side(a.player);
            &&& w.allows(a) <==> tile < 12 && mine.gold >= 50 && forall|i: int|
                0 <= i < mine.towers.len() ==> (#[trigger] mine.towers[i]).tile != tile
            &&& w.allows(a) ==> w.acted(a).side(a.player).towers == mine.towers.push(
                Tower { tile, cooldown: 0 },
            ) && w.acted(a).side(a.player).enemies == mine.enemies && w.acted(a).side(
                a.player.other(),
            ) == w.side(a.player.other())
        },
        a.kind is SendCreep ==> {
            let theirs = w.side(a.player.other());
            &&& w.allows(a) <==> w.side(a.player).gold >= 25
            &&& w.allows(a) ==> w.acted(a).side(a.player.other()).enemies == theirs.enemies.push(
                Enemy { pos: 0, hp: 10 },
            ) && w.acted(a).side(a.player.other()).towers == theirs.towers && w.acted(a).side(
                a.player,
            ).enemies == w.side(a.player).enemies && w.acted(a).side(a.player).towers == w.side(
                a.player,
            ).towers
        },
        w.acted(a).p1.lives == w.p1.lives && w.acted(a).p2.lives == w.p2.lives,
{
}

/// A tick lets the towers fire, the enemies march and new ones come, on both sides, and
/// counts on.
pub proof fn law_a_tick_moves_both_lanes(w: WorldView)
    requires
        w.tick < u64::MAX,
    ensures
        w.stepped().tick == w.tick + 1,
        w.stepped().p1 == w.p1.fired_upto(w.p1.towers.len() as int).marched().spawned(),
        w.stepped().p2 == w.p2.fired_upto(w.p2.towers.len() as int).marched().spawned(),
{
}

/// A player has won where the other has no lives left and they have; while both live, or
/// where neither does, nobody has.
pub proof fn law_the_one_who_lives_wins(w: WorldView)
    ensures
        w.won_by() == Some(Player::P1) <==> w.p1.lives > 0 && w.p2.lives <= 0,
        w.won_by() == Some(Player::P2) <==> w.p2.lives > 0 && w.p1.lives <= 0,
        w.won_by() is None <==> (w.p1.lives > 0 <==> w.p2.lives > 0),
{
}

/// The line of a lane shows its tiles from the first to the last, the lives and the gold.
pub proof fn law_lanes_are_drawn_as_they_are(name: Seq<char>, l: LaneView, n: int)
    ensures
        lane_line(name, l) == name + " "@ + tile_row(l, 12) + "🏰 ❤️"@ + padded(
            decimal_int(l.lives as int),
            2,
            ' ',
        ) + " 💰"@ + padded(decimal_int(l.gold as int), 3, ' ') + "\n"@,
        tile_row(l, 0) == Seq::<char>::empty(),
        n >= 0 ==> tile_row(l, n + 1) == tile_row(l, n) + tile_picture(l, n),
{
}

/// A tile shows an enemy where one is on it, else a tower where one stands there, else the
/// ground.
pub proof fn law_enemies_hide_towers(l: LaneView, tile: int, i: int)
    ensures
        0 <= i < l.enemies.len() && (l.enemies[i].pos as int) / 100 == tile ==> tile_picture(l, tile)
            == "👾"@,
        (forall|j: int| 0 <= j < l.enemies.len() ==> (#[trigger] l.enemies[j]).pos as int / 100 != tile)
            && 0 <= i < l.towers.len() && l.towers[i].tile == tile ==> tile_picture(l, tile)
            == "🗼"@,
        (forall|j: int| 0 <= j < l.enemies.len() ==> (#[trigger] l.enemies[j]).pos as int / 100 != tile)
            && (forall|j: int| 0 <= j < l.towers.len() ==> (#[trigger] l.towers[j]).tile != tile)
            ==> tile_picture(l, tile) == "🟫"@,
{
    if 0 <= i < l.enemies.len() && (l.enemies[i].pos as int) / 100 == tile {
        assert(l.enemies[i].pos as int / SUBTILE as int == tile);
    }
}

} // verus!
