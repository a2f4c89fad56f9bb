use riftpipe::engine::game::{
    render, Action, ActionKind, Enemy, Player, Tower, World, CREEP_COST, ENEMY_BOUNTY, INPUT_DELAY,
    START_GOLD, START_LIVES, SUBTILE, TOWER_COST, WIDTH,
};
use riftpipe::engine::play::GameClient;
use std::collections::hash_map::DefaultHasher;
use std::hash::{Hash, Hasher};

fn scripted_actions() -> Vec<Action> {
    vec![
        Action { tick: 2, seq: 0, player: Player::P1, kind: ActionKind::PlaceTower { tile: 3 } },
        Action { tick: 2, seq: 1, player: Player::P2, kind: ActionKind::PlaceTower { tile: 5 } },
        Action { tick: 10, seq: 2, player: Player::P1, kind: ActionKind::SendCreep },
        Action { tick: 20, seq: 3, player: Player::P1, kind: ActionKind::PlaceTower { tile: 6 } },
        Action { tick: 30, seq: 4, player: Player::P2, kind: ActionKind::SendCreep },
    ]
}

/// Run the sim from an ordered action log for `ticks` steps.
fn run(actions: &[Action], ticks: u64) -> World {
    let mut w = World::default();
    // actions must be applied in deterministic order at their effective tick
    let mut sorted = actions.to_vec();
    sorted.sort_by_key(|a| (a.tick, a.seq, a.player as usize));
    let mut idx = 0;
    while w.tick < ticks {
        while idx < sorted.len() && sorted[idx].tick == w.tick {
            w.apply(&sorted[idx]);
            idx += 1;
        }
        w.step();
    }
    w
}

#[test]
fn simulation_is_deterministic() {
    // Two independent runs of the same action log produce identical worlds: the
    // property that makes replicated play converge.
    let a = run(&scripted_actions(), 200);
    let b = run(&scripted_actions(), 200);
    assert_eq!(a.state_hash(), b.state_hash());
    assert_eq!(render(&a), render(&b));
}

#[test]
fn order_independent_action_log_converges() {
    // Same actions, shuffled input order -> sorting yields the same sim.
    let mut shuffled = scripted_actions();
    shuffled.reverse();
    let a = run(&scripted_actions(), 200);
    let b = run(&shuffled, 200);
    assert_eq!(a.state_hash(), b.state_hash());
}

#[test]
fn guard_rejects_illegal_builds() {
    let mut w = World::default();
    // occupy tile 3
    assert!(w.apply(&Action { tick: 0, seq: 0, player: Player::P1, kind: ActionKind::PlaceTower { tile: 3 } }));
    // same tile again -> rejected
    assert!(!w.apply(&Action { tick: 0, seq: 1, player: Player::P1, kind: ActionKind::PlaceTower { tile: 3 } }));
    // out of bounds -> rejected
    assert!(!w.apply(&Action { tick: 0, seq: 2, player: Player::P1, kind: ActionKind::PlaceTower { tile: 99 } }));
}

#[test]
fn two_clients_lockstep_converge() {
    let mut c1 = GameClient::new(Player::P1);
    let mut c2 = GameClient::new(Player::P2);

    for t in 0..200u64 {
        // Scripted "bot" inputs from each side.
        if t == 5 {
            c1.issue(ActionKind::PlaceTower { tile: 4 });
            c2.issue(ActionKind::PlaceTower { tile: 6 });
        }
        if t == 20 {
            c1.issue(ActionKind::SendCreep);
        }
        if t == 40 {
            c2.issue(ActionKind::SendCreep);
        }

        // One round: each side hands its actions over, takes the other's, and
        // moves on by a tick.
        let from1 = c1.take_pending();
        let from2 = c2.take_pending();
        c1.ingest_all(&from2);
        c2.ingest_all(&from1);
        assert!(c1.can_advance() && c2.can_advance());
        c1.advance();
        c2.advance();
    }

    // Both peers simulated to byte-identical worlds purely from the shared
    // action log: real-time multiplayer convergence.
    assert_eq!(c1.world.state_hash(), c2.world.state_hash());
    assert_eq!(c1.world.tick, c2.world.tick);
    assert_eq!(c1.world.p1.towers.len(), 1);
    assert_eq!(c1.world.p2.towers.len(), 1);
}

#[test]
fn actions_are_paid_for() {
    let mut w = World::default();
    let send = Action { tick: 0, seq: 0, player: Player::P1, kind: ActionKind::SendCreep };
    assert!(w.apply(&send));
    assert_eq!(w.p1.gold, START_GOLD - CREEP_COST);
    assert_eq!((w.p1.enemies.len(), w.p2.enemies.len()), (0, 1));
    w.p1.gold = CREEP_COST - 1;
    assert!(!w.apply(&send));
    w.p2.gold = TOWER_COST;
    let build = Action { tick: 0, seq: 0, player: Player::P2, kind: ActionKind::PlaceTower { tile: 0 } };
    assert!(w.apply(&build));
    assert_eq!(w.p2.gold, 0);
    assert_eq!(w.p2.towers.len(), 1);
}

#[test]
fn enemies_walk_and_cost_a_life() {
    let mut w = World::default();
    w.p1.enemies.push(Enemy { pos: 1190, hp: 10 });
    w.step();
    assert_eq!(w.p1.lives, START_LIVES - 1);
    assert!(w.p1.enemies.is_empty());
    assert_eq!(w.tick, 1);
}

#[test]
fn towers_fire_and_earn_the_bounty() {
    let mut w = World::default();
    w.apply(&Action { tick: 0, seq: 0, player: Player::P1, kind: ActionKind::PlaceTower { tile: 2 } });
    let gold = w.p1.gold;
    w.p1.enemies.push(Enemy { pos: 0, hp: 3 });
    w.step();
    assert!(w.p1.enemies.is_empty());
    assert_eq!(w.p1.gold, gold + ENEMY_BOUNTY);
    assert!(w.p1.towers[0].cooldown > 0);
}

#[test]
fn the_last_with_lives_wins() {
    let mut w = World::default();
    assert!(w.alive() && w.winner().is_none());
    w.p2.lives = 0;
    assert!(!w.alive());
    assert_eq!(w.winner(), Some(Player::P1));
    w.p1.lives = -1;
    assert_eq!(w.winner(), None);
    assert_eq!(Player::P1.opponent(), Player::P2);
}

#[test]
fn issued_actions_lie_ahead() {
    let mut c = GameClient::new(Player::P1);
    assert!(c.can_issue());
    c.issue(ActionKind::SendCreep);
    let out = c.take_pending();
    assert_eq!(out.len(), 1);
    assert_eq!((out[0].tick, out[0].seq), (INPUT_DELAY, 0));
    assert!(c.take_pending().is_empty());
    // The same action again is taken once.
    c.ingest(out[0]);
    for _ in 0..=INPUT_DELAY {
        c.advance();
    }
    assert_eq!(c.world.p2.enemies.len(), 1);
}

#[test]
fn fingerprints_cover_the_whole_game() {
    let mut w = run(&scripted_actions(), 55);
    let mut h = DefaultHasher::new();
    w.tick.hash(&mut h);
    for lane in [&w.p1, &w.p2] {
        lane.lives.hash(&mut h);
        lane.gold.hash(&mut h);
        lane.spawn_timer.hash(&mut h);
        for t in &lane.towers {
            t.tile.hash(&mut h);
            t.cooldown.hash(&mut h);
        }
        for e in &lane.enemies {
            e.pos.hash(&mut h);
            e.hp.hash(&mut h);
        }
    }
    let before = w.state_hash();
    assert_eq!(before, h.finish());
    w.p2.gold += 1;
    assert_ne!(w.state_hash(), before);
}

#[test]
fn a_tower_stands_after_the_delay() {
    let mut c = GameClient::new(Player::P1);
    c.issue(ActionKind::PlaceTower { tile: 4 });
    for _ in 0..4 {
        assert!(c.can_advance());
        c.advance();
    }
    assert_eq!(c.world.tick, 4);
    assert!(c.world.p1.towers.is_empty());
    assert_eq!(c.world.p1.gold, 120);
    c.advance();
    assert_eq!(c.world.tick, 5);
    assert_eq!(c.world.p1.towers, [Tower { tile: 4, cooldown: 0 }]);
    assert_eq!((c.world.p1.gold, c.world.p2.gold), (70, 120));
}

#[test]
fn only_a_game_that_runs_out_of_numbers_stops() {
    let mut w = World::default();
    w.p1.gold = i32::MAX;
    w.p1.lives = i32::MIN;
    w.p1.towers.push(Tower { tile: 4, cooldown: 0 });
    w.p1.enemies.push(Enemy { pos: 0, hp: 1 });
    assert!(w.is_steppable(), "nothing is in range, and nothing reaches the base");
    w.step();
    assert_eq!((w.p1.gold, w.p1.lives), (i32::MAX, i32::MIN));
    w.p1.enemies[0].pos = 4 * SUBTILE;
    assert!(!w.is_steppable(), "a bounty would not fit");
    w.p1.gold -= 8;
    assert!(w.is_steppable());
    w.step();
    assert_eq!(w.p1.gold, i32::MAX);
    w.p1.enemies.push(Enemy { pos: WIDTH as u32 * SUBTILE - 1, hp: 1 });
    w.p1.towers.clear();
    assert!(!w.is_steppable(), "a life would not fit");
}
