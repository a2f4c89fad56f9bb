use riftpipe::engine::document::Document;
use riftpipe::engine::handshake::{evaluate, Hello, Outcome};
use riftpipe::engine::identity::{AgentId, DocId, RuleFingerprint};
use riftpipe::engine::log::AppendLog;
use riftpipe::engine::op::{Action, Op, OpId};
use riftpipe::engine::replay::Engine;
use riftpipe::engine::rules::{AllowAll, Rule, TwoPlayerTurns, Verdict};
use riftpipe::engine::simulation::{Suite, Vector};
use std::collections::hash_map::DefaultHasher;
use std::hash::{Hash, Hasher};

fn mv(agent: AgentId, seq: u64, lamport: u64, text: &str) -> Op {
    Op {
        id: OpId { agent, seq },
        lamport,
        parents: vec![],
        action: Action::Append(format!("{text}\n")),
    }
}

#[test]
fn out_of_turn_is_rejected_deterministically() {
    let a = AgentId::from_name("alice");
    let b = AgentId::from_name("bob");
    let mut eng: Engine<AppendLog, TwoPlayerTurns> =
        Engine::new(TwoPlayerTurns { first: a, second: b });
    // Ingest out of order on purpose; replay must still be deterministic.
    eng.ingest(mv(b, 1, 2, "b2")); // bob twice in a row -> 2nd rejected
    eng.ingest(mv(a, 0, 0, "a1"));
    eng.ingest(mv(b, 0, 1, "b1"));

    assert_eq!(eng.materialize(), "a1\nb1\n");
    assert_eq!(eng.rejected.len(), 1);
    assert_eq!(eng.rejected[0].0, OpId { agent: b, seq: 1 });
}

#[test]
fn arrival_does_not_matter_to_the_state() {
    let a = AgentId(5);
    let b = AgentId(3);
    let ops = vec![mv(a, 0, 1, "x"), mv(b, 0, 1, "y"), mv(a, 1, 2, "z")];
    let mut one: Engine<AppendLog, AllowAll> = Engine::new(AllowAll);
    let mut two: Engine<AppendLog, AllowAll> = Engine::new(AllowAll);
    for o in &ops {
        one.ingest(o.clone());
    }
    for o in ops.iter().rev() {
        two.ingest(o.clone());
    }
    assert_eq!(one.materialize(), "y\nx\nz\n");
    assert_eq!(two.materialize(), "y\nx\nz\n");
    assert_eq!(one.state_hash(), two.state_hash());
    assert!(one.rejected_ids().is_empty());
}

#[test]
fn operations_are_appended_as_they_are() {
    let mut log = AppendLog::fresh();
    let mut o = mv(AgentId(1), 0, 0, "");
    o.action = Action::Append("abc".to_string());
    log.apply(&o);
    o.action = Action::Append("d\n".to_string());
    log.apply(&o);
    assert_eq!(log.materialize(), "abcd\n");
}

#[test]
fn a_diff_appends_the_new_lines() {
    let texts: Vec<String> = AppendLog::diff("a\nb\n", "a\nb\nc\nd\n")
        .into_iter()
        .map(|Action::Append(t)| t)
        .collect();
    assert_eq!(texts, ["c\nd\n"]);
    assert!(AppendLog::diff("a\n", "a\n").is_empty());
    // What is no extension is appended whole.
    assert!(matches!(&AppendLog::diff("a\nb\n", "a\n")[..], [Action::Append(t)] if t == "a\n"));
}

#[test]
fn turns_alternate_and_strangers_wait() {
    let t = TwoPlayerTurns { first: AgentId(1), second: AgentId(2) };
    let ok = |agent: u64, state: &str| t.validate(&mv(AgentId(agent), 0, 0, "m"), state) == Verdict::Accept;
    assert!(ok(1, "") && !ok(2, "") && !ok(3, ""));
    assert!(ok(2, "one\n") && !ok(1, "one\n"));
    assert!(ok(1, "one\ntwo\n"));
    assert!(matches!(t.validate(&mv(AgentId(3), 0, 0, "m"), ""), Verdict::Reject(_)));
}

#[test]
fn fingerprints_tell_rules_apart() {
    let t = TwoPlayerTurns { first: AgentId(1), second: AgentId(2) };
    assert_eq!(t.fingerprint().0, 0x7000_0002);
    assert_eq!(AllowAll.fingerprint().0, 0x0A11_0A11);
    assert_ne!(AgentId::from_name("alice").0, AgentId::from_name("bob").0);
}

#[test]
fn vectors_say_what_differs() {
    let a = AgentId(1);
    let b = AgentId(2);
    let suite = Suite {
        vectors: vec![
            Vector {
                name: "good".to_string(),
                events: vec![mv(a, 0, 0, "a1"), mv(b, 0, 1, "b1"), mv(b, 1, 2, "b2")],
                expect_state: "a1\nb1\n".to_string(),
                expect_rejected: vec![OpId { agent: b, seq: 1 }],
            },
            Vector {
                name: "bad".to_string(),
                events: vec![mv(a, 0, 0, "a1")],
                expect_state: "".to_string(),
                expect_rejected: vec![],
            },
        ],
    };
    let rule = || TwoPlayerTurns { first: AgentId(1), second: AgentId(2) };
    let got = suite.run::<AppendLog, TwoPlayerTurns, _>(rule);
    assert_eq!(got.len(), 2);
    assert!(got[0].passed && !got[1].passed);
    assert_eq!((got[1].name.as_str(), got[1].got_state.as_str()), ("bad", "a1\n"));
    assert_eq!(got[0].got_rejected, vec![OpId { agent: b, seq: 1 }]);
    let h = suite.transcript_hash::<AppendLog, TwoPlayerTurns, _>(rule);
    assert_eq!(h, suite.transcript_hash::<AppendLog, TwoPlayerTurns, _>(rule));
    assert_ne!(h, suite.transcript_hash::<AppendLog, AllowAll, _>(|| AllowAll));
}

fn hello(doc: u64, rule: u64) -> Hello {
    Hello { doc: DocId(doc), agent: AgentId(9), rule: RuleFingerprint(rule) }
}

#[test]
fn peers_agree_on_one_document_and_one_behaviour() {
    assert_eq!(evaluate(&hello(1, 2), &hello(1, 2), 7, 7), Outcome::Compatible);
    assert_eq!(evaluate(&hello(1, 2), &hello(3, 2), 7, 8), Outcome::DocMismatch);
    assert_eq!(evaluate(&hello(1, 2), &hello(1, 2), 7, 8), Outcome::SimDiverged);
    // Rules that behave alike are compatible, whatever they are called.
    assert_eq!(evaluate(&hello(1, 2), &hello(1, 4), 7, 7), Outcome::Compatible);
}

#[test]
fn names_and_states_hash_as_the_standard_library_does() {
    let mut h = DefaultHasher::new();
    "alice".hash(&mut h);
    assert_eq!(AgentId::from_name("alice").0, h.finish());

    let (a, b) = (AgentId(1), AgentId(2));
    let mut eng: Engine<AppendLog, TwoPlayerTurns> =
        Engine::new(TwoPlayerTurns { first: a, second: b });
    eng.ingest(mv(a, 0, 0, "a1"));
    eng.ingest(mv(a, 7, 1, "a2"));
    let mut h = DefaultHasher::new();
    "a1\n".to_string().hash(&mut h);
    1u64.hash(&mut h);
    7u64.hash(&mut h);
    assert_eq!(eng.state_hash(), h.finish());
}

#[test]
fn transcripts_fold_names_and_states() {
    let suite = Suite {
        vectors: vec![Vector {
            name: "one".to_string(),
            events: vec![mv(AgentId(1), 0, 0, "x")],
            expect_state: "x\n".to_string(),
            expect_rejected: vec![],
        }],
    };
    let mut h = DefaultHasher::new();
    "one".hash(&mut h);
    "x\n".hash(&mut h);
    assert_eq!(suite.transcript_hash::<AppendLog, AllowAll, _>(|| AllowAll), h.finish());
}
