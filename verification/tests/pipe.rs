use riftpipe::sync::algo::text_crdt::TextCrdtSyncer;
use riftpipe::sync::mirror::TextPeer;
use riftpipe::sync::pipe::{
    diff_to_ops, frame, step, EditOp, PipeEvent, PipePeer, SessionOutcome, Timer, TAG_DELTA,
    TAG_SYNC,
};
use riftpipe::sync::strategy::SyncStrategy;

/// Apply edit ops to a naive "editor buffer" (char-offset based), exactly as
/// a frontend would.
fn apply_ops(buf: &mut String, ops: &[EditOp]) {
    let char_to_byte = |s: &str, c: usize| -> usize {
        s.char_indices().nth(c).map(|(i, _)| i).unwrap_or(s.len())
    };
    for op in ops {
        match op {
            EditOp::Snapshot { text } => *buf = text.clone(),
            EditOp::Insert { pos, text } => {
                let i = char_to_byte(buf, *pos);
                buf.insert_str(i, text);
            }
            EditOp::Delete { pos, len } => {
                let start = char_to_byte(buf, *pos);
                let end = char_to_byte(buf, *pos + *len);
                buf.replace_range(start..end, "");
            }
        }
    }
}

#[test]
fn pipe_event_driven_exchange_keeps_editor_buffers_in_sync() {
    let mut a = PipePeer::new("a");
    let mut b = PipePeer::new("b");
    let mut buf_a = String::new();
    let mut buf_b = String::new();

    // Each "editor" applies its own local edit and pushes the resulting delta.
    let la = EditOp::Insert { pos: 0, text: "hello ".into() };
    apply_ops(&mut buf_a, std::slice::from_ref(&la));
    a.apply_local(&la);
    let delta_a = a.encode_since_sent();

    let lb = EditOp::Insert { pos: 0, text: "world".into() };
    apply_ops(&mut buf_b, std::slice::from_ref(&lb));
    b.apply_local(&lb);
    let delta_b = b.encode_since_sent();

    // Deltas arrive (the recv arm): merge and apply the emitted ops.
    apply_ops(&mut buf_b, &b.merge_remote(&delta_a));
    apply_ops(&mut buf_a, &a.merge_remote(&delta_b));

    assert_eq!(buf_a, a.content(), "editor A out of sync with its CRDT");
    assert_eq!(buf_b, b.content(), "editor B out of sync with its CRDT");
    assert_eq!(buf_a, buf_b, "editors diverged: {buf_a:?} vs {buf_b:?}");
    assert!(buf_a.contains("hello") && buf_a.contains("world"));
}

#[test]
fn pipe_version_vector_resync_recovers_a_dropped_delta() {
    let mut a = PipePeer::new("a");
    let mut b = PipePeer::new("b");

    // A makes two edits; B receives only the FIRST (the second delta is
    // "lost", e.g. across a reconnect).
    a.apply_local(&EditOp::Insert { pos: 0, text: "one ".into() });
    let d1 = a.encode_since_sent();
    a.apply_local(&EditOp::Insert { pos: 4, text: "two".into() });
    let _dropped = a.encode_since_sent();
    b.merge_remote(&d1);
    assert_ne!(a.content(), b.content(), "B should be behind after the drop");

    // Reconcile: B advertises its version, A sends exactly what B is missing.
    let bv = b.version_vector_pairs();
    let missing = a.ops_since(&bv).expect("A should have ops B lacks");
    b.merge_remote(&missing);

    assert_eq!(a.content(), b.content(), "resync must re-converge");
    assert!(b.content().contains("one") && b.content().contains("two"));
}

#[test]
fn pipe_resync_sends_nothing_when_already_in_sync() {
    let mut a = PipePeer::new("a");
    let mut b = PipePeer::new("b");
    a.apply_local(&EditOp::Insert { pos: 0, text: "hello".into() });
    let d = a.encode_since_sent();
    b.merge_remote(&d);
    assert_eq!(a.content(), b.content());
    // B is caught up -> A has nothing to send.
    assert!(a.ops_since(&b.version_vector_pairs()).is_none());
}

#[test]
fn session_resumes_same_doc_across_a_reconnect() {
    // Peer A produces a delta to deliver to B.
    let mut a = PipePeer::new("a");
    a.apply_local(&EditOp::Insert { pos: 0, text: "hello".into() });
    let delta = a.encode_since_sent();

    let mut b = PipePeer::new("b");
    // Session 1: deliver the delta, then the link drops.
    let s = step(&mut b, PipeEvent::Frame(frame(TAG_DELTA, &delta)));
    assert_eq!(s.outcome, None);
    assert_eq!(s.emit, vec![EditOp::Insert { pos: 0, text: "hello".into() }]);
    let s = step(&mut b, PipeEvent::LinkClosed);
    assert_eq!(s.outcome, Some(SessionOutcome::LinkClosed));
    assert_eq!(b.content(), "hello", "delta applied");

    // Session 2 (reconnect): state persists, and the link starts with a SYNC.
    let s = step(&mut b, PipeEvent::Connected);
    assert_eq!(s.send.unwrap()[0], TAG_SYNC);
    let s = step(&mut b, PipeEvent::LinkClosed);
    assert_eq!(s.outcome, Some(SessionOutcome::LinkClosed));
    assert_eq!(b.content(), "hello", "doc state persists across reconnect");
}

#[test]
fn session_quits_when_stdin_closes() {
    let mut b = PipePeer::new("b");
    let s = step(&mut b, PipeEvent::EditsClosed);
    assert_eq!(s.outcome, Some(SessionOutcome::StdinClosed));
}

#[test]
fn a_sync_frame_is_answered_with_what_is_missing() {
    let mut a = PipePeer::new("a");
    let s = step(&mut a, PipeEvent::Edit(EditOp::Insert { pos: 0, text: "x".into() }));
    assert_eq!(s.timer, Timer::Arm);
    assert!(s.send.is_some() && s.emit.is_empty());
    assert_eq!(String::from_utf8(a.version_json()).unwrap(), r#"[["a",0]]"#);

    let mut b = PipePeer::new("b");
    let sync = step(&mut b, PipeEvent::Heartbeat).send.unwrap();
    let answer = step(&mut a, PipeEvent::Frame(sync)).send.unwrap();
    assert_eq!(answer[0], TAG_DELTA);
    step(&mut b, PipeEvent::Frame(answer));
    assert_eq!(b.content(), "x");

    // Once they are level there is no answer; nor to what cannot be read.
    let sync = step(&mut b, PipeEvent::Heartbeat).send.unwrap();
    assert!(step(&mut a, PipeEvent::Frame(sync)).send.is_none());
    for f in [vec![], frame(TAG_SYNC, b"no list"), frame(9, b"x")] {
        let s = step(&mut a, PipeEvent::Frame(f));
        assert!(s.send.is_none() && s.emit.is_empty() && s.outcome.is_none());
    }
}

#[test]
fn differences_become_edits() {
    assert!(diff_to_ops("same", "same").is_empty());
    for (x, y) in [("", "abc"), ("abc", ""), ("the cat sat", "a cat sits"), ("äöü", "aäu"), ("Xab", "aab")] {
        let mut buf = x.to_string();
        apply_ops(&mut buf, &diff_to_ops(x, y));
        assert_eq!(buf, y);
    }
    assert_eq!(
        diff_to_ops("ac", "abc"),
        vec![EditOp::Insert { pos: 1, text: "b".to_string() }]
    );
}

#[test]
fn edits_beyond_the_text_are_cut() {
    let mut a = PipePeer::new("a");
    a.apply_local(&EditOp::Snapshot { text: "abc".into() });
    a.apply_local(&EditOp::Insert { pos: 99, text: "d".into() });
    a.apply_local(&EditOp::Delete { pos: 2, len: 99 });
    assert_eq!(a.content(), "ab");
}

/// Two text syncers converge through the adapter, losing no concurrent edit:
/// the same guarantee the underlying CRDT gives, now via the trait.
#[test]
fn concurrent_text_converges_through_the_adapter() {
    let mut a = TextCrdtSyncer::new("a");
    let mut b = TextCrdtSyncer::new("b");

    // Concurrent local edits.
    assert!(a.observe(b"cat"));
    assert!(b.observe(b"dog"));
    let da = a.push_delta().unwrap();
    let db = b.push_delta().unwrap();

    // Exchange pushes.
    a.merge(&db);
    b.merge(&da);

    let ca = a.content();
    let cb = b.content();
    assert_eq!(ca, cb, "diverged: {ca:?} vs {cb:?}");
    assert!(ca.contains("cat") && ca.contains("dog"), "lost an edit: {ca:?}");
}

/// The pull path recovers a peer that missed a push.
#[test]
fn reconcile_recovers_a_missed_push() {
    let mut a = TextCrdtSyncer::new("a");
    let mut b = TextCrdtSyncer::new("b");
    a.observe(b"one ");
    let _d1 = a.push_delta(); // delivered nowhere ("lost")
    a.observe(b"one two");
    let _d2 = a.push_delta();

    // B advertises, A answers with exactly what B lacks.
    let missing = a.delta_since(&b.state_vector()).expect("A has ops B lacks");
    let merged = b.merge(&missing).expect("B materializes new content");
    assert_eq!(String::from_utf8(merged).unwrap(), "one two");

    // Already-in-sync: A has nothing more for B.
    assert!(a.delta_since(&b.state_vector()).is_none());
}

#[test]
fn a_text_syncer_sees_only_changes() {
    let mut a = TextCrdtSyncer::new("a");
    assert!(!a.observe(b""));
    assert!(a.observe(b"x\xff"));
    assert_eq!(a.content(), "x\u{fffd}");
    assert!(!a.observe("x\u{fffd}".as_bytes()));
    let first = a.push_delta().unwrap();
    let mut b = TextCrdtSyncer::new("b");
    assert_eq!(b.merge(&first), Some("x\u{fffd}".as_bytes().to_vec()));
    // A second push has nothing new in it.
    let second = a.push_delta().unwrap();
    assert_eq!(b.merge(&second), None);
    assert!(a.merge(b"junk").is_none());
    assert!(a.delta_since(b"junk").is_none());
}

/// One round for both peers: each ships what it has, takes what the other
/// shipped, and writes the merged text back.
fn round2(a: &mut TextPeer, va: &mut String, b: &mut TextPeer, vb: &mut String) {
    let from_a = a.begin_round(va);
    let from_b = b.begin_round(vb);
    if let Some(m) = a.end_round(Some(&from_b)) {
        *va = m;
    }
    if let Some(m) = b.end_round(Some(&from_a)) {
        *vb = m;
    }
}

#[test]
fn concurrent_edits_to_shared_text_converge() {
    let mut a = TextPeer::new("a");
    let mut b = TextPeer::new("b");
    // Both type concurrently into the empty doc.
    let mut va = String::from("cat");
    let mut vb = String::from("dog");
    round2(&mut a, &mut va, &mut b, &mut vb);

    // Converged, and neither edit was lost.
    assert_eq!(va, vb, "views diverged: {va:?} vs {vb:?}");
    assert!(va.contains("cat") && va.contains("dog"), "lost an edit: {va:?}");

    // A appends to the merged text; B is idle. Should still converge.
    va.push('!');
    round2(&mut a, &mut va, &mut b, &mut vb);
    // one more round to let B's write-back settle to the same content
    round2(&mut a, &mut va, &mut b, &mut vb);
    assert_eq!(va, vb);
    assert!(va.ends_with('!'));
    assert_eq!(a.content(), b.content());
}

#[test]
fn a_round_without_an_answer_shows_nothing_new() {
    let mut a = TextPeer::new("a");
    a.begin_round("x");
    assert_eq!(a.end_round(None), None);
    assert_eq!(a.content(), "x");
}

#[test]
fn edits_lead_to_the_new_text_whatever_the_two_are() {
    let mut seed: u64 = 7;
    let mut next = |n: u64| {
        seed = seed.wrapping_mul(6364136223846793005).wrapping_add(1442695040888963407);
        (seed >> 33) % n
    };
    for _ in 0..20000 {
        let mut text = || -> String {
            let n = next(13);
            (0..n).map(|_| [b'a', b'b', b'c'][next(3) as usize] as char).collect()
        };
        let (x, y) = (text(), text());
        let mut buf = x.clone();
        apply_ops(&mut buf, &diff_to_ops(&x, &y));
        assert_eq!(buf, y, "from {x:?}");
    }
}
