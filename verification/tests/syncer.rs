use riftpipe::crdt::text::EgWalkerText;
use riftpipe::syncer::{SyncMsg, Syncer};

/// Drive a message into `dst` and return what it answers.
fn deliver(dst: &mut Syncer, src_to_dst: SyncMsg) -> Vec<SyncMsg> {
    let (_, replies) = dst.apply(src_to_dst);
    replies
}

fn ops_len(m: &SyncMsg) -> usize {
    match m {
        SyncMsg::TextDelta { ops, .. } => ops.len(),
        _ => panic!("expected delta"),
    }
}

#[test]
fn first_edit_transfers_then_edits_are_small_deltas() {
    let mut a = Syncer::new("a");
    let mut b = Syncer::new("b");

    // High-entropy content so the "full" encode doesn't just compress away
    // (the encoder compresses content, which would mask the delta size).
    let mut big = String::with_capacity(4000);
    let mut x: u32 = 0x9e3779b9;
    for _ in 0..4000 {
        x ^= x << 13;
        x ^= x >> 17;
        x ^= x << 5;
        big.push(char::from(33 + (x % 94) as u8));
    }

    // First edit: peer has nothing, so the delta carries the whole doc.
    let m1 = a.local_text("note.md", &big).unwrap();
    let first_len = ops_len(&m1);
    assert_eq!(b.apply(m1).0.unwrap().1, big.as_bytes());

    // A second small edit AFTER the peer is caught up must ship a tiny delta,
    // not the whole 4000-char document again.
    let m2 = a.local_text("note.md", &(big.clone() + "Y")).unwrap();
    let second_len = ops_len(&m2);
    assert!(
        second_len < first_len / 10,
        "steady-state edit should be a small delta: {second_len} vs first {first_len}",
    );
    assert_eq!(b.apply(m2).0.unwrap().1, (big + "Y").into_bytes());
}

#[test]
fn concurrent_edits_converge() {
    let mut a = Syncer::new("a");
    let mut b = Syncer::new("b");
    // Shared base.
    let m = a.local_text("index.md", "# B\n\n- Todo\n").unwrap();
    b.apply(m);

    // Concurrent edits from the same base.
    let ma = a.local_text("index.md", "# B\n\n- Todo\n- A\n").unwrap();
    let mb = b.local_text("index.md", "# B\n\n- Todo\n- Bee\n").unwrap();
    let on_b = b.apply(ma).0.unwrap().1;
    let on_a = a.apply(mb).0.unwrap().1;
    assert_eq!(on_a, on_b, "concurrent edits converge");
}

#[test]
fn hello_transfers_existing_tree_to_a_fresh_peer() {
    // A already has a tree; B connects fresh and must receive it via the
    // version-vector handshake (no edit needed).
    let mut a = Syncer::new("a");
    a.local_text("note.md", "# existing note\n");

    let mut b = Syncer::new("b");
    // B says hello (empty): A replies with the deltas B lacks.
    let replies = deliver(&mut a, b.hello());
    assert_eq!(replies.len(), 1, "A offers its one doc");
    let (persisted, _) = b.apply(replies.into_iter().next().unwrap());
    assert_eq!(persisted.unwrap().1, b"# existing note\n");
}

#[test]
fn reconnect_replays_only_the_gap() {
    let mut a = Syncer::new("a");
    let mut b = Syncer::new("b");
    b.apply(a.local_text("note.md", "line 1\n").unwrap()); // synced

    // "Disconnect": A makes several edits B never sees.
    a.local_text("note.md", "line 1\nline 2\n");
    a.local_text("note.md", "line 1\nline 2\nline 3\n");
    let whole = deliver(&mut a, SyncMsg::Resync { path: "note.md".into() });
    let full = ops_len(&whole[0]);

    // Reconnect: B advertises its (stale) version vector; A replies with only
    // the ops since then, which is less than the whole history.
    let replies = deliver(&mut a, b.hello());
    let gap = ops_len(&replies[0]);
    assert!(gap < full, "reconnect ships only the gap ({gap}) not full ({full})");
    b.apply(replies.into_iter().next().unwrap());
    assert_eq!(
        b.text("note.md").unwrap(),
        "line 1\nline 2\nline 3\n",
        "B caught up to A after reconnect",
    );
}

#[test]
fn lww_newest_wins() {
    let mut b = Syncer::new("b");
    let mut a = Syncer::new("a");
    let newer = a.local_lww("state.bin", b"new".to_vec(), 1000);
    assert_eq!(b.apply(newer).0.unwrap().1, b"new");
    let stale = SyncMsg::Lww { path: "state.bin".into(), version: 1, bytes: b"old".to_vec() };
    assert!(b.apply(stale).0.is_none(), "stale LWW ignored");
}

#[test]
fn hello_transfers_existing_lww_to_a_fresh_peer() {
    // A already holds a structural file; B joins fresh over the point-to-point
    // handshake and must receive it through hello/apply alone, without a touch.
    let mut a = Syncer::new("a");
    a.local_lww("tickets/tk_1/meta.toml", b"column = \"Doing\"\n".to_vec(), 1000);

    let mut b = Syncer::new("b");
    let replies = deliver(&mut a, b.hello());
    assert_eq!(replies.len(), 1, "A offers its one LWW file");
    let (persisted, more) = b.apply(replies.into_iter().next().unwrap());
    assert_eq!(persisted.unwrap().1, b"column = \"Doing\"\n");
    assert!(more.is_empty(), "applying an Lww never produces replies (no storm)");
}

#[test]
fn hello_updates_stale_lww_peer() {
    // B holds an old version of meta.toml; A's is newer. B's hello advertises
    // its version, so A ships only the fresher payload and B adopts it.
    let mut a = Syncer::new("a");
    let mut b = Syncer::new("b");
    b.apply(a.local_lww("meta.toml", b"column = \"Todo\"\n".to_vec(), 1000));
    a.local_lww("meta.toml", b"column = \"Done\"\n".to_vec(), 2000); // B never sees this

    let replies = deliver(&mut a, b.hello());
    assert_eq!(replies.len(), 1, "A ships the newer LWW payload");
    let (persisted, _) = b.apply(replies.into_iter().next().unwrap());
    assert_eq!(persisted.unwrap().1, b"column = \"Done\"\n", "stale peer caught up");
}

#[test]
fn hello_never_clobbers_newer_local_lww() {
    // B's local meta.toml is NEWER than A's. Neither direction of the
    // handshake may regress it, and A must end up adopting B's.
    let mut a = Syncer::new("a");
    let mut b = Syncer::new("b");
    b.apply(a.local_lww("meta.toml", b"old\n".to_vec(), 1000)); // shared base
    b.local_lww("meta.toml", b"newer on B\n".to_vec(), 2000);

    // B hello to A: A's copy is not newer than B's advertised version, so A
    // sends nothing for it.
    let from_a = deliver(&mut a, b.hello());
    assert!(from_a.is_empty(), "A must not ship an LWW the peer already beats");

    // A hello to B: B ships its newer copy back; A adopts it. Even if an older
    // payload did arrive, apply(Lww) drops it.
    let from_b = deliver(&mut b, a.hello());
    assert_eq!(from_b.len(), 1, "B offers its newer copy");
    let (persisted, _) = a.apply(from_b.into_iter().next().unwrap());
    assert_eq!(persisted.unwrap().1, b"newer on B\n", "A converges to B's newer file");
    let stale = SyncMsg::Lww { path: "meta.toml".into(), version: 1500, bytes: b"stale\n".to_vec() };
    assert!(b.apply(stale).0.is_none(), "an older payload never regresses B");
    assert_eq!(b.file("meta.toml").unwrap().1, b"newer on B\n");
}

#[test]
fn full_state_catches_up_text_and_lww() {
    // A fresh mesh neighbor is caught up with both the text docs AND the
    // structural files via full_state.
    let mut a = Syncer::new("a");
    a.local_text("notes/x/doc.md", "# hi\n");
    a.local_lww("notes/x/state.bin", b"state=doing\n".to_vec(), 1000);

    let mut b = Syncer::new("b");
    for m in a.full_state() {
        b.apply(m);
    }
    assert_eq!(b.text("notes/x/doc.md").unwrap(), "# hi\n");
    assert_eq!(
        b.file("notes/x/state.bin").map(|(_, by)| by),
        Some(b"state=doing\n".to_vec()),
        "neighbor caught up the LWW meta too",
    );
}

#[test]
fn gapped_delta_triggers_resync_and_recovers() {
    // Craft a delta that skips an ancestor (as a lost message would): edit 2's
    // ops without edit 1. `src` (a full syncer) will answer the resync.
    let mut probe = EgWalkerText::new("s");
    probe.edit_to("one\n");
    let v1 = probe.version();
    probe.edit_to("one\ntwo\n");
    let gapped = SyncMsg::TextDelta {
        path: "note.md".into(),
        ops: probe.encode_delta(&v1), // parent (edit 1) is missing
        vv: probe.version_vector(),
        origin: probe.origin(),
    };

    let mut src = Syncer::new("s");
    src.local_text("note.md", "one\n");
    src.local_text("note.md", "one\ntwo\n");

    // A fresh peer can't apply the gapped delta: it asks for a resync.
    let mut dst = Syncer::new("d");
    let (persist, replies) = dst.apply(gapped);
    assert!(persist.is_none());
    assert!(
        matches!(replies.as_slice(), [SyncMsg::Resync { .. }]),
        "a gapped delta must trigger a resync request",
    );

    // A second un-appliable delta while awaiting the resync must NOT ask again.
    let (_, again) = dst.apply(SyncMsg::TextDelta {
        path: "note.md".into(),
        ops: probe.encode_delta(&v1),
        vv: probe.version_vector(),
        origin: probe.origin(),
    });
    assert!(again.is_empty(), "repeated gapped deltas are suppressed");

    // The source answers with full state: the peer recovers.
    let (_, full) = src.apply(replies.into_iter().next().unwrap());
    let (persist, _) = dst.apply(full.into_iter().next().unwrap());
    assert_eq!(persist.unwrap().1, b"one\ntwo\n", "peer recovered via full resync");
}

#[test]
fn independent_trees_merge_union_docs_and_resolve_same_path() {
    // Two trees created independently (disjoint histories), as two friends
    // who each already had a folder would.
    let mut a = Syncer::new("a");
    let mut b = Syncer::new("b");
    a.local_text("index.md", "# A's index\n");
    a.local_text("notes/aaa/doc.md", "doc A\n");
    b.local_text("index.md", "# B's index\n");
    b.local_text("notes/bbb/doc.md", "doc B\n");

    // Handshake: each answers the other's hello with the docs it lacks.
    let (_, a_gives) = a.apply(b.hello());
    let (_, b_gives) = b.apply(a.hello());
    for m in b_gives {
        let _ = a.apply(m);
    }
    for m in a_gives {
        let _ = b.apply(m);
    }

    // Distinct docs union: both sides hold both.
    for s in [&a, &b] {
        assert!(s.text("notes/aaa/doc.md").is_some(), "has doc A");
        assert!(s.text("notes/bbb/doc.md").is_some(), "has doc B");
    }
    // The same-path index.md converges to the higher agent id ("b") on both,
    // deterministically, with no interleaving of the two texts.
    assert_eq!(a.text("index.md").unwrap(), "# B's index\n");
    assert_eq!(b.text("index.md").unwrap(), "# B's index\n");
}

/// Full two-way state exchange between two peers (the handshake).
fn sync(x: &mut Syncer, y: &mut Syncer) {
    let (xh, yh) = (x.hello(), y.hello());
    let (_, from_y) = y.apply(xh);
    let (_, from_x) = x.apply(yh);
    for m in from_y {
        let _ = x.apply(m);
    }
    for m in from_x {
        let _ = y.apply(m);
    }
}

#[test]
fn three_independent_trees_converge() {
    // Three peers each independently create index.md. A same-path conflict
    // resolves by a *total order* on origin agent id, so all converge to the
    // single highest ("c"), even as an adopted version has to propagate onward.
    let mut a = Syncer::new("a");
    let mut b = Syncer::new("b");
    let mut c = Syncer::new("c");
    a.local_text("index.md", "# A\n");
    a.local_text("notes/a/doc.md", "a\n");
    b.local_text("index.md", "# B\n");
    c.local_text("index.md", "# C\n");
    c.local_text("notes/c/doc.md", "c\n");

    // Two rounds over all pairs so an adoption propagates to everyone.
    for _ in 0..2 {
        sync(&mut a, &mut b);
        sync(&mut b, &mut c);
        sync(&mut a, &mut c);
    }

    for s in [&a, &b, &c] {
        assert_eq!(s.text("index.md").unwrap(), "# C\n", "all converge to highest origin");
        assert!(s.text("notes/a/doc.md").is_some(), "doc a everywhere");
        assert!(s.text("notes/c/doc.md").is_some(), "doc c everywhere");
    }
}

#[test]
fn garbage_is_refused_and_asked_for_once() {
    let mut s = Syncer::new("s");
    let bad = |p: &str| SyncMsg::TextDelta {
        path: p.to_string(),
        ops: b"no operations at all".to_vec(),
        vv: vec![],
        origin: None,
    };
    let (out, replies) = s.apply(bad("x.md"));
    assert!(out.is_none() && replies.len() == 1);
    let (out, replies) = s.apply(bad("x.md"));
    assert!(out.is_none() && replies.is_empty());
    assert_eq!(s.text("x.md").unwrap(), "");
}

#[test]
fn local_files_get_rising_versions() {
    let mut s = Syncer::new("s");
    let version = |m: SyncMsg| match m {
        SyncMsg::Lww { version, .. } => version,
        _ => panic!("expected a file"),
    };
    assert_eq!(version(s.local_lww("f", vec![1], 50)), 50);
    assert_eq!(version(s.local_lww("f", vec![2], 10)), 51);
    assert_eq!(version(s.local_lww("f", vec![3], 51)), 52);
    assert_eq!(version(s.local_lww("g", vec![4], 0)), 1);
    assert!(s.can_write("f") && s.can_write("nothing"));
    s.apply(SyncMsg::Lww { path: "f".into(), version: u64::MAX, bytes: vec![9] });
    assert!(!s.can_write("f"));
    assert_eq!(s.file("f"), Some((u64::MAX, vec![9])));
}

#[test]
fn a_version_of_zero_is_noted_but_never_wins() {
    let mut s = Syncer::new("s");
    let (out, replies) = s.apply(SyncMsg::Lww { path: "f".into(), version: 0, bytes: vec![1] });
    assert!(out.is_none() && replies.is_empty());
    assert_eq!(s.file("f"), Some((0, vec![])));
    assert_eq!(s.file("g"), None);
}

#[test]
fn asking_for_an_unknown_text_gets_nothing() {
    let mut s = Syncer::new("s");
    assert!(deliver(&mut s, SyncMsg::Resync { path: "none.md".into() }).is_empty());
    assert_eq!(s.text("none.md"), None);
}

#[test]
fn an_unchanged_text_is_not_sent_again() {
    let mut s = Syncer::new("s");
    assert!(s.local_text("a.md", "x").is_some());
    assert!(s.local_text("a.md", "x").is_none());
    assert!(s.local_text("a.md", "xy").is_some());
}
