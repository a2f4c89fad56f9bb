use riftpipe::sync::algo::lww_record::{parse_records, parse_text, value_hash, LwwRecordSyncer};
use riftpipe::sync::strategy::SyncStrategy;

/// Sync both ways until stable (mirrors the heartbeat reconcile loop).
fn reconcile(a: &mut LwwRecordSyncer, b: &mut LwwRecordSyncer) {
    for _ in 0..2 {
        if let Some(d) = a.delta_since(&b.state_vector()) {
            b.merge(&d);
        }
        if let Some(d) = b.delta_since(&a.state_vector()) {
            a.merge(&d);
        }
    }
}

/// The headline property: concurrent edits to *different* keys of the same
/// file both survive on both sides (whole-file LWW would lose one).
#[test]
fn different_keys_both_survive() {
    let mut a = LwwRecordSyncer::new("meta.toml");
    let mut b = LwwRecordSyncer::new("meta.toml");
    let base = b"title = Board\nlanes = todo,doing,done\n";
    a.observe(base);
    b.observe(base);
    reconcile(&mut a, &mut b); // level the stamps before diverging

    a.observe(b"title = Renamed Board\nlanes = todo,doing,done\n");
    b.observe(b"title = Board\nlanes = todo,doing,done,archived\n");
    reconcile(&mut a, &mut b);

    let expect = b"lanes = todo,doing,done,archived\ntitle = Renamed Board\n";
    assert_eq!(a.materialize(), expect);
    assert_eq!(b.materialize(), expect);
}

/// Same key edited on both sides converges deterministically: version
/// first, then the larger value hash breaks the tie.
#[test]
fn same_key_conflict_resolves_deterministically() {
    let mut a = LwwRecordSyncer::new("m");
    let mut b = LwwRecordSyncer::new("m");
    a.observe(b"title = Alpha\n"); // version 1 on both: a tie
    b.observe(b"title = Beta\n");
    reconcile(&mut a, &mut b);
    assert_eq!(a.materialize(), b.materialize(), "diverged");

    let winner = if value_hash(&Some("Alpha".into())) > value_hash(&Some("Beta".into())) {
        "title = Alpha\n"
    } else {
        "title = Beta\n"
    };
    assert_eq!(a.materialize(), winner.as_bytes());

    // A strictly later edit (higher version) wins regardless of hash.
    b.observe(b"title = Gamma\n");
    reconcile(&mut a, &mut b);
    assert_eq!(a.materialize(), b"title = Gamma\n");
    assert_eq!(b.materialize(), b"title = Gamma\n");
}

/// A fresh joiner (empty state) receives every key via the pull path.
#[test]
fn fresh_joiner_gets_all_keys() {
    let mut a = LwwRecordSyncer::new("m");
    let mut b = LwwRecordSyncer::new("m");
    a.observe(b"one = 1\ntwo = 2\nthree = 3\n");
    reconcile(&mut a, &mut b);
    assert_eq!(b.materialize(), b"one = 1\nthree = 3\ntwo = 2\n");
}

/// Once converged, neither side ships anything.
#[test]
fn lww_record_nothing_to_send_when_in_sync() {
    let mut a = LwwRecordSyncer::new("m");
    let mut b = LwwRecordSyncer::new("m");
    a.observe(b"k = v\n");
    reconcile(&mut a, &mut b);
    assert!(a.delta_since(&b.state_vector()).is_none());
    assert!(b.delta_since(&a.state_vector()).is_none());
}

/// Comments, blank and malformed lines are skipped, never a crash; only
/// well-formed records survive canonicalization (see module docs).
#[test]
fn malformed_lines_do_not_crash() {
    let mut a = LwwRecordSyncer::new("m");
    assert!(a.observe(
        b"# a comment\n\nno equals sign here\n = value with empty key\nok = yes\n# k = commented out\ndup = 1\ndup = 2\n"
    ));
    assert_eq!(a.materialize(), b"dup = 2\nok = yes\n");
    // Re-observing the canonical form is a no-op (idempotent).
    let canon = a.materialize();
    assert!(!a.observe(&canon));
    // Invalid UTF-8 is lossily decoded, not a panic.
    a.observe(&[0xff, 0xfe, b'k', b'=', b'v', b'\n']);
}

/// A deleted key tombstones and propagates instead of resurrecting.
#[test]
fn deletes_propagate_via_tombstones() {
    let mut a = LwwRecordSyncer::new("m");
    let mut b = LwwRecordSyncer::new("m");
    a.observe(b"keep = 1\ndrop = 2\n");
    reconcile(&mut a, &mut b);
    a.observe(b"keep = 1\n"); // `drop` deleted locally on a
    reconcile(&mut a, &mut b);
    assert_eq!(a.materialize(), b"keep = 1\n");
    assert_eq!(b.materialize(), b"keep = 1\n");
}

/// The eager push path ships exactly the changed-since-last-push keys.
#[test]
fn push_delta_ships_dirty_keys_once() {
    let mut a = LwwRecordSyncer::new("m");
    let mut b = LwwRecordSyncer::new("m");
    a.observe(b"x = 1\n");
    let d = a.push_delta().expect("changed keys to push");
    assert!(a.push_delta().is_none(), "watermark advanced");
    assert_eq!(b.merge(&d).as_deref(), Some(b"x = 1\n".as_slice()));
}

#[test]
fn lines_split_at_the_first_equals_sign() {
    let p = parse_text("a = b = c\n\tkey\t=\u{2003}v \r\nempty =\n");
    assert_eq!(p.len(), 3);
    assert_eq!(p.get("a").map(|s| s.as_str()), Some("b = c"));
    assert_eq!(p.get("key").map(|s| s.as_str()), Some("v"));
    assert_eq!(p.get("empty").map(|s| s.as_str()), Some(""));
}

#[test]
fn broken_bytes_become_replacement_characters() {
    let p = parse_records(&[0xff, b'k', b'=', b'v', b'\n']);
    assert_eq!(p.len(), 1);
    assert_eq!(p.get("\u{fffd}k").map(|s| s.as_str()), Some("v"));
}

#[test]
fn a_deleted_value_hashes_unlike_an_empty_one() {
    assert_ne!(value_hash(&None), value_hash(&Some(String::new())));
    // The digest of a one-byte tag and the text.
    let d = blake3::hash(b"\x01hi");
    assert_eq!(value_hash(&Some("hi".to_string())), d.as_bytes()[..16]);
    assert_eq!(value_hash(&None), blake3::hash(b"\x00").as_bytes()[..16]);
}

#[test]
fn stamps_and_entries_are_exact() {
    let mut a = LwwRecordSyncer::new("m");
    a.observe(b"b = 2\na = 1\n");
    a.observe(b"b = 3\n");
    let s = a.stamps();
    assert_eq!(s.len(), 2);
    assert_eq!((s[0].0.as_str(), s[0].1, s[0].2), ("a", 2, value_hash(&None)));
    assert_eq!((s[1].0.as_str(), s[1].1), ("b", 2));
    let mut d = a.take_dirty();
    d.sort();
    assert_eq!(
        d,
        vec![("a".to_string(), None, 2), ("b".to_string(), Some("3".to_string()), 2)]
    );
    assert!(a.take_dirty().is_empty());
    assert!(a.is_writable());
    let full = vec![("z".to_string(), Some("9".to_string()), u64::MAX)];
    assert_eq!(a.merge_entries(&full), Some(b"b = 3\nz = 9\n".to_vec()));
    assert!(!a.is_writable());
    assert_eq!(a.merge_entries(&full), None);
}

#[test]
fn unreadable_messages_are_ignored() {
    let mut a = LwwRecordSyncer::new("m");
    a.observe(b"k = v\n");
    assert!(a.merge(b"\xff\xff\xff").is_none());
    assert!(a.delta_since(b"\xff").is_none());
    assert!(a.delta_since(&LwwRecordSyncer::new("x").state_vector()).is_some());
}

#[test]
fn patches_may_come_in_any_order_and_again() {
    let text = |s: &str| Some(s.to_string());
    let x = vec![("k".to_string(), text("one"), 1), ("l".to_string(), None, 2)];
    let y = vec![("k".to_string(), text("two"), 1), ("m".to_string(), text("m"), 1)];
    let mut a = LwwRecordSyncer::new("f");
    let mut b = LwwRecordSyncer::new("f");
    for p in [&x, &y] {
        a.merge_entries(p);
    }
    for p in [&y, &x, &y, &x] {
        b.merge_entries(p);
    }
    assert_eq!(a.state_vector(), b.state_vector());
    assert_eq!(a.merge_entries(&x), None);
    assert_eq!(a.state_vector(), b.state_vector());
}
