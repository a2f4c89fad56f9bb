use riftpipe::sync::algo::rsync::{
    diff, reconstruct, signatures, wins, Advert, Delta, Patch, Rolling, RsyncSyncer, Signatures,
    Token, BLOCK,
};
use riftpipe::sync::strategy::SyncStrategy;

/// Rolling one byte must match a fresh checksum of the same window.
#[test]
fn rolling_checksum_matches_fresh() {
    let data = b"the quick brown fox jumps over the lazy dog!!";
    let w = 8;
    let mut roll = Rolling::new(&data[0..w]);
    for i in 0..data.len() - w {
        assert_eq!(
            roll.digest(),
            Rolling::new(&data[i..i + w]).digest(),
            "rolling diverged at offset {i}"
        );
        if i + w < data.len() {
            roll.roll(data[i], data[i + w]);
        }
    }
}

fn round_trip(basis: &[u8], target: &[u8]) -> Vec<u8> {
    let sigs = signatures(basis);
    let delta = diff(&sigs, target);
    reconstruct(basis, &delta, BLOCK)
}

#[test]
fn reconstruct_round_trips_for_all_shapes() {
    // build a multi-block basis (>1 full block of structured bytes)
    let basis: Vec<u8> = (0..3000u32).map(|i| (i % 251) as u8).collect();

    // identical
    assert_eq!(round_trip(&basis, &basis), basis);

    // append
    let mut t = basis.clone();
    t.extend_from_slice(b"appended tail bytes");
    assert_eq!(round_trip(&basis, &t), t);

    // prepend
    let mut t = b"PREPENDED".to_vec();
    t.extend_from_slice(&basis);
    assert_eq!(round_trip(&basis, &t), t);

    // middle insert
    let mut t = basis.clone();
    t.splice(1500..1500, b"XXXXXMIDDLEXXXXX".iter().copied());
    assert_eq!(round_trip(&basis, &t), t);

    // middle delete
    let mut t = basis.clone();
    t.drain(1200..1400);
    assert_eq!(round_trip(&basis, &t), t);

    // totally different
    let t: Vec<u8> = (0..2048u32).map(|i| (i % 97 + 1) as u8).collect();
    assert_eq!(round_trip(&basis, &t), t);

    // empties / small
    assert_eq!(round_trip(&basis, b""), b"");
    assert_eq!(round_trip(b"", &basis), basis);
    assert_eq!(round_trip(&basis, b"tiny"), b"tiny");
}

#[test]
fn delta_reuses_blocks_instead_of_resending_everything() {
    let basis: Vec<u8> = (0..6000u32).map(|i| (i % 251) as u8).collect();
    let mut target = basis.clone();
    target[3000] ^= 0xff; // one byte changes, in one block
    let delta = diff(&signatures(&basis), &target);
    let encoded = delta.encode();
    assert!(
        encoded.len() < target.len() / 2,
        "delta should reuse unchanged blocks: {} bytes vs target {} bytes",
        encoded.len(),
        target.len()
    );
    assert_eq!(reconstruct(&basis, &delta, BLOCK), target);
}

/// Two replicas reconcile to the same content (LWW winner), both directions.
#[test]
fn two_replicas_converge_via_lww() {
    let mut a = RsyncSyncer::new("a");
    let mut b = RsyncSyncer::new("b");

    // Each makes its first edit (both go version 0 -> 1), so this is a *tie*
    // resolved deterministically by the larger content hash.
    let ca0 = b"alpha content here".to_vec();
    let cb0 = b"beta content over there, different".to_vec();
    assert!(a.observe(&ca0));
    assert!(b.observe(&cb0));

    // Reconcile both directions until stable (mirrors the heartbeat loop).
    for _ in 0..3 {
        if let Some(p) = a.delta_since(&b.state_vector()) {
            b.merge(&p);
        }
        if let Some(p) = b.delta_since(&a.state_vector()) {
            a.merge(&p);
        }
    }

    let ca = a.content();
    let cb = b.content();
    assert_eq!(ca, cb, "replicas diverged");
    let content_hash = |x: &[u8]| *blake3::hash(x).as_bytes();
    let expected = if content_hash(&ca0) > content_hash(&cb0) { ca0 } else { cb0 };
    assert_eq!(cb, expected, "LWW (hash-tiebreak) winner mismatch");
}

/// A strictly-later writer (higher version) wins regardless of hash.
#[test]
fn later_writer_wins_on_version() {
    let mut a = RsyncSyncer::new("a");
    let mut b = RsyncSyncer::new("b");
    a.observe(b"first");
    // bring b in sync with a
    if let Some(p) = a.delta_since(&b.state_vector()) {
        b.merge(&p);
    }
    // now b writes again -> version 2 > a's version 1
    b.observe(b"second, newer, wins");
    for _ in 0..3 {
        if let Some(p) = a.delta_since(&b.state_vector()) {
            b.merge(&p);
        }
        if let Some(p) = b.delta_since(&a.state_vector()) {
            a.merge(&p);
        }
    }
    assert_eq!(a.content(), b"second, newer, wins");
    assert_eq!(a.content(), b.content());
}

#[test]
fn identical_content_produces_no_delta() {
    let mut a = RsyncSyncer::new("a");
    let mut b = RsyncSyncer::new("b");
    a.observe(b"same");
    // get B to the same content+version via one reconcile
    if let Some(p) = a.delta_since(&b.state_vector()) {
        b.merge(&p);
    }
    // now neither side has anything to send
    assert!(a.delta_since(&b.state_vector()).is_none());
    assert!(b.delta_since(&a.state_vector()).is_none());
}

#[test]
fn checksums_are_exact() {
    // Sum of the bytes in the low half, weighted sum in the high half.
    assert_eq!(Rolling::new(&[1, 2, 3]).digest(), 6 | (10 << 16));
    assert_eq!(Rolling::new(&[]).digest(), 0);
    assert_eq!(Rolling::new(&[255; 600]).digest(), {
        let a: u32 = 255 * 600 % 65536;
        let b: u32 = 255 * (600 * 601 / 2) % 65536;
        a | (b << 16)
    });
}

#[test]
fn whole_blocks_are_copied_and_the_rest_is_literal() {
    let basis: Vec<u8> = (0..2500u32).map(|i| (i / 7 % 256) as u8).collect();
    let s = signatures(&basis);
    assert_eq!((s.block, s.sigs.len()), (BLOCK, 2));
    let mut t = b"head".to_vec();
    t.extend_from_slice(&basis);
    let d = diff(&s, &t);
    assert!(matches!(&d.tokens[0], Token::Literal(l) if l.as_slice() == b"head"));
    assert!(matches!(d.tokens[1], Token::Copy(0)));
    assert!(matches!(d.tokens[2], Token::Copy(1)));
}

#[test]
fn blocks_that_are_not_there_are_left_out() {
    let d = Delta { tokens: vec![Token::Copy(7), Token::Literal(b"x".to_vec()), Token::Copy(usize::MAX)] };
    assert_eq!(reconstruct(b"abc", &d, 2), b"x");
    // Only a full block is copied.
    let d = Delta { tokens: vec![Token::Copy(1), Token::Copy(0)] };
    assert_eq!(reconstruct(b"abc", &d, 2), b"ab");
    assert_eq!(reconstruct(b"abcd", &d, 2), b"cdab");
}

#[test]
fn a_patch_that_does_not_fit_is_refused() {
    let mut a = RsyncSyncer::new("a");
    a.observe(b"mine");
    let bad = Patch {
        version: 9,
        hash: [7; 32],
        delta: Delta { tokens: vec![Token::Literal(b"other".to_vec())] },
    };
    assert!(a.apply_patch(&bad).is_none());
    assert!(a.merge(b"").is_none());
    assert!(a.delta_since(b"\xff").is_none());
    assert_eq!((a.content(), a.version()), (b"mine".to_vec(), 1));
    let good = Patch {
        version: 9,
        hash: *blake3::hash(b"other").as_bytes(),
        delta: Delta { tokens: vec![Token::Literal(b"other".to_vec())] },
    };
    assert_eq!(a.apply_patch(&good), Some(b"other".to_vec()));
    assert_eq!(a.version(), 9);
}

#[test]
fn messages_read_back() {
    let a = Advert {
        version: 300,
        hash: [3; 32],
        sigs: Signatures { block: 1024, sigs: vec![(5, [9; 16]), (70000, [1; 16])] },
    };
    let b = Advert::decode(&a.encode()).unwrap();
    assert_eq!((b.version, b.hash, b.sigs.block), (300, [3; 32], 1024));
    assert_eq!(b.sigs.sigs, vec![(5, [9; 16]), (70000, [1; 16])]);
    let p = Patch {
        version: 1,
        hash: [4; 32],
        delta: Delta { tokens: vec![Token::Copy(2), Token::Literal(vec![1, 2])] },
    };
    let q = Patch::decode(&p.encode()).unwrap();
    assert_eq!((q.version, q.hash, q.delta.tokens.len()), (1, [4; 32], 2));
    assert!(matches!(q.delta.tokens[0], Token::Copy(2)));
    assert!(Advert::decode(b"").is_none() && Patch::decode(b"").is_none());
    // A tag, the number of the block; a tag, a length, the bytes.
    assert_eq!(p.delta.encode(), vec![2, 0, 2, 1, 2, 1, 2]);
}

#[test]
fn stamps_decide_by_version_and_by_hash() {
    assert!(wins(2, &[0; 32], 1, &[9; 32]));
    assert!(!wins(1, &[9; 32], 2, &[0; 32]));
    assert!(wins(1, &[9; 32], 1, &[8; 32]));
    assert!(!wins(1, &[9; 32], 1, &[9; 32]));
}

#[test]
fn literals_hold_no_block_of_the_basis() {
    let basis: Vec<u8> = (0..3 * BLOCK as u32).map(|i| (i / 5 % 256) as u8).collect();
    let mut target = b"front".to_vec();
    target.extend_from_slice(&basis[BLOCK..2 * BLOCK]);
    target.extend_from_slice(b"middle");
    target.extend_from_slice(&basis[..BLOCK]);
    target.extend_from_slice(&basis[2 * BLOCK..]);
    let delta = diff(&signatures(&basis), &target);
    for t in &delta.tokens {
        if let Token::Literal(b) = t {
            assert!(!b.windows(BLOCK).any(|w| basis.chunks(BLOCK).any(|c| c == w)));
        }
    }
    assert_eq!(delta.tokens.iter().filter(|t| matches!(t, Token::Copy(_))).count(), 3);
}
