use riftpipe::textmap::TextMap;
use riftpipe::wal::{Frame, FrameId, Replica};

fn order(r: &Replica) -> Vec<FrameId> {
    r.linearize().iter().map(|f| f.id()).collect()
}

#[test]
fn two_writers_converge_on_one_order() {
    // A and B append concurrently, then exchange; a later frame builds on both.
    let mut a = Replica::new();
    let mut b = Replica::new();
    let a1 = a.append("a", b"a1".to_vec());
    let b1 = b.append("b", b"b1".to_vec());
    a.add(b1.clone());
    b.add(a1.clone());
    let a2 = a.append("a", b"a2".to_vec()); // deps = {a1, b1}
    b.add(a2.clone());

    assert_eq!(order(&a), order(&b), "replicas converge on the identical order");
    // Causality holds: a1 and b1 precede a2.
    let ord = order(&a);
    let pos = |id: FrameId| ord.iter().position(|x| *x == id).unwrap();
    assert!(pos(("a".into(), 0)) < pos(("a".into(), 1)), "a1 before a2");
    assert!(pos(("b".into(), 0)) < pos(("a".into(), 1)), "b1 before a2");
}

#[test]
fn linearization_is_order_independent() {
    // Build the same frame set by adding in two different orders: same result.
    let mut src = Replica::new();
    let f1 = src.append("a", b"1".to_vec());
    let f2 = src.append("b", b"2".to_vec());
    let f3 = src.append("a", b"3".to_vec());

    let mut x = Replica::new();
    for f in [&f1, &f2, &f3] {
        x.add(f.clone());
    }
    let mut y = Replica::new();
    for f in [&f3, &f1, &f2] {
        y.add(f.clone());
    }
    assert_eq!(order(&x), order(&y), "arrival order doesn't change the linearization");
}

#[test]
fn add_reports_new_vs_already_held() {
    let mut src = Replica::new();
    let f = src.append("a", b"x".to_vec());

    let mut r = Replica::new();
    assert!(r.add(f.clone()), "first add is new");
    assert!(!r.add(f), "re-adding the same frame is a no-op");
}

#[test]
fn watermarks_and_missing_drive_catch_up() {
    let mut full = Replica::new();
    full.append("a", b"a1".to_vec());
    full.append("a", b"a2".to_vec());
    full.append("b", b"b1".to_vec());

    // A peer that only has a's first frame asks for the rest.
    let mut have = TextMap::new();
    have.insert("a", 0u64); // has a seq 0
    let missing: Vec<FrameId> = full.missing_for(&have).iter().map(|f| f.id()).collect();
    assert!(missing.contains(&("a".into(), 1)), "missing a2");
    assert!(missing.contains(&("b".into(), 0)), "missing b1");
    assert!(!missing.contains(&("a".into(), 0)), "already has a1");

    let wm = full.watermarks();
    assert_eq!((wm.get("a"), wm.get("b"), wm.get("c")), (Some(&1), Some(&0), None));
}

fn frame(writer: &str, seq: u64, deps: &[(&str, u64)]) -> Frame {
    Frame {
        writer: writer.to_string(),
        seq,
        deps: deps.iter().map(|(w, s)| (w.to_string(), *s)).collect(),
        payload: vec![],
    }
}

fn id(w: &str, s: u64) -> FrameId {
    (w.to_string(), s)
}

#[test]
fn free_frames_go_by_writer_and_number() {
    let mut r = Replica::new();
    r.add(frame("c", 0, &[]));
    r.add(frame("b", 1, &[("c", 0)]));
    r.add(frame("b", 0, &[]));
    r.add(frame("a", 7, &[("b", 1), ("b", 1), ("x", 9)]));
    assert_eq!(order(&r), vec![id("b", 0), id("c", 0), id("b", 1), id("a", 7)]);
    assert_eq!(r.len(), 4);
}

#[test]
fn circles_are_left_out_of_the_order() {
    let mut r = Replica::new();
    r.add(frame("a", 0, &[("a", 1)]));
    r.add(frame("a", 1, &[("a", 0)]));
    r.add(frame("b", 0, &[]));
    r.add(frame("c", 0, &[("c", 0)]));
    assert_eq!(order(&r), vec![id("b", 0)]);
}

#[test]
fn the_frontier_is_what_nothing_depends_on() {
    let mut r = Replica::new();
    let a = r.append("a", vec![1]);
    assert!(a.deps.is_empty());
    let b = r.append("b", vec![2]);
    assert_eq!(b.deps, vec![id("a", 0)]);
    r.add(frame("z", 5, &[]));
    assert_eq!(r.frontier(), vec![id("b", 0), id("z", 5)]);
    let z = r.append("z", vec![3]);
    assert_eq!((z.seq, z.deps), (6, vec![id("b", 0), id("z", 5)]));
}

#[test]
fn a_writer_that_catches_up_by_watermarks_misses_nothing() {
    let mut full = Replica::new();
    for i in 0..3u8 {
        full.append("a", vec![i]);
        full.append("b", vec![i]);
    }
    let mut part = Replica::new();
    part.add(frame("a", 0, &[]));
    for f in full.missing_for(&part.watermarks()) {
        part.add(f.clone());
    }
    assert_eq!(order(&part).len(), 6);
}
