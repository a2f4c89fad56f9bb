use riftpipe::crdt::text::EgWalkerText;

#[test]
fn concurrent_edits_converge_and_lose_nothing() {
    // Seed both replicas with a shared starting point.
    let mut a = EgWalkerText::new("alice");
    a.edit_to("hello world");
    let seed = a.encode_full();

    let mut b = EgWalkerText::new("bob");
    b.merge(&seed);
    assert_eq!(b.content(), "hello world");

    // Concurrent edits from the same base, in each replica's local frame.
    let base_a = a.version();
    let base_b = b.version();
    a.edit_to("hello brave world"); // alice inserts "brave "
    b.edit_to("hello world!!!"); // bob appends "!!!"

    // Exchange deltas both ways.
    let da = a.encode_delta(&base_a);
    let db = b.encode_delta(&base_b);
    a.merge(&db);
    b.merge(&da);

    // Strong eventual consistency: identical content, both edits survive.
    assert_eq!(a.content(), b.content());
    let merged = a.content();
    assert!(merged.contains("brave"), "lost alice's edit: {merged:?}");
    assert!(merged.contains("!!!"), "lost bob's edit: {merged:?}");
}

#[test]
fn delta_carries_only_the_change_not_the_whole_doc() {
    // High-entropy content so it doesn't just compress away.
    let mut s = String::with_capacity(2000);
    let mut x: u32 = 0x9e3779b9;
    for _ in 0..2000 {
        x ^= x << 13;
        x ^= x >> 17;
        x ^= x << 5;
        s.push(char::from(33 + (x % 94) as u8)); // printable ASCII
    }
    let mut d = EgWalkerText::new("a");
    d.edit_to(&s);
    let v = d.version();
    let full = d.encode_full();
    d.insert_at(2000, "Y"); // one tiny edit
    let delta = d.encode_delta(&v);

    assert!(
        full.len() > 1000,
        "sanity: a full encode of 2000 random chars should be large ({} bytes)",
        full.len()
    );
    // The delta must be a tiny fraction of the document.
    assert!(
        delta.len() < full.len() / 10,
        "delta should carry only the change: {} bytes vs full doc {} bytes",
        delta.len(),
        full.len()
    );
}

#[test]
fn mid_document_edit_via_diff() {
    let mut d = EgWalkerText::new("a");
    d.edit_to("the quick fox");
    d.edit_to("the quick brown fox"); // mid-document insert recovered by diff
    assert_eq!(d.content(), "the quick brown fox");
    d.edit_to("the brown fox"); // mid-document delete
    assert_eq!(d.content(), "the brown fox");
}

#[test]
fn places_beyond_the_text_count_as_its_end() {
    let mut d = EgWalkerText::new("a");
    d.insert_at(99, "abc");
    d.insert_at(1, "é");
    assert_eq!(d.content(), "aébc");
    d.insert_at(2, "");
    d.delete_at(3, usize::MAX);
    assert_eq!(d.content(), "aéb");
    d.delete_at(50, 1);
    d.delete_at(0, 0);
    assert_eq!(d.content(), "aéb");
    d.delete_at(0, 2);
    assert_eq!(d.content(), "b");
}

#[test]
fn version_vectors_name_the_latest_events() {
    let mut a = EgWalkerText::new("alice");
    assert!(a.version_vector().is_empty() && a.version().is_empty());
    assert_eq!(a.origin(), None);
    a.edit_to("xyz");
    assert_eq!(a.version_vector(), vec![("alice".to_string(), 2)]);
    assert_eq!(a.version(), vec![2]);
    assert_eq!(a.origin(), Some(("alice".to_string(), 0)));
}

#[test]
fn an_answer_holds_what_the_other_lacks() {
    let mut a = EgWalkerText::new("a");
    a.edit_to("one");
    let mut b = EgWalkerText::new("b");
    let d = a.ops_since(&b.version_vector()).unwrap();
    assert!(b.merge(&d));
    assert_eq!(b.content(), "one");
    assert!(a.ops_since(&b.version_vector()).is_none());
    // Entries that are not held, and the engine's own name, are left out.
    assert!(a.ops_since(&[("ROOT".to_string(), 0), ("zed".to_string(), 4)]).is_some());
    a.edit_to("one two");
    b.edit_to("zero one");
    let from_a = a.ops_since(&b.version_vector()).unwrap();
    let from_b = b.ops_since(&a.version_vector()).unwrap();
    assert!(a.merge(&from_b) && b.merge(&from_a));
    assert_eq!(a.content(), b.content());
    assert_eq!(a.content(), "zero one two");
    // A second time changes nothing.
    assert!(a.merge(&from_b));
    assert_eq!(a.content(), "zero one two");
}

#[test]
fn a_patch_without_its_base_is_refused() {
    let mut a = EgWalkerText::new("a");
    a.edit_to("one");
    let v = a.version();
    a.edit_to("one two");
    let gap = a.encode_delta(&v);
    let mut b = EgWalkerText::new("b");
    assert!(!b.merge(&gap));
    assert_eq!(b.content(), "");
    assert!(!b.merge(b"nonsense"));
    assert!(b.merge(&a.encode_full()));
    assert_eq!(b.content(), "one two");
}

#[test]
fn a_version_vector_may_list_entries_in_any_order_and_twice() {
    let mut a = EgWalkerText::new("a");
    a.edit_to("base");
    let mut b = EgWalkerText::new("b");
    b.merge(&a.encode_full());
    a.edit_to("base a");
    b.edit_to("b base");
    let (va, vb) = (a.version_vector(), b.version_vector());
    let answer = b.ops_since(&va).unwrap();
    assert!(a.merge(&answer));
    assert_eq!(a.version_vector().len(), 2);
    a.edit_to("b base a!");
    // Both tips of the fork, an ancestor of one, and an entry twice.
    let seen = vec![vb[0].clone(), va[0].clone(), ("a".to_string(), 1), vb[0].clone()];
    let patch = a.ops_since(&seen).unwrap();
    assert!(!b.merge(&patch), "b lacks a's side of the fork");
    assert!(b.merge(&a.ops_since(&vb).unwrap()));
    assert_eq!(b.content(), "b base a!");
    assert!(b.merge(&patch));
    assert_eq!(b.content(), "b base a!");
}

#[test]
fn a_rewrite_ends_at_the_new_text() {
    for (old, new) in [("Xab", "aab"), ("aab", "Xab"), ("abcabba", "cbabac"), ("", "a"), ("a", "")] {
        let mut d = EgWalkerText::new("a");
        d.edit_to(old);
        d.edit_to(new);
        assert_eq!(d.content(), new);
    }
}

#[test]
fn a_delta_holds_the_change_alone() {
    let mut a = EgWalkerText::new("a");
    a.edit_to("the quick fox");
    let mut b = EgWalkerText::new("b");
    assert!(b.merge(&a.encode_full()));
    let v = a.version();
    a.edit_to("the quick brown fox");
    // Six characters were put in: numbers 13 to 18 of this author.
    assert_eq!(a.version_vector(), vec![("a".to_string(), 18)]);
    assert!(b.merge(&a.encode_delta(&v)));
    assert_eq!(b.content(), "the quick brown fox");
}

#[test]
fn what_both_sides_typed_is_kept_in_any_order() {
    let mut base = EgWalkerText::new("base");
    base.edit_to("one two three");
    let full = base.encode_full();
    let (mut a, mut b) = (EgWalkerText::new("a"), EgWalkerText::new("b"));
    assert!(a.merge(&full) && b.merge(&full));
    a.edit_to("one two three four");
    b.edit_to("zero one three");
    let (pa, pb) = (a.encode_full(), b.encode_full());
    let (mut x, mut y) = (EgWalkerText::new("x"), EgWalkerText::new("y"));
    for p in [&full, &pa, &pb] {
        assert!(x.merge(p));
    }
    for p in [&pb, &pa, &pb, &full] {
        assert!(y.merge(p));
    }
    assert_eq!(x.content(), "zero one three four");
    assert_eq!(x.content(), y.content());
    // Only b deleted: all of its text and what a put in is there.
    let mut want: Vec<char> = (b.content() + " four").chars().collect();
    let mut got: Vec<char> = x.content().chars().collect();
    want.sort();
    got.sort();
    assert_eq!(got, want);
}
