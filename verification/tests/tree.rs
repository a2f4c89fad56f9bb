use riftpipe::sync::mesh::{wrap_all, IdSet, MeshMsg, MeshState};
use riftpipe::sync::tree::{escapes, hidden, is_text, rel_of, TreePeer};
use riftpipe::syncer::SyncMsg;
use std::collections::BTreeMap;

type Disk = BTreeMap<String, Vec<u8>>;

/// Run two crossed peers: A's files are announced as changes, and messages go to
/// and fro until both are silent. Returns what B has written.
fn converge(files: &[(&str, &str)]) -> Disk {
    let mut a = TreePeer::new(1);
    let mut b = TreePeer::new(2);
    let mut on_b = Disk::new();
    let mut to_b: Vec<SyncMsg> = vec![a.hello()];
    let mut to_a: Vec<SyncMsg> = vec![b.hello()];
    for (path, text) in files {
        assert!(a.is_ready(path));
        to_b.extend(a.local_change(path, text.as_bytes(), 1000));
    }
    while !to_b.is_empty() || !to_a.is_empty() {
        for m in std::mem::take(&mut to_b) {
            let (write, replies) = b.apply_msg(m);
            on_b.extend(write);
            to_a.extend(replies);
        }
        for m in std::mem::take(&mut to_a) {
            let (write, replies) = a.apply_msg(m);
            assert!(write.is_none(), "nothing of B's is new to A");
            to_b.extend(replies);
        }
    }
    on_b
}

#[test]
fn two_peers_converge_text_and_lww() {
    let on_b = converge(&[
        ("tickets/tk_1/card.md", "# card one\n\nbody\n"),
        ("tickets/tk_1/meta.toml", "column = \"Todo\"\nposition = 0\n"),
    ]);
    assert_eq!(
        on_b["tickets/tk_1/card.md"], b"# card one\n\nbody\n",
        "text file arrives byte-identical via the CRDT path",
    );
    assert_eq!(
        on_b["tickets/tk_1/meta.toml"], b"column = \"Todo\"\nposition = 0\n",
        "structural file arrives via LWW",
    );
}

#[test]
fn dot_paths_never_sync() {
    let on_b = converge(&[
        (".site", "site-a\n"),
        ("tickets/.hidden", "shh\n"),
        ("board.md", "# Board\n\n- Todo\n"),
    ]);
    assert!(on_b.contains_key("board.md"));
    assert!(!on_b.contains_key(".site"), "top-level .site must never sync");
    assert!(!on_b.contains_key("tickets/.hidden"), "nested dotfile must never sync");
}

#[test]
fn paths_from_the_wire_stay_in_the_tree() {
    assert!(escapes("/etc/x") && escapes("a/../b") && escapes(".."));
    assert!(!escapes("a/b") && !escapes("a/..b") && !escapes(""));
    assert!(hidden(".a") && hidden("a/.b/c") && !hidden("a/b.c") && !hidden(""));
    assert_eq!(rel_of("a\\b.md").as_deref(), Some("a/b.md"));
    assert_eq!(rel_of(""), None);
    assert_eq!(rel_of("a/.b"), None);
    assert!(is_text("x.md") && is_text(".md") && !is_text("x.mdx") && !is_text("md"));
    let mut p = TreePeer::new(1);
    for path in ["../up.bin", "/abs.bin", ".dot.bin"] {
        let m = SyncMsg::Lww { path: path.to_string(), version: 5, bytes: vec![1] };
        assert!(p.apply_msg(m).0.is_none());
    }
}

#[test]
fn what_was_written_for_a_peer_is_not_sent_back() {
    let mut p = TreePeer::new(1);
    let m = SyncMsg::Lww { path: "f.bin".to_string(), version: 5, bytes: vec![1, 2] };
    assert_eq!(p.apply_msg(m).0, Some(("f.bin".to_string(), vec![1, 2])));
    assert!(p.local_change("f.bin", &[1, 2], 9).is_none());
    assert!(p.local_change("f.bin", &[1, 3], 9).is_some());
    assert!(p.local_change("f.bin", &[1, 3], 10).is_none());
}

fn id(n: u8) -> [u8; 32] {
    [n; 32]
}

#[test]
fn members_are_listed_in_order_and_once() {
    let mut s = IdSet::new();
    for n in [3, 1, 2, 3] {
        s.insert(&id(n));
    }
    s.remove(&id(2));
    s.remove(&id(9));
    assert_eq!(s.list(), [id(1), id(3)]);
}

#[test]
fn a_new_neighbor_gets_the_tree_and_all_hear_of_it() {
    let mut peer = TreePeer::new(7);
    peer.local_change("a.md", b"# a\n", 1);
    peer.local_change("b.bin", b"b", 1);
    let mut mesh = MeshState::new(id(0));
    let out = mesh.on_up(&peer, &id(4));
    assert_eq!(out.len(), 3);
    assert_eq!(out.iter().filter(|m| matches!(m, MeshMsg::Sync(_))).count(), 2);
    match out.last() {
        Some(MeshMsg::Presence { id: who, neighbors }) => {
            assert_eq!((*who, neighbors.clone()), (id(0), vec![id(4)]));
        }
        _ => panic!("expected a presence"),
    }
    mesh.on_presence(id(4), vec![id(0)]);
    let out = mesh.on_down(&id(4));
    assert!(matches!(&out[..], [MeshMsg::Presence { neighbors, .. }] if neighbors.is_empty()));
    assert_eq!(wrap_all(peer.full_state()).len(), 2);
}
