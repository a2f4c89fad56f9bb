use riftpipe::sync::backing::{Backing, FileBacking, MemoryBacking, MemoryRegistry};
use riftpipe::sync::folder::{
    advertise, frame, on_frame, parse_frame, scan_path, TAG_DELTA, TAG_SYNCREP, TAG_SYNCREQ,
};
use riftpipe::sync::manifest::{
    glob_match, BackingChoice, Field, Fields, Manifest, ManifestError, RuleFields,
};
use riftpipe::sync::strategy::{AnySyncer, Kind};
use riftpipe::sync::workspace::{is_tracked, Placement, Workspace};

#[test]
fn memory_backing_round_trips() {
    let mut b = MemoryBacking::new("r");
    assert!(b.load().is_empty());
    b.store(b"hello");
    assert_eq!(b.load(), b"hello");
    // the handle reflects writes
    assert_eq!(&*b.handle(), b"hello");
}

#[test]
fn registry_reports_all_in_memory_resources() {
    let mut reg = MemoryRegistry::new();
    reg.backing("a.bin").store(b"aaa");
    reg.backing("c.bin").store(b"cccc");
    let mut snap = reg.snapshot();
    snap.sort();
    assert_eq!(
        snap,
        vec![
            ("a.bin".to_string(), b"aaa".to_vec()),
            ("c.bin".to_string(), b"cccc".to_vec()),
        ]
    );
}

#[test]
fn a_registry_keeps_every_backing_under_its_place() {
    let mut reg = MemoryRegistry::new();
    reg.backing("x").store(b"1");
    reg.backing("x").store(b"2");
    reg.backing_at(0).store(b"3");
    assert_eq!(reg.len(), 2);
    assert_eq!((reg.load(0), reg.load(1)), (b"3".to_vec(), b"2".to_vec()));
    let f = FileBacking::new("n", "/p/n");
    assert_eq!((f.name(), f.path()), ("n", "/p/n"));
}

#[test]
fn frame_round_trips() {
    let f = frame("docs/a.md", TAG_DELTA, b"payload");
    let (p, t, pl) = parse_frame(&f).unwrap();
    assert_eq!(p, "docs/a.md");
    assert_eq!(t, TAG_DELTA);
    assert_eq!(pl, b"payload");
    // truncated frames don't panic
    assert!(parse_frame(&f[..2]).is_some() || parse_frame(&f[..1]).is_none());
    assert!(parse_frame(b"").is_none());
}

#[test]
fn frames_are_exact() {
    assert_eq!(frame("ab", 7, b"xy"), vec![2, 0, b'a', b'b', 7, b'x', b'y']);
    // No tag after the path, and a path that is no text.
    assert!(parse_frame(&[2, 0, b'a', b'b']).is_none());
    assert!(parse_frame(&[1, 0, 0xff, 0]).is_none());
    let (p, t, pl) = parse_frame(&[0, 0, 9]).unwrap();
    assert_eq!((p.as_str(), t, pl.len()), ("", 9, 0));
}

fn put(ws: &mut Workspace, path: &str, bytes: &[u8]) {
    ws.open(&vec![(path.to_string(), Some(bytes.to_vec()))]);
}

/// Walk the REQ -> REP -> DELTA exchange by hand and confirm that a file A holds
/// lands on B via rsync.
#[test]
fn one_file_syncs_from_a_to_b() {
    let content = b"rsync this whole file across the link, please and thanks";
    let mut a = Workspace::new("/a", Manifest::default(), false, 1);
    let mut b = Workspace::new("/b", Manifest::default(), false, 2);
    put(&mut a, "a.bin", content);

    // A's poll: observe the local file, then advertise (REQ).
    let a_req = scan_path(&mut a, "a.bin", content);
    assert_eq!(a_req, advertise(&a));
    assert_eq!(a_req.len(), 1);
    assert_eq!(parse_frame(&a_req[0]).unwrap().1, TAG_SYNCREQ);
    assert!(scan_path(&mut a, "a.bin", content).is_empty());

    // B receives REQ: nothing to push (B is empty) -> replies REP only.
    let h = on_frame(&mut b, &a_req[0], None);
    assert!(h.store.is_none());
    assert_eq!(h.outgoing.len(), 1);
    assert_eq!(parse_frame(&h.outgoing[0]).unwrap().1, TAG_SYNCREP);

    // A receives REP: computes the rsync delta for B and pushes DELTA.
    let h = on_frame(&mut a, &h.outgoing[0], None);
    assert_eq!(h.outgoing.len(), 1);
    assert_eq!(parse_frame(&h.outgoing[0]).unwrap().1, TAG_DELTA);

    // B receives DELTA: merges, and the bytes go to disk.
    let h = on_frame(&mut b, &h.outgoing[0], None);
    assert!(h.outgoing.is_empty());
    assert_eq!(h.store, Some(("a.bin".to_string(), content.to_vec())));
}

#[test]
fn broken_frames_do_nothing() {
    let mut b = Workspace::new("/b", Manifest::default(), false, 3);
    for f in [vec![], vec![9, 0, 1], frame("x", 77, b"")] {
        let h = on_frame(&mut b, &f, None);
        assert!(h.outgoing.is_empty() && h.store.is_none());
    }
}

#[test]
fn glob_segment_wildcard() {
    assert!(glob_match("*.md", "notes.md"));
    assert!(!glob_match("*.md", "notes.txt"));
    // `*` does not cross `/`
    assert!(!glob_match("*.md", "dir/notes.md"));
    assert!(glob_match("dir/*.md", "dir/notes.md"));
    assert!(glob_match("?.txt", "a.txt"));
    assert!(!glob_match("?.txt", "ab.txt"));
}

#[test]
fn glob_double_star_crosses_segments() {
    assert!(glob_match("**/*.md", "a/b/c/notes.md"));
    assert!(glob_match("**/*.md", "notes.md"));
    assert!(glob_match("state/**", "state/save1.bin"));
    assert!(glob_match("state/**", "state/deep/save.bin"));
    assert!(!glob_match("state/**", "other/save.bin"));
}

#[test]
fn glob_edges() {
    assert!(glob_match("", "") && !glob_match("", "a"));
    assert!(glob_match("**", "") && glob_match("*", "") && !glob_match("?", ""));
    assert!(!glob_match("?", "/") && glob_match("?", "é"));
    assert!(glob_match("a*b*c", "axxbyyc") && !glob_match("a*b*c", "axxbyy"));
}

#[test]
fn manifest_resolves_first_match_then_default() {
    let m = Manifest::parse(
        r#"
            default = "rsync-file"
            [[rule]]
            glob = "**/*.md"
            algo = "text-crdt"
            [[rule]]
            glob = "state/**"
            algo = "wal-db"
            "#,
    )
    .unwrap();
    assert_eq!(m.kind_for("docs/readme.md"), Kind::TextCrdt);
    assert_eq!(m.kind_for("state/save.bin"), Kind::WalDb);
    assert_eq!(m.kind_for("assets/logo.png"), Kind::RsyncFile); // default
}

#[test]
fn missing_manifest_defaults_to_rsync() {
    let m = Manifest::load_or_default(None).unwrap();
    assert_eq!(m.kind_for("anything.xyz"), Kind::RsyncFile);
}

#[test]
fn manifests_that_do_not_fit_are_refused() {
    assert!(matches!(Manifest::parse("default = "), Err(ManifestError::Syntax(_))));
    assert!(matches!(Manifest::parse("default = \"no-such\""), Err(ManifestError::Default)));
    assert!(matches!(Manifest::parse("default = 3"), Err(ManifestError::Default)));
    assert!(matches!(Manifest::parse("rule = 1"), Err(ManifestError::Rules)));
    let second = "[[rule]]\nglob = \"*\"\nalgo = \"image\"\n[[rule]]\nglob = \"*\"\n";
    assert!(matches!(Manifest::parse(second), Err(ManifestError::Rule(1))));
    assert_eq!(Manifest::parse("").unwrap().kind_for("x"), Kind::RsyncFile);
    assert!(Manifest::load_or_default(Some("[")).is_err());
}

#[test]
fn implemented_kinds_are_flagged() {
    assert!(Kind::TextCrdt.is_implemented());
    assert!(Kind::RsyncFile.is_implemented());
    assert!(Kind::WalDb.is_implemented());
    assert!(!Kind::Image.is_implemented());
}

#[test]
fn factory_builds_the_requested_kind() {
    // Only build/inspect kind().
    assert_eq!(Kind::TextCrdt.build("x").kind(), Kind::TextCrdt);
    assert_eq!(Kind::RsyncFile.build("x").kind(), Kind::RsyncFile);
    assert_eq!(Kind::WalDb.build("x").kind(), Kind::WalDb);
    assert_eq!(Kind::Image.build("x").kind(), Kind::Image);
}

#[test]
fn kind_round_trips_as_kebab_case() {
    assert_eq!(serde_json::to_string(Kind::TextCrdt.name()).unwrap(), r#""text-crdt""#);
    let name = serde_json::from_str::<String>(r#""wal-db""#).unwrap();
    assert_eq!(Kind::from_name(&name).unwrap(), Kind::WalDb);
}

#[test]
fn every_kind_has_a_name_of_its_own() {
    for k in [Kind::TextCrdt, Kind::RsyncFile, Kind::WalDb, Kind::LwwRecord, Kind::Image] {
        assert_eq!(Kind::from_name(k.name()), Some(k));
    }
    assert_eq!(Kind::from_name("Image"), None);
}

#[test]
fn scans_and_assigns_algorithms_from_the_manifest() {
    let manifest = Manifest::parse(
        r#"
            default = "rsync-file"
            [[rule]]
            glob = "**/*.md"
            algo = "text-crdt"
            "#,
    )
    .unwrap();

    // The scan leaves the manifest and hidden names out.
    let mut found = vec![];
    for (name, path, bytes) in [
        ("readme.md", "docs/readme.md", b"# hi".to_vec()),
        ("blob.bin", "blob.bin", b"\x00\x01\x02".to_vec()),
        ("riftpipe.toml", "riftpipe.toml", b"ignored".to_vec()),
        (".hidden", ".hidden", b"skip".to_vec()),
    ] {
        if is_tracked(name) {
            found.push((path.to_string(), Some(bytes)));
        }
    }
    let mut ws = Workspace::new("/w", manifest, false, 4);
    ws.open(&found);
    let paths = ws.paths();
    assert!(paths.contains(&"docs/readme.md".to_string()));
    assert!(paths.contains(&"blob.bin".to_string()));
    assert!(!paths.iter().any(|p| p.contains("riftpipe.toml") || p.contains("hidden")));

    assert_eq!(ws.get("docs/readme.md").unwrap().kind, Kind::TextCrdt);
    assert_eq!(ws.get("blob.bin").unwrap().kind, Kind::RsyncFile);
}

#[test]
fn ensure_discovers_a_peer_only_path() {
    let mut ws = Workspace::new("/w", Manifest::default(), false, 5);
    assert!(ws.get("new/from/peer.bin").is_none());
    assert!(ws.ensure("new/from/peer.bin", None)); // created on demand
    assert_eq!(ws.get("new/from/peer.bin").unwrap().kind, Kind::RsyncFile);
}

#[test]
fn memory_mode_seeds_from_disk_and_registers() {
    let mut ws = Workspace::new("/w", Manifest::default(), true, 6);
    put(&mut ws, "a.bin", b"hello");
    let snap = ws.registry().snapshot();
    assert_eq!(snap, vec![("a.bin".to_string(), b"hello".to_vec())]);
    assert_eq!(ws.memory_bytes("a.bin"), Some(b"hello".to_vec()));
}

#[test]
fn rule_level_backing_overrides_the_global_flag() {
    let manifest = Manifest::parse(
        r#"
            default = "rsync-file"
            [[rule]]
            glob = "state/**"
            algo = "rsync-file"
            backing = "memory"
            [[rule]]
            glob = "**/*.md"
            algo = "text-crdt"
            backing = "file"
            "#,
    )
    .unwrap();
    assert_eq!(manifest.backing_for("state/x"), Some(BackingChoice::Memory));
    assert_eq!(manifest.backing_for("x.bin"), None);

    let found = vec![
        ("docs/keep.md".to_string(), Some(b"# disk".to_vec())),
        ("state/live.bin".to_string(), Some(b"ram".to_vec())),
    ];
    // File mode (--memory absent): the memory-ruled glob still lands in RAM
    // AND registers with the MemoryRegistry (the `process` sidecar's view).
    let mut ws = Workspace::new("/w", manifest.clone(), false, 7);
    ws.open(&found);
    assert_eq!(
        ws.registry().snapshot(),
        vec![("state/live.bin".to_string(), b"ram".to_vec())],
        "memory-ruled resource is in RAM (seeded) and registered; file-ruled is not",
    );

    // Memory mode (--memory): the file-ruled glob still writes through to disk.
    let mut ws = Workspace::new("/w", manifest, true, 8);
    assert_eq!(ws.placement("docs/keep.md"), Placement::File);
    ws.open(&found);
    let names: Vec<String> = ws.registry().snapshot().into_iter().map(|(n, _)| n).collect();
    assert!(names.contains(&"state/live.bin".to_string()));
    assert!(!names.contains(&"docs/keep.md".to_string()), "file-ruled stays off the registry");
    assert_eq!(ws.memory_bytes("docs/keep.md"), None);
}

#[test]
fn unimplemented_kind_is_skipped_not_panicked() {
    let manifest = Manifest::parse(
        r#"
            default = "rsync-file"
            [[rule]]
            glob = "*.png"
            algo = "image"
            "#,
    )
    .unwrap();
    let mut ws = Workspace::new("/w", manifest, false, 9);
    put(&mut ws, "photo.png", b"x");
    assert!(!ws.paths().contains(&"photo.png".to_string())); // skipped
    assert_eq!(ws.placement("photo.png"), Placement::Skip);
}

/// A `wal-db` glob gets a resource, including on an empty or new file.
#[test]
fn wal_db_resources_are_created_not_skipped() {
    let manifest = Manifest::parse(
        r#"
            default = "rsync-file"
            [[rule]]
            glob = "state/**"
            algo = "wal-db"
            "#,
    )
    .unwrap();
    let mut ws = Workspace::new("/w", manifest, false, 10);
    put(&mut ws, "state/save.db", b"");
    let res = ws.get("state/save.db").expect("wal-db resource created");
    assert_eq!(res.kind, Kind::WalDb);
    assert!(scan_path(&mut ws, "state/save.db", b"").is_empty(), "empty file is an empty replica");
}

#[test]
fn a_text_may_have_any_path() {
    let manifest = Manifest::parse("default = \"text-crdt\"").unwrap();
    let mut ws = Workspace::new("/w", manifest, false, 12);
    assert!(ws.ensure("ROOT", None));
    assert!(!scan_path(&mut ws, "ROOT", b"some text").is_empty());
    match &ws.get("ROOT").unwrap().strategy {
        AnySyncer::Text(s) => assert_eq!(s.content(), "some text"),
        _ => panic!("not a text"),
    }
}

#[test]
fn texts_typed_on_both_sides_are_both_kept() {
    let manifest = || Manifest::parse("default = \"text-crdt\"").unwrap();
    let mut a = Workspace::new("/a", manifest(), false, 1);
    let mut b = Workspace::new("/b", manifest(), false, 2);
    put(&mut a, "notes", b"");
    put(&mut b, "notes", b"");
    let from_a = scan_path(&mut a, "notes", b"one ");
    let from_b = scan_path(&mut b, "notes", b"two ");
    for f in &from_b {
        on_frame(&mut a, f, None);
    }
    for f in &from_a {
        on_frame(&mut b, f, None);
    }
    let text = |w: &Workspace| match &w.get("notes").unwrap().strategy {
        AnySyncer::Text(s) => s.content(),
        _ => panic!("not a text"),
    };
    assert_eq!(text(&a), text(&b));
    assert!(text(&a).contains("one ") && text(&a).contains("two "));
}

#[test]
fn refreshing_takes_up_new_files_only() {
    let mut ws = Workspace::new("/w", Manifest::default(), false, 11);
    put(&mut ws, "a", b"1");
    let new = ws.refresh_disk(&vec![
        ("a".to_string(), Some(b"1".to_vec())),
        ("b".to_string(), Some(b"2".to_vec())),
    ]);
    assert_eq!(new, ["b"]);
    assert_eq!(ws.paths(), ["a", "b"]);
    let scan = || -> Vec<(String, Option<Vec<u8>>)> {
        ["a", "c", "b", "d", "c"].iter().map(|p| (p.to_string(), None)).collect()
    };
    assert_eq!(ws.refresh_disk(&scan()), ["c", "d"]);
    assert!(ws.refresh_disk(&scan()).is_empty());
    assert_eq!(ws.paths(), ["a", "b", "c", "d"]);
    let mut mem = Workspace::new("/w", Manifest::default(), true, 13);
    assert!(mem.refresh_disk(&scan()).is_empty() && mem.paths().is_empty());
    assert_eq!(ws.root(), "/w");
}

#[test]
fn fields_make_up_a_manifest() {
    let text = |s: &str| Field::Text(s.to_string());
    let rule = |backing: Field| RuleFields { glob: text("*"), algo: text("image"), backing };
    let m = Manifest::from_fields(&Fields {
        default: text("wal-db"),
        rules: Some(vec![rule(Field::Missing), rule(text("memory"))]),
    })
    .unwrap();
    assert_eq!(m.default, Kind::WalDb);
    assert_eq!((m.rules.len(), m.rules[1].backing), (2, Some(BackingChoice::Memory)));
    for bad in [Field::Other, text("disk")] {
        let f = Fields { default: Field::Missing, rules: Some(vec![rule(bad)]) };
        assert!(matches!(Manifest::from_fields(&f), Err(ManifestError::Rule(0))));
    }
    let f = Fields { default: Field::Other, rules: None };
    assert!(matches!(Manifest::from_fields(&f), Err(ManifestError::Default)));
    let f = Fields { default: Field::Missing, rules: None };
    assert!(matches!(Manifest::from_fields(&f), Err(ManifestError::Rules)));
}
