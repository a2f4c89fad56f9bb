use riftpipe::monitor::metrics::{connection_kind, format_line, ConnKind, PeerPath};
use riftpipe::monitor::process::short_hash;
use riftpipe::sync::backing::{Backing, MemoryRegistry};

#[test]
fn formats_size_and_hash_per_resource() {
    let entries = vec![
        ("a.bin".to_string(), b"hello".to_vec()),
        ("b.bin".to_string(), b"".to_vec()),
    ];
    let s = riftpipe::monitor::process::format(&entries);
    let lines: Vec<&str> = s.lines().collect();
    assert_eq!(lines.len(), 2);
    assert!(lines[0].starts_with("a.bin\t5\t"));
    assert!(lines[1].starts_with("b.bin\t0\t"));
    // hash column is 32 hex chars (16 bytes)
    assert_eq!(lines[0].split('\t').nth(2).unwrap().len(), 32);
}

#[test]
fn reflects_the_memory_registry() {
    let mut reg = MemoryRegistry::new();
    let a = reg.backing("doc");
    a.store(b"in memory bytes");
    let s = riftpipe::monitor::process::format(&reg.snapshot());
    assert!(s.starts_with("doc\t15\t"));
}

#[test]
fn relay_shows_warning_direct_does_not() {
    let relay = format_line("a.txt", ConnKind::Relay, 100, 50, "200");
    assert!(relay.contains("RELAY") && relay.contains("⚠"));
    let direct = format_line("a.txt", ConnKind::Direct, 100, 50, "200");
    assert!(direct.contains("direct") && !direct.contains("⚠"));
}

#[test]
fn hashes_are_the_start_of_the_digest() {
    // BLAKE3 of the empty input.
    assert_eq!(short_hash(b""), "af1349b9f5f9a1a6a0404dea36dcc949");
    assert_eq!(
        riftpipe::monitor::process::format(&[("e".to_string(), vec![])]),
        "e\t0\taf1349b9f5f9a1a6a0404dea36dcc949\n"
    );
    assert_eq!(riftpipe::monitor::process::format(&[]), "");
}

fn path(active: bool, ip: bool, relay: bool) -> PeerPath {
    PeerPath { active, ip, relay }
}

#[test]
fn the_connection_is_direct_where_an_active_path_is() {
    assert_eq!(connection_kind(&[]), ConnKind::Unknown);
    assert_eq!(connection_kind(&[path(true, false, true)]), ConnKind::Relay);
    assert_eq!(connection_kind(&[path(true, false, true), path(true, true, false)]), ConnKind::Direct);
    assert_eq!(connection_kind(&[path(false, true, false), path(true, false, true)]), ConnKind::Relay);
}

#[test]
fn status_lines_are_exact() {
    assert_eq!(
        format_line("a.txt", ConnKind::Direct, 100, 50, "200"),
        "a.txt  direct  ↑100B ↓50B  200B/s"
    );
    assert_eq!(
        format_line("b", ConnKind::Relay, 0, 7, "0"),
        "b  RELAY ⚠relay(n0:metadata exposed)  ↑0B ↓7B  0B/s"
    );
    assert_eq!(format_line("c", ConnKind::Unknown, 1, 2, "3"), "c  …  ↑1B ↓2B  3B/s");
}
