# riftpipe

Peer-to-peer sync for texts, files and folders, as a library whose behaviour is
stated in contracts and proved with Verus, and a program around it.

## Layout

- `src/` is the library. It computes and decides; it reads no file and opens no
  socket.
  - `crdt/` collaborative texts: edits in, events out, replicas that converge.
  - `syncer` the messages by which peers keep a tree of files in step.
  - `sync/` one algorithm per resource, folders of resources over one link,
    editor streams, mirrored files, trees and swarms.
  - `wal` frames of many writers, and the one order that they have.
  - `net/` what peers agree on when they meet: secrets, transports, rooms.
  - `engine/` operations replayed under rules, and a game played in lockstep.
  - `kanban`, `board`, `page`, `host`, `calendar` a board kept in plain files.
  - `monitor/`, `cli`, `json` what is shown and how options are read.
  - `bytes`, `chars`, `numerals`, `ordered`, `textmap` groundwork.
- `tests/` runs the library on concrete values.
- `app/` is the program: arguments, files, sockets and timers.

## What is trusted

Each call into another crate stands behind an item that states what the library
relies on, with the crate's function named in its comment. They are in
`crdt/oplog` and `crdt/diff` (the text engine and the diff), `bytes` (digests and
UTF-8), `json`, `sync/manifest` (TOML), `sync/algo` (message encodings),
`net/secure` (base 32), `kanban` (lower case) and `chars`.
