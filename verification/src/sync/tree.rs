//! A directory tree kept in step with peers: which paths may cross the wire, and
//! what a local change or a message leads to.
use crate::crdt::text::TextView;
use crate::bytes::{blake3_digest, copy_bytes, digest, lossy_text, same_bytes, text_lossy};
use crate::chars::{
    chars_of, deep, law_a_piece_has_separators_around_it, law_a_piece_starts_behind_a_separator,
    push_text, same_chars, split, split_chars, string_of,
};
use crate::crdt::oplog::{sound, OpId};
use crate::numerals::{hex32, hex32_text};
use crate::syncer::{
    applied, are_deltas, can_take, compatible, doc_of, file_written, heard, is_hello, last_of,
    law_handshake_brings_up_to_date, law_unseen_edits_are_sent, lww_updates, msgs, receives_all,
    text_edited, told, version_of, MsgView, SyncMsg, Syncer, SyncerView,
};
use crate::textmap::{in_order, lemma_in_order_exists, TextMap};
use vstd::prelude::*;

verus! {

/// Whether some component of a path leads out of the tree: it starts at the root,
/// or steps up.
pub open spec fn path_escapes(path: Seq<char>) -> bool {
    (path.len() > 0 && path[0] == '/') || split(path, '/').contains(seq!['.', '.'])
}

/// Whether some component of a path starts with a dot.
pub open spec fn path_hidden(path: Seq<char>) -> bool {
    exists|i: int|
        0 <= i < split(path, '/').len() && (#[trigger] split(path, '/')[i]).len() > 0 && split(
            path,
            '/',
        )[i][0] == '.'
}

/// Whether some component of a path leads out of the tree.
pub fn escapes(path: &str) -> (r: bool)
    ensures
        r == path_escapes(path@),
{
    let cs = chars_of(path);
    if cs.len() > 0 && cs[0] == '/' {
        return true;
    }
    let parts = split_chars(cs.as_slice(), '/');
    let ghost all = split(path@, '/');
    let mut dots: Vec<char> = Vec::new();
    dots.push('.');
    dots.push('.');
    assert(dots@ =~= seq!['.', '.']);
    let mut i: usize = 0;
    while i < parts.len()
        invariant
            i <= parts@.len(),
            all == deep(parts@),
            all == split(path@, '/'),
            dots@ == seq!['.', '.'],
            forall|j: int| 0 <= j < i ==> #[trigger] all[j] != seq!['.', '.'],
        decreases parts@.len() - i,
    {
        assert(all[i as int] == parts@[i as int]@);
        if same_chars(parts[i].as_slice(), dots.as_slice()) {
            assert(all.contains(seq!['.', '.']));
            return true;
        }
        i += 1;
    }
    false
}

/// Whether some component of a path starts with a dot. Such paths belong to the
/// machine and never cross the wire, in either direction.
pub fn hidden(rel: &str) -> (r: bool)
    ensures
        r == path_hidden(rel@),
{
    let cs = chars_of(rel);
    let parts = split_chars(cs.as_slice(), '/');
    let ghost all = split(rel@, '/');
    let mut i: usize = 0;
    while i < parts.len()
        invariant
            i <= parts@.len(),
            all == deep(parts@),
            all == split(rel@, '/'),
            forall|j: int|
                0 <= j < i ==> !((#[trigger] all[j]).len() > 0 && all[j][0] == '.'),
        decreases parts@.len() - i,
    {
        assert(all[i as int] == parts@[i as int]@);
        if parts[i].len() > 0 && parts[i][0] == '.' {
            return true;
        }
        i += 1;
    }
    false
}

/// A path with slashes for backslashes.
pub open spec fn slashed(path: Seq<char>) -> Seq<char> {
    path.map_values(
        |c: char|
            if c == '\\' {
                '/'
            } else {
                c
            },
    )
}

/// The name under which a file crosses the wire, from its path below the tree, if
/// it may cross at all.
pub open spec fn wire_name(rel: Seq<char>) -> Option<Seq<char>> {
    let p = slashed(rel);
    if p.len() == 0 || path_hidden(p) {
        None
    } else {
        Some(p)
    }
}

/// The name under which a file crosses the wire, from its path below the tree, if
/// it may cross at all.
pub fn rel_of(below: &str) -> (r: Option<String>)
    ensures
        match r {
            Some(p) => wire_name(below@) == Some(p@),
            None => wire_name(below@) is None,
        },
{
    let cs = chars_of(below);
    let mut out: Vec<char> = Vec::new();
    let mut i: usize = 0;
    while i < cs.len()
        invariant
            i <= cs@.len(),
            out@ == slashed(cs@).take(i as int),
        decreases cs@.len() - i,
    {
        out.push(
            if cs[i] == '\\' {
                '/'
            } else {
                cs[i]
            },
        );
        assert(slashed(cs@).take(i + 1) =~= slashed(cs@).take(i as int).push(slashed(cs@)[i as int]));
        i += 1;
    }
    assert(slashed(cs@).take(i as int) =~= slashed(cs@));
    if out.len() == 0 {
        return None;
    }
    let name = string_of(out.as_slice());
    if hidden(name.as_str()) {
        None
    } else {
        Some(name)
    }
}

/// Whether a path is that of a text.
pub open spec fn is_text_path(path: Seq<char>) -> bool {
    seq!['.', 'm', 'd'].is_suffix_of(path)
}

/// Whether a path is that of a text: texts are merged, other files replaced.
pub fn is_text(path: &str) -> (r: bool)
    ensures
        r == is_text_path(path@),
{
    let cs = chars_of(path);
    let n: usize = cs.len();
    if n < 3 {
        return false;
    }
    let r = cs[n - 3] == '.' && cs[n - 2] == 'm' && cs[n - 1] == 'd';
    proof {
        let md = seq!['.', 'm', 'd'];
        let back = cs@.subrange(n - 3, n as int);
        assert(md.is_suffix_of(cs@) <==> back =~= md);
        if r {
            assert(back =~= md);
        } else if back =~= md {
            assert(back[0] == '.' && back[1] == 'm' && back[2] == 'd');
        }
    }
    r
}

/// The name that a site writes texts under.
pub open spec fn site_name(site: u32) -> Seq<char> {
    seq!['n'] + hex32(site)
}

/// The name under which a site writes, which is none that the text engine keeps
/// for itself.
pub(crate) fn name_of_site(site: u32) -> (r: String)
    ensures
        r@ == site_name(site),
        r@ != "ROOT"@,
{
    let mut name: Vec<char> = Vec::new();
    name.push('n');
    let digits = hex32_text(site);
    push_text(&mut name, digits.as_str());
    assert(name@ =~= site_name(site));
    proof {
        reveal_strlit("ROOT");
        assert("ROOT"@[0] == 'R');
        assert(name@[0] == 'n');
    }
    string_of(name.as_slice())
}

/// One peer's state: the tree, and a digest of each file as it was last seen.
pub struct TreePeer {
    syncer: Syncer,
    seen: TextMap<[u8; 32]>,
}

/// What a peer holds.
pub struct TreeView {
    pub syncer: SyncerView,
    pub seen: Map<Seq<char>, Seq<u8>>,
}

/// The digests of a map.
pub open spec fn digests(m: Map<Seq<char>, [u8; 32]>) -> Map<Seq<char>, Seq<u8>> {
    m.map_values(|d: [u8; 32]| d@)
}

impl View for TreePeer {
    type V = TreeView;

    closed spec fn view(&self) -> TreeView {
        TreeView { syncer: self.syncer@, seen: digests(self.seen@) }
    }
}

/// Whether a file's content was last seen as it is.
pub open spec fn unchanged(v: TreeView, rel: Seq<char>, bytes: Seq<u8>) -> bool {
    v.seen.contains_key(rel) && v.seen[rel] == blake3_digest(bytes)
}

/// A local change leads from one state to the other, with this message for the
/// peers. Files that may not cross the wire, and content that was last seen as
/// it is, change nothing.
pub open spec fn changed(
    v0: TreeView,
    below: Seq<char>,
    bytes: Seq<u8>,
    now: u64,
    v1: TreeView,
    m: Option<MsgView>,
) -> bool {
    match wire_name(below) {
        None => v1 == v0 && m is None,
        Some(rel) => if unchanged(v0, rel, bytes) {
            v1 == v0 && m is None
        } else {
            &&& v1.seen == v0.seen.insert(rel, blake3_digest(bytes))
            &&& if is_text_path(rel) {
                text_edited(v0.syncer, rel, lossy_text(bytes), v1.syncer, m)
            } else {
                m matches Some(x) && file_written(v0.syncer, rel, bytes, now, v1.syncer, x)
            }
        },
    }
}

/// Whether a path from the wire may be written to.
pub open spec fn may_write(path: Seq<char>) -> bool {
    !path_escapes(path) && !path_hidden(path)
}

/// A message leads from one state to the other, with these bytes to write and
/// these replies. Paths that may not be written to are not.
pub open spec fn received(
    v0: TreeView,
    m: MsgView,
    v1: TreeView,
    write: Option<(Seq<char>, Seq<u8>)>,
    replies: Seq<MsgView>,
) -> bool {
    exists|out: Option<(Seq<char>, Seq<u8>)>| #[trigger]
        applied(v0.syncer, m, v1.syncer, out, replies) && match out {
            Some((path, bytes)) => if may_write(path) {
                write == out && v1.seen == v0.seen.insert(path, blake3_digest(bytes))
            } else {
                write is None && v1.seen == v0.seen
            },
            None => write is None && v1.seen == v0.seen,
        }
}

impl TreePeer {
    /// Every part is in order.
    pub closed spec fn wf(&self) -> bool {
        self.syncer.wf() && self.seen.wf()
    }

    /// The events of every text have different identities and come after their
    /// parents, and all texts are written under the peer's name.
    pub proof fn lemma_sound(&self, path: Seq<char>)
        requires
            self.wf(),
        ensures
            sound(doc_of(self@.syncer, path).events),
            doc_of(self@.syncer, path).agent == self@.syncer.agent,
    {
        self.syncer.lemma_sound(path);
    }

    /// A file can get one more local version.
    pub open spec fn ready(&self, below: Seq<char>) -> bool {
        wire_name(below) matches Some(rel) ==> version_of(self@.syncer.lww, rel) < u64::MAX
    }

    /// A peer without files. Each site has a number of its own.
    pub fn new(site: u32) -> (r: Self)
        ensures
            r.wf(),
            r@ == (TreeView {
                syncer: SyncerView {
                    agent: site_name(site),
                    docs: Map::empty(),
                    peer_vv: Map::empty(),
                    awaiting: Set::empty(),
                    lww: Map::empty(),
                },
                seen: Map::empty(),
            }),
    {
        let agent = name_of_site(site);
        let r = TreePeer { syncer: Syncer::new(agent.as_str()), seen: TextMap::new() };
        assert(r@.seen =~= Map::empty());
        r
    }

    /// The message to send on connect.
    pub fn hello(&self) -> (r: SyncMsg)
        requires
            self.wf(),
        ensures
            is_hello(self@.syncer, r@),
    {
        self.syncer.hello()
    }

    /// Everything, for a peer of which nothing is known.
    pub fn full_state(&self) -> (r: Vec<SyncMsg>)
        requires
            self.wf(),
        ensures
            is_full_state(self@.syncer, msgs(r@)),
    {
        self.syncer.full_state()
    }

    /// Whether a file can get one more local version.
    pub fn is_ready(&self, below: &str) -> (r: bool)
        requires
            self.wf(),
        ensures
            r == self.ready(below@),
    {
        match rel_of(below) {
            Some(rel) => self.syncer.can_write(rel.as_str()),
            None => true,
        }
    }

    /// Takes in the content of a local file, and returns what to send.
    pub fn local_change(&mut self, below: &str, bytes: &[u8], now: u64) -> (r: Option<SyncMsg>)
        requires
            old(self).wf(),
            old(self).ready(below@),
        ensures
            final(self).wf(),
            changed(
                old(self)@,
                below@,
                bytes@,
                now,
                final(self)@,
                match r {
                    Some(m) => Some(m@),
                    None => None,
                },
            ),
    {
        let rel = match rel_of(below) {
            Some(p) => p,
            None => {
                return None;
            },
        };
        let hash = digest(bytes);
        let same = match self.seen.get(rel.as_str()) {
            Some(h) => same_bytes(h.as_slice(), hash.as_slice()),
            None => false,
        };
        if same {
            return None;
        }
        let ghost seen = self.seen@;
        let r = if is_text(rel.as_str()) {
            let text = text_lossy(bytes);
            self.syncer.local_text(rel.as_str(), text.as_str())
        } else {
            Some(self.syncer.local_lww(rel.as_str(), copy_bytes(bytes), now))
        };
        self.seen.insert(rel.as_str(), hash);
        assert(digests(self.seen@) =~= digests(seen).insert(rel@, hash@));
        r
    }

    /// Takes in a message, and returns what to write to disk and what to reply.
    pub fn apply_msg(&mut self, msg: SyncMsg) -> (r: (Option<(String, Vec<u8>)>, Vec<SyncMsg>))
        requires
            old(self).wf(),
            can_take(old(self)@.syncer, msg@),
        ensures
            final(self).wf(),
            received(
                old(self)@,
                msg@,
                final(self)@,
                match r.0 {
                    Some(f) => Some((f.0@, f.1@)),
                    None => None,
                },
                msgs(r.1@),
            ),
    {
        let ghost v0 = self@;
        let ghost seen = self.seen@;
        let (out, replies) = self.syncer.apply(msg);
        let ghost ov = file_view(out);
        let mut write: Option<(String, Vec<u8>)> = None;
        if let Some(f) = out {
            if !escapes(f.0.as_str()) && !hidden(f.0.as_str()) {
                let hash = digest(f.1.as_slice());
                self.seen.insert(f.0.as_str(), hash);
                assert(digests(self.seen@) =~= digests(seen).insert(f.0@, hash@));
                write = Some(f);
            }
        }
        assert(applied(v0.syncer, msg@, self@.syncer, ov, msgs(replies@)));
        (write, replies)
    }
}

/// A file to write, as a value.
pub open spec fn file_view(f: Option<(String, Vec<u8>)>) -> Option<(Seq<char>, Seq<u8>)> {
    match f {
        Some(p) => Some((p.0@, p.1@)),
        None => None,
    }
}

/// The messages carry everything.
pub open spec fn is_full_state(s: SyncerView, ms: Seq<MsgView>) -> bool {
    let files = lww_updates(s.lww, Map::empty());
    let n = ms.len() - files.len();
    &&& n >= 0
    &&& are_deltas(s.docs, Map::empty(), ms.take(n))
    &&& ms.skip(n) == files
}

/// Paths with a dot component stay on the machine: a local change of one sends
/// nothing, and no message writes to one.
pub proof fn law_hidden_paths_stay(
    v0: TreeView,
    below: Seq<char>,
    bytes: Seq<u8>,
    now: u64,
    v1: TreeView,
    sent: Option<MsgView>,
    m: MsgView,
    v2: TreeView,
    write: Option<(Seq<char>, Seq<u8>)>,
    replies: Seq<MsgView>,
)
    requires
        changed(v0, below, bytes, now, v1, sent),
        received(v0, m, v2, write, replies),
    ensures
        path_hidden(slashed(below)) ==> sent is None && v1 == v0,
        write matches Some((path, b)) ==> !path_hidden(path) && !path_escapes(path),
{
    let out = choose|out: Option<(Seq<char>, Seq<u8>)>| #[trigger]
        applied(v0.syncer, m, v2.syncer, out, replies) && match out {
            Some((path, bytes)) => if may_write(path) {
                write == out && v2.seen == v0.seen.insert(path, blake3_digest(bytes))
            } else {
                write is None && v2.seen == v0.seen
            },
            None => write is None && v2.seen == v0.seen,
        };
}

/// What a message wrote is not taken for a local change afterwards.
pub proof fn law_remote_writes_do_not_echo(
    v0: TreeView,
    m: MsgView,
    v1: TreeView,
    path: Seq<char>,
    bytes: Seq<u8>,
    replies: Seq<MsgView>,
    now: u64,
    v2: TreeView,
    sent: Option<MsgView>,
)
    requires
        received(v0, m, v1, Some((path, bytes)), replies),
        wire_name(path) == Some(path),
        changed(v1, path, bytes, now, v2, sent),
    ensures
        sent is None,
        v2 == v1,
{
    let write = Some((path, bytes));
    let out = choose|out: Option<(Seq<char>, Seq<u8>)>| #[trigger]
        applied(v0.syncer, m, v1.syncer, out, replies) && match out {
            Some((path, bytes)) => if may_write(path) {
                write == out && v1.seen == v0.seen.insert(path, blake3_digest(bytes))
            } else {
                write is None && v1.seen == v0.seen
            },
            None => write is None && v1.seen == v0.seen,
        };
    assert(out == write);
}

/// A file crosses the wire under its own name, with slashes for backslashes, exactly
/// where that name is not empty and no component of it starts with a dot.
pub proof fn law_visible_files_cross(rel: Seq<char>, name: Seq<char>)
    requires
        name.len() == rel.len(),
        forall|i: int|
            0 <= i < rel.len() ==> #[trigger] name[i] == (if rel[i] == '\\' {
                '/'
            } else {
                rel[i]
            }),
    ensures
        ({
            let dotted = exists|j: int|
                0 <= j < name.len() && #[trigger] name[j] == '.' && (j == 0 || name[j - 1] == '/');
            wire_name(rel) == (if name.len() > 0 && !dotted {
                Some(name)
            } else {
                None
            })
        }),
{
    assert(slashed(rel) =~= name);
    law_a_piece_starts_behind_a_separator(name, '/', '.');
}

/// A path leads out of the tree exactly where it starts with a slash or has `..` for a
/// component.
pub proof fn law_paths_escape_by_root_or_dots(path: Seq<char>)
    ensures
        path_escapes(path) <==> (path.len() > 0 && path[0] == '/') || exists|j: int|
            0 <= j && j + 2 <= path.len() && #[trigger] path[j] == '.' && path[j + 1] == '.' && (j == 0
                || path[j - 1] == '/') && (j + 2 == path.len() || path[j + 2] == '/'),
{
    let w = seq!['.', '.'];
    assert(!w.contains('/'));
    law_a_piece_has_separators_around_it(path, '/', w);
    if exists|j: int|
        0 <= j && j + w.len() <= path.len() && #[trigger] path.subrange(j, j + w.len()) == w && (j
            == 0 || path[j - 1] == '/') && (j + w.len() == path.len() || path[j + w.len()] == '/') {
        let j = choose|j: int|
            0 <= j && j + w.len() <= path.len() && #[trigger] path.subrange(j, j + w.len()) == w && (
            j == 0 || path[j - 1] == '/') && (j + w.len() == path.len() || path[j + w.len()] == '/');
        assert(path.subrange(j, j + 2)[0] == '.' && path.subrange(j, j + 2)[1] == '.');
        assert(path[j] == '.' && path[j + 1] == '.');
    }
    if exists|j: int|
        0 <= j && j + 2 <= path.len() && #[trigger] path[j] == '.' && path[j + 1] == '.' && (j == 0
            || path[j - 1] == '/') && (j + 2 == path.len() || path[j + 2] == '/') {
        let j = choose|j: int|
            0 <= j && j + 2 <= path.len() && #[trigger] path[j] == '.' && path[j + 1] == '.' && (j
                == 0 || path[j - 1] == '/') && (j + 2 == path.len() || path[j + 2] == '/');
        assert(path.subrange(j, j + w.len()) =~= w);
    }
}

/// A path is that of a text exactly where it ends with `.md`.
pub proof fn law_texts_end_with_md(path: Seq<char>)
    ensures
        is_text_path(path) <==> path.len() >= 3 && path[path.len() - 3] == '.' && path[path.len()
            - 2] == 'm' && path[path.len() - 1] == 'd',
{
    let md = seq!['.', 'm', 'd'];
    let n = path.len() as int;
    if n >= 3 {
        let back = path.subrange(n - 3, n);
        assert(md.is_suffix_of(path) <==> back =~= md);
        if back =~= md {
            assert(back[0] == '.' && back[1] == 'm' && back[2] == 'd');
        }
    }
}

/// A local change of a file that may cross the wire is sent under the file's name: a
/// file that is no text with its bytes and a newer version, a text with what its edit
/// added, which is then the new text. Content that was last seen as it is is not sent.
pub proof fn law_local_changes_are_sent(
    v0: TreeView,
    path: Seq<char>,
    bytes: Seq<u8>,
    now: u64,
    v1: TreeView,
    m: Option<MsgView>,
)
    requires
        path.len() > 0,
        !path.contains('\\'),
        forall|j: int|
            0 <= j < path.len() && #[trigger] path[j] == '.' ==> j > 0 && path[j - 1] != '/',
        v0.syncer.lww.contains_key(path) ==> v0.syncer.lww[path].0 < u64::MAX,
        changed(v0, path, bytes, now, v1, m),
    ensures
        v0.seen.contains_key(path) && v0.seen[path] == blake3_digest(bytes) ==> m is None && v1
            == v0,
        !(v0.seen.contains_key(path) && v0.seen[path] == blake3_digest(bytes)) ==> {
            &&& v1.seen.contains_key(path) && v1.seen[path] == blake3_digest(bytes)
            &&& !seq!['.', 'm', 'd'].is_suffix_of(path) ==> {
                &&& m matches Some(MsgView::Lww { path: p, version, bytes: b }) && p == path && b
                    == bytes && version >= now && (v0.syncer.lww.contains_key(path) ==> version
                    > v0.syncer.lww[path].0)
                &&& v1.syncer.lww.contains_key(path) && v1.syncer.lww[path].1 == bytes
            }
            &&& seq!['.', 'm', 'd'].is_suffix_of(path) ==> {
                &&& v1.syncer.docs.contains_key(path)
                &&& v1.syncer.docs[path].text() == lossy_text(bytes)
                &&& m matches Some(x) ==> x is TextDelta && x->TextDelta_path == path
            }
        },
        seq!['.', 'm', 'd'].is_suffix_of(path) && !(v0.seen.contains_key(path) && v0.seen[path]
            == blake3_digest(bytes)) && sound(v1.syncer.docs[path].events) && lossy_text(bytes)
            != doc_of(v0.syncer, path).text() && !v0.syncer.peer_vv.contains_key(path) ==> m is Some,
{
    assert forall|i: int| 0 <= i < path.len() implies #[trigger] path[i] == (if path[i] == '\\' {
        '/'
    } else {
        path[i]
    }) by {
        assert(path.contains(path[i]));
    }
    law_visible_files_cross(path, path);
    law_texts_end_with_md(path);
    if seq!['.', 'm', 'd'].is_suffix_of(path) && !(v0.seen.contains_key(path) && v0.seen[path]
        == blake3_digest(bytes)) && sound(v1.syncer.docs[path].events) && lossy_text(bytes)
        != doc_of(v0.syncer, path).text() && !v0.syncer.peer_vv.contains_key(path) {
        law_unseen_edits_are_sent(v0.syncer, path, lossy_text(bytes), v1.syncer, m);
    }
}

/// A file from a peer is written where its path is inside the tree and not hidden, and
/// its version is newer than the one that is held; else nothing is written.
pub proof fn law_files_from_peers_are_written(
    v0: TreeView,
    path: Seq<char>,
    version: u64,
    bytes: Seq<u8>,
    v1: TreeView,
    write: Option<(Seq<char>, Seq<u8>)>,
    replies: Seq<MsgView>,
)
    requires
        received(v0, MsgView::Lww { path, version, bytes }, v1, write, replies),
    ensures
        ({
            let dotted = exists|j: int|
                0 <= j < path.len() && #[trigger] path[j] == '.' && (j == 0 || path[j - 1] == '/');
            let newer = if v0.syncer.lww.contains_key(path) {
                version > v0.syncer.lww[path].0
            } else {
                version > 0
            };
            &&& !dotted && newer && (path.len() == 0 || path[0] != '/') ==> write == Some(
                (path, bytes),
            ) && v1.seen.contains_key(path) && v1.seen[path] == blake3_digest(bytes)
            &&& dotted || !newer || (path.len() > 0 && path[0] == '/') ==> write is None && v1.seen
                == v0.seen
        }),
{
    law_a_piece_starts_behind_a_separator(path, '/', '.');
    law_paths_escape_by_root_or_dots(path);
}

/// The whole state brings a newcomer up to date: one that holds nothing and takes in all
/// messages then holds every text and every file.
pub proof fn law_the_whole_state_brings_everything(
    s: SyncerView,
    fresh: SyncerView,
    ms: Seq<MsgView>,
    states: Seq<SyncerView>,
)
    requires
        s.docs.dom().finite(),
        s.lww.dom().finite(),
        fresh.docs == Map::<Seq<char>, TextView>::empty(),
        fresh.lww == Map::<Seq<char>, (u64, Seq<u8>)>::empty(),
        compatible(s, fresh),
        is_full_state(s, ms),
        receives_all(states, ms),
        states[0] == fresh,
    ensures
        forall|p: Seq<char>| #[trigger]
            s.docs.contains_key(p) ==> doc_of(states.last(), p).history() == s.docs[p].history(),
        forall|p: Seq<char>| #[trigger]
            s.lww.contains_key(p) && s.lww[p].0 > 0 ==> states.last().lww.contains_key(p)
                && states.last().lww[p] == s.lww[p],
{
    let versions = Seq::<(Seq<char>, Seq<OpId>)>::empty();
    let numbers = Seq::<(Seq<char>, u64)>::empty();
    let hello = MsgView::Hello { versions, lww_versions: numbers };
    lemma_in_order_exists(fresh.docs.dom());
    lemma_in_order_exists(fresh.lww.dom());
    let none = in_order(Set::<Seq<char>>::empty());
    assert(fresh.docs.dom() =~= Set::<Seq<char>>::empty());
    assert(fresh.lww.dom() =~= Set::<Seq<char>>::empty());
    if none.len() > 0 {
        assert(none.to_set().contains(none[0]));
    }
    assert(numbers =~= none.map_values(|p: Seq<char>| (p, fresh.lww[p].0)));
    assert(is_hello(fresh, hello));
    let n = ms.len() - lww_updates(s.lww, Map::empty()).len();
    let s1 = SyncerView {
        peer_vv: told(heard(s.peer_vv, last_of(versions)), ms.take(n)),
        ..s
    };
    assert(last_of(versions) =~= Map::<Seq<char>, Seq<OpId>>::empty());
    assert(last_of(numbers) =~= Map::<Seq<char>, u64>::empty());
    assert(applied(s, hello, s1, None, ms));
    law_handshake_brings_up_to_date(s, fresh, hello, s1, ms, states);
    assert forall|p: Seq<char>| #[trigger] s.docs.contains_key(p) implies doc_of(
        states.last(),
        p,
    ).history() == s.docs[p].history() by {
        assert(doc_of(fresh, p).history() =~= Set::empty());
        assert(s.docs[p].history().union(doc_of(fresh, p).history()) =~= s.docs[p].history());
    }
}

} // verus!
