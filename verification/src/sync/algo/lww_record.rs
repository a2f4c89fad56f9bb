//! Last writer wins, key by key, for flat `key = value` files.
//!
//! Each well-formed line is an independent register, so edits of different keys
//! of one file both survive and only edits of the same key pick a winner. A
//! register carries a version, which a local change raises; the higher version
//! wins, and among equal versions the greater digest of the value. A key that
//! vanishes locally leaves a tombstone, so that its removal spreads too.
//!
//! A record is a line whose first `=` splits it into a key, which is not empty
//! and does not start with `#`, and a value, both trimmed. Other lines are
//! ignored, and the last of several lines with one key counts. A merge that
//! changes something writes the file in canonical form: one line per live
//! record, keys in order.
use crate::bytes::{
    bytes_less, bytes_lt, digest16, lemma_bytes_lt_total, lossy_text, push_bytes, same_bytes,
    short_digest, text_bytes, text_lossy,
};
use crate::chars::{
    chars_of, copy_text, deep, find_char, first_index, is_trimmed, is_white,
    law_trimming_takes_whitespace_from_the_ends, lemma_first_index_is, lemma_lines_cons, lines,
    push_text, same_text, split_lines, string_of, trim, trim_chars,
};
use crate::sync::strategy::{Kind, SyncStrategy};
use crate::textmap::{ascending, in_order, lemma_in_order, lemma_in_order_exists, TextMap};
use vstd::prelude::*;
use vstd::slice::slice_subrange;
use vstd::utf8::encode_utf8;

verus! {

/// One key's register. Without a value it is a tombstone.
#[derive(Clone, Debug, PartialEq)]
pub struct Rec {
    pub value: Option<String>,
    pub version: u64,
}

/// What a register holds.
pub struct RecView {
    pub value: Option<Seq<char>>,
    pub version: u64,
}

impl View for Rec {
    type V = RecView;

    open spec fn view(&self) -> RecView {
        RecView {
            value: match self.value {
                Some(s) => Some(s@),
                None => None,
            },
            version: self.version,
        }
    }
}

/// The bytes that a value's digest is taken of: a tag that tells tombstones from
/// values, then the value.
pub open spec fn tagged(value: Option<Seq<char>>) -> Seq<u8> {
    match value {
        None => seq![0u8],
        Some(v) => seq![1u8] + encode_utf8(v),
    }
}

impl RecView {
    /// The digest part of the stamp.
    pub open spec fn hash(self) -> Seq<u8> {
        short_digest(tagged(self.value))
    }

    /// Whether this register wins over a stamp: the higher version does, and
    /// among equal versions the greater digest.
    pub open spec fn beats(self, version: u64, hash: Seq<u8>) -> bool {
        self.version > version || (self.version == version && bytes_lt(hash, self.hash()))
    }

    /// Whether this register wins over another.
    pub open spec fn wins(self, other: RecView) -> bool {
        self.beats(other.version, other.hash())
    }
}

/// The short digest of a value or a tombstone.
pub fn value_hash(value: &Option<String>) -> (r: [u8; 16])
    ensures
        r@ == short_digest(
            tagged(
                match value {
                    Some(s) => Some(s@),
                    None => None,
                },
            ),
        ),
{
    let mut data: Vec<u8> = Vec::new();
    match value {
        None => {
            data.push(0);
            assert(data@ =~= tagged(None));
        },
        Some(v) => {
            data.push(1);
            let b = text_bytes(v.as_str());
            push_bytes(&mut data, b.as_slice());
            assert(data@ =~= tagged(Some(v@)));
        },
    }
    digest16(data.as_slice())
}

impl Rec {
    /// The register's stamp.
    pub fn stamp(&self) -> (r: (u64, [u8; 16]))
        ensures
            r.0 == self@.version,
            r.1@ == self@.hash(),
    {
        (self.version, value_hash(&self.value))
    }

    /// Whether this register wins over a stamp.
    fn beats(&self, version: u64, hash: &[u8; 16]) -> (r: bool)
        ensures
            r == self@.beats(version, hash@),
    {
        if self.version != version {
            return self.version > version;
        }
        let (_, ours) = self.stamp();
        bytes_less(hash.as_slice(), ours.as_slice())
    }

    /// A copy of the register.
    pub fn copy(&self) -> (r: Self)
        ensures
            r@ == self@,
    {
        Rec {
            value: match &self.value {
                Some(s) => Some(copy_text(s.as_str())),
                None => None,
            },
            version: self.version,
        }
    }
}

/// The records of a replica.
pub open spec fn recs(m: Map<Seq<char>, Rec>) -> Map<Seq<char>, RecView> {
    m.map_values(|r: Rec| r@)
}

// ---------------------------------------------------------------------------
// Reading files
// ---------------------------------------------------------------------------

/// The key and value that a line holds, if it is a record.
pub open spec fn record_of(line: Seq<char>) -> Option<(Seq<char>, Seq<char>)> {
    let i = first_index(line, '=');
    let key = trim(line.take(i));
    if i >= line.len() || key.len() == 0 || key[0] == '#' {
        None
    } else {
        Some((key, trim(line.skip(i + 1))))
    }
}

/// The records that a list of lines holds, the last for each key.
pub open spec fn records_of(ls: Seq<Seq<char>>) -> Map<Seq<char>, Seq<char>>
    decreases ls.len(),
{
    if ls.len() == 0 {
        Map::empty()
    } else {
        let m = records_of(ls.drop_last());
        match record_of(ls.last()) {
            Some((k, v)) => m.insert(k, v),
            None => m,
        }
    }
}

/// The records of a text.
pub open spec fn parsed(text: Seq<char>) -> Map<Seq<char>, Seq<char>> {
    records_of(lines(text))
}

/// The texts that a map of strings stands for.
pub open spec fn strings(m: Map<Seq<char>, String>) -> Map<Seq<char>, Seq<char>> {
    m.map_values(|s: String| s@)
}

/// The key and value that a line holds, if it is a record.
fn parse_line(line: &[char]) -> (r: Option<(String, String)>)
    ensures
        match r {
            Some((k, v)) => record_of(line@) == Some((k@, v@)),
            None => record_of(line@) is None,
        },
{
    let i = find_char(line, '=');
    if i >= line.len() {
        return None;
    }
    let front = slice_subrange(line, 0, i);
    assert(front@ =~= line@.take(i as int));
    let key = trim_chars(front);
    if key.len() == 0 || key[0] == '#' {
        return None;
    }
    let back = slice_subrange(line, i + 1, line.len());
    assert(back@ =~= line@.skip(i + 1));
    Some((string_of(key), string_of(trim_chars(back))))
}

/// The records of a text.
pub fn parse_text(text: &str) -> (r: TextMap<String>)
    ensures
        r.wf(),
        strings(r@) == parsed(text@),
{
    let cs = chars_of(text);
    let ls = split_lines(cs.as_slice());
    let ghost all = lines(text@);
    let mut out: TextMap<String> = TextMap::new();
    let mut i: usize = 0;
    assert(strings(out@) =~= records_of(all.take(0)));
    while i < ls.len()
        invariant
            i <= ls@.len(),
            all == deep(ls@),
            out.wf(),
            strings(out@) == records_of(all.take(i as int)),
        decreases ls@.len() - i,
    {
        assert(all.take(i + 1).drop_last() =~= all.take(i as int));
        assert(all.take(i + 1).last() == ls@[i as int]@);
        let ghost before = out@;
        match parse_line(ls[i].as_slice()) {
            Some((k, v)) => {
                let ghost val = v@;
                out.insert(k.as_str(), v);
                assert(strings(out@) =~= strings(before).insert(k@, val));
            },
            None => {},
        }
        i += 1;
    }
    assert(all.take(all.len() as int) =~= all);
    out
}

/// The records of a file.
pub fn parse_records(bytes: &[u8]) -> (r: TextMap<String>)
    ensures
        r.wf(),
        strings(r@) == parsed(lossy_text(bytes@)),
{
    let text = text_lossy(bytes);
    parse_text(text.as_str())
}

// ---------------------------------------------------------------------------
// Writing files
// ---------------------------------------------------------------------------

/// The line of a live record; a tombstone has none.
pub open spec fn record_line(k: Seq<char>, r: RecView) -> Seq<char> {
    match r.value {
        Some(v) => k + seq![' ', '=', ' '] + v + seq!['\n'],
        None => Seq::empty(),
    }
}

/// The lines of the given keys.
pub open spec fn record_lines(keys: Seq<Seq<char>>, m: Map<Seq<char>, RecView>) -> Seq<char>
    decreases keys.len(),
{
    if keys.len() == 0 {
        Seq::empty()
    } else {
        record_lines(keys.drop_last(), m) + record_line(keys.last(), m[keys.last()])
    }
}

/// The canonical form of a replica's file: live records only, keys in order.
pub open spec fn canonical(m: Map<Seq<char>, RecView>) -> Seq<char> {
    record_lines(in_order(m.dom()), m)
}

// ---------------------------------------------------------------------------
// Local edits
// ---------------------------------------------------------------------------

/// The register of `k` after a local edit left the file with the records `p`.
pub open spec fn edited(
    m: Map<Seq<char>, RecView>,
    p: Map<Seq<char>, Seq<char>>,
    k: Seq<char>,
) -> RecView {
    if p.contains_key(k) {
        if m.contains_key(k) && m[k].value == Some(p[k]) {
            m[k]
        } else {
            RecView {
                value: Some(p[k]),
                version: if m.contains_key(k) {
                    (m[k].version + 1) as u64
                } else {
                    1
                },
            }
        }
    } else if m[k].value is Some {
        RecView { value: None, version: (m[k].version + 1) as u64 }
    } else {
        m[k]
    }
}

/// The registers after a local edit left the file with the records `p`.
pub open spec fn observed(
    m: Map<Seq<char>, RecView>,
    p: Map<Seq<char>, Seq<char>>,
) -> Map<Seq<char>, RecView> {
    Map::new(|k: Seq<char>| m.contains_key(k) || p.contains_key(k), |k: Seq<char>| edited(m, p, k))
}

/// The keys whose register the edit changed.
pub open spec fn touched(
    m: Map<Seq<char>, RecView>,
    p: Map<Seq<char>, Seq<char>>,
) -> Set<Seq<char>> {
    Set::new(
        |k: Seq<char>|
            observed(m, p).contains_key(k) && !(m.contains_key(k) && m[k] == edited(m, p, k)),
    )
}

// ---------------------------------------------------------------------------
// Exchange
// ---------------------------------------------------------------------------

/// A key, its version and its digest.
pub type Stamp = (Seq<char>, u64, Seq<u8>);

/// A key with its register.
pub type Entry = (Seq<char>, Option<Seq<char>>, u64);

/// The stamps of a replica, in the order of the keys.
pub open spec fn stamps_of(m: Map<Seq<char>, RecView>) -> Seq<Stamp> {
    in_order(m.dom()).map_values(|k: Seq<char>| (k, m[k].version, m[k].hash()))
}

/// The stamp that a list has for `k`: the last one counts.
pub open spec fn stamp_for(stamps: Seq<Stamp>, k: Seq<char>) -> Option<(u64, Seq<u8>)>
    decreases stamps.len(),
{
    if stamps.len() == 0 {
        None
    } else if stamps.last().0 == k {
        Some((stamps.last().1, stamps.last().2))
    } else {
        stamp_for(stamps.drop_last(), k)
    }
}

/// The keys for which a peer with the given stamps lacks our register.
pub open spec fn lacking(m: Map<Seq<char>, RecView>, stamps: Seq<Stamp>) -> Set<Seq<char>> {
    m.dom().filter(
        |k: Seq<char>|
            match stamp_for(stamps, k) {
                Some((v, h)) => m[k].beats(v, h),
                None => true,
            },
    )
}

/// The registers of the given keys, in order.
pub open spec fn entries_of(m: Map<Seq<char>, RecView>, keys: Set<Seq<char>>) -> Seq<Entry> {
    in_order(keys).map_values(|k: Seq<char>| (k, m[k].value, m[k].version))
}

/// The register that an entry carries.
pub open spec fn entry_rec(e: Entry) -> RecView {
    RecView { value: e.1, version: e.2 }
}

/// The registers after one entry has been offered.
pub open spec fn offered(m: Map<Seq<char>, RecView>, e: Entry) -> Map<Seq<char>, RecView> {
    if !m.contains_key(e.0) || entry_rec(e).wins(m[e.0]) {
        m.insert(e.0, entry_rec(e))
    } else {
        m
    }
}

/// The registers after all entries of a patch have been offered, in turn.
pub open spec fn merged(m: Map<Seq<char>, RecView>, es: Seq<Entry>) -> Map<Seq<char>, RecView>
    decreases es.len(),
{
    if es.len() == 0 {
        m
    } else {
        offered(merged(m, es.drop_last()), es.last())
    }
}

/// The stamps of a message, with their texts and digests as sequences.
pub open spec fn stamp_list(v: Seq<(String, u64, [u8; 16])>) -> Seq<Stamp> {
    v.map_values(|t: (String, u64, [u8; 16])| (t.0@, t.1, t.2@))
}

/// The entries of a message, with their texts as sequences.
pub open spec fn entry_list(v: Seq<(String, Option<String>, u64)>) -> Seq<Entry> {
    v.map_values(
        |t: (String, Option<String>, u64)|
            (
                t.0@,
                match t.1 {
                    Some(s) => Some(s@),
                    None => None,
                },
                t.2,
            ),
    )
}

/// The postcard encoding of a list of stamps.
pub uninterp spec fn stamp_bytes(stamps: Seq<(Seq<char>, u64, Seq<u8>)>) -> Seq<u8>;

/// The stamps that postcard reads from bytes.
pub uninterp spec fn stamps_in(bytes: Seq<u8>) -> Option<Seq<(Seq<char>, u64, Seq<u8>)>>;

/// The postcard encoding of a list of entries.
pub uninterp spec fn entry_bytes(entries: Seq<(Seq<char>, Option<Seq<char>>, u64)>) -> Seq<u8>;

/// The entries that postcard reads from bytes.
pub uninterp spec fn entries_in(bytes: Seq<u8>) -> Option<Seq<(Seq<char>, Option<Seq<char>>, u64)>>;

/// `postcard::to_allocvec` on a list of stamps: their encoding, which reads back
/// as the same list.
#[verifier::external_body]
fn write_stamps(stamps: &Vec<(String, u64, [u8; 16])>) -> (r: Vec<u8>)
    ensures
        r@ == stamp_bytes(stamp_list(stamps@)),
        stamps_in(r@) == Some(stamp_list(stamps@)),
{
    postcard::to_allocvec(stamps).unwrap_or_default()
}

/// `postcard::from_bytes` for a list of stamps: the list that the bytes hold,
/// where they hold one.
#[verifier::external_body]
fn read_stamps(bytes: &[u8]) -> (r: Option<Vec<(String, u64, [u8; 16])>>)
    ensures
        match r {
            Some(v) => stamps_in(bytes@) == Some(stamp_list(v@)),
            None => stamps_in(bytes@) is None,
        },
{
    postcard::from_bytes(bytes).ok()
}

/// `postcard::to_allocvec` on a list of entries: their encoding, which reads back
/// as the same list.
#[verifier::external_body]
fn write_entries(entries: &Vec<(String, Option<String>, u64)>) -> (r: Vec<u8>)
    ensures
        r@ == entry_bytes(entry_list(entries@)),
        entries_in(r@) == Some(entry_list(entries@)),
{
    postcard::to_allocvec(entries).unwrap_or_default()
}

/// `postcard::from_bytes` for a list of entries: the list that the bytes hold,
/// where they hold one.
#[verifier::external_body]
fn read_entries(bytes: &[u8]) -> (r: Option<Vec<(String, Option<String>, u64)>>)
    ensures
        match r {
            Some(v) => entries_in(bytes@) == Some(entry_list(v@)),
            None => entries_in(bytes@) is None,
        },
{
    postcard::from_bytes(bytes).ok()
}

/// One replica of a file of records.
pub struct LwwRecordSyncer {
    records: TextMap<Rec>,
    /// Keys changed locally since the last push.
    dirty: TextMap<()>,
}

/// What a replica holds.
pub struct LwwView {
    pub records: Map<Seq<char>, RecView>,
    pub dirty: Set<Seq<char>>,
}

impl View for LwwRecordSyncer {
    type V = LwwView;

    closed spec fn view(&self) -> LwwView {
        LwwView { records: recs(self.records@), dirty: self.dirty@.dom() }
    }
}

impl LwwRecordSyncer {
    /// A replica without records.
    pub fn new(_name: &str) -> (r: Self)
        ensures
            r.wf(),
            r@ == (LwwView { records: Map::empty(), dirty: Set::empty() }),
    {
        let r = LwwRecordSyncer { records: TextMap::new(), dirty: TextMap::new() };
        assert(r@.records =~= Map::empty());
        assert(r@.dirty =~= Set::empty());
        r
    }

    /// The canonical form of the file.
    pub fn materialize(&self) -> (r: Vec<u8>)
        requires
            self.wf(),
        ensures
            r@ == encode_utf8(canonical(self@.records)),
    {
        let ghost keys = self.records.keys();
        let ghost m = self@.records;
        proof {
            self.records.lemma_keys();
            assert(m.dom() =~= self.records@.dom());
        }
        let mut out: Vec<char> = Vec::new();
        let mut i: usize = 0;
        assert(out@ =~= record_lines(keys.take(0), m));
        while i < self.records.len()
            invariant
                i <= keys.len(),
                keys == self.records.keys(),
                self.wf(),
                m == self@.records,
                out@ == record_lines(keys.take(i as int), m),
            decreases keys.len() - i,
        {
            assert(keys.take(i + 1).drop_last() =~= keys.take(i as int));
            let k = self.records.key(i);
            let rec = self.records.value(i);
            assert(m[k@] == rec@);
            let ghost before = out@;
            match &rec.value {
                Some(v) => {
                    push_text(&mut out, k);
                    out.push(' ');
                    out.push('=');
                    out.push(' ');
                    push_text(&mut out, v.as_str());
                    out.push('\n');
                    assert(out@ =~= before + record_line(k@, m[k@]));
                },
                None => {
                    assert(out@ =~= before + record_line(k@, m[k@]));
                },
            }
            i += 1;
        }
        assert(keys.take(keys.len() as int) =~= keys);
        let text = string_of(out.as_slice());
        text_bytes(text.as_str())
    }

    /// Takes in a local edit that left the file with the given records.
    pub fn observe_records(&mut self, p: &TextMap<String>) -> (r: bool)
        requires
            old(self).wf(),
            old(self).can_observe(),
            p.wf(),
        ensures
            final(self).wf(),
            r == (observed(old(self)@.records, strings(p@)) != old(self)@.records),
            final(self)@.records == observed(old(self)@.records, strings(p@)),
            final(self)@.dirty == old(self)@.dirty.union(
                touched(old(self)@.records, strings(p@)),
            ),
    {
        let ghost m = self@.records;
        let ghost d = self@.dirty;
        let ghost ps = strings(p@);
        let ghost goal = observed(m, ps);
        let mut changed = false;
        let mut i: usize = 0;
        while i < p.len()
            invariant
                i <= p.keys().len(),
                p.wf(),
                ps == strings(p@),
                self.wf(),
                m == old(self)@.records,
                d == old(self)@.dirty,
                old(self).can_observe(),
                goal == observed(m, ps),
                forall|k: Seq<char>|
                    p.keys().take(i as int).contains(k) ==> self@.records.contains_key(k)
                        && self@.records[k] == #[trigger] edited(m, ps, k),
                forall|k: Seq<char>|
                    !p.keys().take(i as int).contains(k) ==> (#[trigger] self@.records.contains_key(k)
                        <==> m.contains_key(k)) && (m.contains_key(k) ==> self@.records[k] == m[k]),
                forall|k: Seq<char>| #[trigger]
                    self@.dirty.contains(k) <==> d.contains(k) || (p.keys().take(i as int).contains(k)
                        && touched(m, ps).contains(k)),
                changed <==> exists|k: Seq<char>| p.keys().take(i as int).contains(k) && #[trigger]
                    touched(m, ps).contains(k),
            decreases p.keys().len() - i,
        {
            let k = p.key(i);
            let v = p.value(i);
            let ghost kk = k@;
            proof {
                let before = p.keys().take(i as int);
                let after = p.keys().take(i + 1);
                crate::textmap::lemma_ascending_distinct(p.keys());
                assert forall|x: Seq<char>| after.contains(x) <==> before.contains(x) || x == kk by {
                    if before.contains(x) {
                        let j = before.index_of(x);
                        assert(after[j] == x);
                    }
                    if x == kk {
                        assert(after[i as int] == x);
                    }
                    if after.contains(x) && x != kk {
                        let j = after.index_of(x);
                        assert(before[j] == x);
                    }
                }
                if before.contains(kk) {
                    let j = before.index_of(kk);
                    assert(p.keys()[j] == p.keys()[i as int]);
                }
                assert(ps.contains_key(kk) && ps[kk] == v@);
            }
            let next: Option<u64> = match self.records.get(k) {
                Some(r) => {
                    assert(self@.records.contains_key(kk));
                    assert(m.contains_key(kk) && m[kk] == r@);
                    let same = match &r.value {
                        Some(old_value) => same_text(old_value.as_str(), v.as_str()),
                        None => false,
                    };
                    if same {
                        None
                    } else {
                        Some(r.version + 1)
                    }
                },
                None => {
                    assert(!self@.records.contains_key(kk));
                    assert(!m.contains_key(kk));
                    Some(1)
                },
            };
            let ghost pre = self@.records;
            let ghost dpre = self@.dirty;
            match next {
                Some(version) => {
                    let rec = Rec { value: Some(copy_text(v.as_str())), version };
                    let ghost before = self.records@;
                    let ghost rv = rec@;
                    self.records.insert(k, rec);
                    self.dirty.insert(k, ());
                    changed = true;
                    proof {
                        assert(rv == edited(m, ps, kk));
                        assert(self@.records =~= recs(before).insert(kk, rv));
                        assert(touched(m, ps).contains(kk));
                    }
                },
                None => {
                    assert(!touched(m, ps).contains(kk));
                },
            }
            assert forall|k: Seq<char>| !p.keys().take(i + 1).contains(k) implies (
            #[trigger] self@.records.contains_key(k) <==> m.contains_key(k)) && (m.contains_key(k)
                ==> self@.records[k] == m[k]) by {
                assert(!p.keys().take(i as int).contains(k) && k != kk);
                assert(pre.contains_key(k) <==> m.contains_key(k));
            }
            assert forall|k: Seq<char>| #[trigger] self@.dirty.contains(k) <==> d.contains(k) || (
            p.keys().take(i + 1).contains(k) && touched(m, ps).contains(k)) by {
                assert(dpre.contains(k) <==> d.contains(k) || (p.keys().take(i as int).contains(k)
                    && touched(m, ps).contains(k)));
            }
            i += 1;
        }
        assert(p.keys().take(i as int) =~= p.keys());
        assert forall|k: Seq<char>| p.keys().contains(k) <==> ps.contains_key(k) by {}
        // Keys that the file no longer has become tombstones.
        let ghost mid = self@.records;
        let ghost dmid = self@.dirty;
        let ghost keys = self.records.keys();
        proof {
            self.records.lemma_keys();
        }
        let mut j: usize = 0;
        while j < self.records.len()
            invariant
                j <= keys.len(),
                keys == self.records.keys(),
                p.wf(),
                ps == strings(p@),
                self.wf(),
                m == old(self)@.records,
                d == old(self)@.dirty,
                old(self).can_observe(),
                goal == observed(m, ps),
                mid.dom() =~= goal.dom(),
                keys.to_set() == mid.dom(),
                ascending(keys),
                self@.records.dom() =~= mid.dom(),
                forall|k: Seq<char>|
                    #![trigger mid[k]]
                    mid.contains_key(k) ==> mid[k] == if ps.contains_key(k) {
                        edited(m, ps, k)
                    } else {
                        m[k]
                    },
                forall|k: Seq<char>|
                    #![trigger self@.records[k]]
                    keys.take(j as int).contains(k) ==> self@.records[k] == edited(m, ps, k),
                forall|k: Seq<char>|
                    #![trigger self@.records[k]]
                    mid.contains_key(k) && !keys.take(j as int).contains(k) ==> self@.records[k]
                        == mid[k],
                forall|k: Seq<char>| #[trigger]
                    self@.dirty.contains(k) <==> d.contains(k) || (touched(m, ps).contains(k) && (
                    ps.contains_key(k) || keys.take(j as int).contains(k))),
                changed <==> exists|k: Seq<char>|
                    (ps.contains_key(k) || keys.take(j as int).contains(k)) && #[trigger] touched(
                        m,
                        ps,
                    ).contains(k),
            decreases keys.len() - j,
        {
            let k = copy_text(self.records.key(j));
            let ghost kk = k@;
            proof {
                let before = keys.take(j as int);
                let after = keys.take(j + 1);
                crate::textmap::lemma_ascending_distinct(keys);
                assert forall|x: Seq<char>| after.contains(x) <==> before.contains(x) || x == kk by {
                    if before.contains(x) {
                        let n = before.index_of(x);
                        assert(after[n] == x);
                    }
                    if x == kk {
                        assert(after[j as int] == x);
                    }
                    if after.contains(x) && x != kk {
                        let n = after.index_of(x);
                        assert(before[n] == x);
                    }
                }
                if before.contains(kk) {
                    let n = before.index_of(kk);
                    assert(keys[n] == keys[j as int]);
                }
                assert(keys.contains(keys[j as int]));
                assert(keys.to_set().contains(kk));
                assert(mid.contains_key(kk));
            }
            let ghost dpre = self@.dirty;
            let listed = p.contains_key(k.as_str());
            let rec = self.records.value(j);
            let ghost rv = rec@;
            assert(self@.records[kk] == rv);
            let version = rec.version;
            let gone = !listed && rec.value.is_some();
            if gone {
                assert(m.contains_key(kk) && m[kk] == rv);
                let tomb = Rec { value: None, version: version + 1 };
                let ghost before = self.records@;
                let ghost tv = tomb@;
                self.records.set(j, tomb);
                self.dirty.insert(k.as_str(), ());
                changed = true;
                proof {
                    assert(tv == edited(m, ps, kk));
                    assert(self@.records =~= recs(before).insert(kk, tv));
                    assert(touched(m, ps).contains(kk));
                }
            } else {
                proof {
                    if !ps.contains_key(kk) {
                        assert(!touched(m, ps).contains(kk));
                    }
                    assert(self@.records[kk] == edited(m, ps, kk));
                }
            }
            assert forall|k: Seq<char>| #[trigger] self@.dirty.contains(k) <==> d.contains(k) || (
            touched(m, ps).contains(k) && (ps.contains_key(k) || keys.take(j + 1).contains(k))) by {
                assert(dpre.contains(k) <==> d.contains(k) || (touched(m, ps).contains(k) && (
                ps.contains_key(k) || keys.take(j as int).contains(k))));
            }
            j += 1;
        }
        proof {
            assert(keys.take(j as int) =~= keys);
            assert forall|k: Seq<char>| goal.contains_key(k) <==> keys.contains(k) by {
                assert(keys.to_set().contains(k) <==> mid.contains_key(k));
            }
            assert(self@.records =~= goal);
            assert(self@.dirty =~= d.union(touched(m, ps)));
            if changed {
                let k = choose|k: Seq<char>|
                    (ps.contains_key(k) || keys.contains(k)) && #[trigger] touched(m, ps).contains(k);
                assert(goal.contains_key(k));
                if goal == m {
                    assert(m.contains_key(k));
                }
            } else {
                assert forall|k: Seq<char>| #[trigger] goal.contains_key(k) implies m.contains_key(k)
                    && m[k] == goal[k] by {
                    assert(keys.contains(k));
                    assert(!touched(m, ps).contains(k));
                }
                assert forall|k: Seq<char>| #[trigger] m.contains_key(k) implies goal.contains_key(k) by {}
                assert(goal.dom() =~= m.dom());
                assert(goal =~= m);
            }
        }
        changed
    }

    /// Whether every register can take one more local write.
    pub fn is_writable(&self) -> (r: bool)
        requires
            self.wf(),
        ensures
            r == self.can_observe(),
    {
        let ghost m = self@.records;
        let mut i: usize = 0;
        while i < self.records.len()
            invariant
                i <= self.records.keys().len(),
                self.wf(),
                m == self@.records,
                forall|j: int|
                    0 <= j < i ==> m[#[trigger] self.records.keys()[j]].version < u64::MAX,
            decreases self.records.keys().len() - i,
        {
            let rec = self.records.value(i);
            let ghost k = self.records.keys()[i as int];
            assert(m.contains_key(k) && m[k] == rec@);
            if rec.version == u64::MAX {
                return false;
            }
            i += 1;
        }
        assert forall|k: Seq<char>| #[trigger] m.contains_key(k) implies m[k].version < u64::MAX by {
            let j = self.records.lemma_listed(k);
            assert(self.records.keys()[j] == k);
        }
        true
    }

    /// The stamps of all registers.
    pub fn stamps(&self) -> (r: Vec<(String, u64, [u8; 16])>)
        requires
            self.wf(),
        ensures
            stamp_list(r@) == stamps_of(self@.records),
    {
        let ghost keys = self.records.keys();
        let ghost m = self@.records;
        proof {
            self.records.lemma_keys();
            assert(m.dom() =~= self.records@.dom());
        }
        let mut out: Vec<(String, u64, [u8; 16])> = Vec::new();
        let mut i: usize = 0;
        while i < self.records.len()
            invariant
                i <= keys.len(),
                keys == self.records.keys(),
                keys == in_order(m.dom()),
                self.wf(),
                m == self@.records,
                stamp_list(out@) == stamps_of(m).take(i as int),
            decreases keys.len() - i,
        {
            let k = self.records.key(i);
            let rec = self.records.value(i);
            assert(m[k@] == rec@);
            let (version, hash) = rec.stamp();
            let ghost before = out@;
            out.push((copy_text(k), version, hash));
            assert(stamp_list(out@) =~= stamp_list(before).push(stamps_of(m)[i as int]));
            assert(stamps_of(m).take(i + 1) =~= stamps_of(m).take(i as int).push(
                stamps_of(m)[i as int],
            ));
            i += 1;
        }
        assert(stamps_of(m).take(i as int) =~= stamps_of(m));
        out
    }

    /// The registers that a peer with the given stamps lacks.
    pub fn entries_for(&self, stamps: &Vec<(String, u64, [u8; 16])>) -> (r: Vec<
        (String, Option<String>, u64),
    >)
        requires
            self.wf(),
        ensures
            entry_list(r@) == entries_of(
                self@.records,
                lacking(self@.records, stamp_list(stamps@)),
            ),
    {
        let ghost sl = stamp_list(stamps@);
        let mut theirs: TextMap<(u64, [u8; 16])> = TextMap::new();
        let mut n: usize = 0;
        while n < stamps.len()
            invariant
                n <= stamps@.len(),
                sl == stamp_list(stamps@),
                theirs.wf(),
                forall|k: Seq<char>|
                    #![trigger theirs@.contains_key(k)]
                    #![trigger stamp_for(sl.take(n as int), k)]
                    match stamp_for(sl.take(n as int), k) {
                        Some((v, h)) => theirs@.contains_key(k) && theirs@[k].0 == v
                            && theirs@[k].1@ == h,
                        None => !theirs@.contains_key(k),
                    },
            decreases stamps@.len() - n,
        {
            let t = &stamps[n];
            let ghost before = theirs@;
            theirs.insert(t.0.as_str(), (t.1, t.2));
            proof {
                assert(sl.take(n + 1).drop_last() =~= sl.take(n as int));
                assert(sl.take(n + 1).last() == sl[n as int]);
                assert forall|k: Seq<char>|
                    #![trigger theirs@.contains_key(k)]
                    #![trigger stamp_for(sl.take(n + 1), k)]
                    match stamp_for(sl.take(n + 1), k) {
                        Some((v, h)) => theirs@.contains_key(k) && theirs@[k].0 == v
                            && theirs@[k].1@ == h,
                        None => !theirs@.contains_key(k),
                    } by {
                    if k != t.0@ {
                        assert(stamp_for(sl.take(n + 1), k) == stamp_for(sl.take(n as int), k));
                        assert(before.contains_key(k) <==> theirs@.contains_key(k));
                    }
                }
            }
            n += 1;
        }
        assert(sl.take(n as int) =~= sl);
        let ghost keys = self.records.keys();
        let ghost m = self@.records;
        let ghost want = lacking(m, sl);
        proof {
            self.records.lemma_keys();
            assert(m.dom() =~= self.records@.dom());
        }
        let ghost mut picked: Seq<Seq<char>> = Seq::empty();
        let mut out: Vec<(String, Option<String>, u64)> = Vec::new();
        let mut i: usize = 0;
        while i < self.records.len()
            invariant
                i <= keys.len(),
                keys == self.records.keys(),
                keys.to_set() == m.dom(),
                self.wf(),
                m == self@.records,
                theirs.wf(),
                want == lacking(m, sl),
                forall|k: Seq<char>|
                    #![trigger theirs@.contains_key(k)]
                    #![trigger stamp_for(sl, k)]
                    match stamp_for(sl, k) {
                        Some((v, h)) => theirs@.contains_key(k) && theirs@[k].0 == v
                            && theirs@[k].1@ == h,
                        None => !theirs@.contains_key(k),
                    },
                ascending(picked),
                forall|x: Seq<char>| #[trigger]
                    picked.contains(x) <==> keys.take(i as int).contains(x) && want.contains(x),
                entry_list(out@) == picked.map_values(
                    |k: Seq<char>| (k, m[k].value, m[k].version),
                ),
            decreases keys.len() - i,
        {
            let k = self.records.key(i);
            let rec = self.records.value(i);
            let ghost kk = k@;
            assert(m.contains_key(kk) && m[kk] == rec@);
            let send = match theirs.get(k) {
                Some(t) => rec.beats(t.0, &t.1),
                None => true,
            };
            assert(send == want.contains(kk)) by {
                assert(theirs@.contains_key(kk) || !theirs@.contains_key(kk));
                let _ = stamp_for(sl, kk);
            }
            proof {
                lemma_take_contains(keys, i as int);
            }
            if send {
                let ghost before = out@;
                let ghost was = picked;
                let copied = rec.copy();
                out.push((copy_text(k), copied.value, copied.version));
                proof {
                    picked = was.push(kk);
                    assert(entry_list(out@) =~= picked.map_values(
                        |k: Seq<char>| (k, m[k].value, m[k].version),
                    )) by {
                        assert(entry_list(out@) =~= entry_list(before).push(
                            (kk, m[kk].value, m[kk].version),
                        ));
                    }
                    assert(ascending(picked)) by {
                        assert forall|a: int, b: int|
                            0 <= a < b < picked.len() implies crate::chars::text_lt(
                            #[trigger] picked[a],
                            #[trigger] picked[b],
                        ) by {
                            if b == was.len() {
                                assert(was.contains(was[a]));
                                let c = keys.take(i as int).index_of(was[a]);
                                assert(keys[c] == was[a]);
                                assert(keys[i as int] == kk);
                            } else {
                                assert(picked[a] == was[a] && picked[b] == was[b]);
                            }
                        }
                    }
                    assert forall|x: Seq<char>| #[trigger] picked.contains(x) <==> keys.take(
                        i + 1,
                    ).contains(x) && want.contains(x) by {
                        if was.contains(x) {
                            let c = was.index_of(x);
                            assert(picked[c] == x);
                        }
                        if x == kk {
                            assert(picked[was.len() as int] == x);
                        }
                        if picked.contains(x) && x != kk {
                            let c = picked.index_of(x);
                            assert(was[c] == x);
                        }
                    }
                }
            }
            i += 1;
        }
        proof {
            assert(keys.take(i as int) =~= keys);
            assert(picked.to_set() =~= want) by {
                assert forall|x: Seq<char>| want.contains(x) implies picked.contains(x) by {
                    assert(keys.to_set().contains(x));
                }
            }
            lemma_in_order(picked);
        }
        out
    }

    /// The registers that changed locally since the last call.
    pub fn take_dirty(&mut self) -> (r: Vec<(String, Option<String>, u64)>)
        requires
            old(self).wf(),
        ensures
            final(self).wf(),
            final(self)@.records == old(self)@.records,
            final(self)@.dirty == Set::<Seq<char>>::empty(),
            entry_list(r@) == entries_of(old(self)@.records, old(self)@.dirty),
    {
        let ghost keys = self.dirty.keys();
        let ghost m = self@.records;
        let ghost all = entries_of(m, self@.dirty);
        proof {
            self.dirty.lemma_keys();
        }
        let mut out: Vec<(String, Option<String>, u64)> = Vec::new();
        let mut i: usize = 0;
        while i < self.dirty.len()
            invariant
                i <= keys.len(),
                keys == self.dirty.keys(),
                keys == in_order(self@.dirty),
                self.wf(),
                self@ == old(self)@,
                m == self@.records,
                all == entries_of(m, self@.dirty),
                entry_list(out@) == all.take(i as int),
            decreases keys.len() - i,
        {
            let k = self.dirty.key(i);
            proof {
                self.dirty.lemma_entry(i as int);
                assert(self.records@.contains_key(k@));
            }
            match self.records.get(k) {
                Some(rec) => {
                    assert(m[k@] == rec@);
                    let ghost before = out@;
                    let copied = rec.copy();
                    out.push((copy_text(k), copied.value, copied.version));
                    assert(entry_list(out@) =~= entry_list(before).push(all[i as int]));
                    assert(all.take(i + 1) =~= all.take(i as int).push(all[i as int]));
                },
                None => {},
            }
            i += 1;
        }
        assert(all.take(i as int) =~= all);
        self.dirty = TextMap::new();
        assert(self@.dirty =~= Set::empty());
        out
    }

    /// Offers the entries of a patch in turn, and returns the canonical form of
    /// the file where that changed it.
    pub fn merge_entries(&mut self, es: &Vec<(String, Option<String>, u64)>) -> (r: Option<Vec<u8>>)
        requires
            old(self).wf(),
        ensures
            final(self).wf(),
            final(self)@.records == merged(old(self)@.records, entry_list(es@)),
            final(self)@.dirty == old(self)@.dirty,
            r is Some <==> encode_utf8(canonical(final(self)@.records)) != encode_utf8(
                canonical(old(self)@.records),
            ),
            r matches Some(b) ==> b@ == encode_utf8(canonical(final(self)@.records)),
    {
        let before = self.materialize();
        let ghost el = entry_list(es@);
        let mut i: usize = 0;
        while i < es.len()
            invariant
                i <= es@.len(),
                el == entry_list(es@),
                self.wf(),
                self@.dirty == old(self)@.dirty,
                self@.records == merged(old(self)@.records, el.take(i as int)),
            decreases es@.len() - i,
        {
            assert(el.take(i + 1).drop_last() =~= el.take(i as int));
            assert(el.take(i + 1).last() == el[i as int]);
            let ghost pre = self@.records;
            let e = &es[i];
            let incoming = Rec {
                value: match &e.1 {
                    Some(s) => Some(copy_text(s.as_str())),
                    None => None,
                },
                version: e.2,
            };
            assert(incoming@ == entry_rec(el[i as int]));
            let wins = match self.records.get(e.0.as_str()) {
                Some(cur) => {
                    assert(pre.contains_key(e.0@) && pre[e.0@] == cur@);
                    let (v, h) = cur.stamp();
                    incoming.beats(v, &h)
                },
                None => {
                    assert(!pre.contains_key(e.0@));
                    true
                },
            };
            if wins {
                let ghost rm = self.records@;
                let ghost iv = incoming@;
                self.records.insert(e.0.as_str(), incoming);
                assert(self@.records =~= recs(rm).insert(e.0@, iv));
            }
            i += 1;
        }
        assert(el.take(i as int) =~= el);
        let after = self.materialize();
        if same_bytes(after.as_slice(), before.as_slice()) {
            None
        } else {
            Some(after)
        }
    }
}

/// A longer front of a list holds one more element.
proof fn lemma_take_contains(s: Seq<Seq<char>>, i: int)
    requires
        0 <= i < s.len(),
    ensures
        forall|x: Seq<char>| #[trigger]
            s.take(i + 1).contains(x) <==> s.take(i).contains(x) || x == s[i],
{
    assert forall|x: Seq<char>| #[trigger] s.take(i + 1).contains(x) <==> s.take(i).contains(x) || x
        == s[i] by {
        if s.take(i).contains(x) {
            let j = s.take(i).index_of(x);
            assert(s.take(i + 1)[j] == x);
        }
        if x == s[i] {
            assert(s.take(i + 1)[i] == x);
        }
        if s.take(i + 1).contains(x) && x != s[i] {
            let j = s.take(i + 1).index_of(x);
            assert(s.take(i)[j] == x);
        }
    }
}

impl SyncStrategy for LwwRecordSyncer {
    closed spec fn wf(&self) -> bool {
        &&& self.records.wf()
        &&& self.dirty.wf()
        &&& self.dirty@.dom().subset_of(self.records@.dom())
    }

    open spec fn can_observe(&self) -> bool {
        forall|k: Seq<char>| #[trigger]
            self@.records.contains_key(k) ==> self@.records[k].version < u64::MAX
    }

    open spec fn can_merge(&self, delta: Seq<u8>) -> bool {
        true
    }

    open spec fn spec_kind(&self) -> Kind {
        Kind::LwwRecord
    }

    fn kind(&self) -> (r: Kind) {
        Kind::LwwRecord
    }

    /// Takes in a local edit of the file.
    fn observe(&mut self, current: &[u8]) -> (r: bool)
        ensures
            r == (observed(old(self)@.records, parsed(lossy_text(current@))) != old(self)@.records),
            final(self)@.records == observed(old(self)@.records, parsed(lossy_text(current@))),
            final(self)@.dirty == old(self)@.dirty.union(
                touched(old(self)@.records, parsed(lossy_text(current@))),
            ),
    {
        let p = parse_records(current);
        self.observe_records(&p)
    }

    /// The registers changed since the last push, encoded; none if there are
    /// none.
    fn push_delta(&mut self) -> (r: Option<Vec<u8>>)
        ensures
            final(self)@ == (LwwView { records: old(self)@.records, dirty: Set::empty() }),
            r is None <==> old(self)@.dirty =~= Set::empty(),
            r matches Some(b) ==> {
                let es = entries_of(old(self)@.records, old(self)@.dirty);
                entries_in(b@) == Some(es) && b@ == entry_bytes(es)
            },
    {
        if self.dirty.len() == 0 {
            proof {
                self.dirty.lemma_keys();
                assert(self@.dirty =~= Set::empty()) by {
                    assert forall|k: Seq<char>| !self@.dirty.contains(k) by {
                        assert(self.dirty.keys().to_set().contains(k) == self@.dirty.contains(k));
                    }
                }
            }
            return None;
        }
        proof {
            self.dirty.lemma_entry(0);
        }
        let es = self.take_dirty();
        Some(write_entries(&es))
    }

    /// The stamps of all registers, encoded.
    fn state_vector(&self) -> (r: Vec<u8>)
        ensures
            stamps_in(r@) == Some(stamps_of(self@.records)),
            r@ == stamp_bytes(stamps_of(self@.records)),
    {
        write_stamps(&self.stamps())
    }

    /// The registers that a peer with the given stamps lacks, encoded; none if it
    /// lacks none.
    fn delta_since(&self, theirs: &[u8]) -> (r: Option<Vec<u8>>)
        ensures
            match stamps_in(theirs@) {
                Some(stamps) => {
                    let es = entries_of(self@.records, lacking(self@.records, stamps));
                    match r {
                        Some(b) => es.len() > 0 && entries_in(b@) == Some(es) && b@ == entry_bytes(es),
                        None => es.len() == 0,
                    }
                },
                None => r is None,
            },
    {
        match read_stamps(theirs) {
            Some(stamps) => {
                let es = self.entries_for(&stamps);
                assert(es@.len() == entry_list(es@).len());
                if es.len() == 0 {
                    None
                } else {
                    Some(write_entries(&es))
                }
            },
            None => None,
        }
    }

    /// Offers the registers that the bytes hold, and returns the canonical form
    /// of the file where that changed it.
    fn merge(&mut self, delta: &[u8]) -> (r: Option<Vec<u8>>)
        ensures
            final(self)@.dirty == old(self)@.dirty,
            match entries_in(delta@) {
                Some(es) => {
                    &&& final(self)@.records == merged(old(self)@.records, es)
                    &&& r is Some <==> encode_utf8(canonical(final(self)@.records)) != encode_utf8(
                        canonical(old(self)@.records),
                    )
                    &&& r matches Some(b) ==> b@ == encode_utf8(canonical(final(self)@.records))
                },
                None => r is None && final(self)@ == old(self)@,
            },
    {
        match read_entries(delta) {
            Some(es) => self.merge_entries(&es),
            None => None,
        }
    }
}

// ---------------------------------------------------------------------------
// Laws
// ---------------------------------------------------------------------------

/// For each key the winning one of two replicas' registers.
pub open spec fn joined(
    a: Map<Seq<char>, RecView>,
    b: Map<Seq<char>, RecView>,
) -> Map<Seq<char>, RecView> {
    Map::new(
        |k: Seq<char>| a.contains_key(k) || b.contains_key(k),
        |k: Seq<char>|
            if !b.contains_key(k) || (a.contains_key(k) && a[k].wins(b[k])) {
                a[k]
            } else {
                b[k]
            },
    )
}

/// What `b` has after it asked `a` once.
pub open spec fn pulled(
    a: Map<Seq<char>, RecView>,
    b: Map<Seq<char>, RecView>,
) -> Map<Seq<char>, RecView> {
    merged(b, entries_of(a, lacking(a, stamps_of(b))))
}

/// Registers of one key that carry the same stamp are the same.
pub open spec fn stamps_tell_apart(
    a: Map<Seq<char>, RecView>,
    b: Map<Seq<char>, RecView>,
) -> bool {
    forall|k: Seq<char>| #[trigger]
        a.contains_key(k) && b.contains_key(k) && a[k].version == b[k].version && a[k].hash()
            == b[k].hash() ==> a[k] == b[k]
}

proof fn lemma_stamp_for(stamps: Seq<Stamp>, i: int)
    requires
        0 <= i < stamps.len(),
        forall|x: int, y: int|
            0 <= x < y < stamps.len() ==> (#[trigger] stamps[x]).0 != (#[trigger] stamps[y]).0,
    ensures
        stamp_for(stamps, stamps[i].0) == Some((stamps[i].1, stamps[i].2)),
    decreases stamps.len(),
{
    if i < stamps.len() - 1 {
        lemma_stamp_for(stamps.drop_last(), i);
        assert(stamps.drop_last()[i] == stamps[i]);
        assert(stamps[i].0 != stamps[stamps.len() - 1].0);
    }
}

proof fn lemma_stamp_for_none(stamps: Seq<Stamp>, k: Seq<char>)
    requires
        forall|x: int| 0 <= x < stamps.len() ==> (#[trigger] stamps[x]).0 != k,
    ensures
        stamp_for(stamps, k) is None,
    decreases stamps.len(),
{
    if stamps.len() > 0 {
        assert(stamps[stamps.len() - 1].0 != k);
        assert forall|x: int| 0 <= x < stamps.drop_last().len() implies (
        #[trigger] stamps.drop_last()[x]).0 != k by {
            assert(stamps.drop_last()[x] == stamps[x]);
        }
        lemma_stamp_for_none(stamps.drop_last(), k);
    }
}

/// A replica's list of stamps has each key's own stamp.
proof fn lemma_own_stamps(m: Map<Seq<char>, RecView>, k: Seq<char>)
    requires
        m.dom().finite(),
    ensures
        stamp_for(stamps_of(m), k) == (if m.contains_key(k) {
            Some((m[k].version, m[k].hash()))
        } else {
            None
        }),
{
    lemma_in_order_exists(m.dom());
    let keys = in_order(m.dom());
    let stamps = stamps_of(m);
    crate::textmap::lemma_ascending_distinct(keys);
    if m.contains_key(k) {
        assert(keys.to_set().contains(k));
        let i = keys.index_of(k);
        assert(stamps[i].0 == keys[i]);
        lemma_stamp_for(stamps, i);
    } else {
        assert forall|x: int| 0 <= x < stamps.len() implies (#[trigger] stamps[x]).0 != k by {
            assert(keys.to_set().contains(keys[x]));
        }
        lemma_stamp_for_none(stamps, k);
    }
}

/// Entries with different keys do not get in each other's way.
proof fn lemma_merged(m: Map<Seq<char>, RecView>, es: Seq<Entry>)
    requires
        forall|x: int, y: int|
            0 <= x < y < es.len() ==> (#[trigger] es[x]).0 != (#[trigger] es[y]).0,
    ensures
        forall|i: int|
            0 <= i < es.len() ==> merged(m, es).contains_key((#[trigger] es[i]).0) && merged(m, es)[es[i].0]
                == (if !m.contains_key(es[i].0) || entry_rec(es[i]).wins(m[es[i].0]) {
                entry_rec(es[i])
            } else {
                m[es[i].0]
            }),
        forall|k: Seq<char>|
            (forall|i: int| 0 <= i < es.len() ==> (#[trigger] es[i]).0 != k) ==> (
            #[trigger] merged(m, es).contains_key(k) <==> m.contains_key(k)) && merged(m, es)[k]
                == m[k],
    decreases es.len(),
{
    if es.len() > 0 {
        let front = es.drop_last();
        let e = es.last();
        assert forall|x: int, y: int| 0 <= x < y < front.len() implies (#[trigger] front[x]).0 != (
        #[trigger] front[y]).0 by {
            assert(front[x] == es[x] && front[y] == es[y]);
        }
        lemma_merged(m, front);
        let mid = merged(m, front);
        assert forall|i: int| 0 <= i < front.len() implies (#[trigger] front[i]).0 != e.0 by {
            assert(front[i] == es[i]);
            assert(es[es.len() - 1] == e);
        }
        assert(mid.contains_key(e.0) <==> m.contains_key(e.0));
        assert forall|i: int| 0 <= i < es.len() implies merged(m, es).contains_key(
            (#[trigger] es[i]).0,
        ) && merged(m, es)[es[i].0] == (if !m.contains_key(es[i].0) || entry_rec(es[i]).wins(
            m[es[i].0],
        ) {
            entry_rec(es[i])
        } else {
            m[es[i].0]
        }) by {
            if i < front.len() {
                assert(front[i] == es[i]);
                assert(es[i].0 != e.0);
            }
        }
        assert forall|k: Seq<char>|
            (forall|i: int| 0 <= i < es.len() ==> (#[trigger] es[i]).0 != k) implies (
        #[trigger] merged(m, es).contains_key(k) <==> m.contains_key(k)) && merged(m, es)[k] == m[k] by {
            assert forall|i: int| 0 <= i < front.len() implies (#[trigger] front[i]).0 != k by {
                assert(front[i] == es[i]);
            }
            assert(es[es.len() - 1].0 != k);
            assert(mid.contains_key(k) <==> m.contains_key(k));
        }
    }
}

/// A replica that asks another once has for each key the winning one of the two
/// registers, whether it is a value or a tombstone.
pub proof fn law_pull_joins(a: Map<Seq<char>, RecView>, b: Map<Seq<char>, RecView>)
    requires
        a.dom().finite(),
        b.dom().finite(),
    ensures
        pulled(a, b) == joined(a, b),
{
    let sl = stamps_of(b);
    let want = lacking(a, sl);
    assert(want.finite());
    lemma_in_order_exists(want);
    let keys = in_order(want);
    let es = entries_of(a, want);
    crate::textmap::lemma_ascending_distinct(keys);
    assert forall|x: int, y: int| 0 <= x < y < es.len() implies (#[trigger] es[x]).0 != (
    #[trigger] es[y]).0 by {
        assert(keys[x] != keys[y]);
    }
    lemma_merged(b, es);
    let r = merged(b, es);
    let j = joined(a, b);
    assert forall|k: Seq<char>|
        (#[trigger] r.contains_key(k) <==> j.contains_key(k)) && (j.contains_key(k) ==> r[k] == j[k]) by {
        lemma_own_stamps(b, k);
        if want.contains(k) {
            assert(keys.to_set().contains(k));
            let i = keys.index_of(k);
            assert(es[i].0 == k);
            assert(entry_rec(es[i]) == a[k]);
        } else {
            assert forall|i: int| 0 <= i < es.len() implies (#[trigger] es[i]).0 != k by {
                assert(keys.to_set().contains(keys[i]));
            }
            assert(r.contains_key(k) <==> b.contains_key(k));
        }
    }
    assert(r.dom() =~= j.dom());
    assert(r =~= j);
}

/// One exchange in both directions makes two replicas equal: both then have the
/// winning register of each key. Different registers of one key that share a
/// stamp are left out.
pub proof fn law_replicas_converge(a: Map<Seq<char>, RecView>, b: Map<Seq<char>, RecView>)
    requires
        a.dom().finite(),
        b.dom().finite(),
        stamps_tell_apart(a, b),
    ensures
        pulled(a, b) == joined(a, b),
        pulled(pulled(a, b), a) == joined(a, b),
{
    law_pull_joins(a, b);
    let j = joined(a, b);
    assert(j.dom() =~= a.dom().union(b.dom()));
    law_pull_joins(j, a);
    assert forall|k: Seq<char>| #[trigger] j.contains_key(k) implies joined(j, a)[k] == j[k] by {
        if a.contains_key(k) && b.contains_key(k) {
            if a[k].wins(b[k]) {
                // The register is `a`'s own.
            } else if a[k].version == b[k].version {
                if a[k].hash() != b[k].hash() {
                    lemma_bytes_lt_total(a[k].hash(), b[k].hash());
                }
            }
        }
    }
    assert(joined(j, a) =~= j);
}

/// Equal replicas have nothing to send to each other.
pub proof fn law_nothing_to_send_when_equal(m: Map<Seq<char>, RecView>)
    requires
        m.dom().finite(),
    ensures
        entries_of(m, lacking(m, stamps_of(m))).len() == 0,
{
    assert forall|k: Seq<char>| !lacking(m, stamps_of(m)).contains(k) by {
        lemma_own_stamps(m, k);
        if m.contains_key(k) {
            crate::bytes::lemma_bytes_lt_irreflexive(m[k].hash());
        }
    }
    let want = lacking(m, stamps_of(m));
    assert(want =~= Set::empty());
    let q = Seq::<Seq<char>>::empty();
    assert(q.to_set() =~= want);
    lemma_in_order(q);
}

/// Two replicas edit one file at the same time. An edit of a key that only one
/// of them touched survives their exchange, in whichever direction it goes,
/// whether it sets the key or removes it.
pub proof fn law_edits_of_different_keys_survive(
    m: Map<Seq<char>, RecView>,
    pa: Map<Seq<char>, Seq<char>>,
    pb: Map<Seq<char>, Seq<char>>,
    k: Seq<char>,
)
    requires
        forall|x: Seq<char>| #[trigger] m.contains_key(x) ==> m[x].version < u64::MAX,
        touched(m, pa).contains(k),
        !touched(m, pb).contains(k),
    ensures
        joined(observed(m, pa), observed(m, pb)).contains_key(k),
        joined(observed(m, pa), observed(m, pb))[k] == edited(m, pa, k),
        joined(observed(m, pb), observed(m, pa))[k] == edited(m, pa, k),
{
    if observed(m, pb).contains_key(k) {
        assert(m.contains_key(k) && m[k] == edited(m, pb, k));
    }
}

/// A record that survives being written and read: the key is not empty, is
/// trimmed, does not start with `#` and holds no `=`, the value is trimmed, and
/// neither holds a line feed.
pub open spec fn tidy(k: Seq<char>, r: RecView) -> bool {
    &&& k.len() > 0
    &&& is_trimmed(k)
    &&& k[0] != '#'
    &&& !k.contains('=')
    &&& !k.contains('\n')
    &&& r.value matches Some(v) ==> is_trimmed(v) && !v.contains('\n')
}

/// The live records among the given keys.
pub open spec fn live(keys: Seq<Seq<char>>, m: Map<Seq<char>, RecView>) -> Map<
    Seq<char>,
    Seq<char>,
> {
    Map::new(
        |k: Seq<char>| keys.contains(k) && m[k].value is Some,
        |k: Seq<char>| m[k].value->Some_0,
    )
}

proof fn lemma_tidy_line(k: Seq<char>, r: RecView)
    requires
        tidy(k, r),
        r.value is Some,
    ensures
        record_of((k + seq![' ', '=', ' '] + r.value->Some_0)) == Some((k, r.value->Some_0)),
        !(k + seq![' ', '=', ' '] + r.value->Some_0).contains('\n'),
        (k + seq![' ', '=', ' '] + r.value->Some_0).last() != '\r',
{
    let v = r.value->Some_0;
    let line = k + seq![' ', '=', ' '] + v;
    let n = k.len() as int;
    assert forall|j: int| 0 <= j < n + 1 implies line[j] != '=' by {
        if j < n {
            assert(k.contains(k[j]));
        }
    }
    lemma_first_index_is(line, '=', n + 1);
    assert(line.take(n + 1) =~= k.push(' '));
    assert(is_white(' '));
    crate::chars::lemma_trim_noop(k);
    assert(trim(k.push(' ')) == k) by {
        assert(crate::chars::trim_start(k.push(' ')) == k.push(' '));
        crate::chars::lemma_trim_end_append(k, ' ');
    }
    assert(line.skip(n + 2) =~= seq![' '] + v);
    assert(trim(seq![' '] + v) == v) by {
        crate::chars::lemma_trim_start_prepend(' ', v);
        crate::chars::lemma_trim_noop(v);
    }
    assert forall|j: int| 0 <= j < line.len() implies line[j] != '\n' by {
        if j < n {
            assert(k.contains(k[j]));
        } else if j >= n + 3 {
            assert(v.contains(v[j - n - 3]));
        }
    }
    if v.len() > 0 {
        assert(line.last() == v.last());
        assert(is_white('\r'));
    }
}

proof fn lemma_record_lines_cons(keys: Seq<Seq<char>>, m: Map<Seq<char>, RecView>)
    requires
        keys.len() > 0,
    ensures
        record_lines(keys, m) == record_line(keys[0], m[keys[0]]) + record_lines(keys.skip(1), m),
    decreases keys.len(),
{
    if keys.len() == 1 {
        assert(keys.drop_last() =~= Seq::<Seq<char>>::empty());
        assert(keys.skip(1) =~= Seq::<Seq<char>>::empty());
        assert(record_lines(keys.drop_last(), m) =~= Seq::<char>::empty());
        assert(record_lines(keys, m) =~= record_line(keys[0], m[keys[0]]) + record_lines(
            keys.skip(1),
            m,
        ));
    } else {
        lemma_record_lines_cons(keys.drop_last(), m);
        assert(keys.drop_last().skip(1) =~= keys.skip(1).drop_last());
        assert(record_lines(keys, m) =~= record_line(keys[0], m[keys[0]]) + record_lines(
            keys.skip(1),
            m,
        ));
    }
}

proof fn lemma_records_of_cons(l: Seq<char>, ls: Seq<Seq<char>>)
    ensures
        records_of(seq![l] + ls) == (match record_of(l) {
            Some((k, v)) => if records_of(ls).contains_key(k) {
                records_of(ls)
            } else {
                records_of(ls).insert(k, v)
            },
            None => records_of(ls),
        }),
    decreases ls.len(),
{
    let all = seq![l] + ls;
    if ls.len() == 0 {
        assert(all.drop_last() =~= Seq::<Seq<char>>::empty());
        assert(records_of(all.drop_last()) =~= Map::empty());
    } else {
        lemma_records_of_cons(l, ls.drop_last());
        assert(all.drop_last() =~= seq![l] + ls.drop_last());
        assert(all.last() == ls.last());
        let m = records_of(ls.drop_last());
        match (record_of(l), record_of(ls.last())) {
            (Some((k, v)), Some((k2, v2))) => {
                if !m.contains_key(k) {
                    if k == k2 {
                        assert(m.insert(k, v).insert(k2, v2) =~= m.insert(k2, v2));
                    } else {
                        assert(m.insert(k, v).insert(k2, v2) =~= m.insert(k2, v2).insert(k, v));
                    }
                }
            },
            _ => {},
        }
    }
}

proof fn lemma_written_records(keys: Seq<Seq<char>>, m: Map<Seq<char>, RecView>)
    requires
        keys.no_duplicates(),
        forall|i: int| 0 <= i < keys.len() ==> tidy(#[trigger] keys[i], m[keys[i]]),
    ensures
        parsed(record_lines(keys, m)) == live(keys, m),
    decreases keys.len(),
{
    if keys.len() == 0 {
        assert(live(keys, m) =~= Map::empty());
    } else {
        let k = keys[0];
        let rest = keys.skip(1);
        lemma_record_lines_cons(keys, m);
        assert forall|i: int| 0 <= i < rest.len() implies tidy(#[trigger] rest[i], m[rest[i]]) by {
            assert(rest[i] == keys[i + 1]);
        }
        lemma_written_records(rest, m);
        assert forall|x: Seq<char>| #[trigger] keys.contains(x) <==> x == k || rest.contains(x) by {
            if keys.contains(x) && x != k {
                assert(rest[keys.index_of(x) - 1] == x);
            }
            if rest.contains(x) {
                assert(keys[rest.index_of(x) + 1] == x);
            }
        }
        if rest.contains(k) {
            assert(keys[rest.index_of(k) + 1] == keys[0]);
        }
        match m[k].value {
            Some(v) => {
                let line = k + seq![' ', '=', ' '] + v;
                lemma_tidy_line(k, m[k]);
                assert(record_line(k, m[k]) =~= line + seq!['\n']);
                lemma_lines_cons(line, record_lines(rest, m));
                lemma_records_of_cons(line, lines(record_lines(rest, m)));
                assert(live(keys, m) =~= live(rest, m).insert(k, v));
            },
            None => {
                assert(record_line(k, m[k]) + record_lines(rest, m) =~= record_lines(rest, m));
                assert(live(keys, m) =~= live(rest, m));
            },
        }
    }
}

/// Observing the canonical form of a replica's own file changes nothing, where
/// each record survives being written and read.
pub proof fn law_canonical_form_is_stable(m: Map<Seq<char>, RecView>)
    requires
        m.dom().finite(),
        forall|k: Seq<char>| #[trigger] m.contains_key(k) ==> tidy(k, m[k]),
    ensures
        observed(m, parsed(canonical(m))) == m,
{
    lemma_in_order_exists(m.dom());
    let keys = in_order(m.dom());
    crate::textmap::lemma_ascending_distinct(keys);
    assert forall|i: int| 0 <= i < keys.len() implies tidy(#[trigger] keys[i], m[keys[i]]) by {
        assert(keys.to_set().contains(keys[i]));
        assert(m.contains_key(keys[i]));
    }
    lemma_written_records(keys, m);
    assert forall|k: Seq<char>| keys.contains(k) <==> m.contains_key(k) by {
        assert(keys.to_set().contains(k) <==> m.dom().contains(k));
    }
    assert(observed(m, parsed(canonical(m))) =~= m);
}

/// The bytes of a canonical file are UTF-8, and decode to its text.
pub proof fn law_written_file_reads_back(m: Map<Seq<char>, RecView>)
    ensures
        vstd::utf8::valid_utf8(encode_utf8(canonical(m))),
        vstd::utf8::decode_utf8(encode_utf8(canonical(m))) == canonical(m),
{
    vstd::utf8::encode_utf8_valid_utf8(canonical(m));
    vstd::utf8::encode_utf8_decode_utf8(canonical(m));
}

/// Taking in two patches one after the other is taking in their entries in turn.
pub proof fn law_merges_add_up(m: Map<Seq<char>, RecView>, a: Seq<Entry>, b: Seq<Entry>)
    ensures
        merged(merged(m, a), b) == merged(m, a + b),
    decreases b.len(),
{
    if b.len() == 0 {
        assert(a + b =~= a);
    } else {
        law_merges_add_up(m, a, b.drop_last());
        assert((a + b).drop_last() =~= a + b.drop_last());
        assert((a + b).last() == b.last());
    }
}

/// The register is one of those that stand for the key before or in the patch.
pub open spec fn stands(
    m: Map<Seq<char>, RecView>,
    es: Set<Entry>,
    k: Seq<char>,
    r: RecView,
) -> bool {
    (m.contains_key(k) && r == m[k]) || es.contains((k, r.value, r.version))
}

proof fn lemma_wins_transitive(a: RecView, b: RecView, c: RecView)
    requires
        a.wins(b),
        b.wins(c),
    ensures
        a.wins(c),
{
    if a.version == b.version && b.version == c.version {
        crate::bytes::lemma_bytes_lt_transitive(c.hash(), b.hash(), a.hash());
    }
}

/// After a patch each key has the register that none of those that stand for it
/// wins over.
proof fn lemma_merged_is_best(m: Map<Seq<char>, RecView>, es: Seq<Entry>, k: Seq<char>)
    ensures
        merged(m, es).contains_key(k) <==> exists|r: RecView| stands(m, es.to_set(), k, r),
        merged(m, es).contains_key(k) ==> stands(m, es.to_set(), k, merged(m, es)[k]),
        merged(m, es).contains_key(k) ==> forall|r: RecView| #[trigger]
            stands(m, es.to_set(), k, r) ==> !r.wins(merged(m, es)[k]),
    decreases es.len(),
{
    if es.len() == 0 {
        if m.contains_key(k) {
            crate::bytes::lemma_bytes_lt_irreflexive(m[k].hash());
            assert(stands(m, es.to_set(), k, m[k]));
        }
    } else {
        let front = es.drop_last();
        let last = es.last();
        let rec = entry_rec(last);
        lemma_merged_is_best(m, front, k);
        assert forall|e: Entry| es.to_set().contains(e) <==> front.to_set().contains(e) || e
            == last by {
            if front.to_set().contains(e) {
                assert(es[front.index_of(e)] == e);
            }
            if e == last {
                assert(es[es.len() - 1] == e);
            }
            if es.to_set().contains(e) && e != last {
                assert(front[es.index_of(e)] == e);
            }
        }
        let before = merged(m, front);
        let now = merged(m, es);
        assert forall|r: RecView| #[trigger] stands(m, es.to_set(), k, r) <==> stands(
            m,
            front.to_set(),
            k,
            r,
        ) || (k == last.0 && r == rec) by {}
        if k == last.0 {
            assert(stands(m, es.to_set(), k, rec));
            crate::bytes::lemma_bytes_lt_irreflexive(rec.hash());
            if before.contains_key(k) {
                assert(stands(m, es.to_set(), k, before[k]));
                assert forall|r: RecView| #[trigger] stands(m, es.to_set(), k, r) implies !r.wins(
                    now[k],
                ) by {
                    if rec.wins(before[k]) && r.wins(rec) {
                        lemma_wins_transitive(r, rec, before[k]);
                    }
                }
            }
        } else if before.contains_key(k) {
            assert(stands(m, es.to_set(), k, before[k]));
        }
    }
}

/// What a replica has after some patches is a matter of the entries in them: their
/// order does not count, nor how often an entry comes. Different registers of one
/// key that share a stamp are left out.
pub proof fn law_patches_in_any_order(
    m: Map<Seq<char>, RecView>,
    a: Seq<Entry>,
    b: Seq<Entry>,
)
    requires
        a.to_set() == b.to_set(),
        forall|k: Seq<char>, x: RecView, y: RecView| #[trigger]
            stands(m, a.to_set(), k, x) && #[trigger] stands(m, a.to_set(), k, y) && x.version
                == y.version && x.hash() == y.hash() ==> x == y,
    ensures
        merged(m, a) == merged(m, b),
{
    let ra = merged(m, a);
    let rb = merged(m, b);
    assert forall|k: Seq<char>| #[trigger]
        ra.contains_key(k) <==> rb.contains_key(k) by {
        lemma_merged_is_best(m, a, k);
        lemma_merged_is_best(m, b, k);
    }
    assert forall|k: Seq<char>| #[trigger] ra.contains_key(k) implies ra[k] == rb[k] by {
        lemma_merged_is_best(m, a, k);
        lemma_merged_is_best(m, b, k);
        assert(rb.contains_key(k));
        let x = ra[k];
        let y = rb[k];
        assert(stands(m, a.to_set(), k, x) && stands(m, a.to_set(), k, y));
        assert(!x.wins(y) && !y.wins(x));
        if x.hash() != y.hash() {
            crate::bytes::lemma_bytes_lt_total(x.hash(), y.hash());
        }
    }
    assert(ra =~= rb);
}

/// A patch that is taken in again changes nothing, whatever came in between.
pub proof fn law_patches_again_change_nothing(
    m: Map<Seq<char>, RecView>,
    a: Seq<Entry>,
    b: Seq<Entry>,
)
    requires
        forall|k: Seq<char>, x: RecView, y: RecView| #[trigger]
            stands(m, (a + b).to_set(), k, x) && #[trigger] stands(m, (a + b).to_set(), k, y)
                && x.version == y.version && x.hash() == y.hash() ==> x == y,
    ensures
        merged(merged(merged(m, a), b), a) == merged(merged(m, a), b),
        merged(merged(m, a), b) == merged(merged(m, b), a),
{
    law_merges_add_up(m, a, b);
    law_merges_add_up(m, a + b, a);
    law_merges_add_up(m, b, a);
    lemma_both(a, b);
    lemma_both(a + b, a);
    lemma_both(b, a);
    assert((a + b + a).to_set() =~= (a + b).to_set());
    assert((b + a).to_set() =~= (a + b).to_set());
    law_patches_in_any_order(m, a + b, a + b + a);
    law_patches_in_any_order(m, a + b, b + a);
}

proof fn lemma_both(a: Seq<Entry>, b: Seq<Entry>)
    ensures
        forall|e: Entry| #[trigger]
            (a + b).to_set().contains(e) <==> a.to_set().contains(e) || b.to_set().contains(e),
{
    assert forall|e: Entry| #[trigger] (a + b).to_set().contains(e) <==> a.to_set().contains(e)
        || b.to_set().contains(e) by {
        if a.contains(e) {
            assert((a + b)[a.index_of(e)] == e);
        }
        if b.contains(e) {
            assert((a + b)[a.len() + b.index_of(e)] == e);
        }
        if (a + b).contains(e) {
            let i = (a + b).index_of(e);
            if i < a.len() {
                assert(a[i] == e);
            } else {
                assert(b[i - a.len()] == e);
            }
        }
    }
}

/// A line is a record where it has a key in front of its first `=` that is no comment,
/// however it is spaced; other lines say nothing.
pub proof fn law_records_are_read_from_their_lines(
    w1: Seq<char>,
    key: Seq<char>,
    w2: Seq<char>,
    w3: Seq<char>,
    value: Seq<char>,
    w4: Seq<char>,
    line: Seq<char>,
)
    requires
        forall|i: int| 0 <= i < w1.len() ==> is_white(#[trigger] w1[i]),
        forall|i: int| 0 <= i < w2.len() ==> is_white(#[trigger] w2[i]),
        forall|i: int| 0 <= i < w3.len() ==> is_white(#[trigger] w3[i]),
        forall|i: int| 0 <= i < w4.len() ==> is_white(#[trigger] w4[i]),
        is_trimmed(key) && !key.contains('='),
        is_trimmed(value),
        !line.contains('='),
    ensures
        key.len() > 0 && key[0] != '#' ==> record_of(
            w1 + key + w2 + seq!['='] + (w3 + value + w4),
        ) == Some((key, value)),
        key.len() == 0 || key[0] == '#' ==> record_of(
            w1 + key + w2 + seq!['='] + (w3 + value + w4),
        ) is None,
        record_of(line) is None,
{
    let front = w1 + key + w2;
    let back = w3 + value + w4;
    let all = front + seq!['='] + back;
    assert forall|j: int| 0 <= j < front.len() implies all[j] != '=' by {
        assert(all[j] == front[j]);
        if j < w1.len() {
            assert(is_white(w1[j]));
        } else if j < w1.len() + key.len() {
            assert(key.contains(key[j - w1.len()]));
        } else {
            assert(is_white(w2[j - w1.len() - key.len()]));
        }
    }
    lemma_first_index_is(all, '=', front.len() as int);
    assert(all.take(front.len() as int) =~= front);
    assert(all.skip(front.len() as int + 1) =~= back);
    law_trimming_takes_whitespace_from_the_ends(w1, key, w2);
    law_trimming_takes_whitespace_from_the_ends(w3, value, w4);
    assert forall|j: int| 0 <= j < line.len() implies line[j] != '=' by {
        assert(line.contains(line[j]));
    }
    lemma_first_index_is(line, '=', line.len() as int);
}

/// A file holds the records of its lines; the last of several for one key counts.
pub proof fn law_files_hold_the_records_of_their_lines(ls: Seq<Seq<char>>, line: Seq<char>)
    ensures
        records_of(Seq::empty()) == Map::<Seq<char>, Seq<char>>::empty(),
        record_of(line) matches Some((k, v)) ==> records_of(ls.push(line)) == records_of(ls).insert(
            k,
            v,
        ),
        record_of(line) is None ==> records_of(ls.push(line)) == records_of(ls),
{
    assert(ls.push(line).drop_last() =~= ls);
}

/// Looking at a file takes in what it says: a key that it has gets its value, one that it
/// no longer has is deleted, and a register gets a higher version exactly where its value
/// changed. No other register is touched.
pub proof fn law_observing_takes_in_the_file(
    m: Map<Seq<char>, RecView>,
    p: Map<Seq<char>, Seq<char>>,
    k: Seq<char>,
)
    requires
        m.contains_key(k) ==> m[k].version < u64::MAX,
    ensures
        observed(m, p).contains_key(k) <==> m.contains_key(k) || p.contains_key(k),
        p.contains_key(k) ==> observed(m, p)[k].value == Some(p[k]),
        m.contains_key(k) && !p.contains_key(k) ==> observed(m, p)[k].value is None,
        m.contains_key(k) && observed(m, p)[k].value == m[k].value ==> observed(m, p)[k] == m[k],
        m.contains_key(k) && observed(m, p)[k].value != m[k].value ==> observed(m, p)[k].version
            == m[k].version + 1,
        !m.contains_key(k) && p.contains_key(k) ==> observed(m, p)[k].version == 1,
        touched(m, p).contains(k) <==> observed(m, p).contains_key(k) && (!m.contains_key(k)
            || observed(m, p)[k] != m[k]),
{
}

/// Of two registers with different stamps exactly one wins; the higher version does
/// whatever the values are, and no register wins over itself.
pub proof fn law_one_register_wins(a: RecView, b: RecView)
    ensures
        a.version > b.version ==> a.wins(b) && !b.wins(a),
        a.version == b.version ==> (a.wins(b) <==> bytes_lt(b.hash(), a.hash())),
        a.version != b.version || a.hash() != b.hash() ==> (a.wins(b) <==> !b.wins(a)),
        !a.wins(a),
{
    crate::bytes::lemma_bytes_lt_irreflexive(a.hash());
    if a.hash() != b.hash() {
        crate::bytes::lemma_bytes_lt_total(a.hash(), b.hash());
        if bytes_lt(a.hash(), b.hash()) {
            crate::bytes::lemma_bytes_lt_asymmetric(a.hash(), b.hash());
        } else {
            crate::bytes::lemma_bytes_lt_asymmetric(b.hash(), a.hash());
        }
    }
}

/// A peer is sent the registers that win over its own or that it lacks, and no others.
pub proof fn law_only_winning_registers_are_sent(
    a: Map<Seq<char>, RecView>,
    b: Map<Seq<char>, RecView>,
    e: Entry,
)
    requires
        a.dom().finite(),
        b.dom().finite(),
    ensures
        entries_of(a, lacking(a, stamps_of(b))).contains(e) <==> a.contains_key(e.0) && e == (
            e.0,
            a[e.0].value,
            a[e.0].version,
        ) && (!b.contains_key(e.0) || a[e.0].wins(b[e.0])),
{
    let k = e.0;
    let keys = lacking(a, stamps_of(b));
    lemma_own_stamps(b, k);
    assert(keys.finite()) by {
        assert(keys.subset_of(a.dom()));
        vstd::set_lib::lemma_len_subset(keys, a.dom());
    }
    law_entries_are_those_of_the_keys(a, keys, e);
}

/// The entries of some keys are their registers, and nothing else.
pub proof fn law_entries_are_those_of_the_keys(
    m: Map<Seq<char>, RecView>,
    keys: Set<Seq<char>>,
    e: Entry,
)
    requires
        keys.finite(),
    ensures
        entries_of(m, keys).contains(e) <==> keys.contains(e.0) && e == (
            e.0,
            m[e.0].value,
            m[e.0].version,
        ),
{
    lemma_in_order_exists(keys);
    let ks = in_order(keys);
    let es = entries_of(m, keys);
    if es.contains(e) {
        let i = es.index_of(e);
        assert(ks.to_set().contains(ks[i]));
    }
    if keys.contains(e.0) && e == (e.0, m[e.0].value, m[e.0].version) {
        assert(ks.to_set().contains(e.0));
        let i = ks.index_of(e.0);
        assert(es[i] == e);
    }
}

} // verus!
