//! Database rows, cell by cell: each cell of a table is a register, and the latest
//! write wins.
//!
//! A write carries a logical time and the site that made it; the later time wins,
//! and among equal times the greater site. So writes to different columns of one
//! row both survive, and writes to one cell converge. What a database does with a
//! write is left to the caller; values are the caller's bytes.
use crate::bytes::copy_bytes;
use crate::chars::{chars_of, copy_text, same_text, text_less, text_lt};
use crate::ordered::{law_ordering_keeps_the_members, law_ordering_orders, place_in, stably_ordered};
use crate::syncer::{collect_numbers, last_of, numbers_view};
use crate::textmap::TextMap;
use std::collections::BTreeMap;
use vstd::prelude::*;

verus! {

/// A write to one cell.
pub struct CellChange {
    pub table: String,
    pub id: String,
    pub column: String,
    pub value: Vec<u8>,
    pub lamport: u64,
    pub site: String,
}

/// The latest time of each site that JSON text holds, if it holds such a map.
pub uninterp spec fn times_in(bytes: Seq<u8>) -> Option<Map<Seq<char>, u64>>;

/// `serde_json::from_slice` for a map from texts to numbers: the entries of the map
/// that the bytes hold, where they hold one.
#[verifier::external_body]
fn read_times(bytes: &[u8]) -> (r: Option<Vec<(String, u64)>>)
    ensures
        match r {
            Some(v) => times_in(bytes@) == Some(last_of(numbers_view(v@))),
            None => times_in(bytes@) is None,
        },
{
    let map: BTreeMap<String, u64> = serde_json::from_slice(bytes).ok()?;
    Some(map.into_iter().collect())
}

/// `serde_json::to_vec` on a map from texts to numbers: JSON text that reads back as
/// the map with these entries. Of two entries for one text the last counts.
#[verifier::external_body]
fn write_times(times: Vec<(String, u64)>) -> (r: Vec<u8>)
    ensures
        times_in(r@) == Some(last_of(numbers_view(times@))),
{
    let map: BTreeMap<String, u64> = times.into_iter().collect();
    serde_json::to_vec(&map).unwrap_or_default()
}

/// What a write says.
pub struct ChangeView {
    pub table: Seq<char>,
    pub id: Seq<char>,
    pub column: Seq<char>,
    pub value: Seq<u8>,
    pub lamport: u64,
    pub site: Seq<char>,
}

/// Which cell.
pub type CellKey = (Seq<char>, Seq<char>, Seq<char>);

impl View for CellChange {
    type V = ChangeView;

    open spec fn view(&self) -> ChangeView {
        ChangeView {
            table: self.table@,
            id: self.id@,
            column: self.column@,
            value: self.value@,
            lamport: self.lamport,
            site: self.site@,
        }
    }
}

/// What a list of writes says.
pub open spec fn changes(v: Seq<CellChange>) -> Seq<ChangeView> {
    v.map_values(|c: CellChange| c@)
}

/// Whether one stamp is later than another.
pub open spec fn later(l: u64, s: Seq<char>, m: u64, t: Seq<char>) -> bool {
    l > m || (l == m && text_lt(t, s))
}

impl ChangeView {
    /// The cell that is written.
    pub open spec fn cell(self) -> CellKey {
        (self.table, self.id, self.column)
    }

    /// Whether this write is later than another.
    pub open spec fn beats(self, other: ChangeView) -> bool {
        later(self.lamport, self.site, other.lamport, other.site)
    }
}

/// Whether a character may stand in an identifier, at its start or further on.
pub open spec fn ident_char(c: char, first: bool) -> bool {
    ||| c == '_'
    ||| 'a' <= c <= 'z'
    ||| 'A' <= c <= 'Z'
    ||| ('0' <= c <= '9' && !first)
}

/// Whether a text is an identifier: letters, digits and underscores, with no digit
/// first.
pub open spec fn ident(s: Seq<char>) -> bool {
    s.len() > 0 && forall|i: int| 0 <= i < s.len() ==> ident_char(#[trigger] s[i], i == 0)
}

/// Whether a text is an identifier. Only identifiers go into a statement as they
/// are.
pub fn is_ident(s: &str) -> (r: bool)
    ensures
        r == ident(s@),
{
    let cs = chars_of(s);
    let mut i: usize = 0;
    while i < cs.len()
        invariant
            i <= cs@.len(),
            cs@ == s@,
            forall|j: int| 0 <= j < i ==> ident_char(#[trigger] cs@[j], j == 0),
        decreases cs@.len() - i,
    {
        let c = cs[i];
        let ok = c == '_' || ('a' <= c && c <= 'z') || ('A' <= c && c <= 'Z') || ('0' <= c && c
            <= '9' && i != 0);
        if !ok {
            assert(!ident_char(cs@[i as int], i == 0));
            return false;
        }
        i += 1;
    }
    cs.len() > 0
}

/// Whether the stamp `(l, s)` is later than `(m, t)`.
pub fn is_later(l: u64, s: &str, m: u64, t: &str) -> (r: bool)
    ensures
        r == later(l, s@, m, t@),
{
    l > m || (l == m && text_less(t, s))
}

/// What becomes of a write.
#[derive(Debug, Clone, Copy, PartialEq, Eq, Structural)]
pub enum Verdict {
    /// Its table or column is no identifier: it is dropped.
    Refused,
    /// The cell has a later write: only the clock moves.
    Older,
    /// It is written to the cell and the log.
    Wins,
}

/// What becomes of a write to a cell with the given stamp.
pub open spec fn verdict(c: ChangeView, stored: Option<(u64, Seq<char>)>) -> Verdict {
    if !ident(c.table) || !ident(c.column) {
        Verdict::Refused
    } else {
        match stored {
            None => Verdict::Wins,
            Some((m, t)) => if later(c.lamport, c.site, m, t) {
                Verdict::Wins
            } else {
                Verdict::Older
            },
        }
    }
}

/// What becomes of a write to a cell with the given stamp, and the clock after
/// it: it is never behind a write that was seen.
pub fn judge(clock: u64, c: &CellChange, stored: Option<(u64, &str)>) -> (r: (Verdict, u64))
    ensures
        r.0 == verdict(
            c@,
            match stored {
                Some(p) => Some((p.0, p.1@)),
                None => None,
            },
        ),
        r.1 == (if r.0 != Verdict::Refused && c.lamport > clock {
            c.lamport
        } else {
            clock
        }),
{
    if !is_ident(c.table.as_str()) || !is_ident(c.column.as_str()) {
        return (Verdict::Refused, clock);
    }
    let now: u64 = if c.lamport > clock {
        c.lamport
    } else {
        clock
    };
    let wins = match stored {
        None => true,
        Some((m, t)) => is_later(c.lamport, c.site.as_str(), m, t),
    };
    if wins {
        (Verdict::Wins, now)
    } else {
        (Verdict::Older, now)
    }
}

/// A local write, with the next time on the clock, so that it wins.
pub fn local_change(
    clock: u64,
    site: &str,
    table: &str,
    id: &str,
    column: &str,
    value: Vec<u8>,
) -> (r: CellChange)
    requires
        clock < u64::MAX,
    ensures
        r@ == (ChangeView {
            table: table@,
            id: id@,
            column: column@,
            value: value@,
            lamport: (clock + 1) as u64,
            site: site@,
        }),
{
    CellChange {
        table: copy_text(table),
        id: copy_text(id),
        column: copy_text(column),
        value,
        lamport: clock + 1,
        site: copy_text(site),
    }
}

/// The latest time of each site in a log.
pub open spec fn is_vector(log: Seq<ChangeView>, vv: Map<Seq<char>, u64>) -> bool {
    &&& forall|s: Seq<char>| #[trigger]
        vv.contains_key(s) ==> exists|i: int|
            0 <= i < log.len() && (#[trigger] log[i]).site == s && log[i].lamport == vv[s]
    &&& forall|i: int|
        0 <= i < log.len() ==> vv.contains_key((#[trigger] log[i]).site) && log[i].lamport
            <= vv[log[i].site]
}

/// The latest time of each site in a log.
pub fn state_vector(log: &Vec<CellChange>) -> (r: TextMap<u64>)
    ensures
        r.wf(),
        is_vector(changes(log@), r@),
{
    let ghost all = changes(log@);
    let mut vv: TextMap<u64> = TextMap::new();
    let mut n: usize = 0;
    while n < log.len()
        invariant
            n <= log@.len(),
            all == changes(log@),
            vv.wf(),
            forall|s: Seq<char>| #[trigger]
                vv@.contains_key(s) ==> exists|i: int|
                    0 <= i < n && (#[trigger] all[i]).site == s && all[i].lamport == vv@[s],
            forall|i: int|
                0 <= i < n ==> vv@.contains_key((#[trigger] all[i]).site) && all[i].lamport
                    <= vv@[all[i].site],
        decreases log@.len() - n,
    {
        let c = &log[n];
        assert(all[n as int] == c@);
        let ghost before = vv@;
        let raise = match vv.get(c.site.as_str()) {
            Some(l) => c.lamport > *l,
            None => true,
        };
        if raise {
            vv.insert(c.site.as_str(), c.lamport);
        }
        assert forall|s: Seq<char>| #[trigger] vv@.contains_key(s) implies exists|i: int|
            0 <= i < n + 1 && (#[trigger] all[i]).site == s && all[i].lamport == vv@[s] by {
            if s == c.site@ && raise {
                assert(all[n as int].site == s && all[n as int].lamport == vv@[s]);
            } else {
                assert(before.contains_key(s));
                let i = choose|i: int|
                    0 <= i < n && (#[trigger] all[i]).site == s && all[i].lamport == before[s];
                assert(all[i].site == s && all[i].lamport == vv@[s]);
            }
        }
        n += 1;
    }
    vv
}

/// Whether the write at a place of a log is the one that counts for its cell: none
/// is later, and none of the same stamp came before.
pub open spec fn counts(log: Seq<ChangeView>, i: int) -> bool {
    forall|j: int|
        0 <= j < log.len() && (#[trigger] log[j]).cell() == log[i].cell() ==> !log[j].beats(log[i])
            && (j < i ==> log[i].beats(log[j]))
}

/// Whether the write at a place of a log is lacking to a peer that has each site's
/// writes up to the given time.
pub open spec fn is_lacking(log: Seq<ChangeView>, theirs: Map<Seq<char>, u64>, i: int) -> bool {
    counts(log, i) && log[i].lamport > (if theirs.contains_key(log[i].site) {
        theirs[log[i].site]
    } else {
        0
    })
}

/// The writes among the first `n` of a log that are lacking to a peer.
pub open spec fn lacking_upto(log: Seq<ChangeView>, theirs: Map<Seq<char>, u64>, n: int) -> Seq<
    ChangeView,
>
    decreases n,
{
    if n <= 0 {
        Seq::empty()
    } else {
        let front = lacking_upto(log, theirs, n - 1);
        if is_lacking(log, theirs, n - 1) {
            front.push(log[n - 1])
        } else {
            front
        }
    }
}

/// The order of writes: the earlier stamp first.
pub open spec fn stamp_order() -> spec_fn(ChangeView, ChangeView) -> bool {
    |a: ChangeView, b: ChangeView| b.beats(a)
}

/// The writes that a peer lacks, in the order of their stamps: for each cell the
/// one that counts.
pub open spec fn lacking(log: Seq<ChangeView>, theirs: Map<Seq<char>, u64>) -> Seq<ChangeView> {
    stably_ordered(lacking_upto(log, theirs, log.len() as int), stamp_order())
}

fn same_cell(a: &CellChange, b: &CellChange) -> (r: bool)
    ensures
        r == (a@.cell() == b@.cell()),
{
    same_text(a.id.as_str(), b.id.as_str()) && same_text(a.column.as_str(), b.column.as_str())
        && same_text(a.table.as_str(), b.table.as_str())
}

fn change_beats(a: &CellChange, b: &CellChange) -> (r: bool)
    ensures
        r == a@.beats(b@),
{
    is_later(a.lamport, a.site.as_str(), b.lamport, b.site.as_str())
}

fn copy_change(c: &CellChange) -> (r: CellChange)
    ensures
        r@ == c@,
{
    CellChange {
        table: copy_text(c.table.as_str()),
        id: copy_text(c.id.as_str()),
        column: copy_text(c.column.as_str()),
        value: copy_bytes(c.value.as_slice()),
        lamport: c.lamport,
        site: copy_text(c.site.as_str()),
    }
}

fn does_count(log: &Vec<CellChange>, i: usize) -> (r: bool)
    requires
        i < log@.len(),
    ensures
        r == counts(changes(log@), i as int),
{
    let ghost all = changes(log@);
    let mut j: usize = 0;
    while j < log.len()
        invariant
            j <= log@.len(),
            i < log@.len(),
            all == changes(log@),
            forall|k: int|
                0 <= k < j && (#[trigger] all[k]).cell() == all[i as int].cell() ==> !all[k].beats(
                    all[i as int],
                ) && (k < i ==> all[i as int].beats(all[k])),
        decreases log@.len() - j,
    {
        assert(all[j as int] == log@[j as int]@);
        assert(all[i as int] == log@[i as int]@);
        if same_cell(&log[j], &log[i]) {
            if change_beats(&log[j], &log[i]) {
                return false;
            }
            if j < i && !change_beats(&log[i], &log[j]) {
                return false;
            }
        }
        j += 1;
    }
    true
}

/// Puts a write in its place.
fn put_ordered(v: &mut Vec<CellChange>, c: CellChange)
    ensures
        changes(final(v)@) == changes(old(v)@).insert(
            place_in(changes(old(v)@), c@, stamp_order()),
            c@,
        ),
{
    let ghost lt = stamp_order();
    let ghost was = changes(v@);
    let ghost cv = c@;
    let mut p: usize = v.len();
    assert(was.take(p as int) =~= was);
    while p > 0 && change_beats(&v[p - 1], &c)
        invariant
            p <= v@.len(),
            v@ == old(v)@,
            was == changes(v@),
            cv == c@,
            lt == stamp_order(),
            place_in(was, cv, lt) == place_in(was.take(p as int), cv, lt),
        decreases p,
    {
        assert(was.take(p as int).last() == v@[p - 1]@);
        assert(was.take(p as int).drop_last() =~= was.take(p - 1));
        p -= 1;
    }
    proof {
        if p > 0 {
            assert(was.take(p as int).last() == v@[p - 1]@);
        }
        assert(place_in(was, cv, lt) == p);
    }
    let ghost raw = v@;
    v.insert(p, c);
    assert(changes(v@) =~= was.insert(p as int, cv));
}

/// The writes that a peer lacks which has each site's writes up to the given time:
/// for each cell the one that counts, in the order of their stamps.
pub fn delta_since(log: &Vec<CellChange>, theirs: &TextMap<u64>) -> (r: Vec<CellChange>)
    requires
        theirs.wf(),
    ensures
        changes(r@) == lacking(changes(log@), theirs@),
{
    let ghost all = changes(log@);
    let ghost lt = stamp_order();
    let mut out: Vec<CellChange> = Vec::new();
    let mut i: usize = 0;
    assert(changes(out@) =~= stably_ordered(lacking_upto(all, theirs@, 0), lt));
    while i < log.len()
        invariant
            i <= log@.len(),
            theirs.wf(),
            all == changes(log@),
            lt == stamp_order(),
            changes(out@) == stably_ordered(lacking_upto(all, theirs@, i as int), lt),
        decreases log@.len() - i,
    {
        assert(all[i as int] == log@[i as int]@);
        let known: u64 = match theirs.get(log[i].site.as_str()) {
            Some(l) => *l,
            None => 0,
        };
        if log[i].lamport > known && does_count(log, i) {
            let ghost front = lacking_upto(all, theirs@, i as int);
            put_ordered(&mut out, copy_change(&log[i]));
            assert(front.push(all[i as int]).drop_last() =~= front);
        }
        i += 1;
    }
    out
}

// ---------------------------------------------------------------------------
// Laws
// ---------------------------------------------------------------------------

/// The cells after a write.
pub open spec fn recorded(m: Map<CellKey, ChangeView>, c: ChangeView) -> Map<CellKey, ChangeView> {
    let stored = if m.contains_key(c.cell()) {
        Some((m[c.cell()].lamport, m[c.cell()].site))
    } else {
        None
    };
    if verdict(c, stored) == Verdict::Wins {
        m.insert(c.cell(), c)
    } else {
        m
    }
}

/// Writes can arrive in either order and more than once, unless two different
/// ones to one cell carry the same stamp.
pub proof fn law_writes_commute(m: Map<CellKey, ChangeView>, a: ChangeView, b: ChangeView)
    requires
        a.cell() == b.cell() && a.lamport == b.lamport && a.site == b.site ==> a == b,
    ensures
        recorded(recorded(m, a), a) == recorded(m, a),
        recorded(recorded(m, a), b) == recorded(recorded(m, b), a),
{
    crate::chars::lemma_text_lt_irreflexive(a.site);
    if a.site != b.site {
        crate::chars::lemma_text_lt_total(a.site, b.site);
        if text_lt(a.site, b.site) {
            crate::chars::lemma_text_lt_asymmetric(a.site, b.site);
        } else {
            crate::chars::lemma_text_lt_asymmetric(b.site, a.site);
        }
    }
    if m.contains_key(a.cell()) {
        let s = m[a.cell()].site;
        if a.site != s {
            crate::chars::lemma_text_lt_total(a.site, s);
        }
        if text_lt(s, a.site) && text_lt(a.site, b.site) {
            crate::chars::lemma_text_lt_transitive(s, a.site, b.site);
        }
        if text_lt(s, b.site) && text_lt(b.site, a.site) {
            crate::chars::lemma_text_lt_transitive(s, b.site, a.site);
        }
    }
    assert(recorded(recorded(m, a), b) =~= recorded(recorded(m, b), a));
}

/// Writes to different cells do not touch each other.
pub proof fn law_other_cells_stay(m: Map<CellKey, ChangeView>, c: ChangeView, k: CellKey)
    requires
        k != c.cell(),
    ensures
        recorded(m, c).contains_key(k) <==> m.contains_key(k),
        m.contains_key(k) ==> recorded(m, c)[k] == m[k],
{
}

/// The entries of a map from texts to numbers.
fn entries(m: &TextMap<u64>) -> (r: Vec<(String, u64)>)
    requires
        m.wf(),
    ensures
        last_of(numbers_view(r@)) == m@,
{
    let ghost keys = m.keys();
    let mut out: Vec<(String, u64)> = Vec::new();
    let mut i: usize = 0;
    while i < m.len()
        invariant
            i <= keys.len(),
            keys == m.keys(),
            m.wf(),
            forall|k: Seq<char>| #[trigger]
                last_of(numbers_view(out@)).contains_key(k) <==> keys.take(i as int).contains(k),
            forall|k: Seq<char>| #[trigger]
                last_of(numbers_view(out@)).contains_key(k) ==> last_of(numbers_view(out@))[k]
                    == m@[k],
        decreases keys.len() - i,
    {
        let ghost before = numbers_view(out@);
        out.push((copy_text(m.key(i)), *m.value(i)));
        proof {
            let now = numbers_view(out@);
            assert(now.drop_last() =~= before);
            assert(now.last() == (keys[i as int], m@[keys[i as int]]));
            let a = keys.take(i as int);
            assert(keys.take(i + 1) =~= a.push(keys[i as int]));
            assert(last_of(now) == last_of(before).insert(keys[i as int], m@[keys[i as int]]));
            assert forall|k: Seq<char>| #[trigger]
                last_of(now).contains_key(k) <==> keys.take(i + 1).contains(k) by {
                assert(last_of(before).contains_key(k) <==> a.contains(k));
                if a.contains(k) {
                    assert(a.push(keys[i as int])[a.index_of(k)] == k);
                }
                assert(a.push(keys[i as int])[i as int] == keys[i as int]);
                if keys.take(i + 1).contains(k) && k != keys[i as int] {
                    assert(a[keys.take(i + 1).index_of(k)] == k);
                }
            }
        }
        i += 1;
    }
    proof {
        m.lemma_keys();
        assert(keys.take(i as int) =~= keys);
        assert forall|k: Seq<char>| keys.contains(k) <==> m@.contains_key(k) by {
            assert(keys.to_set().contains(k) <==> m@.dom().contains(k));
        }
        assert(last_of(numbers_view(out@)) =~= m@);
    }
    out
}

/// The latest time of each site in a log, as it is sent to a peer.
pub fn state_bytes(log: &Vec<CellChange>) -> (r: Vec<u8>)
    ensures
        times_in(r@) matches Some(vv) && is_vector(changes(log@), vv),
{
    let vv = state_vector(log);
    write_times(entries(&vv))
}

/// The writes that a peer lacks which sent the given times. One whose times cannot
/// be read is taken to have none.
pub fn delta_for(log: &Vec<CellChange>, theirs: &[u8]) -> (r: Vec<CellChange>)
    ensures
        changes(r@) == lacking(
            changes(log@),
            match times_in(theirs@) {
                Some(m) => m,
                None => Map::empty(),
            },
        ),
{
    let vv: TextMap<u64> = match read_times(theirs) {
        Some(v) => collect_numbers(&v),
        None => TextMap::new(),
    };
    assert(times_in(theirs@) is None ==> vv@ =~= Map::empty());
    delta_since(log, &vv)
}

/// A local write wins over everything that the clock has seen.
pub proof fn law_local_writes_win(c: ChangeView, m: u64, t: Seq<char>)
    requires
        ident(c.table),
        ident(c.column),
        m < c.lamport,
    ensures
        verdict(c, Some((m, t))) == Verdict::Wins,
{
}

/// The later time wins, and among equal times the site whose name comes later; of two
/// different stamps exactly one is later.
pub proof fn law_one_stamp_is_later(l: u64, s: Seq<char>, m: u64, t: Seq<char>)
    ensures
        l > m ==> later(l, s, m, t) && !later(m, t, l, s),
        l == m ==> (later(l, s, m, t) <==> text_lt(t, s)),
        l != m || s != t ==> (later(l, s, m, t) <==> !later(m, t, l, s)),
        !later(l, s, l, s),
{
    crate::chars::lemma_text_lt_irreflexive(s);
    if s != t {
        crate::chars::lemma_text_lt_total(s, t);
        if text_lt(s, t) {
            crate::chars::lemma_text_lt_asymmetric(s, t);
        } else {
            crate::chars::lemma_text_lt_asymmetric(t, s);
        }
    }
}

proof fn lemma_beats(a: ChangeView, b: ChangeView, c: ChangeView)
    ensures
        a.beats(b) ==> !b.beats(a),
        !a.beats(b) && !b.beats(c) ==> !a.beats(c),
{
    law_one_stamp_is_later(a.lamport, a.site, b.lamport, b.site);
    law_one_stamp_is_later(b.lamport, b.site, c.lamport, c.site);
    law_one_stamp_is_later(a.lamport, a.site, c.lamport, c.site);
    if text_lt(c.site, a.site) && b.site != a.site && text_lt(a.site, b.site) {
        crate::chars::lemma_text_lt_transitive(c.site, a.site, b.site);
    }
    if a.site != b.site {
        crate::chars::lemma_text_lt_total(a.site, b.site);
    }
}

/// The cells after writes, one after the other.
pub open spec fn recorded_all(m: Map<CellKey, ChangeView>, cs: Seq<ChangeView>) -> Map<
    CellKey,
    ChangeView,
>
    decreases cs.len(),
{
    if cs.len() == 0 {
        m
    } else {
        recorded(recorded_all(m, cs.drop_last()), cs.last())
    }
}

/// Whether a write can go into a cell: its table and its column are names.
pub open spec fn can_go_in(c: ChangeView) -> bool {
    verdict(c, None) == Verdict::Wins
}

/// After writes a cell has one of those that were made to it, or what it had, and none of
/// them is later.
pub proof fn law_the_latest_write_stays(
    m: Map<CellKey, ChangeView>,
    cs: Seq<ChangeView>,
    k: CellKey,
)
    requires
        m.contains_key(k) ==> m[k].cell() == k,
    ensures
        recorded_all(m, cs).contains_key(k) <==> m.contains_key(k) || exists|i: int|
            0 <= i < cs.len() && (#[trigger] cs[i]).cell() == k && can_go_in(cs[i]),
        recorded_all(m, cs).contains_key(k) ==> {
            let r = recorded_all(m, cs)[k];
            &&& r.cell() == k
            &&& (m.contains_key(k) && r == m[k]) || (cs.contains(r) && can_go_in(r))
            &&& m.contains_key(k) ==> !m[k].beats(r)
            &&& forall|i: int|
                0 <= i < cs.len() && (#[trigger] cs[i]).cell() == k && can_go_in(cs[i])
                    ==> !cs[i].beats(r)
        },
    decreases cs.len(),
{
    if cs.len() == 0 {
        if m.contains_key(k) {
            law_one_stamp_is_later(m[k].lamport, m[k].site, m[k].lamport, m[k].site);
        }
    } else {
        let front = cs.drop_last();
        let c = cs.last();
        law_the_latest_write_stays(m, front, k);
        let before = recorded_all(m, front);
        let now = recorded_all(m, cs);
        assert(cs[cs.len() - 1] == c);
        assert forall|x: ChangeView| front.contains(x) implies cs.contains(x) by {
            assert(cs[front.index_of(x)] == x);
        }
        assert(cs.contains(c));
        assert forall|i: int| 0 <= i < front.len() implies front[i] == cs[i] by {}
        if before.contains_key(k) {
            if m.contains_key(k) {
            } else {
                let i = choose|i: int|
                    0 <= i < front.len() && (#[trigger] front[i]).cell() == k && can_go_in(front[i]);
                assert(cs[i].cell() == k);
            }
        }
        if now.contains_key(k) && !before.contains_key(k) {
            assert(c.cell() == k);
        }
        if c.cell() == k && can_go_in(c) {
            law_one_stamp_is_later(c.lamport, c.site, c.lamport, c.site);
            if before.contains_key(k) {
                let b = before[k];
                assert forall|i: int|
                    0 <= i < cs.len() && (#[trigger] cs[i]).cell() == k && can_go_in(
                        cs[i],
                    ) implies !cs[i].beats(now[k]) by {
                    if i < front.len() {
                        assert(front[i] == cs[i]);
                        lemma_beats(cs[i], b, c);
                        lemma_beats(c, b, cs[i]);
                    }
                }
                if m.contains_key(k) {
                    lemma_beats(m[k], b, c);
                    lemma_beats(c, b, m[k]);
                }
            }
        }
    }
}

/// The writes that a peer lacks are those of the log that no write to their cell is later
/// than, and whose time is past what the peer has from their site. They come in the order
/// of their stamps.
pub proof fn law_lacking_writes_are_the_latest(
    log: Seq<ChangeView>,
    theirs: Map<Seq<char>, u64>,
    c: ChangeView,
)
    requires
        forall|i: int, j: int|
            0 <= i < log.len() && 0 <= j < log.len() && (#[trigger] log[i]).cell() == (
            #[trigger] log[j]).cell() && log[i].lamport == log[j].lamport && log[i].site
                == log[j].site ==> log[i] == log[j],
    ensures
        lacking(log, theirs).contains(c) <==> {
            &&& log.contains(c)
            &&& forall|j: int|
                0 <= j < log.len() && (#[trigger] log[j]).table == c.table && log[j].id == c.id
                    && log[j].column == c.column ==> !log[j].beats(c)
            &&& if theirs.contains_key(c.site) {
                c.lamport > theirs[c.site]
            } else {
                c.lamport > 0
            }
        },
        forall|i: int, j: int|
            0 <= i < j < lacking(log, theirs).len() ==> !(#[trigger] lacking(log, theirs)[i]).beats(
                #[trigger] lacking(log, theirs)[j],
            ),
{
    let n = log.len() as int;
    let chosen = lacking_upto(log, theirs, n);
    let lt = stamp_order();
    law_ordering_keeps_the_members(chosen, lt);
    assert forall|a: ChangeView, b: ChangeView, d: ChangeView| !#[trigger] lt(a, b)
        && !#[trigger] lt(b, d) implies !lt(a, d) by {
        lemma_beats(d, b, a);
    }
    assert forall|a: ChangeView, b: ChangeView| #[trigger] lt(a, b) implies !lt(b, a) by {
        lemma_beats(b, a, a);
    }
    law_ordering_orders(chosen, lt);
    lemma_chosen(log, theirs, n, c);
    if chosen.contains(c) {
        let i = choose|i: int| 0 <= i < n && log[i] == c && is_lacking(log, theirs, i);
        assert(log.contains(c));
        assert forall|j: int|
            0 <= j < log.len() && (#[trigger] log[j]).table == c.table && log[j].id == c.id
                && log[j].column == c.column implies !log[j].beats(c) by {
            assert(log[j].cell() == log[i].cell());
        }
    }
    let past = if theirs.contains_key(c.site) {
        c.lamport > theirs[c.site]
    } else {
        c.lamport > 0
    };
    if log.contains(c) && past && forall|j: int|
        0 <= j < log.len() && (#[trigger] log[j]).table == c.table && log[j].id == c.id
            && log[j].column == c.column ==> !log[j].beats(c) {
        let i = lemma_first_of(log, c, log.index_of(c));
        assert forall|j: int| 0 <= j < log.len() && (#[trigger] log[j]).cell() == log[i].cell()
            implies !log[j].beats(log[i]) && (j < i ==> log[i].beats(log[j])) by {
            assert(log[j].table == c.table && log[j].id == c.id && log[j].column == c.column);
            if j < i {
                law_one_stamp_is_later(c.lamport, c.site, log[j].lamport, log[j].site);
                if c.lamport == log[j].lamport && c.site == log[j].site {
                    assert(log[i] == log[j]);
                }
            }
        }
        assert(is_lacking(log, theirs, i));
    }
}

proof fn lemma_first_of(log: Seq<ChangeView>, c: ChangeView, k: int) -> (i: int)
    requires
        0 <= k < log.len(),
        log[k] == c,
    ensures
        0 <= i <= k,
        log[i] == c,
        forall|j: int| 0 <= j < i ==> #[trigger] log[j] != c,
    decreases k,
{
    if exists|j: int| 0 <= j < k && #[trigger] log[j] == c {
        let j = choose|j: int| 0 <= j < k && #[trigger] log[j] == c;
        lemma_first_of(log, c, j)
    } else {
        k
    }
}

proof fn lemma_chosen(
    log: Seq<ChangeView>,
    theirs: Map<Seq<char>, u64>,
    n: int,
    c: ChangeView,
)
    requires
        0 <= n <= log.len(),
    ensures
        lacking_upto(log, theirs, n).contains(c) <==> exists|i: int|
            0 <= i < n && #[trigger] log[i] == c && is_lacking(log, theirs, i),
    decreases n,
{
    if n > 0 {
        lemma_chosen(log, theirs, n - 1, c);
        let front = lacking_upto(log, theirs, n - 1);
        let all = lacking_upto(log, theirs, n);
        if all.contains(c) {
            let k = all.index_of(c);
            if k < front.len() {
                assert(front[k] == c);
            } else {
                assert(log[n - 1] == c);
            }
        }
        if exists|i: int| 0 <= i < n && #[trigger] log[i] == c && is_lacking(log, theirs, i) {
            let i = choose|i: int| 0 <= i < n && #[trigger] log[i] == c && is_lacking(log, theirs, i);
            if i < n - 1 {
                assert(all[front.index_of(c)] == c);
            } else {
                assert(all[front.len() as int] == c);
            }
        }
    }
}

/// What a peer is sent brings it up to date: a peer that has seen all writes of the log
/// that its times cover, and records what it lacks, then has in every cell what it would
/// have had it recorded the whole log. Different writes to one cell with the same stamp
/// are left out.
pub proof fn law_lacking_writes_bring_up_to_date(
    m: Map<CellKey, ChangeView>,
    log: Seq<ChangeView>,
    theirs: Map<Seq<char>, u64>,
)
    requires
        forall|k: CellKey| #[trigger] m.contains_key(k) ==> m[k].cell() == k,
        forall|i: int, j: int|
            0 <= i < log.len() && 0 <= j < log.len() && (#[trigger] log[i]).cell() == (
            #[trigger] log[j]).cell() && log[i].lamport == log[j].lamport && log[i].site
                == log[j].site ==> log[i] == log[j],
        forall|i: int|
            0 <= i < log.len() && m.contains_key((#[trigger] log[i]).cell()) && m[log[i].cell()].lamport
                == log[i].lamport && m[log[i].cell()].site == log[i].site ==> m[log[i].cell()]
                == log[i],
        forall|i: int|
            0 <= i < log.len() && can_go_in(#[trigger] log[i]) && log[i].lamport <= (
            if theirs.contains_key(log[i].site) {
                theirs[log[i].site]
            } else {
                0
            }) ==> m.contains_key(log[i].cell()) && !log[i].beats(m[log[i].cell()]),
    ensures
        recorded_all(m, lacking(log, theirs)) == recorded_all(m, log),
{
    let sent = lacking(log, theirs);
    let a = recorded_all(m, sent);
    let b = recorded_all(m, log);
    assert forall|k: CellKey|
        (#[trigger] a.contains_key(k) <==> b.contains_key(k)) && (a.contains_key(k) ==> a[k]
            == b[k]) by {
        law_the_latest_write_stays(m, sent, k);
        law_the_latest_write_stays(m, log, k);
        assert forall|i: int| 0 <= i < sent.len() implies log.contains(#[trigger] sent[i]) by {
            assert(sent.contains(sent[i]));
            law_lacking_writes_are_the_latest(log, theirs, sent[i]);
        }
        if a.contains_key(k) && !m.contains_key(k) {
            let i = choose|i: int|
                0 <= i < sent.len() && (#[trigger] sent[i]).cell() == k && can_go_in(sent[i]);
            let j = log.index_of(sent[i]);
            assert(log[j].cell() == k && can_go_in(log[j]));
        }
        if b.contains_key(k) {
            let r = b[k];
            let mine = m.contains_key(k) && r == m[k];
            if !mine {
                // The write that counts in the log was sent, or was there.
                assert(log.contains(r) && can_go_in(r));
                let j = log.index_of(r);
                law_lacking_writes_are_the_latest(log, theirs, r);
                assert forall|i: int|
                    0 <= i < log.len() && (#[trigger] log[i]).table == r.table && log[i].id == r.id
                        && log[i].column == r.column implies !log[i].beats(r) by {
                    assert(log[i].cell() == k);
                    assert(can_go_in(log[i]));
                }
                if sent.contains(r) {
                    let i = sent.index_of(r);
                    assert(sent[i].cell() == k);
                } else {
                    assert(m.contains_key(k) && !log[j].beats(m[k]));
                    law_one_stamp_is_later(r.lamport, r.site, m[k].lamport, m[k].site);
                    assert(m[k] == log[j]);
                }
            }
        }
        if a.contains_key(k) && b.contains_key(k) {
            let x = a[k];
            let y = b[k];
            if x != y {
                if sent.contains(x) && can_go_in(x) {
                    let i = sent.index_of(x);
                    assert(log.contains(sent[i]));
                    let j = log.index_of(x);
                    assert(log[j].cell() == k);
                }
                assert(!x.beats(y));
                if log.contains(y) && can_go_in(y) && !(m.contains_key(k) && y == m[k]) {
                    assert(sent.contains(y));
                    let i = sent.index_of(y);
                    assert(sent[i].cell() == k);
                }
                assert(!y.beats(x));
                law_one_stamp_is_later(x.lamport, x.site, y.lamport, y.site);
                if log.contains(x) {
                    let i = log.index_of(x);
                    assert(log[i].cell() == k);
                }
                if log.contains(y) {
                    let i = log.index_of(y);
                    assert(log[i].cell() == k);
                }
            }
        }
    }
    assert(a =~= b);
}

/// A write goes into a cell only where its table and its column are words of letters,
/// digits and underscores that do not start with a digit; then it wins exactly where the
/// cell has no stamp, or an earlier one.
pub proof fn law_only_words_name_cells(c: ChangeView, stored: Option<(u64, Seq<char>)>, s: Seq<char>)
    ensures
        ident(s) <==> s.len() > 0 && !('0' <= s[0] <= '9') && forall|i: int|
            0 <= i < s.len() ==> (#[trigger] s[i]) == '_' || 'a' <= s[i] <= 'z' || 'A' <= s[i] <= 'Z'
                || '0' <= s[i] <= '9',
        verdict(c, stored) == Verdict::Refused <==> !ident(c.table) || !ident(c.column),
        ident(c.table) && ident(c.column) ==> (verdict(c, stored) == Verdict::Wins <==> (
        stored matches Some((m, t)) ==> later(c.lamport, c.site, m, t))),
{
}

} // verus!
