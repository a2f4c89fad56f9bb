//! Rooms in which two peers find each other. The server passes on what they say
//! without looking at it.
use crate::chars::{
    chars_of, copy_chars, copy_text, deep, law_pieces_add_up, law_pieces_are_between_separators,
    push_text, split, split_chars, starts_with_chars, string_of,
};
use crate::textmap::TextMap;
use vstd::prelude::*;
use vstd::slice::slice_subrange;
use vstd::utf8::encode_utf8;

verus! {

/// How many rooms there can be at a time.
pub const MAX_ROOMS: usize = 50000;

/// How many bytes the name of a room can have.
pub const MAX_ROOM_ID_LEN: usize = 128;

/// The room that a query names: the value of its last `room`, or nothing.
pub open spec fn room_in(parts: Seq<Seq<char>>) -> Seq<char>
    decreases parts.len(),
{
    if parts.len() == 0 {
        Seq::empty()
    } else if "room="@.is_prefix_of(parts.last()) {
        parts.last().skip(5)
    } else {
        room_in(parts.drop_last())
    }
}

/// The room that a query names, if it names one that can be used: one that is not
/// empty and not too long.
pub open spec fn room_of(query: Option<Seq<char>>) -> Option<Seq<char>> {
    match query {
        None => None,
        Some(q) => {
            let room = room_in(split(q, '&'));
            if room.len() == 0 || encode_utf8(room).len() > MAX_ROOM_ID_LEN {
                None
            } else {
                Some(room)
            }
        },
    }
}

/// The room that a query names, if it names one that can be used.
pub fn room_from_query(query: Option<&str>) -> (r: Option<String>)
    ensures
        ({
            let want = room_of(
                match query {
                    Some(q) => Some(q@),
                    None => None,
                },
            );
            match r {
                Some(s) => want == Some(s@),
                None => want is None,
            }
        }),
{
    let q = match query {
        Some(q) => q,
        None => {
            return None;
        },
    };
    let cs = chars_of(q);
    let parts = split_chars(cs.as_slice(), '&');
    let ghost all = deep(parts@);
    let key = chars_of("room=");
    proof {
        reveal_strlit("room=");
    }
    let mut room: Vec<char> = Vec::new();
    let mut i: usize = 0;
    assert(room@ =~= room_in(all.take(0)));
    while i < parts.len()
        invariant
            i <= parts@.len(),
            all == deep(parts@),
            key@ == "room="@,
            key@.len() == 5,
            room@ == room_in(all.take(i as int)),
        decreases parts@.len() - i,
    {
        assert(all.take(i + 1).drop_last() =~= all.take(i as int));
        assert(all.take(i + 1).last() == parts@[i as int]@);
        let part = parts[i].as_slice();
        if starts_with_chars(part, key.as_slice()) {
            let rest = slice_subrange(part, 5, part.len());
            assert(rest@ =~= part@.skip(5));
            room = copy_chars(rest);
        }
        i += 1;
    }
    assert(all.take(i as int) =~= all);
    if room.len() == 0 {
        return None;
    }
    let name = string_of(room.as_slice());
    let bytes = crate::bytes::text_bytes(name.as_str());
    if bytes.len() > MAX_ROOM_ID_LEN {
        None
    } else {
        Some(name)
    }
}

/// A message for one peer.
pub struct Note {
    pub to: u64,
    pub text: String,
}

/// What a message says.
pub open spec fn note_views(v: Seq<Note>) -> Seq<(u64, Seq<char>)> {
    v.map_values(|n: Note| (n.to, n.text@))
}

/// The message that tells a peer its role.
pub open spec fn role_text(role: Seq<char>) -> Seq<char> {
    "{\"type\":\"role\",\"role\":\""@ + role + "\"}"@
}

/// The message that tells a peer why it was not let in.
pub open spec fn error_text(error: Seq<char>) -> Seq<char> {
    "{\"type\":\"error\",\"error\":\""@ + error + "\"}"@
}

/// The message that tells a peer that the other left.
pub open spec fn left_text() -> Seq<char> {
    "{\"type\":\"peer-left\"}"@
}

/// The message that tells a peer its role.
pub fn role_msg(role: &str) -> (r: String)
    ensures
        r@ == role_text(role@),
{
    let mut cs = chars_of("{\"type\":\"role\",\"role\":\"");
    push_text(&mut cs, role);
    push_text(&mut cs, "\"}");
    assert(cs@ =~= role_text(role@));
    string_of(cs.as_slice())
}

/// The message that tells a peer why it was not let in.
pub fn err_msg(error: &str) -> (r: String)
    ensures
        r@ == error_text(error@),
{
    let mut cs = chars_of("{\"type\":\"error\",\"error\":\"");
    push_text(&mut cs, error);
    push_text(&mut cs, "\"}");
    assert(cs@ =~= error_text(error@));
    string_of(cs.as_slice())
}

/// All rooms that are in use, with the peers in each, in the order in which they
/// came.
pub struct Rooms {
    rooms: TextMap<Vec<u64>>,
}

/// The peers of each room.
pub open spec fn room_views(m: Map<Seq<char>, Vec<u64>>) -> Map<Seq<char>, Seq<u64>> {
    m.map_values(|v: Vec<u64>| v@)
}

impl View for Rooms {
    type V = Map<Seq<char>, Seq<u64>>;

    closed spec fn view(&self) -> Map<Seq<char>, Seq<u64>> {
        room_views(self.rooms@)
    }
}

/// The peers of a list but one.
pub open spec fn others(peers: Seq<u64>, id: u64) -> Seq<u64>
    decreases peers.len(),
{
    if peers.len() == 0 {
        Seq::empty()
    } else if peers.last() == id {
        others(peers.drop_last(), id)
    } else {
        others(peers.drop_last(), id).push(peers.last())
    }
}

/// The outcome of a peer's wish to join a room: the rooms, whether it is in, and
/// the messages to send. A room holds two; with the second the pair is complete,
/// and the newcomer makes the offer.
pub open spec fn joined(m: Map<Seq<char>, Seq<u64>>, room: Seq<char>, id: u64) -> (
    Map<Seq<char>, Seq<u64>>,
    bool,
    Seq<(u64, Seq<char>)>,
) {
    if m.contains_key(room) && m[room].len() >= 2 {
        (m, false, seq![(id, error_text("room full"@))])
    } else if !m.contains_key(room) && m.dom().len() >= MAX_ROOMS {
        (m, false, seq![(id, error_text("server at capacity"@))])
    } else {
        let peers = if m.contains_key(room) {
            m[room].push(id)
        } else {
            seq![id]
        };
        (
            m.insert(room, peers),
            true,
            if peers.len() == 2 {
                seq![(peers[1], role_text("offerer"@)), (peers[0], role_text("answerer"@))]
            } else {
                Seq::empty()
            },
        )
    }
}

/// The rooms after a peer left one, and the messages to send: who stays is told,
/// and an empty room is gone.
pub open spec fn parted(m: Map<Seq<char>, Seq<u64>>, room: Seq<char>, id: u64) -> (
    Map<Seq<char>, Seq<u64>>,
    Seq<(u64, Seq<char>)>,
) {
    if !m.contains_key(room) {
        (m, Seq::empty())
    } else {
        let rest = others(m[room], id);
        (
            if rest.len() == 0 {
                m.remove(room)
            } else {
                m.insert(room, rest)
            },
            rest.map_values(|p: u64| (p, left_text())),
        )
    }
}

fn others_of(peers: &Vec<u64>, id: u64) -> (r: Vec<u64>)
    ensures
        r@ == others(peers@, id),
{
    let mut out: Vec<u64> = Vec::new();
    let mut i: usize = 0;
    while i < peers.len()
        invariant
            i <= peers@.len(),
            out@ == others(peers@.take(i as int), id),
        decreases peers@.len() - i,
    {
        assert(peers@.take(i + 1).drop_last() =~= peers@.take(i as int));
        assert(peers@.take(i + 1).last() == peers@[i as int]);
        if peers[i] != id {
            out.push(peers[i]);
        }
        i += 1;
    }
    assert(peers@.take(i as int) =~= peers@);
    out
}

fn one_note(to: u64, text: String) -> (r: Vec<Note>)
    ensures
        note_views(r@) == seq![(to, text@)],
{
    let mut out: Vec<Note> = Vec::new();
    let ghost t = text@;
    out.push(Note { to, text });
    assert(note_views(out@) =~= seq![(to, t)]);
    out
}

impl Rooms {
    /// The rooms are in order, none is empty and none holds more than two.
    pub closed spec fn wf(&self) -> bool {
        &&& self.rooms.wf()
        &&& forall|k: Seq<char>| #[trigger]
            self.rooms@.contains_key(k) ==> 1 <= self.rooms@[k]@.len() <= 2
    }

    /// No room is in use.
    pub fn new() -> (r: Self)
        ensures
            r.wf(),
            r@ == Map::<Seq<char>, Seq<u64>>::empty(),
    {
        let r = Rooms { rooms: TextMap::new() };
        assert(r@ =~= Map::empty());
        r
    }

    /// No room in use holds more than two peers, and none is empty.
    pub proof fn law_rooms_in_use_hold_two(&self)
        requires
            self.wf(),
        ensures
            forall|k: Seq<char>| #[trigger] self@.contains_key(k) ==> 1 <= self@[k].len() <= 2,
    {
        assert forall|k: Seq<char>| #[trigger] self@.contains_key(k) implies 1 <= self@[k].len()
            <= 2 by {
            assert(self.rooms@.contains_key(k));
        }
    }

    /// A peer wishes to join a room. True if it is in.
    pub fn join(&mut self, room: &str, id: u64) -> (r: (bool, Vec<Note>))
        requires
            old(self).wf(),
        ensures
            final(self).wf(),
            (final(self)@, r.0, note_views(r.1@)) == joined(old(self)@, room@, id),
    {
        let ghost m = self@;
        let ghost raw = self.rooms@;
        proof {
            self.rooms.lemma_keys();
            assert(m.dom() =~= raw.dom());
            crate::textmap::lemma_ascending_distinct(self.rooms.keys());
            self.rooms.keys().unique_seq_to_set();
        }
        let first: Option<u64> = match self.rooms.get(room) {
            Some(peers) => {
                assert(raw.contains_key(room@));
                if peers.len() >= 2 {
                    return (false, one_note(id, err_msg("room full")));
                }
                assert(peers@.len() == 1);
                Some(peers[0])
            },
            None => {
                if self.rooms.len() >= MAX_ROOMS {
                    return (false, one_note(id, err_msg("server at capacity")));
                }
                None
            },
        };
        let mut now: Vec<u64> = Vec::new();
        let mut notes: Vec<Note> = Vec::new();
        if let Some(p) = first {
            now.push(p);
            notes.push(Note { to: id, text: role_msg("offerer") });
            notes.push(Note { to: p, text: role_msg("answerer") });
        }
        now.push(id);
        let ghost nv = now@;
        proof {
            match first {
                Some(p) => {
                    assert(nv =~= m[room@].push(id));
                },
                None => {
                    assert(nv =~= seq![id]);
                },
            }
            assert(note_views(notes@) =~= joined(m, room@, id).2);
        }
        self.rooms.insert(room, now);
        assert(self@ =~= m.insert(room@, nv));
        (true, notes)
    }

    /// The peers that get what a peer says: the others in its room.
    pub fn relay(&self, room: &str, from: u64) -> (r: Vec<u64>)
        requires
            self.wf(),
        ensures
            r@ == (if self@.contains_key(room@) {
                others(self@[room@], from)
            } else {
                Seq::empty()
            }),
    {
        match self.rooms.get(room) {
            Some(peers) => others_of(peers, from),
            None => {
                let none: Vec<u64> = Vec::new();
                assert(none@ =~= Seq::empty());
                none
            },
        }
    }

    /// A peer leaves its room.
    pub fn leave(&mut self, room: &str, id: u64) -> (r: Vec<Note>)
        requires
            old(self).wf(),
        ensures
            final(self).wf(),
            (final(self)@, note_views(r@)) == parted(old(self)@, room@, id),
    {
        let ghost m = self@;
        let ghost raw = self.rooms@;
        let mut notes: Vec<Note> = Vec::new();
        let rest = match self.rooms.get(room) {
            Some(peers) => {
                assert(raw.contains_key(room@));
                proof {
                    lemma_others_len(peers@, id);
                }
                others_of(peers, id)
            },
            None => {
                assert(note_views(notes@) =~= Seq::empty());
                return notes;
            },
        };
        let ghost rv = rest@;
        let mut i: usize = 0;
        let ghost want = rv.map_values(|p: u64| (p, left_text()));
        while i < rest.len()
            invariant
                i <= rest@.len(),
                rv == rest@,
                want == rv.map_values(|p: u64| (p, left_text())),
                note_views(notes@) == want.take(i as int),
            decreases rest@.len() - i,
        {
            let ghost before = notes@;
            notes.push(Note { to: rest[i], text: copy_text("{\"type\":\"peer-left\"}") });
            assert(note_views(notes@) =~= note_views(before).push(want[i as int]));
            assert(want.take(i + 1) =~= want.take(i as int).push(want[i as int]));
            i += 1;
        }
        assert(want.take(i as int) =~= want);
        if rest.len() == 0 {
            self.rooms.remove(room);
            assert(self@ =~= m.remove(room@));
        } else {
            self.rooms.insert(room, rest);
            assert(self@ =~= m.insert(room@, rv));
        }
        notes
    }
}

proof fn lemma_others_len(peers: Seq<u64>, id: u64)
    ensures
        others(peers, id).len() <= peers.len(),
    decreases peers.len(),
{
    if peers.len() > 0 {
        lemma_others_len(peers.drop_last(), id);
    }
}

// ---------------------------------------------------------------------------
// Laws
// ---------------------------------------------------------------------------

/// A peer that is not let in changes nothing: it gets one message, and nobody
/// else gets any.
pub proof fn law_rejected_peers_change_nothing(
    m: Map<Seq<char>, Seq<u64>>,
    room: Seq<char>,
    id: u64,
)
    requires
        !joined(m, room, id).1,
    ensures
        joined(m, room, id).0 == m,
        joined(m, room, id).2.len() == 1,
        joined(m, room, id).2[0].0 == id,
{
}

/// A room never holds more than two peers, and none stays without any, whoever
/// comes and goes.
pub proof fn law_rooms_hold_two(m: Map<Seq<char>, Seq<u64>>, room: Seq<char>, id: u64)
    requires
        forall|k: Seq<char>| #[trigger] m.contains_key(k) ==> 1 <= m[k].len() <= 2,
    ensures
        ({
            let (m1, _, _) = joined(m, room, id);
            let (m2, _) = parted(m, room, id);
            &&& forall|k: Seq<char>| #[trigger] m1.contains_key(k) ==> 1 <= m1[k].len() <= 2
            &&& forall|k: Seq<char>| #[trigger] m2.contains_key(k) ==> 1 <= m2[k].len() <= 2
        }),
{
    if m.contains_key(room) {
        lemma_others_len(m[room], id);
    }
}

/// Two peers that join an empty room get one role each: the second makes the
/// offer, the first answers it, and from there on each hears the other.
pub proof fn law_two_peers_are_paired(
    m: Map<Seq<char>, Seq<u64>>,
    room: Seq<char>,
    a: u64,
    b: u64,
)
    requires
        !m.contains_key(room),
        m.dom().len() < MAX_ROOMS,
        a != b,
    ensures
        ({
            let (m1, in1, n1) = joined(m, room, a);
            let (m2, in2, n2) = joined(m1, room, b);
            &&& in1 && in2
            &&& n1.len() == 0
            &&& n2 == seq![(b, role_text("offerer"@)), (a, role_text("answerer"@))]
            &&& others(m2[room], a) == seq![b]
            &&& others(m2[room], b) == seq![a]
        }),
{
    let (m1, in1, n1) = joined(m, room, a);
    let (m2, in2, n2) = joined(m1, room, b);
    let p = m2[room];
    assert(p =~= seq![a, b]);
    assert(p.drop_last() =~= seq![a]);
    assert(seq![a].drop_last() =~= Seq::<u64>::empty());
    assert(others(Seq::<u64>::empty(), a) =~= Seq::<u64>::empty());
    assert(others(Seq::<u64>::empty(), b) =~= Seq::<u64>::empty());
    assert(others(seq![a], a) =~= Seq::<u64>::empty());
    assert(others(seq![a], b) =~= seq![a]);
    assert(others(p, a) =~= seq![b]);
    assert(others(p, b) =~= seq![a]);
}

/// The room is the one that the query names last, wherever the name stands in it; a name
/// that is empty or too long is none, and so is a query without one.
pub proof fn law_queries_name_rooms(front: Seq<char>, room: Seq<char>, other: Seq<char>)
    requires
        !room.contains('&'),
        !other.contains('&'),
        !"room="@.is_prefix_of(other),
    ensures
        ({
            let good = room.len() > 0 && encode_utf8(room).len() <= MAX_ROOM_ID_LEN;
            let want = if good {
                Some(room)
            } else {
                None
            };
            &&& room_of(Some("room="@ + room)) == want
            &&& room_of(Some(front + seq!['&'] + ("room="@ + room))) == want
            &&& room_of(Some(front + seq!['&'] + ("room="@ + room) + seq!['&'] + other)) == want
            &&& room_of(Some(other)) is None
            &&& room_of(None) is None
        }),
{
    reveal_strlit("room=");
    let named = "room="@ + room;
    assert(!named.contains('&')) by {
        assert forall|j: int| 0 <= j < named.len() implies named[j] != '&' by {
            if j >= 5 {
                assert(room.contains(room[j - 5]));
            }
        }
    }
    assert("room="@.is_prefix_of(named));
    assert(named.skip(5) =~= room);
    let none = Seq::<char>::empty();
    law_pieces_are_between_separators(named, '&', none);
    law_pieces_are_between_separators(other, '&', none);
    law_pieces_add_up(front, '&', named);
    law_pieces_add_up(front + seq!['&'] + named, '&', other);
    let a = split(front, '&');
    let b = a + seq![named];
    let c = b + seq![other];
    assert(b.last() == named);
    assert(c.last() == other && c.drop_last() =~= b);
    assert(seq![other].drop_last() =~= Seq::<Seq<char>>::empty());
    assert(room_in(Seq::<Seq<char>>::empty()) =~= none);
    assert(room_in(seq![other]) =~= none);
}

/// The others are all peers of a room but the one, in their order.
pub proof fn law_others_are_all_but_one(peers: Seq<u64>, id: u64, p: u64)
    ensures
        others(peers, id).contains(p) <==> peers.contains(p) && p != id,
        !peers.contains(id) ==> others(peers, id) == peers,
    decreases peers.len(),
{
    if peers.len() > 0 {
        let front = peers.drop_last();
        law_others_are_all_but_one(front, id, p);
        let a = others(front, id);
        let b = others(peers, id);
        assert(peers[peers.len() - 1] == peers.last());
        if b.contains(p) {
            let k = b.index_of(p);
            if k < a.len() {
                assert(a[k] == p);
                assert(peers[front.index_of(p)] == p);
            }
        }
        if peers.contains(p) && p != id {
            let k = peers.index_of(p);
            if k < front.len() {
                assert(front[k] == p);
                assert(b[a.index_of(p)] == p);
            } else {
                assert(b[a.len() as int] == p);
            }
        }
        if !peers.contains(id) {
            assert(!front.contains(id)) by {
                if front.contains(id) {
                    assert(peers[front.index_of(id)] == id);
                }
            }
            assert(b =~= peers);
        }
    } else {
        assert(others(peers, id) =~= peers);
    }
}

/// A peer that leaves a room of two is gone from it, and the other one, who stays, is
/// told. The last one to leave closes the room. No other room is touched.
pub proof fn law_who_stays_is_told(
    m: Map<Seq<char>, Seq<u64>>,
    room: Seq<char>,
    a: u64,
    b: u64,
    other: Seq<char>,
)
    requires
        a != b,
        other != room,
    ensures
        m.contains_key(room) && (m[room] == seq![a, b] || m[room] == seq![b, a]) ==> {
            let (m1, notes) = parted(m, room, a);
            &&& m1.contains_key(room) && m1[room] == seq![b]
            &&& notes == seq![(b, left_text())]
        },
        m.contains_key(room) && m[room] == seq![a] ==> {
            let (m1, notes) = parted(m, room, a);
            &&& !m1.contains_key(room)
            &&& notes.len() == 0
        },
        parted(m, room, a).0.contains_key(other) <==> m.contains_key(other),
        m.contains_key(other) ==> parted(m, room, a).0[other] == m[other],
        joined(m, room, a).0.contains_key(other) <==> m.contains_key(other),
        m.contains_key(other) ==> joined(m, room, a).0[other] == m[other],
{
    reveal_with_fuel(others, 3);
    assert(seq![a, b].drop_last() =~= seq![a]);
    assert(seq![b, a].drop_last() =~= seq![b]);
    assert(seq![a].drop_last() =~= Seq::<u64>::empty());
    assert(seq![b].drop_last() =~= Seq::<u64>::empty());
    assert(others(seq![a, b], a) =~= seq![b]);
    assert(others(seq![b, a], a) =~= seq![b]);
    assert(others(seq![a], a) =~= Seq::<u64>::empty());
    assert(seq![b].map_values(|p: u64| (p, left_text())) =~= seq![(b, left_text())]);
}

/// A peer is let into a room that has a place, and else told that the room is full, or
/// that there are too many rooms.
pub proof fn law_rooms_with_a_place_let_in(m: Map<Seq<char>, Seq<u64>>, room: Seq<char>, id: u64)
    ensures
        joined(m, room, id).1 <==> (if m.contains_key(room) {
            m[room].len() < 2
        } else {
            m.dom().len() < MAX_ROOMS
        }),
        joined(m, room, id).1 ==> joined(m, room, id).0.contains_key(room) && joined(
            m,
            room,
            id,
        ).0[room].contains(id),
        m.contains_key(room) && m[room].len() >= 2 ==> joined(m, room, id).2[0].1 == error_text(
            "room full"@,
        ),
        !m.contains_key(room) && m.dom().len() >= MAX_ROOMS ==> joined(m, room, id).2[0].1
            == error_text("server at capacity"@),
{
    if m.contains_key(room) {
        assert(m[room].push(id)[m[room].len() as int] == id);
    } else {
        assert(seq![id][0] == id);
    }
}

} // verus!
