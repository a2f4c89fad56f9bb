//! Meeting a peer through the signaling server, and what to tell the transport
//! about servers for address discovery.
use crate::chars::{
    chars_of, copy_text, deep, push_text, same_chars, same_text, split, split_chars, string_of,
    trim, trim_chars,
};
use crate::json::{field_of, json_doc, tagged_json, tagged_text};
use vstd::prelude::*;
use vstd::slice::slice_subrange;

verus! {

/// `s` without slashes at its end.
pub open spec fn drop_slashes(s: Seq<char>) -> Seq<char>
    decreases s.len(),
{
    if s.len() > 0 && s.last() == '/' {
        drop_slashes(s.drop_last())
    } else {
        s
    }
}

/// The address of a room on a signaling server.
pub fn room_url(ws_url: &str, room: &str) -> (r: String)
    ensures
        r@ == drop_slashes(ws_url@) + "/?room="@ + room@,
{
    let cs = chars_of(ws_url);
    let mut n: usize = cs.len();
    assert(cs@.take(n as int) =~= cs@);
    while n > 0 && cs[n - 1] == '/'
        invariant
            n <= cs@.len(),
            drop_slashes(cs@) == drop_slashes(cs@.take(n as int)),
        decreases n,
    {
        assert(cs@.take(n as int).drop_last() =~= cs@.take(n - 1));
        n -= 1;
    }
    let front = slice_subrange(cs.as_slice(), 0, n);
    assert(front@ =~= cs@.take(n as int));
    let mut out = crate::chars::copy_chars(front);
    push_text(&mut out, "/?room=");
    push_text(&mut out, room);
    string_of(out.as_slice())
}

/// Whether a text holds another.
pub open spec fn holds(s: Seq<char>, part: Seq<char>) -> bool {
    exists|i: int|
        0 <= i <= s.len() - part.len() && #[trigger] s.subrange(i, i + part.len()) == part
}

/// Whether a text holds another.
pub fn contains_text(s: &str, part: &str) -> (r: bool)
    ensures
        r == holds(s@, part@),
{
    let a = chars_of(s);
    let b = chars_of(part);
    if b.len() > a.len() {
        return false;
    }
    let last: usize = a.len() - b.len();
    let mut i: usize = 0;
    while i <= last
        invariant
            a@ == s@,
            b@ == part@,
            last == a@.len() - b@.len(),
            i <= last + 1,
            a@.len() <= usize::MAX,
            forall|j: int| 0 <= j < i ==> #[trigger] a@.subrange(j, j + b@.len()) != b@,
        decreases last + 1 - i,
    {
        let piece = slice_subrange(a.as_slice(), i, i + b.len());
        if same_chars(piece, b.as_slice()) {
            assert(a@.subrange(i as int, i + b@.len()) == b@);
            return true;
        }
        if i == last {
            return false;
        }
        i += 1;
    }
    false
}

/// What a message from the server means to a peer that waits for its role.
#[derive(Debug, Clone, Copy, PartialEq, Eq, Structural)]
pub enum RoleStep {
    /// The role has come: whether this side makes the offer.
    Role(bool),
    /// The room cannot be used.
    Unavailable,
    /// Wait on.
    Wait,
}

/// What a message means to a peer that waits for its role, given the role that
/// the message assigns, if it does.
pub open spec fn role_step(text: Seq<char>, role: Option<Seq<char>>) -> RoleStep {
    match role {
        Some(r) => RoleStep::Role(r == "offerer"@),
        None => if holds(text, "room full"@) || holds(text, "capacity"@) {
            RoleStep::Unavailable
        } else {
            RoleStep::Wait
        },
    }
}

/// What a message means to a peer that waits for its role, given the role that
/// the message assigns, if it does.
pub fn role_step_of(text: &str, role: Option<&str>) -> (r: RoleStep)
    ensures
        r == role_step(
            text@,
            match role {
                Some(x) => Some(x@),
                None => None,
            },
        ),
{
    match role {
        Some(x) => RoleStep::Role(same_text(x, "offerer")),
        None => if contains_text(text, "room full") || contains_text(text, "capacity") {
            RoleStep::Unavailable
        } else {
            RoleStep::Wait
        },
    }
}

/// The text of a field of a message in JSON, where the message is of the expected
/// type.
pub open spec fn message_field(text: Seq<char>, kind: Seq<char>, field: Seq<char>) -> Option<
    Seq<char>,
> {
    match json_doc(text) {
        Some(v) => field_of(v, kind, field),
        None => None,
    }
}

/// What a message from the server means to a peer that waits for its role.
pub fn on_role_text(text: &str) -> (r: RoleStep)
    ensures
        r == role_step(text@, message_field(text@, "role"@, "role"@)),
{
    match crate::json::json_field(text, "role", "role") {
        Some(role) => role_step_of(text, Some(role.as_str())),
        None => role_step_of(text, None),
    }
}

/// What a message from the server means to a peer that waits for a session
/// description.
pub enum SdpStep {
    /// It has come.
    Sdp(String),
    /// The other side left.
    PeerLeft,
    /// Wait on.
    Wait,
}

/// What a message means to a peer that waits for a session description, given the
/// description that it carries, if it does.
pub fn sdp_step_of(text: &str, sdp: Option<String>) -> (r: SdpStep)
    ensures
        match sdp {
            Some(s) => r matches SdpStep::Sdp(x) && x@ == s@,
            None => if holds(text@, "peer-left"@) {
                r is PeerLeft
            } else {
                r is Wait
            },
        },
{
    match sdp {
        Some(s) => SdpStep::Sdp(s),
        None => if contains_text(text, "peer-left") {
            SdpStep::PeerLeft
        } else {
            SdpStep::Wait
        },
    }
}

/// What a message from the server means to a peer that waits for a session
/// description.
pub fn on_sdp_text(text: &str) -> (r: SdpStep)
    ensures
        match message_field(text@, "sdp"@, "sdp"@) {
            Some(s) => r matches SdpStep::Sdp(x) && x@ == s,
            None => if holds(text@, "peer-left"@) {
                r is PeerLeft
            } else {
                r is Wait
            },
        },
{
    let sdp = crate::json::json_field(text, "sdp", "sdp");
    sdp_step_of(text, sdp)
}

/// The message that carries a session description.
pub fn sdp_json(sdp: &str) -> (r: String)
    ensures
        r@ == tagged_text("sdp"@, sdp@, "sdp"@),
{
    tagged_json("sdp", sdp, "sdp")
}

/// A description that peers exchange to set up a data channel.
pub enum Signal {
    Offer(String),
    Answer(String),
}

/// Why a description was not taken.
#[derive(Debug, Clone, Copy, PartialEq, Eq, Structural)]
pub enum SignalError {
    ExpectedAnswer,
    ExpectedOffer,
}

/// The description that a peer waits for: an answer where it made the offer, else
/// an offer.
pub fn expect_signal(we_offer: bool, s: Signal) -> (r: Result<String, SignalError>)
    ensures
        match (we_offer, s) {
            (true, Signal::Answer(x)) => r matches Ok(t) && t@ == x@,
            (true, Signal::Offer(_)) => r matches Err(SignalError::ExpectedAnswer),
            (false, Signal::Offer(x)) => r matches Ok(t) && t@ == x@,
            (false, Signal::Answer(_)) => r matches Err(SignalError::ExpectedOffer),
        },
{
    match s {
        Signal::Answer(x) => if we_offer {
            Ok(x)
        } else {
            Err(SignalError::ExpectedOffer)
        },
        Signal::Offer(x) => if we_offer {
            Err(SignalError::ExpectedAnswer)
        } else {
            Ok(x)
        },
    }
}

/// A server for address discovery, with a name and a password where it needs
/// them.
pub struct IceServer {
    pub url: String,
    pub username: String,
    pub credential: String,
}

/// What a list of servers says.
pub open spec fn ice_views(v: Seq<IceServer>) -> Seq<(Seq<char>, Seq<char>, Seq<char>)> {
    v.map_values(|s: IceServer| (s.url@, s.username@, s.credential@))
}

/// The servers of a list of addresses; empty addresses do not count.
pub open spec fn stun_servers(urls: Seq<Seq<char>>) -> Seq<(Seq<char>, Seq<char>, Seq<char>)>
    decreases urls.len(),
{
    if urls.len() == 0 {
        Seq::empty()
    } else {
        let front = stun_servers(urls.drop_last());
        let u = trim(urls.last());
        if u.len() == 0 {
            front
        } else {
            front.push((u, Seq::empty(), Seq::empty()))
        }
    }
}

/// The relay, if one is given.
pub open spec fn turn_server(turn: Option<Seq<char>>, user: Seq<char>, pass: Seq<char>) -> Seq<
    (Seq<char>, Seq<char>, Seq<char>),
> {
    match turn {
        Some(t) => if trim(t).len() == 0 {
            Seq::empty()
        } else {
            seq![(trim(t), user, pass)]
        },
        None => Seq::empty(),
    }
}

/// The servers to use: those of a list separated by commas, then the relay.
pub fn ice_servers(stun: Option<&str>, turn: Option<&str>, user: &str, pass: &str) -> (r: Vec<
    IceServer,
>)
    ensures
        ice_views(r@) == (match stun {
            Some(s) => stun_servers(split(s@, ',')),
            None => Seq::empty(),
        }) + turn_server(
            match turn {
                Some(t) => Some(t@),
                None => None,
            },
            user@,
            pass@,
        ),
{
    let mut out: Vec<IceServer> = Vec::new();
    assert(ice_views(out@) =~= Seq::empty());
    if let Some(s) = stun {
        let cs = chars_of(s);
        let parts = split_chars(cs.as_slice(), ',');
        let ghost all = deep(parts@);
        let mut i: usize = 0;
        assert(ice_views(out@) =~= stun_servers(all.take(0)));
        while i < parts.len()
            invariant
                i <= parts@.len(),
                all == deep(parts@),
                ice_views(out@) == stun_servers(all.take(i as int)),
            decreases parts@.len() - i,
        {
            assert(all.take(i + 1).drop_last() =~= all.take(i as int));
            assert(all.take(i + 1).last() == parts@[i as int]@);
            let ghost before = out@;
            let u = trim_chars(parts[i].as_slice());
            if u.len() > 0 {
                out.push(
                    IceServer {
                        url: string_of(u),
                        username: String::new(),
                        credential: String::new(),
                    },
                );
                assert(ice_views(out@).last() == (u@, Seq::<char>::empty(), Seq::<char>::empty())) by {
                    assert(out@.last().username@ =~= Seq::<char>::empty());
                    assert(out@.last().credential@ =~= Seq::<char>::empty());
                }
                assert(ice_views(out@) =~= ice_views(before).push(
                    (u@, Seq::<char>::empty(), Seq::<char>::empty()),
                ));
            }
            i += 1;
        }
        assert(all.take(i as int) =~= all);
    }
    let ghost front = ice_views(out@);
    let ghost fv = out@;
    if let Some(t) = turn {
        let cs = chars_of(t);
        let u = trim_chars(cs.as_slice());
        if u.len() > 0 {
            out.push(
                IceServer { url: string_of(u), username: copy_text(user), credential: copy_text(pass) },
            );
            assert(ice_views(out@) =~= front + seq![(u@, user@, pass@)]);
        } else {
            assert(front + Seq::empty() =~= front);
        }
    } else {
        assert(front + Seq::empty() =~= front);
    }
    out
}

/// Slashes at the end of an address do not count, and no others are dropped.
pub proof fn law_slashes_at_the_end_are_dropped(s: Seq<char>, slashes: Seq<char>)
    requires
        forall|i: int| 0 <= i < slashes.len() ==> #[trigger] slashes[i] == '/',
        s.len() > 0 ==> s.last() != '/',
    ensures
        drop_slashes(s + slashes) == s,
    decreases slashes.len(),
{
    let all = s + slashes;
    if slashes.len() > 0 {
        let front = slashes.drop_last();
        assert forall|i: int| 0 <= i < front.len() implies #[trigger] front[i] == '/' by {
            assert(front[i] == slashes[i]);
        }
        law_slashes_at_the_end_are_dropped(s, front);
        assert(all.drop_last() =~= s + front);
        assert(all.last() == slashes[slashes.len() - 1]);
    } else {
        assert(all =~= s);
    }
}

/// Every address that is not blank is a server, in the order of the addresses, without
/// the whitespace around it; a relay is one with its name and password.
pub proof fn law_servers_are_the_named_ones(
    urls: Seq<Seq<char>>,
    url: Seq<char>,
    user: Seq<char>,
    pass: Seq<char>,
)
    ensures
        stun_servers(Seq::empty()).len() == 0,
        trim(url).len() > 0 ==> stun_servers(urls.push(url)) == stun_servers(urls).push(
            (trim(url), Seq::empty(), Seq::empty()),
        ),
        trim(url).len() == 0 ==> stun_servers(urls.push(url)) == stun_servers(urls),
        trim(url).len() > 0 ==> turn_server(Some(url), user, pass) == seq![(trim(url), user, pass)],
        trim(url).len() == 0 ==> turn_server(Some(url), user, pass).len() == 0,
        turn_server(None, user, pass).len() == 0,
{
    assert(urls.push(url).drop_last() =~= urls);
}

/// A peer that is given a role makes the offer exactly where the role is that of the
/// offerer; one that hears that there is no place stops, and else it waits.
pub proof fn law_roles_are_as_given(text: Seq<char>, role: Seq<char>)
    ensures
        role_step(text, Some(role)) == RoleStep::Role(role == "offerer"@),
        holds(text, "room full"@) || holds(text, "capacity"@) ==> role_step(text, None)
            == RoleStep::Unavailable,
        !holds(text, "room full"@) && !holds(text, "capacity"@) ==> role_step(text, None)
            == RoleStep::Wait,
{
}

/// A text holds another exactly where the other stands somewhere in it.
pub proof fn law_a_text_holds_its_parts(a: Seq<char>, part: Seq<char>, b: Seq<char>, s: Seq<char>)
    ensures
        holds(a + part + b, part),
        holds(s, part) ==> exists|x: Seq<char>, y: Seq<char>| s == #[trigger] (x + part + y),
{
    let t = a + part + b;
    let i = a.len() as int;
    assert(t.subrange(i, i + part.len()) =~= part);
    if holds(s, part) {
        let i = choose|i: int|
            0 <= i <= s.len() - part.len() && #[trigger] s.subrange(i, i + part.len()) == part;
        assert(s =~= s.take(i) + part + s.skip(i + part.len()));
    }
}

} // verus!
