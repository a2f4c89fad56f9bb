//! The one-line status of a connection.
use crate::chars::{push_chars, push_text, string_of};
use crate::numerals::{decimal, decimal_chars};
use vstd::prelude::*;

verus! {

/// How a connection is routed.
#[derive(Debug, Clone, Copy, PartialEq, Eq, Structural)]
pub enum ConnKind {
    Unknown,
    Direct,
    Relay,
}

impl Default for ConnKind {
    fn default() -> (r: Self)
        ensures
            r == ConnKind::Unknown,
    {
        ConnKind::Unknown
    }
}

/// One address of a peer: whether it is in use, whether it is an IP address, and
/// whether it is a relay.
#[derive(Debug, Clone, Copy)]
pub struct PeerPath {
    pub active: bool,
    pub ip: bool,
    pub relay: bool,
}

/// How a connection is routed: directly if an IP address is in use, else by a
/// relay if one is. Addresses that are not in use do not count.
pub fn connection_kind(paths: &[PeerPath]) -> (r: ConnKind)
    ensures
        r == ConnKind::Direct <==> exists|i: int|
            0 <= i < paths@.len() && (#[trigger] paths@[i]).active && paths@[i].ip,
        r == ConnKind::Relay <==> !(exists|i: int|
            0 <= i < paths@.len() && (#[trigger] paths@[i]).active && paths@[i].ip) && exists|i: int|
            0 <= i < paths@.len() && (#[trigger] paths@[i]).active && paths@[i].relay,
{
    let mut direct = false;
    let mut relay = false;
    let mut i: usize = 0;
    while i < paths.len()
        invariant
            i <= paths@.len(),
            direct == exists|j: int| 0 <= j < i && (#[trigger] paths@[j]).active && paths@[j].ip,
            relay == exists|j: int| 0 <= j < i && (#[trigger] paths@[j]).active && paths@[j].relay,
        decreases paths@.len() - i,
    {
        let p = paths[i];
        if p.active && p.ip {
            assert(paths@[i as int].active && paths@[i as int].ip);
            direct = true;
        }
        if p.active && p.relay {
            assert(paths@[i as int].active && paths@[i as int].relay);
            relay = true;
        }
        i += 1;
    }
    if direct {
        ConnKind::Direct
    } else if relay {
        ConnKind::Relay
    } else {
        ConnKind::Unknown
    }
}

/// The word for a route.
pub open spec fn route_word(conn: ConnKind) -> Seq<char> {
    match conn {
        ConnKind::Direct => "direct"@,
        ConnKind::Relay => "RELAY ⚠relay(n0:metadata exposed)"@,
        ConnKind::Unknown => "…"@,
    }
}

/// The status line: the title, the route with a warning where a relay sees the
/// traffic, the bytes sent and received, and the rate, which is given as a
/// rounded number.
pub fn format_line(title: &str, conn: ConnKind, sent: u64, recv: u64, rate: &str) -> (r: String)
    ensures
        r@ == title@ + "  "@ + route_word(conn) + "  ↑"@ + decimal(sent as nat) + "B ↓"@ + decimal(
            recv as nat,
        ) + "B  "@ + rate@ + "B/s"@,
{
    let mut out: Vec<char> = Vec::new();
    push_text(&mut out, title);
    push_text(&mut out, "  ");
    push_text(
        &mut out,
        match conn {
            ConnKind::Direct => "direct",
            ConnKind::Relay => "RELAY ⚠relay(n0:metadata exposed)",
            ConnKind::Unknown => "…",
        },
    );
    push_text(&mut out, "  ↑");
    let s = decimal_chars(sent);
    push_chars(&mut out, s.as_slice());
    push_text(&mut out, "B ↓");
    let v = decimal_chars(recv);
    push_chars(&mut out, v.as_slice());
    push_text(&mut out, "B  ");
    push_text(&mut out, rate);
    push_text(&mut out, "B/s");
    assert(out@ =~= title@ + "  "@ + route_word(conn) + "  ↑"@ + decimal(sent as nat) + "B ↓"@
        + decimal(recv as nat) + "B  "@ + rate@ + "B/s"@);
    string_of(out.as_slice())
}

} // verus!
