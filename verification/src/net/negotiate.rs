//! Which transport two peers use, and who makes the offer.
use vstd::prelude::*;

verus! {

/// The version of the exchange of capabilities.
pub const PROTO_VERSION: u16 = 1;

/// The transports, as a ladder.
#[derive(Debug, Clone, Copy, PartialEq, Eq, Structural)]
pub enum Transport {
    /// A WebRTC data channel between the peers.
    WebrtcDirect,
    /// A direct QUIC connection.
    IrohDirect,
    /// QUIC through a relay, which every peer can do.
    IrohRelay,
}

impl Transport {
    /// The rung of the ladder: higher is more direct.
    pub open spec fn spec_rank(self) -> u8 {
        match self {
            Transport::WebrtcDirect => 2,
            Transport::IrohDirect => 1,
            Transport::IrohRelay => 0,
        }
    }

    /// The rung of the ladder: higher is more direct.
    pub fn rank(self) -> (r: u8)
        ensures
            r == self.spec_rank(),
    {
        match self {
            Transport::WebrtcDirect => 2,
            Transport::IrohDirect => 1,
            Transport::IrohRelay => 0,
        }
    }
}

/// Who is on an end.
#[derive(Debug, Clone, Copy, PartialEq, Eq, Structural)]
pub enum Role {
    Browser,
    Native,
    Server,
}

/// What a peer can do, and its tie breaker.
#[derive(Debug, Clone)]
pub struct Caps {
    pub proto_version: u16,
    pub transports: Vec<Transport>,
    pub role: Role,
    /// The lower one makes the offer.
    pub tie_break: u64,
}

impl Caps {
    /// What a native peer can do: everything. The tie breaker is drawn at random.
    pub fn native(tie_break: u64) -> (r: Self)
        ensures
            r.proto_version == PROTO_VERSION,
            r.transports@ == seq![
                Transport::WebrtcDirect,
                Transport::IrohDirect,
                Transport::IrohRelay,
            ],
            r.role == Role::Native,
            r.tie_break == tie_break,
    {
        let mut transports: Vec<Transport> = Vec::new();
        transports.push(Transport::WebrtcDirect);
        transports.push(Transport::IrohDirect);
        transports.push(Transport::IrohRelay);
        assert(transports@ =~= seq![
            Transport::WebrtcDirect,
            Transport::IrohDirect,
            Transport::IrohRelay,
        ]);
        Caps { proto_version: PROTO_VERSION, transports, role: Role::Native, tie_break }
    }
}

/// What two peers agreed on.
#[derive(Debug, Clone, Copy, PartialEq, Eq, Structural)]
pub struct Outcome {
    pub transport: Transport,
    /// Whether this side makes the offer.
    pub we_offer: bool,
}

/// Whether both peers can do a transport.
pub open spec fn common(a: Seq<Transport>, b: Seq<Transport>, t: Transport) -> bool {
    a.contains(t) && b.contains(t)
}

/// The most direct transport that both peers can do; the relay where there is
/// none.
pub open spec fn best_common(a: Seq<Transport>, b: Seq<Transport>) -> Transport {
    if common(a, b, Transport::WebrtcDirect) {
        Transport::WebrtcDirect
    } else if common(a, b, Transport::IrohDirect) {
        Transport::IrohDirect
    } else {
        Transport::IrohRelay
    }
}

/// Whether a list holds a transport.
fn holds(v: &Vec<Transport>, t: Transport) -> (r: bool)
    ensures
        r == v@.contains(t),
{
    let mut i: usize = 0;
    while i < v.len()
        invariant
            i <= v@.len(),
            forall|j: int| 0 <= j < i ==> v@[j] != t,
        decreases v@.len() - i,
    {
        if v[i] == t {
            assert(v@[i as int] == t);
            return true;
        }
        i += 1;
    }
    false
}

/// What two peers agree on: the most direct transport that both can do, and the
/// lower tie breaker offers. Where the tie breakers are equal both offer, which
/// fails at once, instead of both waiting.
pub fn negotiate(local: &Caps, remote: &Caps) -> (r: Outcome)
    ensures
        r.transport == best_common(local.transports@, remote.transports@),
        r.we_offer == (local.tie_break <= remote.tie_break),
{
    let mut best: Option<Transport> = None;
    let mut i: usize = 0;
    while i < local.transports.len()
        invariant
            i <= local.transports@.len(),
            match best {
                None => forall|j: int|
                    0 <= j < i ==> !remote.transports@.contains(#[trigger] local.transports@[j]),
                Some(b) => common(local.transports@, remote.transports@, b) && forall|j: int|
                    0 <= j < i && remote.transports@.contains(#[trigger] local.transports@[j])
                        ==> local.transports@[j].spec_rank() <= b.spec_rank(),
            },
        decreases local.transports@.len() - i,
    {
        let t = local.transports[i];
        if holds(&remote.transports, t) {
            let higher = match best {
                None => true,
                Some(b) => t.rank() >= b.rank(),
            };
            if higher {
                best = Some(t);
            }
        }
        i += 1;
    }
    proof {
        let a = local.transports@;
        let b = remote.transports@;
        assert forall|t: Transport| #[trigger] common(a, b, t) implies match best {
            None => false,
            Some(x) => t.spec_rank() <= x.spec_rank(),
        } by {
            let j = a.index_of(t);
            assert(a[j] == t);
        }
        assert(common(a, b, Transport::WebrtcDirect) || !common(a, b, Transport::WebrtcDirect));
        assert(common(a, b, Transport::IrohDirect) || !common(a, b, Transport::IrohDirect));
    }
    let transport = match best {
        Some(t) => t,
        None => Transport::IrohRelay,
    };
    Outcome { transport, we_offer: local.tie_break <= remote.tie_break }
}

/// The transport that a session ends up with: what was agreed on, or a direct
/// QUIC connection where nothing was or a data channel could not be set up.
pub fn session_transport(agreed: Option<Transport>, upgraded: bool) -> (r: Transport)
    ensures
        r == (match agreed {
            Some(Transport::WebrtcDirect) => if upgraded {
                Transport::WebrtcDirect
            } else {
                Transport::IrohDirect
            },
            Some(t) => t,
            None => Transport::IrohDirect,
        }),
{
    match agreed {
        Some(Transport::WebrtcDirect) => if upgraded {
            Transport::WebrtcDirect
        } else {
            Transport::IrohDirect
        },
        Some(t) => t,
        None => Transport::IrohDirect,
    }
}

/// Both peers choose the same transport.
pub proof fn law_transport_is_symmetric(a: Seq<Transport>, b: Seq<Transport>)
    ensures
        best_common(a, b) == best_common(b, a),
{
}

/// The chosen transport is one that both can do, where there is one, and none
/// that both can do is more direct.
pub proof fn law_transport_is_the_best(a: Seq<Transport>, b: Seq<Transport>, t: Transport)
    requires
        common(a, b, t),
    ensures
        common(a, b, best_common(a, b)),
        t.spec_rank() <= best_common(a, b).spec_rank(),
{
}

/// Exactly one of two peers makes the offer, where their tie breakers differ.
pub proof fn law_one_side_offers(x: u64, y: u64)
    requires
        x != y,
    ensures
        (x <= y) != (y <= x),
{
}

} // verus!
