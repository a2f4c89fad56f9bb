use riftpipe::net::backoff::Backoff;
use riftpipe::net::bridge::{
    contains_text, expect_signal, ice_servers, on_role_text, on_sdp_text, role_step_of, room_url,
    sdp_json, sdp_step_of, RoleStep, SdpStep, Signal, SignalError,
};
use riftpipe::net::framing::{length_prefix, message_length};
use riftpipe::net::negotiate::{
    negotiate, session_transport, Caps, Role, Transport, PROTO_VERSION,
};
use riftpipe::net::secure::{
    on_nonce, on_response, response, ticket_bytes, ticket_text, AuthError, AuthStep,
};
use riftpipe::net::signal::{err_msg, role_msg, room_from_query, Note, Rooms, MAX_ROOM_ID_LEN};

fn caps(transports: Vec<Transport>, tie_break: u64) -> Caps {
    Caps {
        proto_version: PROTO_VERSION,
        transports,
        role: Role::Native,
        tie_break,
    }
}

#[test]
fn picks_highest_common_rung() {
    // Both speak WebRTC + relay -> WebRTC wins.
    let a = caps(vec![Transport::WebrtcDirect, Transport::IrohRelay], 1);
    let b = caps(vec![Transport::WebrtcDirect, Transport::IrohRelay], 2);
    assert_eq!(negotiate(&a, &b).transport, Transport::WebrtcDirect);
}

#[test]
fn native_pair_negotiates_webrtc() {
    // Two native CLIs both carry WebRTC -> upgrade to a data channel.
    let (a, b) = (Caps::native(1), Caps::native(2));
    assert_eq!(negotiate(&a, &b).transport, Transport::WebrtcDirect);
}

#[test]
fn falls_back_to_relay_floor_when_no_overlap_above_it() {
    // A browser (webrtc only) vs an iroh-only native: only the relay floor is
    // shared -> relay. (Both must always list the floor.)
    let browser = caps(vec![Transport::WebrtcDirect, Transport::IrohRelay], 1);
    let native_iroh = caps(vec![Transport::IrohDirect, Transport::IrohRelay], 2);
    assert_eq!(negotiate(&browser, &native_iroh).transport, Transport::IrohRelay);
}

#[test]
fn offerer_is_deterministic_and_anti_symmetric() {
    let a = caps(vec![Transport::WebrtcDirect, Transport::IrohRelay], 10);
    let b = caps(vec![Transport::WebrtcDirect, Transport::IrohRelay], 20);
    // Lower tie_break offers; exactly one side gets we_offer.
    assert!(negotiate(&a, &b).we_offer);
    assert!(!negotiate(&b, &a).we_offer);
}

#[test]
fn exchange_over_link_agrees_on_both_ends() {
    let webrtc = vec![Transport::WebrtcDirect, Transport::IrohRelay];
    let ca = caps(webrtc.clone(), 1);
    let cb = caps(webrtc, 2);
    let (oa, ob) = (negotiate(&ca, &cb), negotiate(&cb, &ca));
    // Same transport on both ends; opposite offerer roles.
    assert_eq!(oa.transport, Transport::WebrtcDirect);
    assert_eq!(ob.transport, Transport::WebrtcDirect);
    assert_ne!(oa.we_offer, ob.we_offer);
}

#[test]
fn nothing_in_common_means_the_relay() {
    let a = caps(vec![Transport::WebrtcDirect], 1);
    let b = caps(vec![], 2);
    assert_eq!(negotiate(&a, &b).transport, Transport::IrohRelay);
    assert_eq!(session_transport(None, true), Transport::IrohDirect);
    assert_eq!(session_transport(Some(Transport::WebrtcDirect), true), Transport::WebrtcDirect);
    assert_eq!(session_transport(Some(Transport::WebrtcDirect), false), Transport::IrohDirect);
    assert_eq!(session_transport(Some(Transport::IrohRelay), false), Transport::IrohRelay);
}

/// Both sides of the challenge, with the nonces that they picked.
fn authenticate(a: &[u8; 32], b: &[u8; 32]) -> (AuthStep, AuthStep) {
    let (na, nb) = ([5u8; 32], [6u8; 32]);
    let from_a = on_nonce(a, Some(&nb));
    let from_b = on_nonce(b, Some(&na));
    match (from_a, from_b) {
        (AuthStep::Send(x), AuthStep::Send(y)) => {
            (on_response(a, &na, Some(&y)), on_response(b, &nb, Some(&x)))
        }
        _ => panic!("no answer"),
    }
}

#[test]
fn matching_secret_authenticates() {
    let secret = [42u8; 32];
    let (ra, rb) = authenticate(&secret, &secret);
    assert!(matches!(ra, AuthStep::Accepted) && matches!(rb, AuthStep::Accepted));
}

#[test]
fn mismatched_secret_rejected() {
    let (ra, rb) = authenticate(&[1u8; 32], &[2u8; 32]);
    assert!(matches!(ra, AuthStep::Failed(AuthError::WrongSecret)));
    assert!(matches!(rb, AuthStep::Failed(AuthError::WrongSecret)), "mismatched secrets must fail");
}

#[test]
fn a_silent_peer_is_refused() {
    let s = [3u8; 32];
    assert!(matches!(on_nonce(&s, None), AuthStep::Failed(AuthError::NoNonce)));
    assert!(matches!(on_response(&s, &[1], None), AuthStep::Failed(AuthError::NoResponse)));
}

#[test]
fn responses_are_digests_of_secret_and_nonce() {
    let mut both = vec![9u8; 32];
    both.extend_from_slice(b"nonce");
    assert_eq!(response(&[9; 32], b"nonce"), blake3::hash(&both).as_bytes());
}

#[test]
fn tickets_are_base_32() {
    assert_eq!(ticket_text(b"foobar"), "MZXW6YTBOI");
    assert_eq!(ticket_bytes(" MZXW6YTBOI\n"), Some(b"foobar".to_vec()));
    assert_eq!(ticket_bytes("mzxw"), None);
    assert_eq!(ticket_bytes("MZXW6YTBOI======"), None);
    assert_eq!(ticket_bytes(""), Some(vec![]));
}

fn said(notes: &[Note]) -> Vec<(u64, &str)> {
    notes.iter().map(|n| (n.to, n.text.as_str())).collect()
}

#[test]
fn pairs_a_room_assigns_roles_and_relays() {
    let mut rooms = Rooms::new();
    // First peer joins and waits.
    let (ok, notes) = rooms.join("demo", 1);
    assert!(ok && notes.is_empty());
    // Second peer joins -> roles are assigned to both.
    let (ok, notes) = rooms.join("demo", 2);
    assert!(ok);
    let (offer, answer) = (role_msg("offerer"), role_msg("answerer"));
    assert_eq!(said(&notes), [(2, offer.as_str()), (1, answer.as_str())]);

    // What one says goes to the other.
    assert_eq!(rooms.relay("demo", 2), [1]);
    assert_eq!(rooms.relay("demo", 1), [2]);

    let notes = rooms.leave("demo", 1);
    assert_eq!(said(&notes), [(2, "{\"type\":\"peer-left\"}")]);
    assert!(rooms.leave("demo", 2).is_empty());
    assert!(rooms.relay("demo", 2).is_empty());
    // The room starts afresh.
    assert!(rooms.join("demo", 3).1.is_empty());
}

#[test]
fn third_peer_in_a_room_is_rejected() {
    let mut rooms = Rooms::new();
    rooms.join("full", 1);
    rooms.join("full", 2);
    let (ok, notes) = rooms.join("full", 3);
    assert!(!ok);
    assert_eq!(notes[0].to, 3);
    assert!(notes[0].text.contains("room full"), "3rd peer rejected: {}", notes[0].text);
    assert_eq!(rooms.relay("full", 1), [2]);
}

#[test]
fn rooms_come_from_the_query() {
    assert_eq!(room_from_query(Some("a=b&room=x&c")).as_deref(), Some("x"));
    assert_eq!(room_from_query(Some("room=x&room=y")).as_deref(), Some("y"));
    assert_eq!(room_from_query(Some("room=")), None);
    assert_eq!(room_from_query(Some("rooms=x")), None);
    assert_eq!(room_from_query(None), None);
    let long = "r".repeat(MAX_ROOM_ID_LEN);
    assert_eq!(room_from_query(Some(&format!("room={long}"))), Some(long.clone()));
    assert_eq!(room_from_query(Some(&format!("room={long}r"))), None);
}

#[test]
fn server_messages_are_exact() {
    assert_eq!(role_msg("offerer"), r#"{"type":"role","role":"offerer"}"#);
    assert_eq!(err_msg("room full"), r#"{"type":"error","error":"room full"}"#);
    assert_eq!(room_url("ws://h:1//", "r"), "ws://h:1/?room=r");
}

#[test]
fn peers_read_what_the_server_says() {
    assert_eq!(on_role_text(&role_msg("offerer")), RoleStep::Role(true));
    assert_eq!(on_role_text(&role_msg("answerer")), RoleStep::Role(false));
    assert_eq!(on_role_text(&err_msg("room full")), RoleStep::Unavailable);
    assert_eq!(on_role_text(&err_msg("server at capacity")), RoleStep::Unavailable);
    assert_eq!(on_role_text("hello"), RoleStep::Wait);
    assert_eq!(role_step_of("room full", Some("x")), RoleStep::Role(false));
    assert!(contains_text("abc", "") && contains_text("abc", "bc") && !contains_text("abc", "ac"));
}

#[test]
fn descriptions_travel_as_json() {
    let text = sdp_json("v=0\r\n\"q\"");
    assert_eq!(text, r#"{"sdp":"v=0\r\n\"q\"","type":"sdp"}"#);
    assert!(matches!(on_sdp_text(&text), SdpStep::Sdp(s) if s == "v=0\r\n\"q\""));
    assert!(matches!(on_sdp_text("{\"type\":\"peer-left\"}"), SdpStep::PeerLeft));
    assert!(matches!(on_sdp_text("{\"type\":\"sdp\",\"sdp\":3}"), SdpStep::Wait));
    assert!(matches!(on_sdp_text("["), SdpStep::Wait));
    assert!(matches!(sdp_step_of("peer-left", Some("s".into())), SdpStep::Sdp(s) if s == "s"));
    assert!(matches!(sdp_step_of("peer-left", None), SdpStep::PeerLeft));
}

#[test]
fn only_the_expected_description_is_taken() {
    assert_eq!(expect_signal(true, Signal::Answer("a".into())), Ok("a".to_string()));
    assert_eq!(expect_signal(false, Signal::Offer("o".into())), Ok("o".to_string()));
    assert_eq!(expect_signal(true, Signal::Offer("o".into())), Err(SignalError::ExpectedAnswer));
    assert_eq!(expect_signal(false, Signal::Answer("a".into())), Err(SignalError::ExpectedOffer));
}

#[test]
fn servers_come_from_the_settings() {
    let v = ice_servers(Some("stun:a, ,stun:b "), Some(" turn:c"), "u", "p");
    let urls: Vec<&str> = v.iter().map(|s| s.url.as_str()).collect();
    assert_eq!(urls, ["stun:a", "stun:b", "turn:c"]);
    assert_eq!((v[2].username.as_str(), v[2].credential.as_str()), ("u", "p"));
    assert_eq!(v[0].username, "");
    assert!(ice_servers(None, Some("  "), "u", "p").is_empty());
}

#[test]
fn waits_double_up_to_a_limit() {
    let mut b = Backoff::new();
    let got: Vec<u64> = (0..7).map(|_| b.wait()).collect();
    assert_eq!(got, [200, 400, 800, 1600, 3200, 5000, 5000]);
    b.reset();
    assert_eq!(b.wait(), 200);
}

#[test]
fn lengths_go_lowest_byte_first() {
    assert_eq!(length_prefix(0x0102_0304), [4, 3, 2, 1]);
    assert_eq!(message_length(&[4, 3, 2, 1]), 0x0102_0304);
    for n in [0usize, 1, 255, 256, 70_000, u32::MAX as usize] {
        assert_eq!(message_length(&length_prefix(n)) as usize, n);
    }
}
