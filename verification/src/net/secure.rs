//! Proving that a peer holds the secret, and the text form of an invitation.
use crate::bytes::{blake3_digest, copy_bytes, digest, push_bytes, same_bytes, text_bytes};
use crate::chars::{chars_of, string_of, trim, trim_chars};
use vstd::prelude::*;
use vstd::utf8::encode_utf8;

verus! {

/// The answer to a challenge: the digest of the secret and the challenge.
pub open spec fn answer(secret: Seq<u8>, nonce: Seq<u8>) -> Seq<u8> {
    blake3_digest(secret + nonce)
}

/// The answer to a challenge.
pub fn response(secret: &[u8; 32], nonce: &[u8]) -> (r: Vec<u8>)
    ensures
        r@ == answer(secret@, nonce@),
{
    let mut data = copy_bytes(secret.as_slice());
    push_bytes(&mut data, nonce);
    let h = digest(data.as_slice());
    copy_bytes(h.as_slice())
}

/// What a peer sends next, or how the challenge ended.
pub enum AuthStep {
    Send(Vec<u8>),
    Accepted,
    Failed(AuthError),
}

/// Why a challenge failed.
#[derive(Debug, Clone, Copy, PartialEq, Eq, Structural)]
pub enum AuthError {
    /// The peer sent no challenge.
    NoNonce,
    /// The peer sent no answer.
    NoResponse,
    /// The peer does not hold the secret.
    WrongSecret,
}

/// After the peer's challenge has come: the answer to it.
pub fn on_nonce(secret: &[u8; 32], peer_nonce: Option<&[u8]>) -> (r: AuthStep)
    ensures
        match peer_nonce {
            Some(n) => r matches AuthStep::Send(b) && b@ == answer(secret@, n@),
            None => r matches AuthStep::Failed(AuthError::NoNonce),
        },
{
    match peer_nonce {
        Some(n) => AuthStep::Send(response(secret, n)),
        None => AuthStep::Failed(AuthError::NoNonce),
    }
}

/// After the peer's answer has come: whether it holds the secret.
pub fn on_response(secret: &[u8; 32], my_nonce: &[u8], peer_resp: Option<&[u8]>) -> (r: AuthStep)
    ensures
        match peer_resp {
            Some(b) => if b@ == answer(secret@, my_nonce@) {
                r is Accepted
            } else {
                r matches AuthStep::Failed(AuthError::WrongSecret)
            },
            None => r matches AuthStep::Failed(AuthError::NoResponse),
        },
{
    match peer_resp {
        Some(b) => {
            let want = response(secret, my_nonce);
            if same_bytes(b, want.as_slice()) {
                AuthStep::Accepted
            } else {
                AuthStep::Failed(AuthError::WrongSecret)
            }
        },
        None => AuthStep::Failed(AuthError::NoResponse),
    }
}

/// The base 32 form of bytes, without padding.
pub uninterp spec fn base32(bytes: Seq<u8>) -> Seq<char>;

/// The bytes of a base 32 text without padding, given as bytes.
pub uninterp spec fn unbase32(text: Seq<u8>) -> Option<Seq<u8>>;

/// `data_encoding::BASE32_NOPAD.encode`: the base 32 form of the bytes, from
/// which they can be read back.
#[verifier::external_body]
fn encode32(bytes: &[u8]) -> (r: String)
    ensures
        r@ == base32(bytes@),
        unbase32(encode_utf8(r@)) == Some(bytes@),
{
    data_encoding::BASE32_NOPAD.encode(bytes)
}

/// `data_encoding::BASE32_NOPAD.decode`: the bytes of a base 32 text, where it is
/// one.
#[verifier::external_body]
fn decode32(text: &[u8]) -> (r: Option<Vec<u8>>)
    ensures
        match r {
            Some(b) => unbase32(text@) == Some(b@),
            None => unbase32(text@) is None,
        },
{
    data_encoding::BASE32_NOPAD.decode(text).ok()
}

/// The text of an invitation, from its bytes. It reads back as the same bytes.
pub fn ticket_text(bytes: &[u8]) -> (r: String)
    ensures
        r@ == base32(bytes@),
        unbase32(encode_utf8(r@)) == Some(bytes@),
{
    encode32(bytes)
}

/// The bytes of an invitation, from its text. Whitespace around it does not
/// matter.
pub fn ticket_bytes(text: &str) -> (r: Option<Vec<u8>>)
    ensures
        match r {
            Some(b) => unbase32(encode_utf8(trim(text@))) == Some(b@),
            None => unbase32(encode_utf8(trim(text@))) is None,
        },
{
    let cs = chars_of(text);
    let t = string_of(trim_chars(cs.as_slice()));
    let b = text_bytes(t.as_str());
    decode32(b.as_slice())
}

/// A peer answers a challenge with the digest of the secret and the challenge, so that two
/// peers give the same answer exactly where these two have the same digest.
pub proof fn law_answers_are_made_of_secret_and_challenge(
    secret: Seq<u8>,
    nonce: Seq<u8>,
    other: Seq<u8>,
)
    ensures
        answer(secret, nonce) == blake3_digest(secret + nonce),
        answer(other, nonce) == answer(secret, nonce) <==> blake3_digest(other + nonce)
            == blake3_digest(secret + nonce),
{
}

} // verus!
