//! Feeding values to the standard hasher, one write after the other.
use std::collections::hash_map::DefaultHasher;
use std::hash::Hasher;
use vstd::prelude::*;
use vstd::bytes::{spec_u32_to_le_bytes, spec_u64_to_le_bytes, u32_to_le_bytes, u64_to_le_bytes};
use vstd::utf8::encode_utf8;

verus! {

/// The writes for a number.
pub open spec fn number_writes(x: u64) -> Seq<Seq<u8>> {
    seq![spec_u64_to_le_bytes(x)]
}

/// The writes for a text: its bytes, and an end mark.
pub open spec fn text_writes(s: Seq<char>) -> Seq<Seq<u8>> {
    seq![encode_utf8(s), seq![0xffu8]]
}

/// Feeds a 64-bit number to the hasher.
pub fn feed_u64(h: &mut DefaultHasher, x: u64)
    ensures
        final(h)@ == old(h)@ + number_writes(x),
{
    let b = u64_to_le_bytes(x);
    h.write(b.as_slice());
    assert(h@ =~= old(h)@ + number_writes(x));
}

/// Feeds a 32-bit number to the hasher.
pub fn feed_u32(h: &mut DefaultHasher, x: u32)
    ensures
        final(h)@ == old(h)@ + seq![spec_u32_to_le_bytes(x)],
{
    let b = u32_to_le_bytes(x);
    h.write(b.as_slice());
    assert(h@ =~= old(h)@ + seq![spec_u32_to_le_bytes(x)]);
}

/// Feeds a text to the hasher.
pub fn feed_text(h: &mut DefaultHasher, s: &str)
    ensures
        final(h)@ == old(h)@ + text_writes(s@),
{
    h.write(s.as_bytes());
    let mut end: Vec<u8> = Vec::new();
    end.push(0xff);
    assert(end@ =~= seq![0xffu8]);
    h.write(end.as_slice());
    assert(h@ =~= old(h)@ + text_writes(s@));
}

} // verus!
