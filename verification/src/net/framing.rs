//! Messages on a stream of bytes: each goes behind its length.
use vstd::prelude::*;

verus! {

/// A number below 2^32 as four bytes, the lowest first.
pub open spec fn four_bytes(n: int) -> Seq<u8> {
    seq![
        (n % 0x100) as u8,
        (n / 0x100 % 0x100) as u8,
        (n / 0x10000 % 0x100) as u8,
        (n / 0x1000000 % 0x100) as u8,
    ]
}

/// The number that four bytes stand for.
pub open spec fn number_of(b: Seq<u8>) -> int {
    b[0] + 0x100 * b[1] + 0x10000 * b[2] + 0x1000000 * b[3]
}

/// What goes before a message of `len` bytes. A length that four bytes cannot
/// hold loses its upper part.
pub fn length_prefix(len: usize) -> (r: [u8; 4])
    ensures
        r@ == four_bytes(len as int),
{
    let n: u64 = len as u64;
    let r = [
        (n % 0x100) as u8,
        (n / 0x100 % 0x100) as u8,
        (n / 0x10000 % 0x100) as u8,
        (n / 0x1000000 % 0x100) as u8,
    ];
    assert(r@ =~= four_bytes(len as int));
    r
}

/// How many bytes the message behind a prefix has.
pub fn message_length(prefix: &[u8; 4]) -> (r: u32)
    ensures
        r == number_of(prefix@),
{
    prefix[0] as u32 + 0x100 * prefix[1] as u32 + 0x10000 * prefix[2] as u32 + 0x1000000
        * prefix[3] as u32
}

/// The prefix of a message tells its length, unless four bytes cannot hold it.
pub proof fn law_lengths_read_back(len: int)
    requires
        0 <= len < 0x1_0000_0000,
    ensures
        four_bytes(len).len() == 4,
        number_of(four_bytes(len)) == len,
{
    let b = four_bytes(len);
    assert(b[0] == len % 0x100);
    assert(b[1] == len / 0x100 % 0x100);
    assert(b[2] == len / 0x10000 % 0x100);
    assert(b[3] == len / 0x1000000 % 0x100);
    assert(len / 0x10000 == len / 0x100 / 0x100);
    assert(len / 0x1000000 == len / 0x100 / 0x100 / 0x100);
}

} // verus!
