//! The list of what is kept in memory.
use crate::bytes::{blake3_digest, digest16, short_digest};
use crate::chars::{push_chars, push_text, string_of};
use crate::numerals::{decimal, decimal_chars, hex, hex_text};
use crate::sync::backing::snapshot_view;
use vstd::prelude::*;

verus! {

/// A short fingerprint of bytes: half of the digest, in hexadecimal.
pub fn short_hash(bytes: &[u8]) -> (r: String)
    ensures
        r@ == hex(short_digest(bytes@)),
{
    let h = digest16(bytes);
    hex_text(h.as_slice())
}

/// The line of one resource: name, size and fingerprint.
pub open spec fn entry_line(e: (Seq<char>, Seq<u8>)) -> Seq<char> {
    e.0 + seq!['\t'] + decimal(e.1.len()) + seq!['\t'] + hex(short_digest(e.1)) + seq!['\n']
}

/// The lines of a list of resources.
pub open spec fn entry_lines(es: Seq<(Seq<char>, Seq<u8>)>) -> Seq<char>
    decreases es.len(),
{
    if es.len() == 0 {
        Seq::empty()
    } else {
        entry_lines(es.drop_last()) + entry_line(es.last())
    }
}

/// One line for each resource: name, size and fingerprint.
pub fn format(entries: &[(String, Vec<u8>)]) -> (r: String)
    ensures
        r@ == entry_lines(snapshot_view(entries@)),
{
    let ghost all = snapshot_view(entries@);
    let mut out: Vec<char> = Vec::new();
    let mut i: usize = 0;
    assert(out@ =~= entry_lines(all.take(0)));
    while i < entries.len()
        invariant
            i <= entries@.len(),
            all == snapshot_view(entries@),
            out@ == entry_lines(all.take(i as int)),
        decreases entries@.len() - i,
    {
        assert(all.take(i + 1).drop_last() =~= all.take(i as int));
        assert(all.take(i + 1).last() == all[i as int]);
        let ghost before = out@;
        push_text(&mut out, entries[i].0.as_str());
        out.push('\t');
        let n = decimal_chars(entries[i].1.len() as u64);
        push_chars(&mut out, n.as_slice());
        out.push('\t');
        let h = short_hash(entries[i].1.as_slice());
        push_text(&mut out, h.as_str());
        out.push('\n');
        assert(out@ =~= before + entry_line(all[i as int]));
        i += 1;
    }
    assert(all.take(i as int) =~= all);
    string_of(out.as_slice())
}

/// The listing has a line for each entry, in their order: the name, the length and the
/// digest of its bytes, with tabs between them.
pub proof fn law_every_entry_has_its_line(
    es: Seq<(Seq<char>, Seq<u8>)>,
    name: Seq<char>,
    bytes: Seq<u8>,
)
    ensures
        entry_lines(Seq::empty()) == Seq::<char>::empty(),
        entry_lines(es.push((name, bytes))) == entry_lines(es) + name + seq!['\t'] + decimal(
            bytes.len(),
        ) + seq!['\t'] + hex(blake3_digest(bytes).take(16)) + seq!['\n'],
{
    assert(es.push((name, bytes)).drop_last() =~= es);
    assert(entry_lines(es.push((name, bytes))) =~= entry_lines(es) + name + seq!['\t'] + decimal(
        bytes.len(),
    ) + seq!['\t'] + hex(blake3_digest(bytes).take(16)) + seq!['\n']);
}

} // verus!
