//! Block-wise file sync: a replica advertises signatures of its blocks, the
//! other side answers with the blocks to reuse and the bytes that are new.
//!
//! This replicates one buffer and merges nothing, so each replica carries a
//! stamp, a version and the content's digest, and the greater stamp wins. A local
//! change raises the version.
use crate::bytes::{
    blake3_digest, bytes_less, bytes_lt, copy_bytes, digest, digest16, lemma_bytes_lt_asymmetric,
    lemma_bytes_lt_total, lemma_bytes_lt_transitive, push_bytes, same_bytes, short_digest,
};
use crate::sync::strategy::{Kind, SyncStrategy};
use vstd::prelude::*;
use vstd::slice::slice_subrange;

verus! {

/// Fixed block size. Small enough to reuse around fine-grained edits, large
/// enough to keep the signatures short.
pub const BLOCK: usize = 1024;

// ---------------------------------------------------------------------------
// The rolling checksum
// ---------------------------------------------------------------------------

/// The sum of the bytes of a window.
pub open spec fn total(s: Seq<u8>) -> int
    decreases s.len(),
{
    if s.len() == 0 {
        0
    } else {
        s[0] as int + total(s.skip(1))
    }
}

/// The sum of the bytes of a window, the first weighted by the length of the
/// window, the next by one less, the last by one.
pub open spec fn weighted(s: Seq<u8>) -> int
    decreases s.len(),
{
    if s.len() == 0 {
        0
    } else {
        s.len() * s[0] as int + weighted(s.skip(1))
    }
}

/// The weak checksum of a window: both sums modulo 2^16, the weighted one in the
/// upper half.
pub open spec fn weak_sum(s: Seq<u8>) -> u32 {
    (total(s) % 0x10000 + 0x10000 * (weighted(s) % 0x10000)) as u32
}

proof fn lemma_total_push(s: Seq<u8>, x: u8)
    ensures
        total(s.push(x)) == total(s) + x,
    decreases s.len(),
{
    if s.len() == 0 {
        assert(s.push(x).skip(1) =~= s);
    } else {
        lemma_total_push(s.skip(1), x);
        assert(s.push(x).skip(1) =~= s.skip(1).push(x));
    }
}

proof fn lemma_weighted_push(s: Seq<u8>, x: u8)
    ensures
        weighted(s.push(x)) == weighted(s) + total(s) + x,
    decreases s.len(),
{
    if s.len() == 0 {
        assert(s.push(x).skip(1) =~= s);
    } else {
        lemma_weighted_push(s.skip(1), x);
        assert(s.push(x).skip(1) =~= s.skip(1).push(x));
        let n = s.len() as int;
        let h = s[0] as int;
        assert((n + 1) * h == n * h + h) by (nonlinear_arith);
        assert(s.push(x)[0] == s[0]);
        assert(weighted(s.push(x)) == (n + 1) * h + weighted(s.skip(1).push(x)));
    }
}

/// Taking a term out of a sum modulo 2^16 and putting another in.
proof fn lemma_slide(x: int, out: int, k: int, y: int)
    ensures
        (x % 0x10000 + 0x10000 - out + y) % 0x10000 == (x - (out + 0x10000 * k) + y) % 0x10000,
        (x % 0x10000 + 0x1000000 - out + y % 0x10000) % 0x10000 == (x - (out + 0x10000 * k) + y)
            % 0x10000,
{
}

/// A rolling weak checksum, so that the window can advance one byte at a time
/// without another pass over the block.
pub struct Rolling {
    a: u32,
    b: u32,
    len: u32,
    window: Ghost<Seq<u8>>,
}

impl View for Rolling {
    type V = Seq<u8>;

    /// The window that the checksum is taken over.
    closed spec fn view(&self) -> Seq<u8> {
        self.window@
    }
}

impl Rolling {
    /// The two sums are those of the window.
    pub closed spec fn wf(&self) -> bool {
        &&& self.a == total(self@) % 0x10000
        &&& self.b == weighted(self@) % 0x10000
        &&& self.len == self@.len() % 0x10000
    }

    /// The checksum state of a window.
    pub fn new(block: &[u8]) -> (r: Self)
        ensures
            r.wf(),
            r@ == block@,
    {
        let mut a: u32 = 0;
        let mut b: u32 = 0;
        let mut n: u32 = 0;
        let mut i: usize = 0;
        while i < block.len()
            invariant
                i <= block.len(),
                a == total(block@.take(i as int)) % 0x10000,
                b == weighted(block@.take(i as int)) % 0x10000,
                n == i % 0x10000,
            decreases block.len() - i,
        {
            let x = block[i];
            proof {
                assert(block@.take(i + 1) =~= block@.take(i as int).push(x));
                lemma_total_push(block@.take(i as int), x);
                lemma_weighted_push(block@.take(i as int), x);
            }
            a = (a + x as u32) % 0x10000;
            b = (b + a) % 0x10000;
            n = (n + 1) % 0x10000;
            i += 1;
        }
        assert(block@.take(block@.len() as int) =~= block@);
        Rolling { a, b, len: n, window: Ghost(block@) }
    }

    /// The checksum of the window.
    pub fn digest(&self) -> (r: u32)
        requires
            self.wf(),
        ensures
            r == weak_sum(self@),
    {
        let a: u32 = self.a;
        let b: u32 = self.b;
        assert((a & 0xffffu32) | ((b & 0xffffu32) << 16u32) == a + 0x10000u32 * b) by (bit_vector)
            requires
                a < 0x10000u32,
                b < 0x10000u32,
        ;
        (a & 0xffff) | ((b & 0xffff) << 16)
    }

    /// Slides the window: drops `gone` at the front, takes `new` at the back.
    pub fn roll(&mut self, gone: u8, new: u8)
        requires
            old(self).wf(),
            old(self)@.len() > 0,
            old(self)@[0] == gone,
        ensures
            final(self).wf(),
            final(self)@ == old(self)@.skip(1).push(new),
    {
        let ghost w = self@;
        let ghost t = w.skip(1);
        proof {
            lemma_total_push(t, new);
            lemma_weighted_push(t, new);
        }
        let l: u32 = self.len;
        assert(l * gone <= 0xffff * 0xff) by (nonlinear_arith)
            requires
                l <= 0xffff,
                gone <= 0xff,
        ;
        let ghost k = w.len() as int / 0x10000;
        assert(w.len() * gone == l * gone + 0x10000 * (k * gone)) by (nonlinear_arith)
            requires
                w.len() == l + 0x10000 * k,
        ;
        let a: u32 = (self.a + 0x10000 - gone as u32 + new as u32) % 0x10000;
        let b: u32 = (self.b + 0x1000000 - l * (gone as u32) + a) % 0x10000;
        proof {
            lemma_slide(total(w), gone as int, 0, new as int);
            assert(a == total(t.push(new)) % 0x10000);
            lemma_slide(weighted(w), l * gone, k * gone, total(t.push(new)));
            assert(b == weighted(t.push(new)) % 0x10000);
        }
        self.a = a;
        self.b = b;
        self.window = Ghost(t.push(new));
    }
}

// ---------------------------------------------------------------------------
// Signatures, tokens, and the two directions of the algorithm
// ---------------------------------------------------------------------------

/// Block signatures of a buffer: the weak checksum and the short digest of each
/// full block. The partial block at the end has none.
#[derive(Clone)]
pub struct Signatures {
    pub block: usize,
    pub sigs: Vec<(u32, [u8; 16])>,
}

/// What a list of signatures says.
pub struct SigsView {
    pub block: int,
    pub sigs: Seq<(u32, Seq<u8>)>,
}

/// Block signatures with the digests as byte strings.
pub open spec fn sig_list(v: Seq<(u32, [u8; 16])>) -> Seq<(u32, Seq<u8>)> {
    v.map_values(|p: (u32, [u8; 16])| (p.0, p.1@))
}

impl View for Signatures {
    type V = SigsView;

    closed spec fn view(&self) -> SigsView {
        SigsView { block: self.block as int, sigs: sig_list(self.sigs@) }
    }
}

/// The `k`-th full block of `data`.
pub open spec fn block_at(data: Seq<u8>, k: int, block: int) -> Seq<u8> {
    data.subrange(k * block, k * block + block)
}

/// The signature of one block.
pub open spec fn signature(b: Seq<u8>) -> (u32, Seq<u8>) {
    (weak_sum(b), short_digest(b))
}

/// The signatures of all full blocks of `data`.
pub open spec fn signatures_of(data: Seq<u8>) -> SigsView {
    SigsView {
        block: BLOCK as int,
        sigs: Seq::new(data.len() / BLOCK as nat, |k: int| signature(block_at(data, k, BLOCK as int))),
    }
}

/// The signatures of all full blocks of `data`.
pub fn signatures(data: &[u8]) -> (r: Signatures)
    ensures
        r@ == signatures_of(data@),
{
    let len: usize = data.len();
    let full: usize = len / BLOCK;
    let mut sigs: Vec<(u32, [u8; 16])> = Vec::new();
    let mut k: usize = 0;
    while k < full
        invariant
            k <= full,
            full == data@.len() / 1024,
            full * 1024 <= len == data@.len(),
            sigs@.len() == k,
            forall|j: int|
                0 <= j < k ==> (sigs@[j].0, (#[trigger] sigs@[j]).1@) == signature(
                    block_at(data@, j, BLOCK as int),
                ),
        decreases full - k,
    {
        let b = slice_subrange(data, k * BLOCK, k * BLOCK + BLOCK);
        assert(b@ == block_at(data@, k as int, BLOCK as int));
        let weak = Rolling::new(b).digest();
        let strong = digest16(b);
        sigs.push((weak, strong));
        k += 1;
    }
    let r = Signatures { block: BLOCK, sigs };
    assert(r@.sigs =~= signatures_of(data@).sigs);
    r
}

/// One step of a delta.
#[derive(Clone)]
pub enum Token {
    /// Reuse the full block with this index from the basis.
    Copy(usize),
    /// Insert these bytes.
    Literal(Vec<u8>),
}

/// What a token says.
pub enum Piece {
    Reuse(int),
    Bytes(Seq<u8>),
}

impl View for Token {
    type V = Piece;

    open spec fn view(&self) -> Piece {
        match self {
            Token::Copy(i) => Piece::Reuse(*i as int),
            Token::Literal(b) => Piece::Bytes(b@),
        }
    }
}

/// What a list of tokens says.
pub open spec fn pieces(v: Seq<Token>) -> Seq<Piece> {
    v.map_values(|t: Token| t@)
}

/// A target buffer in terms of the blocks of a basis.
#[derive(Clone)]
pub struct Delta {
    pub tokens: Vec<Token>,
}

impl View for Delta {
    type V = Seq<Piece>;

    closed spec fn view(&self) -> Seq<Piece> {
        pieces(self.tokens@)
    }
}

/// Whether block `j` of the basis has the signature of the window.
pub open spec fn matches_window(sigs: Seq<(u32, Seq<u8>)>, j: int, w: Seq<u8>) -> bool {
    sigs[j] == signature(w)
}

/// The first block from `j` on whose signature is that of the window.
pub open spec fn first_match(sigs: Seq<(u32, Seq<u8>)>, j: int, w: Seq<u8>) -> Option<int>
    decreases sigs.len() - j,
{
    if j < 0 || j >= sigs.len() {
        None
    } else if matches_window(sigs, j, w) {
        Some(j)
    } else {
        first_match(sigs, j + 1, w)
    }
}

/// The pending literal run, as a token where it is not empty.
pub open spec fn literal(target: Seq<u8>, from: int, to: int) -> Seq<Piece> {
    if from < to {
        seq![Piece::Bytes(target.subrange(from, to))]
    } else {
        Seq::empty()
    }
}

/// The tokens for `target` from position `i` on, where the bytes from `lit` to
/// `i` still wait to be written: a block of the basis wherever the window
/// matches one, literals for what lies between.
pub open spec fn greedy(basis: SigsView, target: Seq<u8>, i: int, lit: int) -> Seq<Piece>
    decreases target.len() - i,
{
    if basis.block <= 0 || i < 0 || target.len() - i < basis.block {
        literal(target, lit, target.len() as int)
    } else {
        match first_match(basis.sigs, 0, target.subrange(i, i + basis.block)) {
            Some(k) => literal(target, lit, i) + seq![Piece::Reuse(k)] + greedy(
                basis,
                target,
                i + basis.block,
                i + basis.block,
            ),
            None => greedy(basis, target, i + 1, lit),
        }
    }
}

/// `target` in terms of the blocks of a basis with the given signatures.
pub open spec fn diff_of(basis: SigsView, target: Seq<u8>) -> Seq<Piece> {
    greedy(basis, target, 0, 0)
}

/// What `first_match` means, block by block.
proof fn lemma_first_match(sigs: Seq<(u32, Seq<u8>)>, j: int, w: Seq<u8>)
    requires
        0 <= j,
    ensures
        match first_match(sigs, j, w) {
            Some(k) => j <= k < sigs.len() && matches_window(sigs, k, w) && forall|m: int|
                j <= m < k ==> !#[trigger] matches_window(sigs, m, w),
            None => forall|m: int| j <= m < sigs.len() ==> !#[trigger] matches_window(sigs, m, w),
        },
    decreases sigs.len() - j,
{
    if j < sigs.len() && !matches_window(sigs, j, w) {
        lemma_first_match(sigs, j + 1, w);
    }
}

/// The block described by its properties is the first match.
proof fn lemma_first_match_is(sigs: Seq<(u32, Seq<u8>)>, k: int, w: Seq<u8>)
    requires
        0 <= k <= sigs.len(),
        k < sigs.len() ==> matches_window(sigs, k, w),
        forall|m: int| 0 <= m < k ==> !#[trigger] matches_window(sigs, m, w),
    ensures
        first_match(sigs, 0, w) == (if k < sigs.len() {
            Some(k)
        } else {
            None
        }),
{
    lemma_first_match(sigs, 0, w);
    match first_match(sigs, 0, w) {
        Some(f) => {
            if f < k {
                assert(!matches_window(sigs, f, w));
            } else if k < f {
                assert(!matches_window(sigs, k, w));
            }
        },
        None => {
            if k < sigs.len() {
                assert(!matches_window(sigs, k, w));
            }
        },
    }
}

/// With no signatures nothing matches: the whole target is one literal.
proof fn lemma_greedy_no_sigs(basis: SigsView, target: Seq<u8>, i: int)
    requires
        basis.sigs.len() == 0,
        0 <= i,
    ensures
        greedy(basis, target, i, 0) == literal(target, 0, target.len() as int),
    decreases target.len() - i,
{
    if !(basis.block <= 0 || target.len() - i < basis.block) {
        lemma_greedy_no_sigs(basis, target, i + 1);
    }
}

/// Signatures by weak checksum: for each checksum the first block that has it,
/// and for each block the next one with the same checksum.
struct WeakIndex {
    head: std::collections::HashMap<u32, usize>,
    next: Vec<usize>,
}

impl WeakIndex {
    /// `k` is the first block from `from` on with weak checksum `weak`, or the
    /// number of blocks where there is none.
    spec fn first_from(sigs: Seq<(u32, [u8; 16])>, from: int, weak: u32, k: int) -> bool {
        &&& from <= k <= sigs.len()
        &&& k < sigs.len() ==> sigs[k].0 == weak
        &&& forall|m: int| from <= m < k ==> (#[trigger] sigs[m]).0 != weak
    }

    spec fn covers(&self, sigs: Seq<(u32, [u8; 16])>, from: int) -> bool {
        &&& self.next@.len() == sigs.len()
        &&& forall|w: u32|
            #![trigger self.head@.contains_key(w)]
            #![trigger self.head@[w]]
            Self::first_from(
                sigs,
                from,
                w,
                if self.head@.contains_key(w) {
                    self.head@[w] as int
                } else {
                    sigs.len() as int
                },
            )
        &&& forall|j: int|
            from <= j < sigs.len() ==> Self::first_from(
                sigs,
                j + 1,
                sigs[j].0,
                #[trigger] self.next@[j] as int,
            )
    }

    fn new(sigs: &Vec<(u32, [u8; 16])>) -> (r: Self)
        ensures
            r.covers(sigs@, 0),
    {
        broadcast use vstd::std_specs::hash::group_hash_axioms;

        let n: usize = sigs.len();
        let mut next: Vec<usize> = Vec::new();
        let mut i: usize = 0;
        while i < n
            invariant
                i <= n,
                next@.len() == i,
            decreases n - i,
        {
            next.push(n);
            i += 1;
        }
        let mut r = WeakIndex { head: std::collections::HashMap::new(), next };
        while i > 0
            invariant
                i <= n,
                n == sigs@.len(),
                r.covers(sigs@, i as int),
            decreases i,
        {
            broadcast use vstd::std_specs::hash::group_hash_axioms;

            let ghost prev = r;
            let j: usize = i - 1;
            let weak: u32 = sigs[j].0;
            let after: usize = match r.head.get(&weak) {
                Some(k) => *k,
                None => n,
            };
            assert(Self::first_from(sigs@, i as int, weak, after as int)) by {
                let _ = prev.head@.contains_key(weak);
            }
            r.next[j] = after;
            r.head.insert(weak, j);
            assert(r.covers(sigs@, j as int)) by {
                assert forall|w: u32| Self::first_from(
                    sigs@,
                    j as int,
                    w,
                    if #[trigger] r.head@.contains_key(w) {
                        r.head@[w] as int
                    } else {
                        sigs@.len() as int
                    },
                ) by {
                    assert(Self::first_from(
                        sigs@,
                        i as int,
                        w,
                        if prev.head@.contains_key(w) {
                            prev.head@[w] as int
                        } else {
                            sigs@.len() as int
                        },
                    ));
                }
                assert forall|m: int| j <= m < sigs@.len() implies Self::first_from(
                    sigs@,
                    m + 1,
                    sigs@[m].0,
                    #[trigger] r.next@[m] as int,
                ) by {
                    if m > j {
                        assert(r.next@[m] == prev.next@[m]);
                    }
                }
            }
            i = j;
        }
        r
    }

    /// The first block with the signature of the window, if there is one.
    fn find(&self, sigs: &Vec<(u32, [u8; 16])>, weak: u32, window: &[u8]) -> (r: Option<usize>)
        requires
            self.covers(sigs@, 0),
            weak == weak_sum(window@),
        ensures
            r is Some <==> first_match(sig_list(sigs@), 0, window@) is Some,
            r matches Some(k) ==> first_match(sig_list(sigs@), 0, window@) == Some(k as int),
    {
        broadcast use vstd::std_specs::hash::group_hash_axioms;

        let n: usize = sigs.len();
        let ghost list = sig_list(sigs@);
        let _ = self.next.len();
        let mut k: usize = match self.head.get(&weak) {
            Some(j) => *j,
            None => n,
        };
        assert(Self::first_from(sigs@, 0, weak, k as int)) by {
            let _ = self.head@.contains_key(weak);
        }
        if k >= n {
            proof {
                lemma_first_match_is(list, n as int, window@);
            }
            return None;
        }
        let strong = digest16(window);
        while k < n
            invariant
                k <= n,
                n == sigs@.len(),
                list == sig_list(sigs@),
                self.covers(sigs@, 0),
                strong@ == short_digest(window@),
                weak == weak_sum(window@),
                k < n ==> sigs@[k as int].0 == weak,
                forall|m: int| 0 <= m < k ==> !#[trigger] matches_window(list, m, window@),
            decreases n - k,
        {
            if same_bytes(sigs[k].1.as_slice(), strong.as_slice()) {
                proof {
                    lemma_first_match_is(list, k as int, window@);
                }
                return Some(k);
            }
            let ghost was = k as int;
            k = self.next[k];
            assert(Self::first_from(sigs@, was + 1, weak, k as int));
            assert forall|m: int| 0 <= m < k implies !#[trigger] matches_window(list, m, window@) by {
                if m > was {
                    assert(sigs@[m].0 != weak);
                }
            }
        }
        proof {
            lemma_first_match_is(list, n as int, window@);
        }
        None
    }
}

/// Expresses `target` in terms of the blocks of a basis.
pub fn diff(basis: &Signatures, target: &[u8]) -> (r: Delta)
    ensures
        r@ == diff_of(basis@, target@),
{
    let block: usize = basis.block;
    let mut tokens: Vec<Token> = Vec::new();
    let ghost sigs = basis@;
    let ghost goal = diff_of(sigs, target@);
    assert(pieces(tokens@) =~= Seq::<Piece>::empty());
    if block == 0 || target.len() < block || basis.sigs.len() == 0 {
        proof {
            if basis.sigs.len() == 0 {
                lemma_greedy_no_sigs(sigs, target@, 0);
            }
        }
        if target.len() > 0 {
            tokens.push(Token::Literal(copy_bytes(target)));
            assert(target@.subrange(0, target@.len() as int) =~= target@);
        }
        let r = Delta { tokens };
        assert(r@ =~= goal);
        return r;
    }
    let index = WeakIndex::new(&basis.sigs);
    let mut i: usize = 0;
    let mut lit: usize = 0;
    let mut roll = Rolling::new(slice_subrange(target, 0, block));
    assert(Seq::<Piece>::empty() + goal =~= goal);
    while target.len() - i >= block
        invariant
            0 < block == basis.block,
            sigs == basis@,
            goal == diff_of(sigs, target@),
            index.covers(basis.sigs@, 0),
            lit <= i <= target.len(),
            roll.wf(),
            target.len() - i >= block ==> roll@ == target@.subrange(i as int, i + block),
            pieces(tokens@) + greedy(sigs, target@, i as int, lit as int) == goal,
        decreases target.len() - i,
    {
        let ghost before = tokens@;
        let window = slice_subrange(target, i, i + block);
        let found = index.find(&basis.sigs, roll.digest(), window);
        match found {
            Some(k) => {
                if lit < i {
                    tokens.push(Token::Literal(copy_bytes(slice_subrange(target, lit, i))));
                }
                tokens.push(Token::Copy(k));
                assert(pieces(tokens@) =~= pieces(before) + literal(target@, lit as int, i as int)
                    + seq![Piece::Reuse(k as int)]);
                let ghost rest = greedy(sigs, target@, i + block, i + block);
                assert(pieces(tokens@) + rest =~= pieces(before) + (literal(
                    target@,
                    lit as int,
                    i as int,
                ) + seq![Piece::Reuse(k as int)] + rest));
                i = i + block;
                lit = i;
                if target.len() - i >= block {
                    roll = Rolling::new(slice_subrange(target, i, i + block));
                }
            },
            None => {
                if target.len() - i > block {
                    roll.roll(target[i], target[i + block]);
                    assert(roll@ =~= target@.subrange(i + 1, i + 1 + block));
                }
                i += 1;
            },
        }
    }
    let ghost before = tokens@;
    if lit < target.len() {
        tokens.push(Token::Literal(copy_bytes(slice_subrange(target, lit, target.len()))));
    }
    let r = Delta { tokens };
    assert(r@ =~= pieces(before) + literal(target@, lit as int, target@.len() as int));
    r
}

/// The bytes that one token stands for. A block that the basis does not have
/// stands for nothing.
pub open spec fn piece_bytes(basis: Seq<u8>, p: Piece, block: int) -> Seq<u8> {
    match p {
        Piece::Reuse(k) => if 0 <= k && k * block + block <= basis.len() {
            block_at(basis, k, block)
        } else {
            Seq::empty()
        },
        Piece::Bytes(b) => b,
    }
}

/// The bytes that a list of tokens stands for.
pub open spec fn rebuilt(basis: Seq<u8>, ps: Seq<Piece>, block: int) -> Seq<u8>
    decreases ps.len(),
{
    if ps.len() == 0 {
        Seq::empty()
    } else {
        rebuilt(basis, ps.drop_last(), block) + piece_bytes(basis, ps.last(), block)
    }
}

/// Rebuilds the target from the basis and the delta.
pub fn reconstruct(basis: &[u8], delta: &Delta, block: usize) -> (r: Vec<u8>)
    ensures
        r@ == rebuilt(basis@, delta@, block as int),
{
    let mut out: Vec<u8> = Vec::new();
    let mut i: usize = 0;
    while i < delta.tokens.len()
        invariant
            i <= delta.tokens@.len(),
            out@ == rebuilt(basis@, delta@.take(i as int), block as int),
        decreases delta.tokens@.len() - i,
    {
        assert(delta@.take(i + 1).drop_last() =~= delta@.take(i as int));
        assert(delta@.take(i + 1).last() == delta.tokens@[i as int]@);
        match &delta.tokens[i] {
            Token::Copy(k) => {
                let n: usize = *k;
                assert(0 <= n * block <= 0xffff_ffff_ffff_ffff * 0xffff_ffff_ffff_ffff)
                    by (nonlinear_arith)
                    requires
                        0 <= n <= 0xffff_ffff_ffff_ffff,
                        0 <= block <= 0xffff_ffff_ffff_ffff,
                ;
                let start: u128 = (n as u128) * (block as u128);
                if start + block as u128 <= basis.len() as u128 {
                    let from: usize = start as usize;
                    push_bytes(&mut out, slice_subrange(basis, from, from + block));
                } else {
                    assert(out@ =~= out@ + Seq::<u8>::empty());
                }
            },
            Token::Literal(b) => {
                push_bytes(&mut out, b.as_slice());
            },
        }
        i += 1;
    }
    assert(delta@.take(delta@.len() as int) =~= delta@);
    out
}

// ---------------------------------------------------------------------------
// Diff and reconstruct undo each other
// ---------------------------------------------------------------------------

/// No window of `target` has the signature of a block of `basis` without being
/// that block.
pub open spec fn signatures_tell_apart(basis: Seq<u8>, target: Seq<u8>) -> bool {
    forall|k: int, i: int|
        0 <= k < basis.len() / BLOCK as nat && 0 <= i <= target.len() - BLOCK && #[trigger] signature(
            block_at(basis, k, BLOCK as int),
        ) == #[trigger] signature(target.subrange(i, i + BLOCK)) ==> block_at(
            basis,
            k,
            BLOCK as int,
        ) == target.subrange(i, i + BLOCK)
}

proof fn lemma_rebuilt_concat(basis: Seq<u8>, a: Seq<Piece>, b: Seq<Piece>, block: int)
    ensures
        rebuilt(basis, a + b, block) == rebuilt(basis, a, block) + rebuilt(basis, b, block),
    decreases b.len(),
{
    if b.len() == 0 {
        assert(a + b =~= a);
        assert(rebuilt(basis, a, block) + rebuilt(basis, b, block) =~= rebuilt(basis, a, block));
    } else {
        lemma_rebuilt_concat(basis, a, b.drop_last(), block);
        assert((a + b).drop_last() =~= a + b.drop_last());
        assert((a + b).last() == b.last());
        assert(rebuilt(basis, a + b, block) =~= rebuilt(basis, a, block) + (rebuilt(
            basis,
            b.drop_last(),
            block,
        ) + piece_bytes(basis, b.last(), block)));
    }
}

proof fn lemma_rebuilt_one(basis: Seq<u8>, p: Piece, block: int)
    ensures
        rebuilt(basis, seq![p], block) == piece_bytes(basis, p, block),
{
    assert(seq![p].drop_last() =~= Seq::<Piece>::empty());
    assert(rebuilt(basis, Seq::<Piece>::empty(), block) =~= Seq::<u8>::empty());
    assert(rebuilt(basis, seq![p], block) =~= piece_bytes(basis, p, block));
}

proof fn lemma_rebuilt_literal(basis: Seq<u8>, target: Seq<u8>, from: int, to: int, block: int)
    requires
        0 <= from <= to <= target.len(),
    ensures
        rebuilt(basis, literal(target, from, to), block) == target.subrange(from, to),
{
    if from < to {
        lemma_rebuilt_one(basis, Piece::Bytes(target.subrange(from, to)), block);
    } else {
        assert(target.subrange(from, to) =~= Seq::<u8>::empty());
    }
}

proof fn lemma_greedy_rebuilds(basis: Seq<u8>, target: Seq<u8>, i: int, lit: int)
    requires
        signatures_tell_apart(basis, target),
        0 <= lit <= i <= target.len(),
    ensures
        rebuilt(basis, greedy(signatures_of(basis), target, i, lit), BLOCK as int)
            == target.subrange(lit, target.len() as int),
    decreases target.len() - i,
{
    let b = BLOCK as int;
    let sigs = signatures_of(basis);
    if target.len() - i < b {
        lemma_rebuilt_literal(basis, target, lit, target.len() as int, b);
    } else {
        let w = target.subrange(i, i + b);
        lemma_first_match(sigs.sigs, 0, w);
        match first_match(sigs.sigs, 0, w) {
            Some(k) => {
                let rest = greedy(sigs, target, i + b, i + b);
                let front = literal(target, lit, i);
                lemma_greedy_rebuilds(basis, target, i + b, i + b);
                lemma_rebuilt_literal(basis, target, lit, i, b);
                lemma_rebuilt_one(basis, Piece::Reuse(k), b);
                lemma_rebuilt_concat(basis, front, seq![Piece::Reuse(k)], b);
                lemma_rebuilt_concat(basis, front + seq![Piece::Reuse(k)], rest, b);
                assert(signature(block_at(basis, k, b)) == signature(w));
                assert(block_at(basis, k, b) == w);
                assert(k * b + b <= basis.len()) by {
                    assert(k < basis.len() / 1024);
                }
                assert(target.subrange(lit, i) + w + target.subrange(i + b, target.len() as int)
                    =~= target.subrange(lit, target.len() as int));
            },
            None => {
                lemma_greedy_rebuilds(basis, target, i + 1, lit);
            },
        }
    }
}

/// Reconstruction undoes the diff: from the basis and the delta that was made
/// against the signatures of the basis comes the target, whatever the two are,
/// unless two different blocks among them share a signature.
pub proof fn law_reconstruct_undoes_diff(basis: Seq<u8>, target: Seq<u8>)
    requires
        signatures_tell_apart(basis, target),
    ensures
        rebuilt(basis, diff_of(signatures_of(basis), target), BLOCK as int) == target,
{
    lemma_greedy_rebuilds(basis, target, 0, 0);
    assert(target.subrange(0, target.len() as int) =~= target);
}

/// No window of the bytes has the signature of a block.
pub open spec fn holds_no_block(basis: SigsView, p: Piece) -> bool {
    p matches Piece::Bytes(b) ==> forall|at: int|
        0 <= at && at + basis.block <= b.len() ==> first_match(
            basis.sigs,
            0,
            #[trigger] b.subrange(at, at + basis.block),
        ) is None
}

proof fn lemma_literal(basis: SigsView, target: Seq<u8>, from: int, to: int)
    requires
        basis.block > 0,
        0 <= from <= to <= target.len(),
        forall|s: int|
            from <= s && s + basis.block <= to ==> first_match(
                basis.sigs,
                0,
                #[trigger] target.subrange(s, s + basis.block),
            ) is None,
    ensures
        forall|j: int|
            0 <= j < literal(target, from, to).len() ==> holds_no_block(
                basis,
                #[trigger] literal(target, from, to)[j],
            ),
{
    if from < to {
        let b = target.subrange(from, to);
        assert forall|at: int| 0 <= at && at + basis.block <= b.len() implies first_match(
            basis.sigs,
            0,
            #[trigger] b.subrange(at, at + basis.block),
        ) is None by {
            let s = from + at;
            assert(b.subrange(at, at + basis.block) =~= target.subrange(s, s + basis.block));
        }
        assert(holds_no_block(basis, Piece::Bytes(b)));
    }
}

proof fn lemma_greedy_literals(basis: SigsView, target: Seq<u8>, i: int, lit: int)
    requires
        basis.block > 0,
        0 <= lit <= i <= target.len(),
        forall|s: int|
            lit <= s < i && s + basis.block <= target.len() ==> first_match(
                basis.sigs,
                0,
                #[trigger] target.subrange(s, s + basis.block),
            ) is None,
    ensures
        forall|j: int|
            0 <= j < greedy(basis, target, i, lit).len() ==> holds_no_block(
                basis,
                #[trigger] greedy(basis, target, i, lit)[j],
            ),
    decreases target.len() - i,
{
    if target.len() - i < basis.block {
        lemma_literal(basis, target, lit, target.len() as int);
        assert(greedy(basis, target, i, lit) == literal(target, lit, target.len() as int));
    } else {
        match first_match(basis.sigs, 0, target.subrange(i, i + basis.block)) {
            Some(k) => {
                lemma_literal(basis, target, lit, i);
                lemma_greedy_literals(basis, target, i + basis.block, i + basis.block);
                let front = literal(target, lit, i);
                let back = greedy(basis, target, i + basis.block, i + basis.block);
                let all = greedy(basis, target, i, lit);
                assert forall|j: int| 0 <= j < all.len() implies holds_no_block(
                    basis,
                    #[trigger] all[j],
                ) by {
                    if j < front.len() {
                        assert(all[j] == front[j]);
                    } else if j > front.len() {
                        assert(all[j] == back[j - front.len() - 1]);
                    }
                }
            },
            None => {
                lemma_greedy_literals(basis, target, i + 1, lit);
                assert(greedy(basis, target, i, lit) == greedy(basis, target, i + 1, lit));
            },
        }
    }
}

/// What the basis has is not sent again: no stretch of a literal is a block of the
/// basis.
pub proof fn law_literals_hold_no_basis_block(
    basis: Seq<u8>,
    target: Seq<u8>,
    j: int,
    at: int,
    k: int,
)
    requires
        0 <= j < diff_of(signatures_of(basis), target).len(),
        diff_of(signatures_of(basis), target)[j] is Bytes,
        0 <= at,
        at + BLOCK <= diff_of(signatures_of(basis), target)[j]->Bytes_0.len(),
        0 <= k < basis.len() / BLOCK as nat,
    ensures
        diff_of(signatures_of(basis), target)[j]->Bytes_0.subrange(at, at + BLOCK) != block_at(
            basis,
            k,
            BLOCK as int,
        ),
{
    let sigs = signatures_of(basis);
    lemma_greedy_literals(sigs, target, 0, 0);
    let p = diff_of(sigs, target)[j];
    assert(holds_no_block(sigs, p));
    let w = p->Bytes_0.subrange(at, at + BLOCK);
    lemma_first_match(sigs.sigs, 0, w);
    if w == block_at(basis, k, BLOCK as int) {
        assert(matches_window(sigs.sigs, k, w));
    }
}

// ---------------------------------------------------------------------------
// Messages
// ---------------------------------------------------------------------------

/// What a replica says of itself: its stamp and its block signatures.
pub struct Advert {
    pub version: u64,
    pub hash: [u8; 32],
    pub sigs: Signatures,
}

/// What a replica sends to another: its stamp and the tokens that lead there.
pub struct Patch {
    pub version: u64,
    pub hash: [u8; 32],
    pub delta: Delta,
}

/// What an advertisement says.
pub struct AdvertView {
    pub version: u64,
    pub hash: Seq<u8>,
    pub sigs: SigsView,
}

/// What a patch says.
pub struct PatchView {
    pub version: u64,
    pub hash: Seq<u8>,
    pub delta: Seq<Piece>,
}

impl View for Advert {
    type V = AdvertView;

    open spec fn view(&self) -> AdvertView {
        AdvertView { version: self.version, hash: self.hash@, sigs: self.sigs@ }
    }
}

impl View for Patch {
    type V = PatchView;

    open spec fn view(&self) -> PatchView {
        PatchView { version: self.version, hash: self.hash@, delta: self.delta@ }
    }
}

/// The postcard encoding of an advertisement's fields.
pub uninterp spec fn advert_bytes(
    version: u64,
    hash: Seq<u8>,
    block: int,
    sigs: Seq<(u32, Seq<u8>)>,
) -> Seq<u8>;

/// The fields that postcard reads from the bytes of an advertisement.
pub uninterp spec fn advert_fields(bytes: Seq<u8>) -> Option<
    (u64, Seq<u8>, int, Seq<(u32, Seq<u8>)>),
>;

/// `postcard::to_allocvec` on the fields of an advertisement: their encoding,
/// which reads back as the same fields.
#[verifier::external_body]
fn write_advert(version: u64, hash: &[u8; 32], block: usize, sigs: &Vec<(u32, [u8; 16])>) -> (r: Vec<
    u8,
>)
    ensures
        r@ == advert_bytes(version, hash@, block as int, sig_list(sigs@)),
        advert_fields(r@) == Some((version, hash@, block as int, sig_list(sigs@))),
{
    postcard::to_allocvec(&(version, hash, block, sigs)).unwrap_or_default()
}

/// `postcard::from_bytes` for the fields of an advertisement: the fields that
/// the bytes hold, where they hold any.
#[verifier::external_body]
fn read_advert(bytes: &[u8]) -> (r: Option<(u64, [u8; 32], usize, Vec<(u32, [u8; 16])>)>)
    ensures
        match r {
            Some(t) => advert_fields(bytes@) == Some((t.0, t.1@, t.2 as int, sig_list(t.3@))),
            None => advert_fields(bytes@) is None,
        },
{
    postcard::from_bytes(bytes).ok()
}

/// A token as the encoder sees it: a block index, or bytes.
pub open spec fn wire_token(p: Piece) -> Result<int, Seq<u8>> {
    match p {
        Piece::Reuse(k) => Ok(k),
        Piece::Bytes(b) => Err(b),
    }
}

/// The encoder's tokens with their bytes as sequences.
pub open spec fn wire_list(v: Seq<Result<usize, Vec<u8>>>) -> Seq<Result<int, Seq<u8>>> {
    v.map_values(
        |t: Result<usize, Vec<u8>>|
            match t {
                Ok(k) => Ok::<int, Seq<u8>>(k as int),
                Err(b) => Err::<int, Seq<u8>>(b@),
            },
    )
}

/// The tokens of a delta as the encoder sees them.
pub open spec fn wire_pieces(ps: Seq<Piece>) -> Seq<Result<int, Seq<u8>>> {
    ps.map_values(|p: Piece| wire_token(p))
}

/// The tokens of a delta from what the encoder makes of them.
pub open spec fn unwired_pieces(v: Seq<Result<int, Seq<u8>>>) -> Seq<Piece> {
    v.map_values(
        |t: Result<int, Seq<u8>>|
            match t {
                Ok(k) => Piece::Reuse(k),
                Err(b) => Piece::Bytes(b),
            },
    )
}

/// The postcard encoding of a list of tokens.
pub uninterp spec fn delta_bytes(tokens: Seq<Result<int, Seq<u8>>>) -> Seq<u8>;

/// The postcard encoding of a patch's fields.
pub uninterp spec fn patch_bytes(
    version: u64,
    hash: Seq<u8>,
    tokens: Seq<Result<int, Seq<u8>>>,
) -> Seq<u8>;

/// The fields that postcard reads from the bytes of a patch.
pub uninterp spec fn patch_fields(bytes: Seq<u8>) -> Option<
    (u64, Seq<u8>, Seq<Result<int, Seq<u8>>>),
>;

/// `postcard::to_allocvec` on a list of tokens: their encoding.
#[verifier::external_body]
fn write_delta(tokens: &Vec<Result<usize, Vec<u8>>>) -> (r: Vec<u8>)
    ensures
        r@ == delta_bytes(wire_list(tokens@)),
{
    postcard::to_allocvec(tokens).unwrap_or_default()
}

/// `postcard::to_allocvec` on the fields of a patch: their encoding, which reads
/// back as the same fields.
#[verifier::external_body]
fn write_patch(version: u64, hash: &[u8; 32], tokens: &Vec<Result<usize, Vec<u8>>>) -> (r: Vec<u8>)
    ensures
        r@ == patch_bytes(version, hash@, wire_list(tokens@)),
        patch_fields(r@) == Some((version, hash@, wire_list(tokens@))),
{
    postcard::to_allocvec(&(version, hash, tokens)).unwrap_or_default()
}

/// `postcard::from_bytes` for the fields of a patch: the fields that the bytes
/// hold, where they hold any.
#[verifier::external_body]
fn read_patch(bytes: &[u8]) -> (r: Option<(u64, [u8; 32], Vec<Result<usize, Vec<u8>>>)>)
    ensures
        match r {
            Some(t) => patch_fields(bytes@) == Some((t.0, t.1@, wire_list(t.2@))),
            None => patch_fields(bytes@) is None,
        },
{
    postcard::from_bytes(bytes).ok()
}

/// The advertisement that the bytes hold, if they hold one.
pub open spec fn advert_of(bytes: Seq<u8>) -> Option<AdvertView> {
    match advert_fields(bytes) {
        Some((version, hash, block, sigs)) => Some(
            AdvertView { version, hash, sigs: SigsView { block, sigs } },
        ),
        None => None,
    }
}

/// The patch that the bytes hold, if they hold one.
pub open spec fn patch_of(bytes: Seq<u8>) -> Option<PatchView> {
    match patch_fields(bytes) {
        Some((version, hash, tokens)) => Some(
            PatchView { version, hash, delta: unwired_pieces(tokens) },
        ),
        None => None,
    }
}

impl Delta {
    fn to_wire(&self) -> (r: Vec<Result<usize, Vec<u8>>>)
        ensures
            wire_list(r@) == wire_pieces(self@),
    {
        let mut out: Vec<Result<usize, Vec<u8>>> = Vec::new();
        let mut i: usize = 0;
        while i < self.tokens.len()
            invariant
                i <= self.tokens@.len(),
                wire_list(out@) == wire_pieces(self@).take(i as int),
            decreases self.tokens@.len() - i,
        {
            let ghost before = out@;
            match &self.tokens[i] {
                Token::Copy(k) => out.push(Ok(*k)),
                Token::Literal(b) => out.push(Err(copy_bytes(b.as_slice()))),
            }
            assert(wire_list(out@) =~= wire_list(before).push(wire_token(self@[i as int])));
            assert(wire_pieces(self@).take(i + 1) =~= wire_pieces(self@).take(i as int).push(
                wire_token(self@[i as int]),
            ));
            i += 1;
        }
        assert(wire_pieces(self@).take(self@.len() as int) =~= wire_pieces(self@));
        out
    }

    fn from_wire(v: &Vec<Result<usize, Vec<u8>>>) -> (r: Self)
        ensures
            r@ == unwired_pieces(wire_list(v@)),
    {
        let mut tokens: Vec<Token> = Vec::new();
        let mut i: usize = 0;
        while i < v.len()
            invariant
                i <= v@.len(),
                pieces(tokens@) == unwired_pieces(wire_list(v@)).take(i as int),
            decreases v@.len() - i,
        {
            let ghost before = tokens@;
            match &v[i] {
                Ok(k) => tokens.push(Token::Copy(*k)),
                Err(b) => tokens.push(Token::Literal(copy_bytes(b.as_slice()))),
            }
            let ghost wired = unwired_pieces(wire_list(v@));
            assert(tokens@.last()@ == wired[i as int]);
            assert(pieces(tokens@) =~= pieces(before).push(wired[i as int]));
            assert(wired.take(i + 1) =~= wired.take(i as int).push(wired[i as int]));
            i += 1;
        }
        assert(unwired_pieces(wire_list(v@)).take(v@.len() as int) =~= unwired_pieces(wire_list(v@)));
        Delta { tokens }
    }

    /// The encoded delta.
    pub fn encode(&self) -> (r: Vec<u8>)
        ensures
            r@ == delta_bytes(wire_pieces(self@)),
    {
        write_delta(&self.to_wire())
    }
}

impl Advert {
    /// The encoded advertisement, which reads back as this one.
    pub fn encode(&self) -> (r: Vec<u8>)
        ensures
            r@ == advert_bytes(self@.version, self@.hash, self@.sigs.block, self@.sigs.sigs),
            advert_of(r@) == Some(self@),
    {
        write_advert(self.version, &self.hash, self.sigs.block, &self.sigs.sigs)
    }

    /// The advertisement that the bytes hold, if they hold one.
    pub fn decode(bytes: &[u8]) -> (r: Option<Self>)
        ensures
            match r {
                Some(a) => advert_of(bytes@) == Some(a@),
                None => advert_of(bytes@) is None,
            },
    {
        match read_advert(bytes) {
            Some((version, hash, block, sigs)) => Some(
                Advert { version, hash, sigs: Signatures { block, sigs } },
            ),
            None => None,
        }
    }
}

impl Patch {
    /// The encoded patch, which reads back as this one.
    pub fn encode(&self) -> (r: Vec<u8>)
        ensures
            r@ == patch_bytes(self@.version, self@.hash, wire_pieces(self@.delta)),
            patch_of(r@) == Some(self@),
    {
        assert(unwired_pieces(wire_pieces(self@.delta)) =~= self@.delta);
        write_patch(self.version, &self.hash, &self.delta.to_wire())
    }

    /// The patch that the bytes hold, if they hold one.
    pub fn decode(bytes: &[u8]) -> (r: Option<Self>)
        ensures
            match r {
                Some(p) => patch_of(bytes@) == Some(p@),
                None => patch_of(bytes@) is None,
            },
    {
        match read_patch(bytes) {
            Some((version, hash, tokens)) => Some(
                Patch { version, hash, delta: Delta::from_wire(&tokens) },
            ),
            None => None,
        }
    }
}

// ---------------------------------------------------------------------------
// Last writer wins
// ---------------------------------------------------------------------------

/// Whether the stamp `(va, ha)` wins over `(vb, hb)`: the higher version does,
/// and among equal versions the greater digest.
pub open spec fn stamp_wins(va: u64, ha: Seq<u8>, vb: u64, hb: Seq<u8>) -> bool {
    va > vb || (va == vb && bytes_lt(hb, ha))
}

/// Whether the stamp `(va, ha)` wins over `(vb, hb)`.
pub fn wins(va: u64, ha: &[u8; 32], vb: u64, hb: &[u8; 32]) -> (r: bool)
    ensures
        r == stamp_wins(va, ha@, vb, hb@),
{
    va > vb || (va == vb && bytes_less(hb.as_slice(), ha.as_slice()))
}

/// Of two replicas with different content exactly one has the winning stamp.
pub proof fn law_one_stamp_wins(va: u64, ha: Seq<u8>, vb: u64, hb: Seq<u8>)
    requires
        ha != hb,
    ensures
        stamp_wins(va, ha, vb, hb) != stamp_wins(vb, hb, va, ha),
{
    lemma_bytes_lt_total(ha, hb);
    if bytes_lt(ha, hb) {
        lemma_bytes_lt_asymmetric(ha, hb);
    } else {
        lemma_bytes_lt_asymmetric(hb, ha);
    }
}

/// A stamp that wins over a winner wins.
pub proof fn law_stamps_are_ordered(
    va: u64,
    ha: Seq<u8>,
    vb: u64,
    hb: Seq<u8>,
    vc: u64,
    hc: Seq<u8>,
)
    requires
        stamp_wins(va, ha, vb, hb),
        stamp_wins(vb, hb, vc, hc),
    ensures
        stamp_wins(va, ha, vc, hc),
{
    if va == vb && vb == vc {
        lemma_bytes_lt_transitive(hc, hb, ha);
    }
}

/// The content of a replica and its version.
pub struct RsyncView {
    pub content: Seq<u8>,
    pub version: u64,
}

impl RsyncView {
    /// The digest part of the stamp.
    pub open spec fn hash(self) -> Seq<u8> {
        blake3_digest(self.content)
    }

    /// What the replica says of itself.
    pub open spec fn advert(self) -> AdvertView {
        AdvertView {
            version: self.version,
            hash: self.hash(),
            sigs: signatures_of(self.content),
        }
    }

    /// The patch for a peer that sent the given advertisement: none where the
    /// content is the same, or where the peer's stamp wins.
    pub open spec fn patch_for(self, theirs: AdvertView) -> Option<PatchView> {
        if self.hash() == theirs.hash || !stamp_wins(
            self.version,
            self.hash(),
            theirs.version,
            theirs.hash,
        ) {
            None
        } else {
            Some(
                PatchView {
                    version: self.version,
                    hash: self.hash(),
                    delta: diff_of(theirs.sigs, self.content),
                },
            )
        }
    }

    /// The bytes that a patch leads to from here.
    pub open spec fn rebuilt_by(self, p: PatchView) -> Seq<u8> {
        rebuilt(self.content, p.delta, BLOCK as int)
    }

    /// Whether a patch is taken: its stamp wins over ours, and the bytes that it
    /// leads to from here have the digest that it names.
    pub open spec fn takes(self, p: PatchView) -> bool {
        &&& p.hash != self.hash()
        &&& stamp_wins(p.version, p.hash, self.version, self.hash())
        &&& blake3_digest(self.rebuilt_by(p)) == p.hash
    }

    /// The replica after a patch has been offered to it.
    pub open spec fn merged(self, p: PatchView) -> RsyncView {
        if self.takes(p) {
            RsyncView { content: self.rebuilt_by(p), version: p.version }
        } else {
            self
        }
    }
}

/// One replica of a file.
pub struct RsyncSyncer {
    current: Vec<u8>,
    version: u64,
}

impl View for RsyncSyncer {
    type V = RsyncView;

    closed spec fn view(&self) -> RsyncView {
        RsyncView { content: self.current@, version: self.version }
    }
}

impl RsyncSyncer {
    /// An empty replica.
    pub fn new(_name: &str) -> (r: Self)
        ensures
            r@ == (RsyncView { content: Seq::empty(), version: 0 }),
    {
        let r = RsyncSyncer { current: Vec::new(), version: 0 };
        assert(r@.content =~= Seq::empty());
        r
    }

    /// The content of the replica.
    pub fn content(&self) -> (r: Vec<u8>)
        ensures
            r@ == self@.content,
    {
        copy_bytes(self.current.as_slice())
    }

    /// How many local writes are behind the content.
    pub fn version(&self) -> (r: u64)
        ensures
            r == self@.version,
    {
        self.version
    }

    /// What the replica says of itself.
    pub fn advert(&self) -> (r: Advert)
        ensures
            r@ == self@.advert(),
    {
        Advert {
            version: self.version,
            hash: digest(self.current.as_slice()),
            sigs: signatures(self.current.as_slice()),
        }
    }

    /// The patch for a peer that sent the given advertisement, if it is to have
    /// one.
    pub fn patch_for(&self, theirs: &Advert) -> (r: Option<Patch>)
        ensures
            match r {
                Some(p) => self@.patch_for(theirs@) == Some(p@),
                None => self@.patch_for(theirs@) is None,
            },
    {
        let ours = digest(self.current.as_slice());
        if same_bytes(ours.as_slice(), theirs.hash.as_slice()) {
            return None;
        }
        if !wins(self.version, &ours, theirs.version, &theirs.hash) {
            return None;
        }
        Some(
            Patch {
                version: self.version,
                hash: ours,
                delta: diff(&theirs.sigs, self.current.as_slice()),
            },
        )
    }

    /// Offers a patch to the replica, and returns the new content where the
    /// replica took it.
    pub fn apply_patch(&mut self, patch: &Patch) -> (r: Option<Vec<u8>>)
        ensures
            final(self)@ == old(self)@.merged(patch@),
            r is Some <==> old(self)@.takes(patch@),
            r matches Some(b) ==> b@ == final(self)@.content,
    {
        let ours = digest(self.current.as_slice());
        if same_bytes(patch.hash.as_slice(), ours.as_slice()) {
            return None;
        }
        if !wins(patch.version, &patch.hash, self.version, &ours) {
            return None;
        }
        let bytes = reconstruct(self.current.as_slice(), &patch.delta, BLOCK);
        let hash = digest(bytes.as_slice());
        if !same_bytes(hash.as_slice(), patch.hash.as_slice()) {
            return None;
        }
        self.current = copy_bytes(bytes.as_slice());
        self.version = patch.version;
        Some(bytes)
    }
}

impl SyncStrategy for RsyncSyncer {
    open spec fn wf(&self) -> bool {
        true
    }

    open spec fn can_observe(&self) -> bool {
        self@.version < u64::MAX
    }

    open spec fn can_merge(&self, delta: Seq<u8>) -> bool {
        true
    }

    open spec fn spec_kind(&self) -> Kind {
        Kind::RsyncFile
    }

    fn kind(&self) -> (r: Kind) {
        Kind::RsyncFile
    }

    /// Takes in a local write: new bytes replace the content and raise the
    /// version.
    fn observe(&mut self, current: &[u8]) -> (r: bool)
        ensures
            r == (current@ != old(self)@.content),
            final(self)@ == (RsyncView {
                content: current@,
                version: if r {
                    (old(self)@.version + 1) as u64
                } else {
                    old(self)@.version
                },
            }),
    {
        if same_bytes(current, self.current.as_slice()) {
            return false;
        }
        self.current = copy_bytes(current);
        self.version = self.version + 1;
        true
    }

    /// Nothing: the peer's signatures are needed first.
    fn push_delta(&mut self) -> (r: Option<Vec<u8>>)
        ensures
            r is None,
            final(self)@ == old(self)@,
    {
        None
    }

    /// The replica's advertisement, encoded.
    fn state_vector(&self) -> (r: Vec<u8>)
        ensures
            advert_of(r@) == Some(self@.advert()),
            r@ == advert_bytes(
                self@.version,
                self@.hash(),
                BLOCK as int,
                signatures_of(self@.content).sigs,
            ),
    {
        self.advert().encode()
    }

    /// The patch for the peer whose advertisement the bytes hold, encoded.
    fn delta_since(&self, theirs: &[u8]) -> (r: Option<Vec<u8>>)
        ensures
            match advert_of(theirs@) {
                Some(a) => match (self@.patch_for(a), r) {
                    (Some(p), Some(b)) => patch_of(b@) == Some(p) && b@ == patch_bytes(
                        p.version,
                        p.hash,
                        wire_pieces(p.delta),
                    ),
                    (None, None) => true,
                    _ => false,
                },
                None => r is None,
            },
    {
        match Advert::decode(theirs) {
            Some(a) => match self.patch_for(&a) {
                Some(p) => Some(p.encode()),
                None => None,
            },
            None => None,
        }
    }

    /// Offers the patch that the bytes hold to the replica, and returns the new
    /// content where the replica took it.
    fn merge(&mut self, delta: &[u8]) -> (r: Option<Vec<u8>>)
        ensures
            match patch_of(delta@) {
                Some(p) => {
                    &&& final(self)@ == old(self)@.merged(p)
                    &&& r is Some <==> old(self)@.takes(p)
                    &&& r matches Some(b) ==> b@ == final(self)@.content
                },
                None => r is None && final(self)@ == old(self)@,
            },
    {
        match Patch::decode(delta) {
            Some(p) => self.apply_patch(&p),
            None => None,
        }
    }
}

/// What `b` has after it asked `a` once: `a` answers the advertisement of `b`,
/// and `b` is offered the answer.
pub open spec fn pulled(a: RsyncView, b: RsyncView) -> RsyncView {
    match a.patch_for(b.advert()) {
        Some(p) => b.merged(p),
        None => b,
    }
}

/// One exchange in both directions makes two replicas equal: both end with the
/// content of the one whose stamp won, and with its version where the contents
/// differed. Two different contents with one digest, or two different blocks
/// with one signature, are left out.
pub proof fn law_replicas_converge(a: RsyncView, b: RsyncView)
    requires
        a.hash() == b.hash() ==> a.content == b.content,
        signatures_tell_apart(a.content, b.content),
        signatures_tell_apart(b.content, a.content),
    ensures
        ({
            let b1 = pulled(a, b);
            let a1 = pulled(b1, a);
            &&& a1.content == b1.content
            &&& a.hash() != b.hash() ==> a1 == b1 && a1 == (if stamp_wins(
                a.version,
                a.hash(),
                b.version,
                b.hash(),
            ) {
                a
            } else {
                b
            })
            &&& a.hash() == b.hash() ==> a1 == a && b1 == b
        }),
{
    if a.hash() != b.hash() {
        law_one_stamp_wins(a.version, a.hash(), b.version, b.hash());
        law_reconstruct_undoes_diff(b.content, a.content);
        law_reconstruct_undoes_diff(a.content, b.content);
    }
}

/// Replicas with the same content have nothing to send to each other.
pub proof fn law_nothing_to_send_when_equal(a: RsyncView, b: RsyncView)
    requires
        a.content == b.content,
    ensures
        a.patch_for(b.advert()) is None,
        b.patch_for(a.advert()) is None,
{
}

/// A later local write wins over the state that it was made on.
pub proof fn law_later_write_wins(a: RsyncView, content: Seq<u8>)
    requires
        a.version < u64::MAX,
        content != a.content,
    ensures
        stamp_wins((a.version + 1) as u64, blake3_digest(content), a.version, a.hash()),
{
}

/// A patch that does not lead to what it says is refused, and one that is taken leads to
/// it: the content then has the digest that the patch names, and its version.
pub proof fn law_damaged_patches_are_refused(a: RsyncView, p: PatchView)
    ensures
        blake3_digest(rebuilt(a.content, p.delta, BLOCK as int)) != p.hash ==> a.merged(p) == a,
        a.merged(p) != a ==> blake3_digest(a.merged(p).content) == p.hash && a.merged(p).version
            == p.version && a.merged(p).content == rebuilt(a.content, p.delta, BLOCK as int),
        p.version < a.version ==> a.merged(p) == a,
        p.version > a.version && p.hash != blake3_digest(a.content) && blake3_digest(
            rebuilt(a.content, p.delta, BLOCK as int),
        ) == p.hash ==> a.merged(p).content == rebuilt(a.content, p.delta, BLOCK as int),
{
}

/// Rebuilding puts together what each piece stands for, in order: its own bytes, or a block
/// of the basis, if that is there.
pub proof fn law_pieces_stand_for_their_bytes(
    basis: Seq<u8>,
    ps: Seq<Piece>,
    b: Seq<u8>,
    k: int,
    block: int,
)
    requires
        block > 0,
    ensures
        rebuilt(basis, Seq::empty(), block) == Seq::<u8>::empty(),
        rebuilt(basis, ps.push(Piece::Bytes(b)), block) == rebuilt(basis, ps, block) + b,
        0 <= k && k * block + block <= basis.len() ==> rebuilt(
            basis,
            ps.push(Piece::Reuse(k)),
            block,
        ) == rebuilt(basis, ps, block) + basis.subrange(k * block, k * block + block),
        k * block + block > basis.len() ==> rebuilt(basis, ps.push(Piece::Reuse(k)), block)
            == rebuilt(basis, ps, block),
{
    assert(ps.push(Piece::Bytes(b)).drop_last() =~= ps);
    assert(ps.push(Piece::Reuse(k)).drop_last() =~= ps);
    if k * block + block > basis.len() {
        assert(rebuilt(basis, ps.push(Piece::Reuse(k)), block) =~= rebuilt(basis, ps, block));
    }
}

/// A basis is signed block by block, as far as full blocks go.
pub proof fn law_every_full_block_is_signed(data: Seq<u8>, k: int)
    ensures
        signatures_of(data).sigs.len() == data.len() / BLOCK as nat,
        0 <= k < data.len() / BLOCK as nat ==> signatures_of(data).sigs[k].1 == blake3_digest(
            data.subrange(k * BLOCK, k * BLOCK + BLOCK),
        ).take(16),
{
}

} // verus!
