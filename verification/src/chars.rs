//! Text as sequences of Unicode scalar values.
//!
//! Every string of the library is modelled as a `Seq<char>`. The functions here
//! take strings apart into `Vec<char>`, put them together again, and do the
//! line, word and number handling that the file formats rest on.
use vstd::prelude::*;
use vstd::slice::slice_subrange;

verus! {

/// `String::push`: appends the given character to the end of the string.
pub assume_specification[ String::push ](s: &mut String, c: char)
    ensures
        final(s)@ == old(s)@.push(c),
;

/// `char::is_whitespace`: true exactly for the characters that have Unicode's
/// `White_Space` property.
pub assume_specification[ char::is_whitespace ](c: char) -> (r: bool)
    ensures
        r == is_white(c),
;

/// The characters with Unicode's `White_Space` property.
pub open spec fn is_white(c: char) -> bool {
    let n = c as u32;
    ||| 0x9 <= n <= 0xD
    ||| n == 0x20
    ||| n == 0x85
    ||| n == 0xA0
    ||| n == 0x1680
    ||| 0x2000 <= n <= 0x200A
    ||| n == 0x2028
    ||| n == 0x2029
    ||| n == 0x202F
    ||| n == 0x205F
    ||| n == 0x3000
}

/// The characters of `s`, in order.
pub fn chars_of(s: &str) -> (r: Vec<char>)
    ensures
        r@ == s@,
{
    let mut out: Vec<char> = Vec::new();
    for c in it: s.chars()
        invariant
            it.seq() == s@,
            out@ == s@.take(it.index()),
    {
        assert(s@.take(it.index() + 1) =~= s@.take(it.index()).push(c));
        out.push(c);
    }
    assert(s@.take(s@.len() as int) =~= s@);
    out
}

/// The string made of `cs`.
pub fn string_of(cs: &[char]) -> (r: String)
    ensures
        r@ == cs@,
{
    let mut out = String::new();
    let mut i: usize = 0;
    while i < cs.len()
        invariant
            i <= cs.len(),
            out@ == cs@.take(i as int),
        decreases cs.len() - i,
    {
        out.push(cs[i]);
        i += 1;
        assert(cs@.take(i as int) =~= cs@.take(i - 1).push(cs@[i - 1]));
    }
    assert(cs@.take(cs@.len() as int) =~= cs@);
    out
}

/// A copy of `cs`.
pub fn copy_chars(cs: &[char]) -> (r: Vec<char>)
    ensures
        r@ == cs@,
{
    let mut out: Vec<char> = Vec::new();
    push_chars(&mut out, cs);
    assert(out@ =~= cs@);
    out
}

/// Appends `cs` to `out`.
pub fn push_chars(out: &mut Vec<char>, cs: &[char])
    ensures
        final(out)@ == old(out)@ + cs@,
{
    let mut i: usize = 0;
    assert(out@ =~= old(out)@ + cs@.take(0));
    while i < cs.len()
        invariant
            i <= cs.len(),
            out@ == old(out)@ + cs@.take(i as int),
        decreases cs.len() - i,
    {
        out.push(cs[i]);
        i += 1;
        assert(old(out)@ + cs@.take(i as int) =~= (old(out)@ + cs@.take(i - 1)).push(cs@[i - 1]));
    }
    assert(cs@.take(cs@.len() as int) =~= cs@);
}

/// Appends the text `s` to `out`.
pub fn push_text(out: &mut Vec<char>, s: &str)
    ensures
        final(out)@ == old(out)@ + s@,
{
    let cs = chars_of(s);
    push_chars(out, cs.as_slice());
}

/// Whether the two character sequences are the same.
pub fn same_chars(a: &[char], b: &[char]) -> (r: bool)
    ensures
        r == (a@ == b@),
{
    if a.len() != b.len() {
        return false;
    }
    let mut i: usize = 0;
    while i < a.len()
        invariant
            i <= a.len(),
            a.len() == b.len(),
            forall|j: int| 0 <= j < i ==> a@[j] == b@[j],
        decreases a.len() - i,
    {
        if a[i] != b[i] {
            return false;
        }
        i += 1;
    }
    assert(a@ =~= b@);
    true
}

/// Whether two texts are the same.
pub fn same_text(a: &str, b: &str) -> (r: bool)
    ensures
        r == (a@ == b@),
{
    let x = chars_of(a);
    let y = chars_of(b);
    same_chars(x.as_slice(), y.as_slice())
}

/// Owned copy of a text.
pub fn copy_text(s: &str) -> (r: String)
    ensures
        r@ == s@,
{
    s.to_owned()
}

// ---------------------------------------------------------------------------
// Order
// ---------------------------------------------------------------------------

/// Lexicographic order by code point, which is how strings compare.
pub open spec fn text_lt(a: Seq<char>, b: Seq<char>) -> bool
    decreases a.len(),
{
    if b.len() == 0 {
        false
    } else if a.len() == 0 {
        true
    } else if a[0] != b[0] {
        (a[0] as u32) < (b[0] as u32)
    } else {
        text_lt(a.skip(1), b.skip(1))
    }
}

/// The code point of a character.
pub fn code_of(c: char) -> (r: u32)
    ensures
        r == c as u32,
{
    c as u32
}

/// Different characters have different code points.
pub proof fn lemma_code_injective(a: char, b: char)
    requires
        a != b,
    ensures
        a as u32 != b as u32,
{
}

/// No text is below itself.
pub proof fn lemma_text_lt_irreflexive(a: Seq<char>)
    ensures
        !text_lt(a, a),
    decreases a.len(),
{
    if a.len() > 0 {
        lemma_text_lt_irreflexive(a.skip(1));
    }
}

/// The order on texts is transitive.
pub proof fn lemma_text_lt_transitive(a: Seq<char>, b: Seq<char>, c: Seq<char>)
    requires
        text_lt(a, b),
        text_lt(b, c),
    ensures
        text_lt(a, c),
    decreases a.len(),
{
    if a.len() > 0 && b.len() > 0 && c.len() > 0 && a[0] == b[0] && b[0] == c[0] {
        lemma_text_lt_transitive(a.skip(1), b.skip(1), c.skip(1));
    }
}

/// Of two different texts one is below the other.
pub proof fn lemma_text_lt_total(a: Seq<char>, b: Seq<char>)
    requires
        a != b,
    ensures
        text_lt(a, b) || text_lt(b, a),
    decreases a.len(),
{
    if a.len() == 0 {
        assert(b.len() > 0) by {
            if b.len() == 0 {
                assert(a =~= b);
            }
        }
    } else if b.len() > 0 && a[0] == b[0] {
        assert(a.skip(1) != b.skip(1)) by {
            if a.skip(1) == b.skip(1) {
                assert(a =~= seq![a[0]] + a.skip(1));
                assert(b =~= seq![b[0]] + b.skip(1));
            }
        }
        lemma_text_lt_total(a.skip(1), b.skip(1));
    } else if b.len() > 0 {
        lemma_code_injective(a[0], b[0]);
    }
}

/// The order on texts is asymmetric.
pub proof fn lemma_text_lt_asymmetric(a: Seq<char>, b: Seq<char>)
    requires
        text_lt(a, b),
    ensures
        !text_lt(b, a),
        a != b,
{
    lemma_text_lt_irreflexive(a);
    if text_lt(b, a) {
        lemma_text_lt_transitive(a, b, a);
    }
}

/// Whether `a` sorts before `b`.
pub fn text_less(a: &str, b: &str) -> (r: bool)
    ensures
        r == text_lt(a@, b@),
{
    let x = chars_of(a);
    let y = chars_of(b);
    let mut i: usize = 0;
    assert(x@.skip(0) =~= x@);
    assert(y@.skip(0) =~= y@);
    while i < x.len() && i < y.len()
        invariant
            x@ == a@,
            y@ == b@,
            i <= x.len(),
            i <= y.len(),
            text_lt(x@, y@) == text_lt(x@.skip(i as int), y@.skip(i as int)),
        decreases x.len() - i,
    {
        assert(x@.skip(i as int).skip(1) =~= x@.skip(i + 1));
        assert(y@.skip(i as int).skip(1) =~= y@.skip(i + 1));
        if x[i] != y[i] {
            return code_of(x[i]) < code_of(y[i]);
        }
        i += 1;
    }
    i < y.len()
}

// ---------------------------------------------------------------------------
// Whitespace
// ---------------------------------------------------------------------------

/// `s` without leading whitespace.
pub open spec fn trim_start(s: Seq<char>) -> Seq<char>
    decreases s.len(),
{
    if s.len() > 0 && is_white(s[0]) {
        trim_start(s.skip(1))
    } else {
        s
    }
}

/// `s` without trailing whitespace.
pub open spec fn trim_end(s: Seq<char>) -> Seq<char>
    decreases s.len(),
{
    if s.len() > 0 && is_white(s.last()) {
        trim_end(s.drop_last())
    } else {
        s
    }
}

/// `s` without whitespace at either end.
pub open spec fn trim(s: Seq<char>) -> Seq<char> {
    trim_end(trim_start(s))
}

/// `s` neither starts nor ends with whitespace.
pub open spec fn is_trimmed(s: Seq<char>) -> bool {
    s.len() > 0 ==> !is_white(s[0]) && !is_white(s.last())
}

/// Trimming leaves a trimmed text alone.
pub proof fn lemma_trim_noop(s: Seq<char>)
    requires
        is_trimmed(s),
    ensures
        trim(s) == s,
        trim_end(s) == s,
        trim_start(s) == s,
{
}

/// `trim_start` drops leading whitespace only, so what is left is a suffix.
pub proof fn lemma_trim_start_suffix(s: Seq<char>)
    ensures
        trim_start(s).len() <= s.len(),
        trim_start(s) == s.skip(s.len() - trim_start(s).len()),
        trim_start(s).len() > 0 ==> !is_white(trim_start(s)[0]),
    decreases s.len(),
{
    if s.len() > 0 && is_white(s[0]) {
        lemma_trim_start_suffix(s.skip(1));
        assert(trim_start(s) =~= s.skip(s.len() - trim_start(s).len()));
    } else {
        assert(s.skip(0) =~= s);
    }
}

/// `trim_end` drops trailing whitespace only, so what is left is a prefix.
pub proof fn lemma_trim_end_prefix(s: Seq<char>)
    ensures
        trim_end(s).len() <= s.len(),
        trim_end(s) == s.take(trim_end(s).len() as int),
        trim_end(s).len() > 0 ==> !is_white(trim_end(s).last()),
    decreases s.len(),
{
    if s.len() > 0 && is_white(s.last()) {
        lemma_trim_end_prefix(s.drop_last());
        assert(trim_end(s) =~= s.take(trim_end(s).len() as int));
    } else {
        assert(s.take(s.len() as int) =~= s);
    }
}

/// Whitespace put in front of a text is trimmed away again.
pub proof fn lemma_trim_start_prepend(c: char, s: Seq<char>)
    requires
        is_white(c),
    ensures
        trim_start(seq![c] + s) == trim_start(s),
{
    assert((seq![c] + s).skip(1) =~= s);
}

/// Whitespace put behind a text is trimmed away again.
pub proof fn lemma_trim_end_append(s: Seq<char>, c: char)
    requires
        is_white(c),
    ensures
        trim_end(s.push(c)) == trim_end(s),
{
    assert(s.push(c).drop_last() =~= s);
}

/// `s` without leading whitespace.
pub fn trim_start_chars(s: &[char]) -> (r: &[char])
    ensures
        r@ == trim_start(s@),
{
    let mut i: usize = 0;
    assert(s@.skip(0) =~= s@);
    while i < s.len() && s[i].is_whitespace()
        invariant
            i <= s.len(),
            trim_start(s@) == trim_start(s@.skip(i as int)),
        decreases s.len() - i,
    {
        assert(s@.skip(i as int).skip(1) =~= s@.skip(i + 1));
        i += 1;
    }
    let r = slice_subrange(s, i, s.len());
    assert(r@ =~= s@.skip(i as int));
    r
}

/// `s` without trailing whitespace.
pub fn trim_end_chars(s: &[char]) -> (r: &[char])
    ensures
        r@ == trim_end(s@),
{
    let mut n: usize = s.len();
    assert(s@.take(n as int) =~= s@);
    while n > 0 && s[n - 1].is_whitespace()
        invariant
            n <= s.len(),
            trim_end(s@) == trim_end(s@.take(n as int)),
        decreases n,
    {
        assert(s@.take(n as int).drop_last() =~= s@.take(n - 1));
        n -= 1;
    }
    let r = slice_subrange(s, 0, n);
    assert(r@ =~= s@.take(n as int));
    r
}

/// `s` without whitespace at either end.
pub fn trim_chars(s: &[char]) -> (r: &[char])
    ensures
        r@ == trim(s@),
{
    trim_end_chars(trim_start_chars(s))
}

/// The text without whitespace at either end.
pub fn trim_text(s: &str) -> (r: String)
    ensures
        r@ == trim(s@),
{
    let cs = chars_of(s);
    string_of(trim_chars(cs.as_slice()))
}

// ---------------------------------------------------------------------------
// Searching and splitting
// ---------------------------------------------------------------------------

/// Where `c` first stands in `s`; the length of `s` if it does not.
pub open spec fn first_index(s: Seq<char>, c: char) -> int
    decreases s.len(),
{
    if s.len() == 0 || s[0] == c {
        0
    } else {
        1 + first_index(s.skip(1), c)
    }
}

/// What `first_index` means, position by position.
pub proof fn lemma_first_index(s: Seq<char>, c: char)
    ensures
        0 <= first_index(s, c) <= s.len(),
        first_index(s, c) < s.len() ==> s[first_index(s, c)] == c,
        forall|j: int| 0 <= j < first_index(s, c) ==> s[j] != c,
    decreases s.len(),
{
    if s.len() > 0 && s[0] != c {
        lemma_first_index(s.skip(1), c);
        assert forall|j: int| 0 <= j < first_index(s, c) implies s[j] != c by {
            if j > 0 {
                assert(s.skip(1)[j - 1] == s[j]);
            }
        }
    }
}

/// The position described by its properties is the first one.
pub proof fn lemma_first_index_is(s: Seq<char>, c: char, i: int)
    requires
        0 <= i <= s.len(),
        i < s.len() ==> s[i] == c,
        forall|j: int| 0 <= j < i ==> s[j] != c,
    ensures
        first_index(s, c) == i,
{
    lemma_first_index(s, c);
    let k = first_index(s, c);
    if k < i {
        assert(s[k] != c);
    } else if i < k {
        assert(s[i] != c);
    }
}

/// Where `c` first stands in `s`; the length of `s` if it does not.
pub fn find_char(s: &[char], c: char) -> (r: usize)
    ensures
        r == first_index(s@, c),
        r <= s.len(),
{
    let mut i: usize = 0;
    while i < s.len() && s[i] != c
        invariant
            i <= s.len(),
            forall|j: int| 0 <= j < i ==> s@[j] != c,
        decreases s.len() - i,
    {
        i += 1;
    }
    proof {
        lemma_first_index_is(s@, c, i as int);
    }
    i
}

/// Whether `s` starts with `p`.
pub fn starts_with_chars(s: &[char], p: &[char]) -> (r: bool)
    ensures
        r == p@.is_prefix_of(s@),
{
    if p.len() > s.len() {
        return false;
    }
    let front = slice_subrange(s, 0, p.len());
    let r = same_chars(front, p);
    assert(p@.is_prefix_of(s@) <==> s@.subrange(0, p@.len() as int) =~= p@);
    r
}

/// `s` without a carriage return at its end.
pub open spec fn strip_cr(s: Seq<char>) -> Seq<char> {
    if s.len() > 0 && s.last() == '\r' {
        s.drop_last()
    } else {
        s
    }
}

/// The lines of a text. A line ends with `\n` or `\r\n`, which are not part of
/// it; the last line needs no ending.
pub open spec fn lines(s: Seq<char>) -> Seq<Seq<char>>
    decreases s.len(),
    when true
    via lines_decreases
{
    let i = first_index(s, '\n');
    if s.len() == 0 {
        Seq::empty()
    } else if i >= s.len() {
        seq![s]
    } else {
        seq![strip_cr(s.take(i))] + lines(s.skip(i + 1))
    }
}

#[via_fn]
proof fn lines_decreases(s: Seq<char>) {
    lemma_first_index(s, '\n');
}

/// The texts that a list of character vectors stands for.
pub open spec fn deep(v: Seq<Vec<char>>) -> Seq<Seq<char>> {
    v.map_values(|x: Vec<char>| x@)
}

/// The texts that a list of strings stands for.
pub open spec fn texts(v: Seq<String>) -> Seq<Seq<char>> {
    v.map_values(|x: String| x@)
}

/// The lines of `s`.
pub fn split_lines(s: &[char]) -> (r: Vec<Vec<char>>)
    ensures
        deep(r@) == lines(s@),
{
    let mut out: Vec<Vec<char>> = Vec::new();
    let mut i: usize = 0;
    assert(s@.skip(0) =~= s@);
    assert(deep(out@) + lines(s@) =~= lines(s@));
    while i < s.len()
        invariant
            i <= s.len(),
            deep(out@) + lines(s@.skip(i as int)) == lines(s@),
        decreases s.len() - i,
    {
        let rest = slice_subrange(s, i, s.len());
        assert(rest@ =~= s@.skip(i as int));
        let n = find_char(rest, '\n');
        let ghost before = out@;
        if n >= rest.len() {
            out.push(copy_chars(rest));
            assert(deep(out@) =~= deep(before).push(rest@));
            assert(deep(out@) =~= deep(before) + seq![rest@]);
            i = s.len();
            assert(s@.skip(i as int) =~= Seq::<char>::empty());
            assert(deep(out@) + lines(s@.skip(i as int)) =~= deep(out@));
        } else {
            let m: usize = if n > 0 && rest[n - 1] == '\r' { n - 1 } else { n };
            let piece = slice_subrange(rest, 0, m);
            assert(piece@ =~= strip_cr(rest@.take(n as int)));
            out.push(copy_chars(piece));
            assert(deep(out@) =~= deep(before).push(piece@));
            i = i + n + 1;
            assert(rest@.skip(n + 1) =~= s@.skip(i as int));
            assert(deep(out@) + lines(s@.skip(i as int)) =~= deep(before) + (seq![piece@] + lines(
                s@.skip(i as int),
            )));
        }
    }
    assert(lines(s@.skip(i as int)) =~= Seq::<Seq<char>>::empty());
    assert(deep(out@) + Seq::<Seq<char>>::empty() =~= deep(out@));
    out
}

/// A line followed by a line feed is the first line of the text.
pub proof fn lemma_lines_cons(l: Seq<char>, rest: Seq<char>)
    requires
        !l.contains('\n'),
        l.len() > 0 ==> l.last() != '\r',
    ensures
        lines(l + seq!['\n'] + rest) == seq![l] + lines(rest),
{
    let s = l + seq!['\n'] + rest;
    assert forall|j: int| 0 <= j < l.len() implies s[j] != '\n' by {
        assert(s[j] == l[j]);
        assert(l.contains(l[j]));
    }
    lemma_first_index_is(s, '\n', l.len() as int);
    assert(s.take(l.len() as int) =~= l);
    assert(s.skip(l.len() as int + 1) =~= rest);
}

/// The pieces of `s` between the characters `c`.
pub open spec fn split(s: Seq<char>, c: char) -> Seq<Seq<char>>
    decreases s.len(),
    when true
    via split_decreases
{
    let i = first_index(s, c);
    if i >= s.len() {
        seq![s]
    } else {
        seq![s.take(i)] + split(s.skip(i + 1), c)
    }
}

#[via_fn]
proof fn split_decreases(s: Seq<char>, c: char) {
    lemma_first_index(s, c);
}

/// The pieces of `s` between the characters `c`.
pub fn split_chars(s: &[char], c: char) -> (r: Vec<Vec<char>>)
    ensures
        deep(r@) == split(s@, c),
        r@.len() > 0,
{
    let mut out: Vec<Vec<char>> = Vec::new();
    let mut i: usize = 0;
    assert(s@.skip(0) =~= s@);
    assert(deep(out@) + split(s@, c) =~= split(s@, c));
    loop
        invariant
            i <= s.len(),
            deep(out@) + split(s@.skip(i as int), c) == split(s@, c),
        decreases s.len() - i,
    {
        let rest = slice_subrange(s, i, s.len());
        assert(rest@ =~= s@.skip(i as int));
        let n = find_char(rest, c);
        let ghost before = out@;
        let piece = slice_subrange(rest, 0, n);
        out.push(copy_chars(piece));
        assert(deep(out@) =~= deep(before).push(piece@));
        if n >= rest.len() {
            assert(piece@ =~= rest@);
            assert(deep(out@) =~= deep(before) + seq![rest@]);
            return out;
        }
        assert(piece@ =~= rest@.take(n as int));
        i = i + n + 1;
        assert(rest@.skip(n + 1) =~= s@.skip(i as int));
        assert(deep(out@) + split(s@.skip(i as int), c) =~= deep(before) + (seq![piece@] + split(
            s@.skip(i as int),
            c,
        )));
    }
}

/// Every element of `parts`, with `sep` between neighbours.
pub open spec fn join(parts: Seq<Seq<char>>, sep: Seq<char>) -> Seq<char>
    decreases parts.len(),
{
    if parts.len() == 0 {
        Seq::empty()
    } else if parts.len() == 1 {
        parts[0]
    } else {
        join(parts.drop_last(), sep) + sep + parts.last()
    }
}

/// Joins `parts` from position `from` on, with `sep` between neighbours.
pub fn join_chars(parts: &[Vec<char>], from: usize, sep: &[char]) -> (r: Vec<char>)
    requires
        from <= parts@.len(),
    ensures
        r@ == join(deep(parts@).skip(from as int), sep@),
{
    let mut out: Vec<char> = Vec::new();
    let mut i: usize = from;
    let ghost all = deep(parts@).skip(from as int);
    assert(all.take(0) =~= Seq::<Seq<char>>::empty());
    while i < parts.len()
        invariant
            from <= i <= parts@.len(),
            all == deep(parts@).skip(from as int),
            out@ == join(all.take(i - from), sep@),
        decreases parts@.len() - i,
    {
        let ghost k = (i - from) as int;
        assert(all.take(k + 1).drop_last() =~= all.take(k));
        assert(all.take(k + 1).last() == parts@[i as int]@);
        if i > from {
            push_chars(&mut out, sep);
        }
        push_chars(&mut out, parts[i].as_slice());
        assert(out@ =~= join(all.take(k + 1), sep@));
        i += 1;
    }
    assert(all.take(all.len() as int) =~= all);
    out
}

// ---------------------------------------------------------------------------
// Laws
// ---------------------------------------------------------------------------

/// Splitting takes a text apart at each separator: what has none is one piece, and
/// what stands in front of the first one is the first piece.
pub proof fn law_pieces_are_between_separators(a: Seq<char>, c: char, rest: Seq<char>)
    requires
        !a.contains(c),
    ensures
        split(a, c) == seq![a],
        split(a + seq![c] + rest, c) == seq![a] + split(rest, c),
{
    assert forall|j: int| 0 <= j < a.len() implies a[j] != c by {
        assert(a.contains(a[j]));
    }
    lemma_first_index_is(a, c, a.len() as int);
    let s = a + seq![c] + rest;
    assert forall|j: int| 0 <= j < a.len() implies s[j] != c by {
        assert(s[j] == a[j]);
    }
    lemma_first_index_is(s, c, a.len() as int);
    assert(s.take(a.len() as int) =~= a);
    assert(s.skip(a.len() as int + 1) =~= rest);
}

/// A piece of a text is what stands between two separators, or the ends of the text,
/// and has none in it.
pub proof fn law_a_piece_has_separators_around_it(s: Seq<char>, c: char, w: Seq<char>)
    requires
        !w.contains(c),
    ensures
        split(s, c).contains(w) <==> exists|j: int|
            0 <= j && j + w.len() <= s.len() && #[trigger] s.subrange(j, j + w.len()) == w && (j
                == 0 || s[j - 1] == c) && (j + w.len() == s.len() || s[j + w.len()] == c),
    decreases s.len(),
{
    let i = first_index(s, c);
    let n = w.len() as int;
    lemma_first_index(s, c);
    assert forall|j: int| 0 <= j < n implies w[j] != c by {
        assert(w.contains(w[j]));
    }
    if i >= s.len() {
        assert(split(s, c) =~= seq![s]);
        if split(s, c).contains(w) {
            assert(split(s, c)[0] == w);
            assert(s.subrange(0, 0 + n) =~= w);
        }
        if exists|j: int|
            0 <= j && j + n <= s.len() && #[trigger] s.subrange(j, j + n) == w && (j == 0 || s[j
                - 1] == c) && (j + n == s.len() || s[j + n] == c) {
            let j = choose|j: int|
                0 <= j && j + n <= s.len() && #[trigger] s.subrange(j, j + n) == w && (j == 0 || s[j
                    - 1] == c) && (j + n == s.len() || s[j + n] == c);
            assert(j == 0 && n == s.len());
            assert(s =~= w);
            assert(split(s, c)[0] == w);
        }
    } else {
        let rest = s.skip(i + 1);
        let front = s.take(i);
        law_a_piece_has_separators_around_it(rest, c, w);
        let all = split(s, c);
        assert(all == seq![front] + split(rest, c));
        if all.contains(w) {
            let k = all.index_of(w);
            if k == 0 {
                assert(s.subrange(0, 0 + n) =~= w);
            } else {
                assert(split(rest, c)[k - 1] == w);
                let j = choose|j: int|
                    0 <= j && j + n <= rest.len() && #[trigger] rest.subrange(j, j + n) == w && (j
                        == 0 || rest[j - 1] == c) && (j + n == rest.len() || rest[j + n] == c);
                let m = j + i + 1;
                assert(s.subrange(m, m + n) =~= rest.subrange(j, j + n));
                if j > 0 {
                    assert(rest[j - 1] == s[m - 1]);
                }
                if j + n < rest.len() {
                    assert(rest[j + n] == s[m + n]);
                }
            }
        }
        if exists|j: int|
            0 <= j && j + n <= s.len() && #[trigger] s.subrange(j, j + n) == w && (j == 0 || s[j
                - 1] == c) && (j + n == s.len() || s[j + n] == c) {
            let j = choose|j: int|
                0 <= j && j + n <= s.len() && #[trigger] s.subrange(j, j + n) == w && (j == 0 || s[j
                    - 1] == c) && (j + n == s.len() || s[j + n] == c);
            if j == 0 {
                if i < n {
                    assert(s.subrange(j, j + n)[i] == w[i]);
                }
                assert(n == i);
                assert(front =~= w);
                assert(all[0] == w);
            } else {
                assert(j >= i + 1);
                let m = j - i - 1;
                assert(rest.subrange(m, m + n) =~= s.subrange(j, j + n));
                if m > 0 {
                    assert(rest[m - 1] == s[j - 1]);
                }
                if j + n < s.len() {
                    assert(rest[m + n] == s[j + n]);
                }
                let k = split(rest, c).index_of(w);
                assert(all[k + 1] == w);
            }
        }
    }
}

/// A piece of a text starts with a character exactly where the character stands at
/// the start of the text or behind a separator.
pub proof fn law_a_piece_starts_behind_a_separator(s: Seq<char>, c: char, d: char)
    requires
        c != d,
    ensures
        (exists|i: int|
            0 <= i < split(s, c).len() && (#[trigger] split(s, c)[i]).len() > 0 && split(s, c)[i][0]
                == d) <==> (exists|j: int|
            0 <= j < s.len() && #[trigger] s[j] == d && (j == 0 || s[j - 1] == c)),
    decreases s.len(),
{
    let i = first_index(s, c);
    lemma_first_index(s, c);
    let all = split(s, c);
    if i >= s.len() {
        assert(all =~= seq![s]);
        if exists|k: int| 0 <= k < all.len() && (#[trigger] all[k]).len() > 0 && all[k][0] == d {
            assert(s[0] == d);
        }
        if exists|j: int| 0 <= j < s.len() && #[trigger] s[j] == d && (j == 0 || s[j - 1] == c) {
            assert(all[0].len() > 0 && all[0][0] == d);
        }
    } else {
        let rest = s.skip(i + 1);
        let front = s.take(i);
        law_a_piece_starts_behind_a_separator(rest, c, d);
        assert(all == seq![front] + split(rest, c));
        if exists|k: int| 0 <= k < all.len() && (#[trigger] all[k]).len() > 0 && all[k][0] == d {
            let k = choose|k: int|
                0 <= k < all.len() && (#[trigger] all[k]).len() > 0 && all[k][0] == d;
            if k == 0 {
                assert(s[0] == d);
            } else {
                assert(split(rest, c)[k - 1] == all[k]);
                let j = choose|j: int|
                    0 <= j < rest.len() && #[trigger] rest[j] == d && (j == 0 || rest[j - 1] == c);
                let m = j + i + 1;
                assert(s[m] == d);
                if j > 0 {
                    assert(s[m - 1] == rest[j - 1]);
                }
            }
        }
        if exists|j: int| 0 <= j < s.len() && #[trigger] s[j] == d && (j == 0 || s[j - 1] == c) {
            let j = choose|j: int|
                0 <= j < s.len() && #[trigger] s[j] == d && (j == 0 || s[j - 1] == c);
            if j == 0 {
                assert(front[0] == d);
                assert(all[0].len() > 0 && all[0][0] == d);
            } else {
                let m = j - i - 1;
                assert(m >= 0);
                assert(rest[m] == d);
                if m > 0 {
                    assert(rest[m - 1] == s[j - 1]);
                }
                let k = choose|k: int|
                    0 <= k < split(rest, c).len() && (#[trigger] split(rest, c)[k]).len() > 0
                        && split(rest, c)[k][0] == d;
                assert(all[k + 1] == split(rest, c)[k]);
            }
        }
    }
}

/// Putting pieces together puts the separator between each two of them.
pub proof fn law_joining_puts_the_separator_between(
    parts: Seq<Seq<char>>,
    last: Seq<char>,
    sep: Seq<char>,
)
    ensures
        join(Seq::empty(), sep) == Seq::<char>::empty(),
        join(seq![last], sep) == last,
        parts.len() > 0 ==> join(parts.push(last), sep) == join(parts, sep) + sep + last,
{
    assert(parts.push(last).drop_last() =~= parts);
}

/// A line ends at a line feed, before which a carriage return may stand; the last one
/// needs no ending and is kept as it is.
pub proof fn law_lines_end_at_line_feeds(l: Seq<char>, rest: Seq<char>)
    requires
        !l.contains('\n'),
    ensures
        lines(Seq::empty()) == Seq::<Seq<char>>::empty(),
        l.len() > 0 ==> lines(l) == seq![l],
        lines(l + seq!['\r', '\n'] + rest) == seq![l] + lines(rest),
        l.len() == 0 || l.last() != '\r' ==> lines(l + seq!['\n'] + rest) == seq![l] + lines(rest),
{
    assert forall|j: int| 0 <= j < l.len() implies l[j] != '\n' by {
        assert(l.contains(l[j]));
    }
    lemma_first_index_is(l, '\n', l.len() as int);
    let s = l + seq!['\r', '\n'] + rest;
    let i = l.len() as int + 1;
    assert forall|j: int| 0 <= j < i implies s[j] != '\n' by {
        if j < l.len() {
            assert(s[j] == l[j]);
        }
    }
    lemma_first_index_is(s, '\n', i);
    assert(s.take(i) =~= l.push('\r'));
    assert(l.push('\r').drop_last() =~= l);
    assert(s.skip(i + 1) =~= rest);
    if l.len() == 0 || l.last() != '\r' {
        lemma_lines_cons(l, rest);
    }
}

/// Trimming takes away the whitespace at both ends and nothing else.
pub proof fn law_trimming_takes_whitespace_from_the_ends(
    front: Seq<char>,
    s: Seq<char>,
    back: Seq<char>,
)
    requires
        forall|i: int| 0 <= i < front.len() ==> is_white(#[trigger] front[i]),
        forall|i: int| 0 <= i < back.len() ==> is_white(#[trigger] back[i]),
        s.len() > 0 ==> !is_white(s[0]) && !is_white(s.last()),
    ensures
        trim(front + s + back) == s,
    decreases front.len() + back.len(),
{
    let all = front + s + back;
    if front.len() > 0 {
        let rest = front.skip(1);
        assert forall|i: int| 0 <= i < rest.len() implies is_white(#[trigger] rest[i]) by {
            assert(rest[i] == front[i + 1]);
        }
        assert(all =~= seq![front[0]] + (rest + s + back));
        lemma_trim_start_prepend(front[0], rest + s + back);
        law_trimming_takes_whitespace_from_the_ends(rest, s, back);
    } else if back.len() > 0 {
        let rest = back.drop_last();
        assert forall|i: int| 0 <= i < rest.len() implies is_white(#[trigger] rest[i]) by {
            assert(rest[i] == back[i]);
        }
        law_trimming_takes_whitespace_from_the_ends(front, s, rest);
        let t = front + s + rest;
        assert(all =~= t.push(back.last()));
        if s.len() == 0 {
            // Only whitespace is left, which goes from the front.
            lemma_trim_start_white(all);
            assert(trim(all) =~= s);
        } else {
            assert(t[0] == s[0] && all[0] == s[0]);
            lemma_trim_end_append(t, back.last());
        }
    } else {
        assert(all =~= s);
        lemma_trim_noop(s);
    }
}

proof fn lemma_trim_start_white(s: Seq<char>)
    requires
        forall|i: int| 0 <= i < s.len() ==> is_white(#[trigger] s[i]),
    ensures
        trim_start(s) == Seq::<char>::empty(),
    decreases s.len(),
{
    if s.len() > 0 {
        assert forall|i: int| 0 <= i < s.skip(1).len() implies is_white(#[trigger] s.skip(1)[i]) by {
            assert(s.skip(1)[i] == s[i + 1]);
        }
        lemma_trim_start_white(s.skip(1));
    } else {
        assert(s =~= Seq::<char>::empty());
    }
}

/// Texts compare by the first character in which they differ; a text comes behind its
/// beginnings.
pub proof fn law_texts_compare_by_the_first_difference(p: Seq<char>, a: Seq<char>, b: Seq<char>)
    requires
        a.len() == 0 || b.len() == 0 || a[0] != b[0],
    ensures
        text_lt(p + a, p + b) <==> b.len() > 0 && (a.len() == 0 || (a[0] as u32) < (b[0] as u32)),
    decreases p.len(),
{
    if p.len() > 0 {
        assert((p + a).skip(1) =~= p.skip(1) + a);
        assert((p + b).skip(1) =~= p.skip(1) + b);
        law_texts_compare_by_the_first_difference(p.skip(1), a, b);
    } else {
        assert(p + a =~= a);
        assert(p + b =~= b);
    }
}

/// The pieces of two texts with a separator between them are those of the first and then
/// those of the second.
pub proof fn law_pieces_add_up(a: Seq<char>, c: char, b: Seq<char>)
    ensures
        split(a + seq![c] + b, c) == split(a, c) + split(b, c),
    decreases a.len(),
{
    let i = first_index(a, c);
    lemma_first_index(a, c);
    if i >= a.len() {
        assert(!a.contains(c));
        law_pieces_are_between_separators(a, c, b);
    } else {
        let front = a.take(i);
        let rest = a.skip(i + 1);
        assert(!front.contains(c));
        law_pieces_add_up(rest, c, b);
        let s = a + seq![c] + b;
        assert(s =~= front + seq![c] + (rest + seq![c] + b));
        law_pieces_are_between_separators(front, c, rest + seq![c] + b);
        assert(split(a, c) == seq![front] + split(rest, c));
        assert(split(s, c) =~= split(a, c) + split(b, c));
    }
}

} // verus!
