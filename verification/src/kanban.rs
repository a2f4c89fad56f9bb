//! The file format of a board, without I/O and without a clock.
//!
//! A board is a directory:
//!   - `board.md`: a heading with the title, then a list item for each column;
//!   - `tickets/<id>/card.md`: a heading with the title, then the description;
//!   - `tickets/<id>/meta.toml`: column, position and whether it is done;
//!   - `tickets/<id>/comments/<time>__<author>.md`.
use crate::chars::{
    chars_of, copy_chars, copy_text, deep, find_char, first_index, is_trimmed, is_white, join,
    join_chars, law_trimming_takes_whitespace_from_the_ends, lemma_first_index,
    lemma_first_index_is, lemma_lines_cons, lemma_trim_end_append, lemma_trim_end_prefix,
    lemma_trim_noop, lemma_trim_start_prepend, lines, push_chars, push_text, same_chars,
    split_lines, string_of, texts, trim, trim_chars, trim_end, trim_end_chars,
};
use crate::numerals::{
    decimal_int, decimal_int_chars, lemma_spelled_decimal, parse_i64, spelled_i64,
};
use vstd::prelude::*;
use vstd::slice::slice_subrange;

verus! {

/// A card of a board.
#[derive(Clone, Debug, PartialEq, Eq)]
pub struct Card {
    pub id: String,
    pub title: String,
    pub column: String,
    pub position: i64,
    pub done: bool,
}

/// A comment on a card.
#[derive(Clone, Debug, PartialEq, Eq)]
pub struct Comment {
    pub id: String,
    pub author: String,
    pub ts: String,
    pub text: String,
}

/// The fields of `meta.toml`.
pub struct Meta {
    pub column: Option<String>,
    pub position: i64,
    pub done: bool,
}

/// What the fields of `meta.toml` say.
pub struct MetaView {
    pub column: Option<Seq<char>>,
    pub position: i64,
    pub done: bool,
}

impl View for Meta {
    type V = MetaView;

    open spec fn view(&self) -> MetaView {
        MetaView {
            column: match self.column {
                Some(c) => Some(c@),
                None => None,
            },
            position: self.position,
            done: self.done,
        }
    }
}

/// What a card says.
pub struct CardView {
    pub id: Seq<char>,
    pub title: Seq<char>,
    pub column: Seq<char>,
    pub position: i64,
    pub done: bool,
}

impl View for Card {
    type V = CardView;

    open spec fn view(&self) -> CardView {
        CardView {
            id: self.id@,
            title: self.title@,
            column: self.column@,
            position: self.position,
            done: self.done,
        }
    }
}

// ---------------------------------------------------------------------------
// Headings and list items
// ---------------------------------------------------------------------------

/// The text of a line that starts with the mark and a space: a heading for `#`,
/// a list item for `-`.
pub open spec fn marked(line: Seq<char>, mark: char) -> Option<Seq<char>> {
    let t = trim_end(line);
    if t.len() >= 2 && t[0] == mark && t[1] == ' ' && trim(t.skip(2)).len() > 0 {
        Some(trim(t.skip(2)))
    } else {
        None
    }
}

/// The first line from `i` on that carries the mark; the number of lines if none
/// does.
pub open spec fn first_marked(ls: Seq<Seq<char>>, i: int, mark: char) -> int
    decreases ls.len() - i,
{
    if i >= ls.len() {
        ls.len() as int
    } else if marked(ls[i], mark) is Some {
        i
    } else {
        first_marked(ls, i + 1, mark)
    }
}

/// The texts of all lines that carry the mark, in order.
pub open spec fn all_marked(ls: Seq<Seq<char>>, mark: char) -> Seq<Seq<char>>
    decreases ls.len(),
{
    if ls.len() == 0 {
        Seq::empty()
    } else {
        let front = all_marked(ls.drop_last(), mark);
        match marked(ls.last(), mark) {
            Some(t) => front.push(t),
            None => front,
        }
    }
}

/// The first heading of a text.
pub open spec fn heading(text: Seq<char>) -> Option<Seq<char>> {
    let ls = lines(text);
    let i = first_marked(ls, 0, '#');
    if 0 <= i < ls.len() {
        marked(ls[i], '#')
    } else {
        None
    }
}

fn marked_text(line: &[char], mark: char) -> (r: Option<Vec<char>>)
    ensures
        match r {
            Some(t) => marked(line@, mark) == Some(t@),
            None => marked(line@, mark) is None,
        },
{
    let t = trim_end_chars(line);
    if t.len() < 2 || t[0] != mark || t[1] != ' ' {
        return None;
    }
    let rest = slice_subrange(t, 2, t.len());
    assert(rest@ =~= t@.skip(2));
    let body = trim_chars(rest);
    if body.len() == 0 {
        return None;
    }
    Some(copy_chars(body))
}

/// The first line that carries the mark; the number of lines if none does.
fn find_marked(ls: &Vec<Vec<char>>, mark: char) -> (r: usize)
    ensures
        r == first_marked(deep(ls@), 0, mark),
        r <= ls@.len(),
{
    let ghost all = deep(ls@);
    let mut i: usize = 0;
    while i < ls.len()
        invariant
            i <= ls@.len(),
            all == deep(ls@),
            first_marked(all, 0, mark) == first_marked(all, i as int, mark),
        decreases ls@.len() - i,
    {
        assert(all[i as int] == ls@[i as int]@);
        if marked_text(ls[i].as_slice(), mark).is_some() {
            return i;
        }
        i += 1;
    }
    i
}

/// The first heading of a text, trimmed.
pub fn first_heading(text: &str) -> (r: Option<String>)
    ensures
        match r {
            Some(h) => heading(text@) == Some(h@),
            None => heading(text@) is None,
        },
{
    let cs = chars_of(text);
    let ls = split_lines(cs.as_slice());
    let i = find_marked(&ls, '#');
    assert(deep(ls@).len() == ls@.len());
    if i >= ls.len() {
        return None;
    }
    assert(deep(ls@)[i as int] == ls@[i as int]@);
    match marked_text(ls[i].as_slice(), '#') {
        Some(h) => Some(string_of(h.as_slice())),
        None => None,
    }
}

/// The title of a board: its first heading, or `Board`.
pub open spec fn board_title(text: Seq<char>) -> Seq<char> {
    match heading(text) {
        Some(h) => h,
        None => "Board"@,
    }
}

/// The title of a board and its columns, in order.
pub fn parse_board_md(text: &str) -> (r: (String, Vec<String>))
    ensures
        r.0@ == board_title(text@),
        texts(r.1@) == all_marked(lines(text@), '-'),
{
    let title = match first_heading(text) {
        Some(h) => h,
        None => copy_text("Board"),
    };
    let cs = chars_of(text);
    let ls = split_lines(cs.as_slice());
    let ghost all = deep(ls@);
    let mut columns: Vec<String> = Vec::new();
    let mut i: usize = 0;
    assert(texts(columns@) =~= all_marked(all.take(0), '-'));
    while i < ls.len()
        invariant
            i <= ls@.len(),
            all == deep(ls@),
            texts(columns@) == all_marked(all.take(i as int), '-'),
        decreases ls@.len() - i,
    {
        assert(all.take(i + 1).drop_last() =~= all.take(i as int));
        assert(all.take(i + 1).last() == ls@[i as int]@);
        let ghost before = columns@;
        match marked_text(ls[i].as_slice(), '-') {
            Some(c) => {
                columns.push(string_of(c.as_slice()));
                assert(texts(columns@) =~= texts(before).push(c@));
            },
            None => {},
        }
        i += 1;
    }
    assert(all.take(all.len() as int) =~= all);
    (title, columns)
}

/// The lines of a board's columns.
pub open spec fn column_lines(columns: Seq<Seq<char>>) -> Seq<char>
    decreases columns.len(),
{
    if columns.len() == 0 {
        Seq::empty()
    } else {
        column_lines(columns.drop_last()) + (seq!['-', ' '] + columns.last() + seq!['\n'])
    }
}

/// The text of `board.md`.
pub open spec fn board_text(title: Seq<char>, columns: Seq<Seq<char>>) -> Seq<char> {
    seq!['#', ' '] + title + seq!['\n', '\n'] + column_lines(columns)
}

/// The text of `board.md` for a title and columns.
pub fn board_md(title: &str, columns: &[String]) -> (r: String)
    ensures
        r@ == board_text(title@, texts(columns@)),
{
    let ghost cols = texts(columns@);
    let mut out: Vec<char> = Vec::new();
    out.push('#');
    out.push(' ');
    push_text(&mut out, title);
    out.push('\n');
    out.push('\n');
    let ghost head = seq!['#', ' '] + title@ + seq!['\n', '\n'];
    assert(out@ =~= head + column_lines(cols.take(0)));
    let mut i: usize = 0;
    while i < columns.len()
        invariant
            i <= columns@.len(),
            cols == texts(columns@),
            out@ == head + column_lines(cols.take(i as int)),
        decreases columns@.len() - i,
    {
        assert(cols.take(i + 1).drop_last() =~= cols.take(i as int));
        assert(cols.take(i + 1).last() == columns@[i as int]@);
        let ghost before = out@;
        out.push('-');
        out.push(' ');
        push_text(&mut out, columns[i].as_str());
        out.push('\n');
        assert(out@ =~= head + column_lines(cols.take(i + 1)));
        i += 1;
    }
    assert(cols.take(cols.len() as int) =~= cols);
    string_of(out.as_slice())
}

// ---------------------------------------------------------------------------
// Cards
// ---------------------------------------------------------------------------

/// `s` without leading line feeds.
pub open spec fn drop_newlines(s: Seq<char>) -> Seq<char>
    decreases s.len(),
{
    if s.len() > 0 && s[0] == '\n' {
        drop_newlines(s.skip(1))
    } else {
        s
    }
}

/// The title of a card and its description: what follows the first heading,
/// without line feeds in front and whitespace behind.
pub open spec fn card_parts(text: Seq<char>) -> (Seq<char>, Seq<char>) {
    let ls = lines(text);
    let i = first_marked(ls, 0, '#');
    if 0 <= i < ls.len() {
        (
            marked(ls[i], '#')->Some_0,
            trim_end(drop_newlines(join(ls.skip(i + 1), seq!['\n']))),
        )
    } else {
        (Seq::empty(), Seq::empty())
    }
}

fn drop_newlines_chars(s: &[char]) -> (r: &[char])
    ensures
        r@ == drop_newlines(s@),
{
    let mut i: usize = 0;
    assert(s@.skip(0) =~= s@);
    while i < s.len() && s[i] == '\n'
        invariant
            i <= s.len(),
            drop_newlines(s@) == drop_newlines(s@.skip(i as int)),
        decreases s.len() - i,
    {
        assert(s@.skip(i as int).skip(1) =~= s@.skip(i + 1));
        i += 1;
    }
    let r = slice_subrange(s, i, s.len());
    assert(r@ =~= s@.skip(i as int));
    r
}

/// The first marked line is one of the lines, and carries the mark.
proof fn lemma_first_marked(ls: Seq<Seq<char>>, i: int, mark: char)
    requires
        0 <= i <= ls.len(),
    ensures
        i <= first_marked(ls, i, mark) <= ls.len(),
        first_marked(ls, i, mark) < ls.len() ==> marked(ls[first_marked(ls, i, mark)], mark) is Some,
    decreases ls.len() - i,
{
    if i < ls.len() && marked(ls[i], mark) is None {
        lemma_first_marked(ls, i + 1, mark);
    }
}

/// The title and the description of a card.
pub fn split_card_md(text: &str) -> (r: (String, String))
    ensures
        (r.0@, r.1@) == card_parts(text@),
{
    let cs = chars_of(text);
    let ls = split_lines(cs.as_slice());
    let i = find_marked(&ls, '#');
    assert(deep(ls@).len() == ls@.len());
    proof {
        lemma_first_marked(deep(ls@), 0, '#');
    }
    if i >= ls.len() {
        let empty: Vec<char> = Vec::new();
        let r = (string_of(empty.as_slice()), string_of(empty.as_slice()));
        assert(empty@ =~= Seq::<char>::empty());
        return r;
    }
    assert(deep(ls@)[i as int] == ls@[i as int]@);
    let title = match marked_text(ls[i].as_slice(), '#') {
        Some(t) => t,
        None => Vec::new(),
    };
    let mut newline: Vec<char> = Vec::new();
    newline.push('\n');
    assert(newline@ =~= seq!['\n']);
    let body = join_chars(ls.as_slice(), i + 1, newline.as_slice());
    let description = trim_end_chars(drop_newlines_chars(body.as_slice()));
    (string_of(title.as_slice()), string_of(description))
}

/// The text of `card.md`.
pub open spec fn card_text(title: Seq<char>, description: Seq<char>) -> Seq<char> {
    if trim(description).len() == 0 {
        seq!['#', ' '] + title + seq!['\n']
    } else {
        seq!['#', ' '] + title + seq!['\n', '\n'] + trim_end(description) + seq!['\n']
    }
}

/// The text of `card.md` for a title and a description.
pub fn card_md(title: &str, description: &str) -> (r: String)
    ensures
        r@ == card_text(title@, description@),
{
    let d = chars_of(description);
    let mut out: Vec<char> = Vec::new();
    out.push('#');
    out.push(' ');
    push_text(&mut out, title);
    out.push('\n');
    if trim_chars(d.as_slice()).len() > 0 {
        out.push('\n');
        push_chars(&mut out, trim_end_chars(d.as_slice()));
        out.push('\n');
    }
    assert(out@ =~= card_text(title@, description@));
    string_of(out.as_slice())
}

// ---------------------------------------------------------------------------
// Card fields
// ---------------------------------------------------------------------------

/// `s` with each backslash escape replaced by the character that it escapes.
pub open spec fn unescaped(s: Seq<char>) -> Seq<char>
    decreases s.len(),
{
    if s.len() == 0 {
        Seq::empty()
    } else if s[0] != '\\' {
        seq![s[0]] + unescaped(s.skip(1))
    } else if s.len() == 1 {
        Seq::empty()
    } else {
        seq![s[1]] + unescaped(s.skip(2))
    }
}

/// What stands between the quotes, or all of it where there are none.
pub open spec fn inner(v: Seq<char>) -> Seq<char> {
    if v.len() >= 2 && v[0] == '"' && v.last() == '"' {
        v.subrange(1, v.len() - 1)
    } else {
        v
    }
}

/// The text that a quoted string stands for.
pub open spec fn unquoted(v: Seq<char>) -> Seq<char> {
    unescaped(inner(v))
}

/// The fields after one more line.
pub open spec fn meta_with(m: MetaView, line: Seq<char>) -> MetaView {
    let i = first_index(line, '=');
    let k = trim(line.take(i));
    let v = trim(line.skip(i + 1));
    if i >= line.len() {
        m
    } else if k == "column"@ {
        MetaView {
            column: if unquoted(v).len() == 0 {
                None
            } else {
                Some(unquoted(v))
            },
            ..m
        }
    } else if k == "position"@ {
        MetaView {
            position: match spelled_i64(v) {
                Some(n) => n,
                None => 0,
            },
            ..m
        }
    } else if k == "done"@ {
        MetaView { done: v == "true"@, ..m }
    } else {
        m
    }
}

/// The fields that a list of lines gives; later lines win.
pub open spec fn meta_of(ls: Seq<Seq<char>>) -> MetaView
    decreases ls.len(),
{
    if ls.len() == 0 {
        MetaView { column: None, position: 0, done: false }
    } else {
        meta_with(meta_of(ls.drop_last()), ls.last())
    }
}

fn unescape(s: &[char]) -> (r: Vec<char>)
    ensures
        r@ == unescaped(s@),
{
    let mut out: Vec<char> = Vec::new();
    let mut i: usize = 0;
    assert(s@.skip(0) =~= s@);
    assert(out@ + unescaped(s@) =~= unescaped(s@));
    while i < s.len()
        invariant
            i <= s.len(),
            out@ + unescaped(s@.skip(i as int)) == unescaped(s@),
        decreases s.len() - i,
    {
        let ghost before = out@;
        let ghost rest = s@.skip(i as int);
        if s[i] != '\\' {
            out.push(s[i]);
            assert(rest.skip(1) =~= s@.skip(i + 1));
            assert(out@ + unescaped(s@.skip(i + 1)) =~= before + unescaped(rest));
            i += 1;
        } else if i + 1 >= s.len() {
            assert(unescaped(rest) =~= Seq::<char>::empty());
            i += 1;
            assert(s@.skip(i as int) =~= Seq::<char>::empty());
        } else {
            out.push(s[i + 1]);
            assert(rest.skip(2) =~= s@.skip(i + 2));
            assert(out@ + unescaped(s@.skip(i + 2)) =~= before + unescaped(rest));
            i += 2;
        }
    }
    assert(s@.skip(i as int) =~= Seq::<char>::empty());
    assert(out@ + unescaped(s@.skip(i as int)) =~= out@);
    out
}

/// The text that a quoted string stands for.
fn unquote(v: &[char]) -> (r: Vec<char>)
    ensures
        r@ == unquoted(v@),
{
    if v.len() >= 2 && v[0] == '"' && v[v.len() - 1] == '"' {
        unescape(slice_subrange(v, 1, v.len() - 1))
    } else {
        unescape(v)
    }
}

/// The fields of a card; what is missing or cannot be read has a default.
pub fn parse_meta(text: &str) -> (r: Meta)
    ensures
        r@ == meta_of(lines(text@)),
{
    let cs = chars_of(text);
    let ls = split_lines(cs.as_slice());
    let ghost all = deep(ls@);
    let column = chars_of("column");
    let position = chars_of("position");
    let done = chars_of("done");
    let truth = chars_of("true");
    let mut meta = Meta { column: None, position: 0, done: false };
    let mut n: usize = 0;
    assert(meta@ == meta_of(all.take(0)));
    while n < ls.len()
        invariant
            n <= ls@.len(),
            all == deep(ls@),
            column@ == "column"@,
            position@ == "position"@,
            done@ == "done"@,
            truth@ == "true"@,
            meta@ == meta_of(all.take(n as int)),
        decreases ls@.len() - n,
    {
        assert(all.take(n + 1).drop_last() =~= all.take(n as int));
        assert(all.take(n + 1).last() == ls@[n as int]@);
        let line = ls[n].as_slice();
        let i = find_char(line, '=');
        if i < line.len() {
            let front = slice_subrange(line, 0, i);
            let back = slice_subrange(line, i + 1, line.len());
            assert(front@ =~= line@.take(i as int));
            assert(back@ =~= line@.skip(i + 1));
            let k = trim_chars(front);
            let v = trim_chars(back);
            if same_chars(k, column.as_slice()) {
                let s = unquote(v);
                meta.column = if s.len() == 0 {
                    None
                } else {
                    Some(string_of(s.as_slice()))
                };
            } else if same_chars(k, position.as_slice()) {
                meta.position = match parse_i64(v) {
                    Some(p) => p,
                    None => 0,
                };
            } else if same_chars(k, done.as_slice()) {
                meta.done = same_chars(v, truth.as_slice());
            }
        }
        n += 1;
    }
    assert(all.take(all.len() as int) =~= all);
    meta
}

/// `s` with a backslash before each backslash and each quote.
pub open spec fn escaped(s: Seq<char>) -> Seq<char>
    decreases s.len(),
{
    if s.len() == 0 {
        Seq::empty()
    } else if s.last() == '\\' || s.last() == '"' {
        escaped(s.drop_last()) + seq!['\\', s.last()]
    } else {
        escaped(s.drop_last()).push(s.last())
    }
}

/// The word for a truth value.
pub open spec fn truth_word(b: bool) -> Seq<char> {
    if b {
        "true"@
    } else {
        "false"@
    }
}

/// The text of `meta.toml`.
pub open spec fn meta_text(column: Seq<char>, position: i64, done: bool) -> Seq<char> {
    "column = \""@ + escaped(column) + "\"\nposition = "@ + decimal_int(position as int)
        + "\ndone = "@ + truth_word(done) + seq!['\n']
}

/// The text of `meta.toml` for a card's fields.
pub fn meta_toml(column: &str, position: i64, done: bool) -> (r: String)
    ensures
        r@ == meta_text(column@, position, done),
{
    let c = chars_of(column);
    let mut esc: Vec<char> = Vec::new();
    let mut i: usize = 0;
    while i < c.len()
        invariant
            i <= c@.len(),
            esc@ == escaped(c@.take(i as int)),
        decreases c@.len() - i,
    {
        assert(c@.take(i + 1).drop_last() =~= c@.take(i as int));
        let ghost before = esc@;
        if c[i] == '\\' || c[i] == '"' {
            esc.push('\\');
            esc.push(c[i]);
            assert(esc@ =~= before + seq!['\\', c@[i as int]]);
        } else {
            esc.push(c[i]);
        }
        i += 1;
    }
    assert(c@.take(c@.len() as int) =~= c@);
    let mut out = chars_of("column = \"");
    push_chars(&mut out, esc.as_slice());
    push_text(&mut out, "\"\nposition = ");
    let number = decimal_int_chars(position);
    push_chars(&mut out, number.as_slice());
    push_text(&mut out, "\ndone = ");
    push_text(
        &mut out,
        if done {
            "true"
        } else {
            "false"
        },
    );
    out.push('\n');
    assert(out@ =~= meta_text(column@, position, done));
    string_of(out.as_slice())
}

/// A card from the texts of its files, with defaults for what they lack.
pub fn card_from_files(id: &str, card_md_text: &str, meta_text: &str, default_column: &str) -> (r:
    Card)
    ensures
        r@ == (CardView {
            id: id@,
            title: match heading(card_md_text@) {
                Some(h) => h,
                None => id@,
            },
            column: match meta_of(lines(meta_text@)).column {
                Some(c) => c,
                None => default_column@,
            },
            position: meta_of(lines(meta_text@)).position,
            done: meta_of(lines(meta_text@)).done,
        }),
{
    let meta = parse_meta(meta_text);
    let title = match first_heading(card_md_text) {
        Some(h) => h,
        None => copy_text(id),
    };
    let column = match meta.column {
        Some(c) => c,
        None => copy_text(default_column),
    };
    Card { id: copy_text(id), title, column, position: meta.position, done: meta.done }
}

// ---------------------------------------------------------------------------
// Comments
// ---------------------------------------------------------------------------

/// The lower-case form of a text.
pub uninterp spec fn lowercase(s: Seq<char>) -> Seq<char>;

/// `str::to_lowercase`: the lower-case form of the text, by Unicode's mapping. No
/// capital ASCII letter is left in it, and ASCII text without capital letters stays
/// as it is.
#[verifier::external_body]
fn to_lower(s: &str) -> (r: String)
    ensures
        r@ == lowercase(s@),
        forall|i: int| 0 <= i < r@.len() ==> !('A' <= (#[trigger] r@[i]) <= 'Z'),
        (forall|i: int|
            0 <= i < s@.len() ==> (#[trigger] s@[i]) as u32 <= 0x7f && !('A' <= s@[i] <= 'Z'))
            ==> r@ == s@,
{
    s.to_lowercase()
}

/// Whether `c` may stand in a file name as it is.
pub open spec fn is_slug_char(c: char) -> bool {
    ('a' <= c <= 'z') || ('A' <= c <= 'Z') || ('0' <= c <= '9') || c == '-'
}

/// `s` with a dash for each run of other characters, and whether it ends in such
/// a run.
pub open spec fn dashed(s: Seq<char>) -> (Seq<char>, bool)
    decreases s.len(),
{
    if s.len() == 0 {
        (Seq::empty(), false)
    } else {
        let (out, run) = dashed(s.drop_last());
        if is_slug_char(s.last()) {
            (out.push(s.last()), false)
        } else if !run {
            (out.push('-'), true)
        } else {
            (out, true)
        }
    }
}

/// `s` without dashes in front.
pub open spec fn drop_dashes(s: Seq<char>) -> Seq<char>
    decreases s.len(),
{
    if s.len() > 0 && s[0] == '-' {
        drop_dashes(s.skip(1))
    } else {
        s
    }
}

/// `s` without dashes behind.
pub open spec fn drop_last_dashes(s: Seq<char>) -> Seq<char>
    decreases s.len(),
{
    if s.len() > 0 && s.last() == '-' {
        drop_last_dashes(s.drop_last())
    } else {
        s
    }
}

/// The file name form of a text that is in lower case: `anon` if nothing is left.
pub open spec fn slug(lower: Seq<char>) -> Seq<char> {
    let s = drop_last_dashes(drop_dashes(dashed(lower).0));
    if s.len() == 0 {
        "anon"@
    } else {
        s
    }
}

/// The file name form of a text that is in lower case.
pub fn slug_of(lower: &str) -> (r: String)
    ensures
        r@ == slug(lower@),
{
    let cs = chars_of(lower);
    let mut out: Vec<char> = Vec::new();
    let mut run = false;
    let mut i: usize = 0;
    while i < cs.len()
        invariant
            i <= cs@.len(),
            (out@, run) == dashed(cs@.take(i as int)),
        decreases cs@.len() - i,
    {
        assert(cs@.take(i + 1).drop_last() =~= cs@.take(i as int));
        let c = cs[i];
        if ('a' <= c && c <= 'z') || ('A' <= c && c <= 'Z') || ('0' <= c && c <= '9') || c == '-' {
            out.push(c);
            run = false;
        } else if !run {
            out.push('-');
            run = true;
        }
        i += 1;
    }
    assert(cs@.take(cs@.len() as int) =~= cs@);
    let ghost all = out@;
    let mut from: usize = 0;
    assert(all.skip(0) =~= all);
    while from < out.len() && out[from] == '-'
        invariant
            from <= out@.len(),
            out@ == all,
            drop_dashes(all) == drop_dashes(all.skip(from as int)),
        decreases out@.len() - from,
    {
        assert(all.skip(from as int).skip(1) =~= all.skip(from + 1));
        from += 1;
    }
    let ghost mid = all.skip(from as int);
    let mut to: usize = out.len();
    assert(mid.take(to - from) =~= mid);
    while to > from && out[to - 1] == '-'
        invariant
            from <= to <= out@.len(),
            out@ == all,
            mid == all.skip(from as int),
            drop_last_dashes(mid) == drop_last_dashes(mid.take(to - from)),
        decreases to - from,
    {
        assert(mid.take(to - from).drop_last() =~= mid.take(to - from - 1));
        to -= 1;
    }
    let s = slice_subrange(out.as_slice(), from, to);
    assert(s@ =~= mid.take(to - from));
    if s.len() == 0 {
        copy_text("anon")
    } else {
        string_of(s)
    }
}

/// A text consists of lower-case letters, digits and dashes, with no dash at
/// either end, and is not empty.
pub open spec fn is_slug(s: Seq<char>) -> bool {
    &&& s.len() > 0
    &&& forall|i: int|
        0 <= i < s.len() ==> ('a' <= (#[trigger] s[i]) <= 'z') || ('0' <= s[i] <= '9') || s[i] == '-'
    &&& s[0] != '-' && s.last() != '-'
}

/// The author as part of a file name. What can be part of one already stays as it
/// is, and so does what came out of this.
pub fn sanitize_author(author: &str) -> (r: String)
    ensures
        r@ == slug(lowercase(author@)),
        is_slug(r@),
        is_slug(author@) ==> r@ == author@,
{
    let lower = to_lower(author);
    proof {
        law_slugs_are_file_names(lower@);
        if is_slug(author@) {
            assert forall|i: int| 0 <= i < author@.len() implies (#[trigger] author@[i]) as u32
                <= 0x7f && !('A' <= author@[i] <= 'Z') by {}
            law_slugs_stay(author@);
        }
    }
    slug_of(lower.as_str())
}

/// Where two underscores first stand in a row; the length of `s` if they do not.
pub open spec fn first_gap(s: Seq<char>) -> int
    decreases s.len(),
{
    if s.len() < 2 {
        s.len() as int
    } else if s[0] == '_' && s[1] == '_' {
        0
    } else {
        1 + first_gap(s.skip(1))
    }
}

/// The time and the author in the name of a comment.
pub open spec fn comment_parts(stem: Seq<char>) -> Option<(Seq<char>, Seq<char>)> {
    let i = first_gap(stem);
    if i >= stem.len() {
        None
    } else {
        Some((stem.take(i), stem.skip(i + 2)))
    }
}

/// What `first_gap` means, position by position.
proof fn lemma_first_gap_is(s: Seq<char>, i: int)
    requires
        0 <= i <= s.len(),
        i < s.len() ==> i + 1 < s.len() && s[i] == '_' && s[i + 1] == '_',
        forall|j: int| 0 <= j < i && j + 1 < s.len() ==> !(#[trigger] s[j] == '_' && s[j + 1] == '_'),
    ensures
        first_gap(s) == i,
    decreases s.len(),
{
    if s.len() < 2 {
    } else if i == 0 {
    } else {
        assert(!(s[0] == '_' && s[1] == '_'));
        let t = s.skip(1);
        assert forall|j: int| 0 <= j < i - 1 && j + 1 < t.len() implies !(#[trigger] t[j] == '_' && t[j
            + 1] == '_') by {
            assert(s[j + 1] == t[j]);
        }
        lemma_first_gap_is(t, i - 1);
    }
}

/// The time and the author in the name of a comment, `<time>__<author>`.
pub fn parse_comment_name(stem: &str) -> (r: Option<(String, String)>)
    ensures
        match r {
            Some((ts, author)) => comment_parts(stem@) == Some((ts@, author@)),
            None => comment_parts(stem@) is None,
        },
{
    let s = chars_of(stem);
    let n: usize = s.len();
    let mut i: usize = 0;
    while i < n && (n - i < 2 || s[i] != '_' || s[i + 1] != '_')
        invariant
            i <= n == s@.len(),
            forall|j: int|
                0 <= j < i && j + 1 < n ==> !(#[trigger] s@[j] == '_' && s@[j + 1] == '_'),
        decreases n - i,
    {
        i += 1;
    }
    proof {
        lemma_first_gap_is(s@, i as int);
    }
    if i >= n {
        return None;
    }
    let front = slice_subrange(s.as_slice(), 0, i);
    let back = slice_subrange(s.as_slice(), i + 2, n);
    assert(front@ =~= s@.take(i as int));
    assert(back@ =~= s@.skip(i + 2));
    Some((string_of(front), string_of(back)))
}

// ---------------------------------------------------------------------------
// Laws
// ---------------------------------------------------------------------------

/// The file name form of a text without capital letters is made of lower-case
/// letters, digits and dashes, is not empty, and has no dash at either end.
pub proof fn law_slugs_are_file_names(lower: Seq<char>)
    requires
        forall|i: int| 0 <= i < lower.len() ==> !('A' <= (#[trigger] lower[i]) <= 'Z'),
    ensures
        is_slug(slug(lower)),
{
    lemma_dashed_chars(lower);
    let d = dashed(lower).0;
    lemma_drop_dashes(d);
    lemma_drop_last_dashes(drop_dashes(d));
    let s = drop_last_dashes(drop_dashes(d));
    reveal_strlit("anon");
    if s.len() > 0 {
        assert forall|i: int| 0 <= i < s.len() implies ('a' <= (#[trigger] s[i]) <= 'z') || ('0' <= s[i]
            <= '9') || s[i] == '-' by {
            assert(s.contains(s[i]));
            assert(drop_dashes(d).contains(s[i]));
            assert(d.contains(s[i]));
            let j = d.index_of(s[i]);
            assert(is_slug_char(d[j]) && !('A' <= d[j] <= 'Z'));
        }
    }
}

/// A text that has the form of a file name is its own file name form, so that the
/// form of a form is the form itself.
pub proof fn law_slugs_stay(s: Seq<char>)
    requires
        is_slug(s),
    ensures
        slug(s) == s,
{
    lemma_dashed_stays(s);
}

proof fn lemma_dashed_stays(s: Seq<char>)
    requires
        forall|i: int| 0 <= i < s.len() ==> is_slug_char(#[trigger] s[i]),
    ensures
        dashed(s) == (s, false),
    decreases s.len(),
{
    if s.len() > 0 {
        let front = s.drop_last();
        assert forall|i: int| 0 <= i < front.len() implies is_slug_char(#[trigger] front[i]) by {
            assert(front[i] == s[i]);
        }
        lemma_dashed_stays(front);
        assert(is_slug_char(s[s.len() - 1]));
        assert(front.push(s.last()) =~= s);
    } else {
        assert(s =~= Seq::empty());
    }
}

proof fn lemma_dashed_chars(s: Seq<char>)
    requires
        forall|i: int| 0 <= i < s.len() ==> !('A' <= (#[trigger] s[i]) <= 'Z'),
    ensures
        forall|i: int|
            0 <= i < dashed(s).0.len() ==> is_slug_char(#[trigger] dashed(s).0[i]) && !('A' <= dashed(
                s,
            ).0[i] <= 'Z'),
    decreases s.len(),
{
    if s.len() > 0 {
        assert forall|i: int| 0 <= i < s.drop_last().len() implies !('A' <= (
        #[trigger] s.drop_last()[i]) <= 'Z') by {
            assert(s.drop_last()[i] == s[i]);
        }
        lemma_dashed_chars(s.drop_last());
        assert(!('A' <= s[s.len() - 1] <= 'Z'));
        let out = dashed(s.drop_last()).0;
        assert forall|i: int| 0 <= i < dashed(s).0.len() implies is_slug_char(
            #[trigger] dashed(s).0[i],
        ) && !('A' <= dashed(s).0[i] <= 'Z') by {
            if i < out.len() {
                assert(dashed(s).0[i] == out[i]);
            }
        }
    }
}

proof fn lemma_drop_dashes(s: Seq<char>)
    ensures
        drop_dashes(s).len() > 0 ==> drop_dashes(s)[0] != '-',
        forall|c: char| #[trigger] drop_dashes(s).contains(c) ==> s.contains(c),
    decreases s.len(),
{
    if s.len() > 0 && s[0] == '-' {
        lemma_drop_dashes(s.skip(1));
        assert forall|c: char| #[trigger] drop_dashes(s).contains(c) implies s.contains(c) by {
            let i = s.skip(1).index_of(c);
            assert(s[i + 1] == c);
        }
    }
}

proof fn lemma_drop_last_dashes(s: Seq<char>)
    ensures
        drop_last_dashes(s).len() > 0 ==> drop_last_dashes(s).last() != '-' && drop_last_dashes(s)[0]
            == s[0],
        forall|c: char| #[trigger] drop_last_dashes(s).contains(c) ==> s.contains(c),
    decreases s.len(),
{
    if s.len() > 0 && s.last() == '-' {
        lemma_drop_last_dashes(s.drop_last());
        assert forall|c: char| #[trigger] drop_last_dashes(s).contains(c) implies s.contains(c) by {
            let i = s.drop_last().index_of(c);
            assert(s[i] == c);
        }
    }
}

/// A name made of a time and an author reads back as the two. A time that holds
/// two underscores in a row, or ends in one, is left out.
pub proof fn law_comment_names_read_back(ts: Seq<char>, author: Seq<char>)
    requires
        forall|j: int| 0 <= j < ts.len() - 1 ==> !(#[trigger] ts[j] == '_' && ts[j + 1] == '_'),
        ts.len() > 0 ==> ts.last() != '_',
    ensures
        comment_parts(ts + seq!['_', '_'] + author) == Some((ts, author)),
{
    let s = ts + seq!['_', '_'] + author;
    let n = ts.len() as int;
    assert forall|j: int| 0 <= j < n && j + 1 < s.len() implies !(#[trigger] s[j] == '_' && s[j + 1]
        == '_') by {
        assert(s[j] == ts[j]);
        if j + 1 < n {
            assert(s[j + 1] == ts[j + 1]);
        }
    }
    lemma_first_gap_is(s, n);
    assert(s.take(n) =~= ts);
    assert(s.skip(n + 2) =~= author);
}

/// A text that fits on a line of its own: not empty, trimmed, without line feeds.
pub open spec fn is_line(s: Seq<char>) -> bool {
    s.len() > 0 && is_trimmed(s) && !s.contains('\n')
}

/// A line made of a mark and a text.
pub open spec fn mark_line(mark: char, t: Seq<char>) -> Seq<char> {
    seq![mark, ' '] + t
}

pub proof fn lemma_mark_line(mark: char, t: Seq<char>)
    requires
        is_line(t),
        mark != '\n',
    ensures
        marked(mark_line(mark, t), mark) == Some(t),
        forall|m: char| m != mark ==> #[trigger] marked(mark_line(mark, t), m) is None,
        !mark_line(mark, t).contains('\n'),
        mark_line(mark, t).last() != '\r',
{
    let l = mark_line(mark, t);
    assert(l.last() == t.last());
    assert(trim_end(l) == l);
    assert(l.skip(2) =~= t);
    lemma_trim_noop(t);
    assert forall|i: int| 0 <= i < l.len() implies l[i] != '\n' by {
        if i >= 2 {
            assert(t.contains(t[i - 2]));
        }
    }
    assert(is_white('\r'));
}

proof fn lemma_column_lines_cons(cols: Seq<Seq<char>>)
    requires
        cols.len() > 0,
    ensures
        column_lines(cols) == mark_line('-', cols[0]) + seq!['\n'] + column_lines(cols.skip(1)),
    decreases cols.len(),
{
    if cols.len() == 1 {
        assert(cols.drop_last() =~= Seq::<Seq<char>>::empty());
        assert(cols.skip(1) =~= Seq::<Seq<char>>::empty());
        assert(column_lines(cols.drop_last()) =~= Seq::<char>::empty());
        assert(column_lines(cols) =~= mark_line('-', cols[0]) + seq!['\n'] + column_lines(
            cols.skip(1),
        ));
    } else {
        lemma_column_lines_cons(cols.drop_last());
        assert(cols.drop_last().skip(1) =~= cols.skip(1).drop_last());
        assert(column_lines(cols) =~= mark_line('-', cols[0]) + seq!['\n'] + column_lines(
            cols.skip(1),
        ));
    }
}

proof fn lemma_column_lines(cols: Seq<Seq<char>>)
    requires
        forall|i: int| 0 <= i < cols.len() ==> is_line(#[trigger] cols[i]),
    ensures
        lines(column_lines(cols)) == cols.map_values(|c: Seq<char>| mark_line('-', c)),
    decreases cols.len(),
{
    let f = |c: Seq<char>| mark_line('-', c);
    if cols.len() == 0 {
        assert(lines(column_lines(cols)) =~= cols.map_values(f));
    } else {
        lemma_column_lines_cons(cols);
        let rest = cols.skip(1);
        assert forall|i: int| 0 <= i < rest.len() implies is_line(#[trigger] rest[i]) by {
            assert(rest[i] == cols[i + 1]);
        }
        lemma_column_lines(rest);
        assert(is_line(cols[0]));
        lemma_mark_line('-', cols[0]);
        lemma_lines_cons(mark_line('-', cols[0]), column_lines(rest));
        assert(cols.map_values(f) =~= seq![f(cols[0])] + rest.map_values(f));
    }
}

proof fn lemma_all_marked_concat(a: Seq<Seq<char>>, b: Seq<Seq<char>>, mark: char)
    ensures
        all_marked(a + b, mark) == all_marked(a, mark) + all_marked(b, mark),
    decreases b.len(),
{
    if b.len() == 0 {
        assert(a + b =~= a);
        assert(all_marked(a, mark) + all_marked(b, mark) =~= all_marked(a, mark));
    } else {
        lemma_all_marked_concat(a, b.drop_last(), mark);
        assert((a + b).drop_last() =~= a + b.drop_last());
        assert((a + b).last() == b.last());
        assert(all_marked(a + b, mark) =~= all_marked(a, mark) + all_marked(b, mark));
    }
}

proof fn lemma_all_marked_items(cols: Seq<Seq<char>>)
    requires
        forall|i: int| 0 <= i < cols.len() ==> is_line(#[trigger] cols[i]),
    ensures
        all_marked(cols.map_values(|c: Seq<char>| mark_line('-', c)), '-') == cols,
    decreases cols.len(),
{
    let f = |c: Seq<char>| mark_line('-', c);
    if cols.len() > 0 {
        let front = cols.drop_last();
        assert forall|i: int| 0 <= i < front.len() implies is_line(#[trigger] front[i]) by {
            assert(front[i] == cols[i]);
        }
        lemma_all_marked_items(front);
        assert(cols.map_values(f).drop_last() =~= front.map_values(f));
        assert(is_line(cols[cols.len() - 1]));
        lemma_mark_line('-', cols.last());
        assert(front.push(cols.last()) =~= cols);
    } else {
        assert(all_marked(cols.map_values(f), '-') =~= cols);
    }
}

/// A board that is written reads back as the same title and the same columns,
/// where each fits on a line of its own.
pub proof fn law_boards_read_back(title: Seq<char>, columns: Seq<Seq<char>>)
    requires
        is_line(title),
        forall|i: int| 0 <= i < columns.len() ==> is_line(#[trigger] columns[i]),
    ensures
        board_title(board_text(title, columns)) == title,
        all_marked(lines(board_text(title, columns)), '-') == columns,
{
    let text = board_text(title, columns);
    let head = mark_line('#', title);
    let items = columns.map_values(|c: Seq<char>| mark_line('-', c));
    let blank = Seq::<char>::empty();
    lemma_mark_line('#', title);
    lemma_column_lines(columns);
    lemma_lines_cons(blank, column_lines(columns));
    lemma_lines_cons(head, blank + seq!['\n'] + column_lines(columns));
    assert(text =~= head + seq!['\n'] + (blank + seq!['\n'] + column_lines(columns)));
    let ls = lines(text);
    assert(ls =~= seq![head, blank] + items);
    assert(ls[0] == head);
    assert(first_marked(ls, 0, '#') == 0);
    lemma_all_marked_concat(seq![head, blank], items, '-');
    lemma_all_marked_items(columns);
    assert(all_marked(seq![head, blank], '-') =~= Seq::<Seq<char>>::empty()) by {
        let two = seq![head, blank];
        assert(two.drop_last() =~= seq![head]);
        assert(seq![head].drop_last() =~= Seq::<Seq<char>>::empty());
        assert(marked(head, '-') is None);
        assert(marked(blank, '-') is None);
        assert(all_marked(Seq::<Seq<char>>::empty(), '-') =~= Seq::<Seq<char>>::empty());
        assert(all_marked(seq![head], '-') =~= Seq::<Seq<char>>::empty());
    }
    assert(Seq::<Seq<char>>::empty() + columns =~= columns);
}

proof fn lemma_join_cons(a: Seq<char>, rest: Seq<Seq<char>>, sep: Seq<char>)
    requires
        rest.len() > 0,
    ensures
        join(seq![a] + rest, sep) == a + sep + join(rest, sep),
    decreases rest.len(),
{
    let all = seq![a] + rest;
    assert(all.last() == rest.last());
    if rest.len() == 1 {
        assert(all.drop_last() =~= seq![a]);
        assert(join(seq![a], sep) == a);
        assert(join(rest, sep) == rest.last());
    } else {
        lemma_join_cons(a, rest.drop_last(), sep);
        assert(all.drop_last() =~= seq![a] + rest.drop_last());
        assert(join(all, sep) =~= a + sep + join(rest, sep));
    }
}

/// A carriage return never stands right before a line feed, nor at the end.
pub open spec fn plain_newlines(s: Seq<char>) -> bool {
    forall|i: int|
        0 <= i < s.len() && #[trigger] s[i] == '\r' ==> i + 1 < s.len() && s[i + 1] != '\n'
}

/// Joining the lines of a text gives the text back.
proof fn lemma_join_lines(x: Seq<char>)
    requires
        x.len() > 0,
        plain_newlines(x),
    ensures
        join(lines(x + seq!['\n']), seq!['\n']) == x,
        lines(x + seq!['\n']).len() > 0,
    decreases x.len(),
{
    let s = x + seq!['\n'];
    let i = first_index(x, '\n');
    lemma_first_index(x, '\n');
    let l = x.take(i);
    assert(!l.contains('\n')) by {
        if l.contains('\n') {
            let j = l.index_of('\n');
            assert(x[j] == '\n');
        }
    }
    if l.len() > 0 && l.last() == '\r' {
        assert(x[i - 1] == '\r');
        assert(i < x.len());
        assert(x[i - 1 + 1] != '\n');
    }
    if i >= x.len() {
        assert(l =~= x);
        lemma_lines_cons(x, Seq::<char>::empty());
        assert(s =~= x + seq!['\n'] + Seq::<char>::empty());
        assert(lines(Seq::<char>::empty()) =~= Seq::<Seq<char>>::empty());
        assert(lines(s) =~= seq![x]);
    } else {
        let rest = x.skip(i + 1);
        assert(s =~= l + seq!['\n'] + (rest + seq!['\n']));
        lemma_lines_cons(l, rest + seq!['\n']);
        assert(plain_newlines(rest)) by {
            assert forall|j: int| 0 <= j < rest.len() && #[trigger] rest[j] == '\r' implies j + 1
                < rest.len() && rest[j + 1] != '\n' by {
                assert(x[j + i + 1] == '\r');
                assert(x[j + i + 1 + 1] != '\n');
            }
        }
        if rest.len() == 0 {
            let blank = Seq::<char>::empty();
            assert(rest =~= blank);
            lemma_lines_cons(blank, blank);
            assert(rest + seq!['\n'] =~= blank + seq!['\n'] + blank);
            assert(lines(blank) =~= Seq::<Seq<char>>::empty());
            assert(lines(rest + seq!['\n']) =~= seq![blank]);
            lemma_join_cons(l, seq![blank], seq!['\n']);
            assert(join(seq![blank], seq!['\n']) == blank);
            assert(x =~= l + seq!['\n'] + blank);
        } else {
            lemma_join_lines(rest);
            lemma_join_cons(l, lines(rest + seq!['\n']), seq!['\n']);
            assert(x =~= l + seq!['\n'] + rest);
        }
    }
}

/// A card that is written reads back as the same title and description, up to
/// whitespace behind the description. A title that does not fit on a line, a
/// description that starts with a line feed, and one that ends lines with a
/// carriage return are left out.
pub proof fn law_cards_read_back(title: Seq<char>, description: Seq<char>)
    requires
        is_line(title),
        plain_newlines(trim_end(description)),
        trim(description).len() > 0 ==> description[0] != '\n',
    ensures
        card_parts(card_text(title, description)).0 == title,
        trim(description).len() > 0 ==> card_parts(card_text(title, description)).1 == trim_end(
            description,
        ),
        trim(description).len() == 0 ==> card_parts(card_text(title, description)).1.len() == 0,
{
    let text = card_text(title, description);
    let head = mark_line('#', title);
    let blank = Seq::<char>::empty();
    lemma_mark_line('#', title);
    let x = trim_end(description);
    if trim(description).len() == 0 {
        assert(text =~= head + seq!['\n'] + blank);
        lemma_lines_cons(head, blank);
        assert(lines(blank) =~= Seq::<Seq<char>>::empty());
        let ls = lines(text);
        assert(ls =~= seq![head]);
        assert(first_marked(ls, 0, '#') == 0);
        assert(ls.skip(1) =~= Seq::<Seq<char>>::empty());
        assert(join(ls.skip(1), seq!['\n']) =~= blank);
    } else {
        lemma_trim_end_prefix(description);
        assert(x.len() > 0) by {
            if x.len() == 0 {
                lemma_blank(description);
            }
        }
        assert(x[0] == description[0]);
        let body = x + seq!['\n'];
        lemma_lines_cons(blank, body);
        lemma_lines_cons(head, blank + seq!['\n'] + body);
        assert(text =~= head + seq!['\n'] + (blank + seq!['\n'] + body));
        let ls = lines(text);
        lemma_join_lines(x);
        assert(ls =~= seq![head] + (seq![blank] + lines(body)));
        assert(ls[0] == head);
        assert(first_marked(ls, 0, '#') == 0);
        assert(ls.skip(1) =~= seq![blank] + lines(body));
        lemma_join_cons(blank, lines(body), seq!['\n']);
        let joined = join(ls.skip(1), seq!['\n']);
        assert(joined =~= seq!['\n'] + x);
        assert(joined.skip(1) =~= x);
        assert(drop_newlines(x) == x);
        assert(drop_newlines(joined) == x);
        assert(trim_end(x) == x);
    }
}

/// A text whose end trims to nothing trims to nothing.
proof fn lemma_blank(s: Seq<char>)
    requires
        trim_end(s).len() == 0,
    ensures
        trim(s).len() == 0,
    decreases s.len(),
{
    if s.len() > 0 {
        lemma_all_white(s);
        assert(is_white(s[0]));
        assert forall|i: int| 0 <= i < s.skip(1).len() implies is_white(#[trigger] s.skip(1)[i]) by {
            assert(s.skip(1)[i] == s[i + 1]);
        }
        lemma_white_trims(s.skip(1));
        lemma_blank(s.skip(1));
    }
}

proof fn lemma_all_white(s: Seq<char>)
    requires
        trim_end(s).len() == 0,
    ensures
        forall|i: int| 0 <= i < s.len() ==> is_white(#[trigger] s[i]),
    decreases s.len(),
{
    if s.len() > 0 {
        lemma_all_white(s.drop_last());
        assert forall|i: int| 0 <= i < s.len() implies is_white(#[trigger] s[i]) by {
            if i < s.len() - 1 {
                assert(s.drop_last()[i] == s[i]);
            }
        }
    }
}

proof fn lemma_white_trims(s: Seq<char>)
    requires
        forall|i: int| 0 <= i < s.len() ==> is_white(#[trigger] s[i]),
    ensures
        trim_end(s).len() == 0,
    decreases s.len(),
{
    if s.len() > 0 {
        assert(is_white(s[s.len() - 1]));
        assert forall|i: int| 0 <= i < s.drop_last().len() implies is_white(
            #[trigger] s.drop_last()[i],
        ) by {
            assert(s.drop_last()[i] == s[i]);
        }
        lemma_white_trims(s.drop_last());
    }
}

/// One character with the backslash that it needs.
spec fn escaped_char(c: char) -> Seq<char> {
    if c == '\\' || c == '"' {
        seq!['\\', c]
    } else {
        seq![c]
    }
}

proof fn lemma_escaped_cons(s: Seq<char>)
    requires
        s.len() > 0,
    ensures
        escaped(s) == escaped_char(s[0]) + escaped(s.skip(1)),
    decreases s.len(),
{
    if s.len() == 1 {
        assert(s.drop_last() =~= Seq::<char>::empty());
        assert(s.skip(1) =~= Seq::<char>::empty());
        assert(escaped(s.drop_last()) =~= Seq::<char>::empty());
        assert(escaped(s) =~= escaped_char(s[0]) + escaped(s.skip(1)));
    } else {
        lemma_escaped_cons(s.drop_last());
        assert(s.drop_last().skip(1) =~= s.skip(1).drop_last());
        assert(escaped(s) =~= escaped_char(s[0]) + escaped(s.skip(1)));
    }
}

proof fn lemma_unescape_escape(s: Seq<char>)
    ensures
        unescaped(escaped(s)) == s,
    decreases s.len(),
{
    if s.len() == 0 {
        assert(unescaped(escaped(s)) =~= s);
    } else {
        lemma_escaped_cons(s);
        lemma_unescape_escape(s.skip(1));
        let e = escaped(s);
        let rest = escaped(s.skip(1));
        if s[0] == '\\' || s[0] == '"' {
            assert(e.skip(2) =~= rest);
        } else {
            assert(e.skip(1) =~= rest);
        }
        assert(unescaped(e) =~= s);
    }
}

proof fn lemma_escaped_no_newline(s: Seq<char>)
    requires
        !s.contains('\n'),
    ensures
        !escaped(s).contains('\n'),
    decreases s.len(),
{
    if s.len() > 0 {
        assert(s.contains(s.last())) by {
            assert(s[s.len() - 1] == s.last());
        }
        assert(!s.drop_last().contains('\n')) by {
            if s.drop_last().contains('\n') {
                assert(s[s.drop_last().index_of('\n')] == '\n');
            }
        }
        lemma_escaped_no_newline(s.drop_last());
        if escaped(s).contains('\n') {
            let i = escaped(s).index_of('\n');
            let front = escaped(s.drop_last());
            if i < front.len() {
                assert(front[i] == '\n');
                assert(front.contains('\n'));
            }
        }
    }
}

/// A line `key = value` sets the value of the key.
proof fn lemma_field(k: Seq<char>, v: Seq<char>)
    requires
        k.len() > 0,
        is_trimmed(k),
        !k.contains('='),
        is_trimmed(v),
    ensures
        ({
            let line = k + seq![' ', '=', ' '] + v;
            let i = first_index(line, '=');
            &&& i == k.len() + 1
            &&& i < line.len()
            &&& trim(line.take(i)) == k
            &&& trim(line.skip(i + 1)) == v
        }),
{
    let line = k + seq![' ', '=', ' '] + v;
    let n = k.len() as int;
    assert forall|j: int| 0 <= j < n + 1 implies line[j] != '=' by {
        if j < n {
            assert(k.contains(k[j]));
        }
    }
    lemma_first_index_is(line, '=', n + 1);
    assert(line.take(n + 1) =~= k.push(' '));
    assert(is_white(' '));
    lemma_trim_noop(k);
    assert(crate::chars::trim_start(k.push(' ')) == k.push(' '));
    lemma_trim_end_append(k, ' ');
    assert(line.skip(n + 2) =~= seq![' '] + v);
    lemma_trim_start_prepend(' ', v);
    lemma_trim_noop(v);
}

proof fn lemma_digits_plain(n: int)
    ensures
        decimal_int(n).len() > 0,
        forall|i: int|
            0 <= i < decimal_int(n).len() ==> !is_white(#[trigger] decimal_int(n)[i]) && decimal_int(
                n,
            )[i] != '\n',
{
    crate::numerals::lemma_decimal_digits(if n < 0 {
        (-n) as nat
    } else {
        n as nat
    });
    let m = if n < 0 {
        (-n) as nat
    } else {
        n as nat
    };
    let d = crate::numerals::decimal(m);
    assert forall|i: int| 0 <= i < decimal_int(n).len() implies !is_white(
        #[trigger] decimal_int(n)[i],
    ) && decimal_int(n)[i] != '\n' by {
        if n < 0 {
            if i > 0 {
                assert(decimal_int(n)[i] == d[i - 1]);
                assert(crate::numerals::is_digit(d[i - 1]));
            }
        } else {
            assert(crate::numerals::is_digit(d[i]));
        }
    }
}

/// A card's fields that are written read back the same, quotes and backslashes
/// in the column name included. The empty column name reads back as none; one
/// with a line feed is left out.
pub proof fn law_fields_read_back(column: Seq<char>, position: i64, done: bool)
    requires
        !column.contains('\n'),
    ensures
        meta_of(lines(meta_text(column, position, done))) == (MetaView {
            column: if column.len() == 0 {
                None
            } else {
                Some(column)
            },
            position,
            done,
        }),
{
    reveal_strlit("column = \"");
    reveal_strlit("\"\nposition = ");
    reveal_strlit("\ndone = ");
    reveal_strlit("column");
    reveal_strlit("position");
    reveal_strlit("done");
    reveal_strlit("true");
    reveal_strlit("false");
    let eq = seq![' ', '=', ' '];
    let q = seq!['"'] + escaped(column) + seq!['"'];
    let num = decimal_int(position as int);
    let word = truth_word(done);
    let a = "column"@ + eq + q;
    let b = "position"@ + eq + num;
    let c = "done"@ + eq + word;
    let blank = Seq::<char>::empty();
    let text = meta_text(column, position, done);
    lemma_digits_plain(position as int);
    lemma_escaped_no_newline(column);
    assert(text =~= a + seq!['\n'] + (b + seq!['\n'] + (c + seq!['\n'] + blank)));
    assert forall|i: int| 0 <= i < a.len() implies a[i] != '\n' by {
        if i >= 10 && i - 10 < escaped(column).len() {
            assert(a[i] == escaped(column)[i - 10]);
            assert(escaped(column).contains(escaped(column)[i - 10]));
        }
    }
    assert forall|i: int| 0 <= i < b.len() implies b[i] != '\n' by {
        if i >= 11 {
            assert(b[i] == num[i - 11]);
        }
    }
    assert(b.last() == num.last());
    assert(is_white('\r'));
    lemma_lines_cons(c, blank);
    lemma_lines_cons(b, c + seq!['\n'] + blank);
    lemma_lines_cons(a, b + seq!['\n'] + (c + seq!['\n'] + blank));
    let ls = lines(text);
    assert(lines(blank) =~= Seq::<Seq<char>>::empty());
    assert(ls =~= seq![a, b, c]);
    assert(is_trimmed(q));
    assert(is_trimmed(num)) by {
        assert(!is_white(num[0]) && !is_white(num[num.len() - 1]));
    }
    lemma_field("column"@, q);
    lemma_field("position"@, num);
    lemma_field("done"@, word);
    assert(inner(q) =~= escaped(column));
    lemma_unescape_escape(column);
    lemma_spelled_decimal(position as int);
    let m0 = meta_of(ls.take(0));
    let m1 = meta_of(ls.take(1));
    let m2 = meta_of(ls.take(2));
    assert(ls.take(1).drop_last() =~= ls.take(0));
    assert(ls.take(2).drop_last() =~= ls.take(1));
    assert(ls.drop_last() =~= ls.take(2));
    assert(m0 == (MetaView { column: None, position: 0, done: false }));
    assert(m1 == meta_with(m0, a));
    assert(m2 == meta_with(m1, b)) by {
        assert(ls.take(2).last() == b);
    }
    assert("position"@[0] == 'p' && "column"@[0] == 'c' && "done"@[0] == 'd');
    assert(meta_of(ls) == meta_with(m2, c));
    if !done {
        assert("false"@[0] == 'f' && "true"@[0] == 't');
    }
}

/// Whether a text is whitespace throughout.
pub open spec fn is_blank(s: Seq<char>) -> bool {
    forall|i: int| 0 <= i < s.len() ==> is_white(#[trigger] s[i])
}

proof fn lemma_spaced_field(
    w1: Seq<char>,
    key: Seq<char>,
    w2: Seq<char>,
    w3: Seq<char>,
    v: Seq<char>,
    w4: Seq<char>,
)
    requires
        is_blank(w1) && is_blank(w2) && is_blank(w3) && is_blank(w4),
        is_trimmed(key),
        is_trimmed(v),
        !key.contains('='),
    ensures
        ({
            let line = w1 + key + w2 + seq!['='] + (w3 + v + w4);
            let i = first_index(line, '=');
            &&& 0 <= i < line.len()
            &&& trim(line.take(i)) == key
            &&& trim(line.skip(i + 1)) == v
        }),
{
    let front = w1 + key + w2;
    let back = w3 + v + w4;
    let line = front + seq!['='] + back;
    assert forall|j: int| 0 <= j < front.len() implies line[j] != '=' by {
        assert(line[j] == front[j]);
        if j < w1.len() {
            assert(front[j] == w1[j]);
            assert(is_white(w1[j]));
        } else if j < w1.len() + key.len() {
            assert(front[j] == key[j - w1.len()]);
            assert(key.contains(key[j - w1.len()]));
        } else {
            assert(front[j] == w2[j - w1.len() - key.len()]);
            assert(is_white(w2[j - w1.len() - key.len()]));
        }
    }
    lemma_first_index_is(line, '=', front.len() as int);
    assert(line.take(front.len() as int) =~= front);
    assert(line.skip(front.len() as int + 1) =~= back);
    law_trimming_takes_whitespace_from_the_ends(w1, key, w2);
    law_trimming_takes_whitespace_from_the_ends(w3, v, w4);
}

/// A field is read from its line, however it is spaced: a position as the number that it
/// spells, the mark by the word `true`, a column as it stands or, in quotes, with its
/// escapes undone. A field leaves the others alone, and a line without one leaves all.
pub proof fn law_fields_are_read_from_their_lines(
    m: MetaView,
    w1: Seq<char>,
    w2: Seq<char>,
    w3: Seq<char>,
    w4: Seq<char>,
    n: i64,
    word: Seq<char>,
    column: Seq<char>,
    key: Seq<char>,
    line: Seq<char>,
)
    requires
        is_blank(w1) && is_blank(w2) && is_blank(w3) && is_blank(w4),
        is_trimmed(word),
        is_trimmed(key) && !key.contains('='),
        key != "position"@ && key != "done"@ && key != "column"@,
        !line.contains('='),
    ensures
        meta_with(m, w1 + "position"@ + w2 + seq!['='] + (w3 + decimal_int(n as int) + w4)) == (
        MetaView { position: n, ..m }),
        meta_with(m, w1 + "done"@ + w2 + seq!['='] + (w3 + word + w4)) == (MetaView {
            done: word == "true"@,
            ..m
        }),
        meta_with(
            m,
            w1 + "column"@ + w2 + seq!['='] + (w3 + (seq!['"'] + escaped(column) + seq!['"']) + w4),
        ) == (MetaView {
            column: if column.len() > 0 {
                Some(column)
            } else {
                None
            },
            ..m
        }),
        word.len() > 0 && word[0] != '"' && !word.contains('\\') ==> meta_with(
            m,
            w1 + "column"@ + w2 + seq!['='] + (w3 + word + w4),
        ) == (MetaView { column: Some(word), ..m }),
        meta_with(m, w1 + key + w2 + seq!['='] + (w3 + word + w4)) == m,
        meta_with(m, line) == m,
{
    reveal_strlit("column");
    reveal_strlit("position");
    reveal_strlit("done");
    assert("position"@[0] == 'p' && "column"@[0] == 'c' && "done"@[0] == 'd');
    let num = decimal_int(n as int);
    let q = seq!['"'] + escaped(column) + seq!['"'];
    lemma_digits_plain(n as int);
    assert(is_trimmed(num)) by {
        assert(!is_white(num[0]) && !is_white(num[num.len() - 1]));
    }
    assert(is_trimmed(q));
    assert(!"position"@.contains('='));
    assert(!"done"@.contains('='));
    assert(!"column"@.contains('='));
    lemma_spaced_field(w1, "position"@, w2, w3, num, w4);
    lemma_spaced_field(w1, "done"@, w2, w3, word, w4);
    lemma_spaced_field(w1, "column"@, w2, w3, q, w4);
    lemma_spaced_field(w1, "column"@, w2, w3, word, w4);
    lemma_spaced_field(w1, key, w2, w3, word, w4);
    lemma_spelled_decimal(n as int);
    assert(inner(q) =~= escaped(column));
    lemma_unescape_escape(column);
    if word.len() > 0 && word[0] != '"' && !word.contains('\\') {
        lemma_nothing_to_unescape(word);
    }
    assert forall|j: int| 0 <= j < line.len() implies line[j] != '=' by {
        assert(line.contains(line[j]));
    }
    lemma_first_index_is(line, '=', line.len() as int);
}

proof fn lemma_nothing_to_unescape(s: Seq<char>)
    requires
        !s.contains('\\'),
    ensures
        unescaped(s) == s,
    decreases s.len(),
{
    if s.len() > 0 {
        assert(s.contains(s[0]));
        assert forall|c: char| s.skip(1).contains(c) implies s.contains(c) by {
            let i = s.skip(1).index_of(c);
            assert(s[i + 1] == c);
        }
        lemma_nothing_to_unescape(s.skip(1));
        assert(seq![s[0]] + s.skip(1) =~= s);
    } else {
        assert(unescaped(s) =~= s);
    }
}

/// Of several lines for one field the last counts; a file without lines gives defaults.
pub proof fn law_the_last_field_counts(ls: Seq<Seq<char>>, line: Seq<char>)
    ensures
        meta_of(ls.push(line)) == meta_with(meta_of(ls), line),
        meta_of(Seq::empty()) == (MetaView { column: None, position: 0, done: false }),
{
    assert(ls.push(line).drop_last() =~= ls);
}

/// A line is marked where a mark and a space start it and something follows, which is then
/// what it says, without the whitespace around it.
pub proof fn law_marked_lines_say_what_follows(
    mark: char,
    w1: Seq<char>,
    t: Seq<char>,
    w2: Seq<char>,
    line: Seq<char>,
)
    requires
        is_blank(w1) && is_blank(w2),
        t.len() > 0,
        is_trimmed(t),
        !is_white(mark),
        line.len() < 2 || line[0] != mark || line[1] != ' ',
    ensures
        marked(seq![mark, ' '] + (w1 + t + w2), mark) == Some(t),
        marked(line, mark) is None,
        marked(seq![mark, ' '] + w1, mark) is None,
{
    let all = seq![mark, ' '] + (w1 + t + w2);
    let front = seq![mark, ' '] + w1 + t;
    lemma_trim_end_blank(front, w2);
    assert(all =~= front + w2);
    assert(front.last() == t.last());
    assert(trim_end(front) == front);
    assert(front.skip(2) =~= w1 + t + Seq::<char>::empty());
    law_trimming_takes_whitespace_from_the_ends(w1, t, Seq::empty());
    lemma_trim_end_prefix(line);
    let e = trim_end(line);
    if e.len() >= 2 {
        assert(e[0] == line[0] && e[1] == line[1]);
    }
    let bare = seq![mark, ' '] + w1;
    assert forall|i: int| 0 <= i < (seq![' '] + w1).len() implies is_white(
        #[trigger] (seq![' '] + w1)[i],
    ) by {
        if i > 0 {
            assert((seq![' '] + w1)[i] == w1[i - 1]);
        }
    }
    lemma_trim_end_blank(seq![mark], seq![' '] + w1);
    assert(bare =~= seq![mark] + (seq![' '] + w1));
    assert(trim_end(seq![mark]) == seq![mark]);
}

proof fn lemma_trim_end_blank(s: Seq<char>, w: Seq<char>)
    requires
        is_blank(w),
    ensures
        trim_end(s + w) == trim_end(s),
    decreases w.len(),
{
    if w.len() > 0 {
        let front = w.drop_last();
        assert forall|i: int| 0 <= i < front.len() implies is_white(#[trigger] front[i]) by {
            assert(front[i] == w[i]);
        }
        lemma_trim_end_blank(s, front);
        assert(s + w =~= (s + front).push(w.last()));
        assert(is_white(w[w.len() - 1]));
        lemma_trim_end_append(s + front, w.last());
    } else {
        assert(s + w =~= s);
    }
}

/// The first marked line is the one before which there is none, and the marked lines of
/// two texts are those of the first and those of the second.
pub proof fn law_marked_lines_are_found(
    a: Seq<Seq<char>>,
    b: Seq<Seq<char>>,
    i: int,
    mark: char,
)
    requires
        0 <= i < a.len(),
        marked(a[i], mark) is Some,
        forall|j: int| 0 <= j < i ==> marked(#[trigger] a[j], mark) is None,
    ensures
        first_marked(a, 0, mark) == i,
        all_marked(a + b, mark) == all_marked(a, mark) + all_marked(b, mark),
        all_marked(seq![a[i]], mark) == seq![marked(a[i], mark)->Some_0],
        i > 0 ==> all_marked(seq![a[0]], mark).len() == 0,
{
    lemma_first_marked_is(a, 0, i, mark);
    lemma_all_marked_concat(a, b, mark);
    assert(seq![a[i]].drop_last() =~= Seq::<Seq<char>>::empty());
    assert(seq![a[0]].drop_last() =~= Seq::<Seq<char>>::empty());
    assert(all_marked(Seq::<Seq<char>>::empty(), mark) =~= Seq::<Seq<char>>::empty());
    assert(all_marked(seq![a[i]], mark) =~= seq![marked(a[i], mark)->Some_0]);
}

proof fn lemma_first_marked_is(ls: Seq<Seq<char>>, k: int, i: int, mark: char)
    requires
        0 <= k <= i < ls.len(),
        marked(ls[i], mark) is Some,
        forall|j: int| 0 <= j < i ==> marked(#[trigger] ls[j], mark) is None,
    ensures
        first_marked(ls, k, mark) == i,
    decreases i - k,
{
    if k < i {
        assert(marked(ls[k], mark) is None);
        lemma_first_marked_is(ls, k + 1, i, mark);
    }
}

/// A run of characters that may not stand in a file name becomes one dash between what
/// may, and nothing at the ends; where nothing is left, the name is `anon`.
pub proof fn law_other_runs_become_dashes(
    j1: Seq<char>,
    a: Seq<char>,
    j2: Seq<char>,
    b: Seq<char>,
    j3: Seq<char>,
)
    requires
        forall|i: int| 0 <= i < j1.len() ==> !is_slug_char(#[trigger] j1[i]),
        forall|i: int| 0 <= i < j2.len() ==> !is_slug_char(#[trigger] j2[i]),
        forall|i: int| 0 <= i < j3.len() ==> !is_slug_char(#[trigger] j3[i]),
        forall|i: int| 0 <= i < a.len() ==> is_slug_char(#[trigger] a[i]),
        forall|i: int| 0 <= i < b.len() ==> is_slug_char(#[trigger] b[i]),
        a.len() > 0 && a[0] != '-',
        b.len() > 0 && b.last() != '-',
        j2.len() > 0,
    ensures
        slug(j1 + a + j2 + b + j3) == a + seq!['-'] + b,
        slug(j1) == "anon"@,
{
    let none = Seq::<char>::empty();
    lemma_dashed_run(none, j1);
    assert(none + j1 =~= j1);
    lemma_dashed_word(j1, a);
    lemma_dashed_run(j1 + a, j2);
    lemma_dashed_word(j1 + a + j2, b);
    lemma_dashed_run(j1 + a + j2 + b, j3);
    let head = if j1.len() > 0 {
        seq!['-']
    } else {
        none
    };
    let tail = if j3.len() > 0 {
        seq!['-']
    } else {
        none
    };
    let mid = a + seq!['-'] + b;
    let d = dashed(j1 + a + j2 + b + j3).0;
    assert(dashed(none) == (none, false));
    assert(d =~= head + mid + tail);
    assert(drop_dashes(d) == mid + tail) by {
        reveal_with_fuel(drop_dashes, 3);
        assert((mid + tail)[0] == a[0]);
        if j1.len() > 0 {
            assert(d.skip(1) =~= mid + tail);
        } else {
            assert(d =~= mid + tail);
        }
    }
    assert(drop_last_dashes(mid + tail) == mid) by {
        reveal_with_fuel(drop_last_dashes, 3);
        assert(mid.last() == b.last());
        if j3.len() > 0 {
            assert((mid + tail).drop_last() =~= mid);
        } else {
            assert(mid + tail =~= mid);
        }
    }
    let e = dashed(j1).0;
    assert(e =~= head);
    if j1.len() > 0 {
        assert(e.skip(1) =~= none);
    }
    assert(drop_dashes(none) =~= none);
    assert(drop_dashes(e) =~= none);
    assert(drop_last_dashes(none) =~= none);
}

proof fn lemma_dashed_word(s: Seq<char>, a: Seq<char>)
    requires
        forall|i: int| 0 <= i < a.len() ==> is_slug_char(#[trigger] a[i]),
    ensures
        dashed(s + a).0 == dashed(s).0 + a,
        a.len() > 0 ==> !dashed(s + a).1,
    decreases a.len(),
{
    if a.len() > 0 {
        let front = a.drop_last();
        assert forall|i: int| 0 <= i < front.len() implies is_slug_char(#[trigger] front[i]) by {
            assert(front[i] == a[i]);
        }
        lemma_dashed_word(s, front);
        assert((s + a).drop_last() =~= s + front);
        assert((s + a).last() == a.last());
        assert(is_slug_char(a[a.len() - 1]));
        assert((dashed(s).0 + front).push(a.last()) =~= dashed(s).0 + a);
    } else {
        assert(s + a =~= s);
        assert(dashed(s).0 + a =~= dashed(s).0);
    }
}

proof fn lemma_dashed_run(s: Seq<char>, j: Seq<char>)
    requires
        forall|i: int| 0 <= i < j.len() ==> !is_slug_char(#[trigger] j[i]),
        !dashed(s).1,
    ensures
        j.len() == 0 ==> dashed(s + j) == dashed(s),
        j.len() > 0 ==> dashed(s + j) == (dashed(s).0.push('-'), true),
    decreases j.len(),
{
    if j.len() > 0 {
        let front = j.drop_last();
        assert forall|i: int| 0 <= i < front.len() implies !is_slug_char(#[trigger] front[i]) by {
            assert(front[i] == j[i]);
        }
        lemma_dashed_run(s, front);
        assert((s + j).drop_last() =~= s + front);
        assert((s + j).last() == j.last());
        assert(!is_slug_char(j[j.len() - 1]));
    } else {
        assert(s + j =~= s);
    }
}

/// The parts of a comment's name are what stands before and behind its first two
/// underscores; a name without those is none.
pub proof fn law_comment_names_have_two_parts(s: Seq<char>)
    ensures
        comment_parts(s) is None <==> forall|j: int|
            0 <= j < s.len() - 1 ==> !(#[trigger] s[j] == '_' && s[j + 1] == '_'),
        comment_parts(s) matches Some((ts, author)) ==> s == ts + seq!['_', '_'] + author && forall|
            j: int,
        |
            0 <= j < ts.len() ==> !(#[trigger] s[j] == '_' && s[j + 1] == '_'),
{
    lemma_first_gap(s);
    let i = first_gap(s);
    if i < s.len() {
        assert(s =~= s.take(i) + seq!['_', '_'] + s.skip(i + 2));
    }
}

proof fn lemma_first_gap(s: Seq<char>)
    ensures
        0 <= first_gap(s) <= s.len(),
        first_gap(s) < s.len() ==> first_gap(s) + 1 < s.len() && s[first_gap(s)] == '_' && s[first_gap(
            s,
        ) + 1] == '_',
        forall|j: int|
            0 <= j < first_gap(s) && j + 1 < s.len() ==> !(#[trigger] s[j] == '_' && s[j + 1] == '_'),
    decreases s.len(),
{
    if s.len() >= 2 && !(s[0] == '_' && s[1] == '_') {
        lemma_first_gap(s.skip(1));
        let r = s.skip(1);
        let g = first_gap(r);
        assert forall|j: int| 0 <= j < g + 1 && j + 1 < s.len() implies !(#[trigger] s[j] == '_'
            && s[j + 1] == '_') by {
            if j > 0 {
                assert(r[j - 1] == s[j] && r[j] == s[j + 1]);
            }
        }
    }
}

/// The heading of a text is what its first marked line says, wherever that stands, and the
/// description of a card what follows it; a board without a heading is called `Board`, and
/// its columns are what its listed lines say.
pub proof fn law_the_first_marked_line_is_the_heading(text: Seq<char>, i: int)
    ensures
        0 <= i < lines(text).len() && marked(lines(text)[i], '#') is Some && (forall|j: int|
            0 <= j < i ==> marked(#[trigger] lines(text)[j], '#') is None) ==> {
            &&& heading(text) == marked(lines(text)[i], '#')
            &&& board_title(text) == marked(lines(text)[i], '#')->Some_0
            &&& card_parts(text).0 == marked(lines(text)[i], '#')->Some_0
            &&& card_parts(text).1 == trim_end(
                drop_newlines(join(lines(text).skip(i + 1), seq!['\n'])),
            )
        },
        (forall|j: int| 0 <= j < lines(text).len() ==> marked(#[trigger] lines(text)[j], '#') is None)
            ==> heading(text) is None && board_title(text) == "Board"@ && card_parts(text).0.len()
            == 0 && card_parts(text).1.len() == 0,
{
    let ls = lines(text);
    if 0 <= i < ls.len() && marked(ls[i], '#') is Some && (forall|j: int|
        0 <= j < i ==> marked(#[trigger] ls[j], '#') is None) {
        lemma_first_marked_is(ls, 0, i, '#');
    }
    if forall|j: int| 0 <= j < ls.len() ==> marked(#[trigger] ls[j], '#') is None {
        lemma_none_marked(ls, 0, '#');
    }
}

proof fn lemma_none_marked(ls: Seq<Seq<char>>, k: int, mark: char)
    requires
        0 <= k <= ls.len(),
        forall|j: int| 0 <= j < ls.len() ==> marked(#[trigger] ls[j], mark) is None,
    ensures
        first_marked(ls, k, mark) == ls.len(),
    decreases ls.len() - k,
{
    if k < ls.len() {
        assert(marked(ls[k], mark) is None);
        lemma_none_marked(ls, k + 1, mark);
    }
}

/// Line feeds in front of a text are dropped, and nothing else.
pub proof fn law_line_feeds_in_front_are_dropped(feeds: Seq<char>, s: Seq<char>)
    requires
        forall|i: int| 0 <= i < feeds.len() ==> #[trigger] feeds[i] == '\n',
        s.len() > 0 ==> s[0] != '\n',
    ensures
        drop_newlines(feeds + s) == s,
    decreases feeds.len(),
{
    let all = feeds + s;
    if feeds.len() > 0 {
        let rest = feeds.skip(1);
        assert forall|i: int| 0 <= i < rest.len() implies #[trigger] rest[i] == '\n' by {
            assert(rest[i] == feeds[i + 1]);
        }
        law_line_feeds_in_front_are_dropped(rest, s);
        assert(all.skip(1) =~= rest + s);
        assert(all[0] == feeds[0]);
    } else {
        assert(all =~= s);
    }
}

} // verus!
