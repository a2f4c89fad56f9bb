//! The board without a server: requests are answered from the board's files
//! alone, and every change is recorded in the history of the site that made it.
//! Reading and writing files is left to the caller.
use crate::board::{
    card_id, card_views, column_or_default, comment_in, create_card, created_card, default_column,
    event_line, event_text, event_views, file_stamp, has_room, key_order,
    law_cards_are_found_under_their_identity, law_comments_read_back, law_key_order_orders_all,
    law_new_cards_come_last, law_patches_set_what_they_name,
    law_queries_do_not_count, lemma_key_place, new_comment, new_id, opt, order_by_key, patch_card,
    patch_events, patch_in, patched, patched_description, read_comment, read_patch, route, route_of,
    stamp_of, top_position, CardEvent, CardPatch, CommentView, EventView, Method, PatchView, Route,
    RouteView,
};
use crate::chars::{
    chars_of, copy_text, deep, join, join_chars, law_joining_puts_the_separator_between,
    lemma_lines_cons, lemma_trim_end_prefix, lines, push_chars, push_text, same_text, split_lines,
    string_of, text_lt, texts, trim, trim_text,
};
use crate::json::{
    json_doc, json_quoted, json_written, quote, read_json, text_entry, text_of, write_json,
    JsonView,
};
use crate::kanban::{
    all_marked, board_md, board_text, board_title, card_from_files, card_parts, card_text,
    first_marked, heading, is_line, law_fields_read_back, lemma_mark_line, lowercase, mark_line,
    meta_of, meta_text, parse_board_md, slug, split_card_md, truth_word, Card, CardView, Comment,
};
use crate::numerals::{decimal_int, decimal_int_chars, hex32, hex32_text};
use vstd::prelude::*;

verus! {

// ---------------------------------------------------------------------------
// Files
// ---------------------------------------------------------------------------

/// The files of one card; a text that is missing is empty.
pub struct Ticket {
    pub id: String,
    pub card_md: String,
    pub meta_toml: String,
    /// The names and the texts of the comments' files.
    pub comments: Vec<(String, String)>,
}

/// What the files of one card hold.
pub struct TicketView {
    pub id: Seq<char>,
    pub card_md: Seq<char>,
    pub meta_toml: Seq<char>,
    pub comments: Seq<(Seq<char>, Seq<char>)>,
}

/// What a list of files holds.
pub open spec fn file_views(v: Seq<(String, String)>) -> Seq<(Seq<char>, Seq<char>)> {
    v.map_values(|p: (String, String)| (p.0@, p.1@))
}

impl View for Ticket {
    type V = TicketView;

    open spec fn view(&self) -> TicketView {
        TicketView {
            id: self.id@,
            card_md: self.card_md@,
            meta_toml: self.meta_toml@,
            comments: file_views(self.comments@),
        }
    }
}

/// The files of a board.
pub struct Files {
    pub board_md: Option<String>,
    pub tickets: Vec<Ticket>,
    /// The histories of all sites.
    pub events: Vec<(String, String)>,
    /// The name of this site, which does not leave the machine.
    pub site: Option<String>,
}

/// What the files of a board hold.
pub struct FilesView {
    pub board_md: Option<Seq<char>>,
    pub tickets: Seq<TicketView>,
    pub events: Seq<(Seq<char>, Seq<char>)>,
    pub site: Option<Seq<char>>,
}

/// What the files of a list of cards hold.
pub open spec fn ticket_views(v: Seq<Ticket>) -> Seq<TicketView> {
    v.map_values(|t: Ticket| t@)
}

impl View for Files {
    type V = FilesView;

    open spec fn view(&self) -> FilesView {
        FilesView {
            board_md: opt(self.board_md),
            tickets: ticket_views(self.tickets@),
            events: file_views(self.events@),
            site: opt(self.site),
        }
    }
}

/// Who else gets what is written.
#[derive(Debug, Clone, Copy, PartialEq, Eq, Structural)]
pub enum Share {
    /// It stays here.
    Nobody,
    /// It is merged into the peers' text.
    AsText,
    /// It replaces the peers' file.
    AsFile,
}

/// A file to write.
pub struct Write {
    pub path: String,
    pub text: String,
    pub share: Share,
}

/// What a file to write holds.
pub struct WriteView {
    pub path: Seq<char>,
    pub text: Seq<char>,
    pub share: Share,
}

impl View for Write {
    type V = WriteView;

    open spec fn view(&self) -> WriteView {
        WriteView { path: self.path@, text: self.text@, share: self.share }
    }
}

/// What a list of files to write holds.
pub open spec fn write_views(v: Seq<Write>) -> Seq<WriteView> {
    v.map_values(|w: Write| w@)
}

/// The answer to a request, and what is to be written.
pub struct Reply {
    pub status: u16,
    pub body: String,
    pub writes: Vec<Write>,
}

/// What an answer says.
pub struct ReplyView {
    pub status: u16,
    pub body: Seq<char>,
    pub writes: Seq<WriteView>,
}

impl View for Reply {
    type V = ReplyView;

    open spec fn view(&self) -> ReplyView {
        ReplyView {
            status: self.status,
            body: self.body@,
            writes: write_views(self.writes@),
        }
    }
}

// ---------------------------------------------------------------------------
// What a request says
// ---------------------------------------------------------------------------

/// What the body of a request names.
pub struct Ask {
    pub patch: CardPatch,
    pub text: Option<String>,
    pub author: Option<String>,
}

/// What the body of a request names, as a value.
pub struct AskView {
    pub patch: PatchView,
    pub text: Option<Seq<char>>,
    pub author: Option<Seq<char>>,
}

impl View for Ask {
    type V = AskView;

    open spec fn view(&self) -> AskView {
        AskView { patch: self.patch@, text: opt(self.text), author: opt(self.author) }
    }
}

/// What a JSON value names; one that is no object names nothing.
pub open spec fn asked(v: JsonView) -> AskView {
    AskView {
        patch: patch_in(v),
        text: text_entry(v, "text"@),
        author: text_entry(v, "author"@),
    }
}

/// What the body of a request names. A body that is not JSON names nothing.
pub fn read_ask(body: &str) -> (r: Ask)
    ensures
        r@ == asked(
            match json_doc(body@) {
                Some(v) => v,
                None => JsonView::Null,
            },
        ),
{
    match read_json(body) {
        Some(v) => Ask {
            patch: read_patch(&v),
            text: text_of(&v, "text"),
            author: text_of(&v, "author"),
        },
        None => Ask {
            patch: CardPatch {
                column: None,
                position: None,
                done: None,
                names_title: false,
                title: None,
                names_description: false,
                description: None,
            },
            text: None,
            author: None,
        },
    }
}

// ---------------------------------------------------------------------------
// JSON
// ---------------------------------------------------------------------------

/// The JSON text of a card.
pub open spec fn card_json(c: CardView) -> Seq<char> {
    "{\"column\":"@ + json_quoted(c.column) + ",\"done\":"@ + truth_word(c.done) + ",\"id\":"@
        + json_quoted(c.id) + ",\"position\":"@ + decimal_int(c.position as int) + ",\"title\":"@
        + json_quoted(c.title) + "}"@
}

/// The JSON text of a comment.
pub open spec fn comment_json(c: CommentView) -> Seq<char> {
    "{\"id\":"@ + json_quoted(c.id) + ",\"author\":"@ + json_quoted(c.author) + ",\"ts\":"@
        + json_quoted(c.ts) + ",\"text\":"@ + json_quoted(c.text) + "}"@
}

/// The JSON text of a comment in the details of a card, where the keys are in order.
pub open spec fn note_json(c: CommentView) -> Seq<char> {
    "{\"author\":"@ + json_quoted(c.author) + ",\"id\":"@ + json_quoted(c.id) + ",\"text\":"@
        + json_quoted(c.text) + ",\"ts\":"@ + json_quoted(c.ts) + "}"@
}

/// The JSON text of a list, from those of its items.
pub open spec fn list_json(items: Seq<Seq<char>>) -> Seq<char> {
    "["@ + join(items, ","@) + "]"@
}

/// The JSON text of a board.
pub open spec fn board_json(
    title: Seq<char>,
    columns: Seq<Seq<char>>,
    cards: Seq<CardView>,
) -> Seq<char> {
    "{\"cards\":"@ + list_json(cards.map_values(|c: CardView| card_json(c))) + ",\"columns\":"@
        + list_json(columns.map_values(|c: Seq<char>| json_quoted(c))) + ",\"title\":"@
        + json_quoted(title) + "}"@
}

/// The JSON text of a card with its description and its comments.
pub open spec fn detail_json(
    c: CardView,
    description: Seq<char>,
    comments: Seq<CommentView>,
) -> Seq<char> {
    "{\"column\":"@ + json_quoted(c.column) + ",\"comments\":"@ + list_json(
        comments.map_values(|c: CommentView| note_json(c)),
    ) + ",\"description\":"@ + json_quoted(description) + ",\"done\":"@ + truth_word(c.done)
        + ",\"id\":"@ + json_quoted(c.id) + ",\"position\":"@ + decimal_int(c.position as int)
        + ",\"title\":"@ + json_quoted(c.title) + "}"@
}

/// Puts in a key and a text for it. The key brings the punctuation around it.
fn push_quoted(out: &mut Vec<char>, key: &str, value: &str)
    ensures
        final(out)@ == old(out)@ + key@ + json_quoted(value@),
{
    push_text(out, key);
    let q = quote(value);
    push_text(out, q.as_str());
}

fn push_done(out: &mut Vec<char>, key: &str, done: bool)
    ensures
        final(out)@ == old(out)@ + key@ + truth_word(done),
{
    push_text(out, key);
    push_text(
        out,
        if done {
            "true"
        } else {
            "false"
        },
    );
}

fn push_position(out: &mut Vec<char>, key: &str, position: i64)
    ensures
        final(out)@ == old(out)@ + key@ + decimal_int(position as int),
{
    push_text(out, key);
    let d = decimal_int_chars(position);
    push_chars(out, d.as_slice());
}

fn push_list(out: &mut Vec<char>, items: &Vec<Vec<char>>)
    ensures
        final(out)@ == old(out)@ + list_json(deep(items@)),
{
    push_text(out, "[");
    let comma = chars_of(",");
    let all = join_chars(items.as_slice(), 0, comma.as_slice());
    assert(deep(items@).skip(0) =~= deep(items@));
    push_chars(out, all.as_slice());
    push_text(out, "]");
    assert(out@ =~= old(out)@ + list_json(deep(items@)));
}

fn card_chars(c: &Card) -> (r: Vec<char>)
    ensures
        r@ == card_json(c@),
{
    let mut out: Vec<char> = Vec::new();
    push_quoted(&mut out, "{\"column\":", c.column.as_str());
    push_done(&mut out, ",\"done\":", c.done);
    push_quoted(&mut out, ",\"id\":", c.id.as_str());
    push_position(&mut out, ",\"position\":", c.position);
    push_quoted(&mut out, ",\"title\":", c.title.as_str());
    push_text(&mut out, "}");
    assert(out@ =~= card_json(c@));
    out
}

fn comment_chars(c: &Comment) -> (r: Vec<char>)
    ensures
        r@ == comment_json(c@),
{
    let mut out: Vec<char> = Vec::new();
    push_quoted(&mut out, "{\"id\":", c.id.as_str());
    push_quoted(&mut out, ",\"author\":", c.author.as_str());
    push_quoted(&mut out, ",\"ts\":", c.ts.as_str());
    push_quoted(&mut out, ",\"text\":", c.text.as_str());
    push_text(&mut out, "}");
    assert(out@ =~= comment_json(c@));
    out
}

fn note_chars(c: &Comment) -> (r: Vec<char>)
    ensures
        r@ == note_json(c@),
{
    let mut out: Vec<char> = Vec::new();
    push_quoted(&mut out, "{\"author\":", c.author.as_str());
    push_quoted(&mut out, ",\"id\":", c.id.as_str());
    push_quoted(&mut out, ",\"text\":", c.text.as_str());
    push_quoted(&mut out, ",\"ts\":", c.ts.as_str());
    push_text(&mut out, "}");
    assert(out@ =~= note_json(c@));
    out
}

fn board_chars(title: &str, columns: &Vec<String>, cards: &Vec<Card>) -> (r: Vec<char>)
    ensures
        r@ == board_json(title@, texts(columns@), card_views(cards@)),
{
    let ghost want_cards = card_views(cards@).map_values(|c: CardView| card_json(c));
    let ghost want_columns = texts(columns@).map_values(|c: Seq<char>| json_quoted(c));
    let mut items: Vec<Vec<char>> = Vec::new();
    let mut i: usize = 0;
    while i < cards.len()
        invariant
            i <= cards@.len(),
            want_cards == card_views(cards@).map_values(|c: CardView| card_json(c)),
            deep(items@) == want_cards.take(i as int),
        decreases cards@.len() - i,
    {
        let ghost before = items@;
        items.push(card_chars(&cards[i]));
        assert(deep(items@) =~= deep(before).push(want_cards[i as int]));
        assert(want_cards.take(i + 1) =~= want_cards.take(i as int).push(want_cards[i as int]));
        i += 1;
    }
    assert(want_cards.take(i as int) =~= want_cards);
    let mut names: Vec<Vec<char>> = Vec::new();
    let mut j: usize = 0;
    while j < columns.len()
        invariant
            j <= columns@.len(),
            want_columns == texts(columns@).map_values(|c: Seq<char>| json_quoted(c)),
            deep(names@) == want_columns.take(j as int),
        decreases columns@.len() - j,
    {
        let ghost before = names@;
        let q = quote(columns[j].as_str());
        names.push(chars_of(q.as_str()));
        assert(deep(names@) =~= deep(before).push(want_columns[j as int]));
        assert(want_columns.take(j + 1) =~= want_columns.take(j as int).push(want_columns[j as int]));
        j += 1;
    }
    assert(want_columns.take(j as int) =~= want_columns);
    let mut out: Vec<char> = Vec::new();
    push_text(&mut out, "{\"cards\":");
    push_list(&mut out, &items);
    push_text(&mut out, ",\"columns\":");
    push_list(&mut out, &names);
    push_quoted(&mut out, ",\"title\":", title);
    push_text(&mut out, "}");
    assert(out@ =~= board_json(title@, texts(columns@), card_views(cards@)));
    out
}

/// What a list of comments says.
pub open spec fn comment_views(v: Seq<Comment>) -> Seq<CommentView> {
    v.map_values(|c: Comment| c@)
}

fn detail_chars(c: &Card, description: &str, comments: &Vec<Comment>) -> (r: Vec<char>)
    ensures
        r@ == detail_json(c@, description@, comment_views(comments@)),
{
    let ghost want = comment_views(comments@).map_values(|c: CommentView| note_json(c));
    let mut items: Vec<Vec<char>> = Vec::new();
    let mut i: usize = 0;
    while i < comments.len()
        invariant
            i <= comments@.len(),
            want == comment_views(comments@).map_values(|c: CommentView| note_json(c)),
            deep(items@) == want.take(i as int),
        decreases comments@.len() - i,
    {
        let ghost before = items@;
        items.push(note_chars(&comments[i]));
        assert(deep(items@) =~= deep(before).push(want[i as int]));
        assert(want.take(i + 1) =~= want.take(i as int).push(want[i as int]));
        i += 1;
    }
    assert(want.take(i as int) =~= want);
    let mut out: Vec<char> = Vec::new();
    push_quoted(&mut out, "{\"column\":", c.column.as_str());
    push_text(&mut out, ",\"comments\":");
    push_list(&mut out, &items);
    push_quoted(&mut out, ",\"description\":", description);
    push_done(&mut out, ",\"done\":", c.done);
    push_quoted(&mut out, ",\"id\":", c.id.as_str());
    push_position(&mut out, ",\"position\":", c.position);
    push_quoted(&mut out, ",\"title\":", c.title.as_str());
    push_text(&mut out, "}");
    assert(out@ =~= detail_json(c@, description@, comment_views(comments@)));
    out
}

// ---------------------------------------------------------------------------
// Reading the board
// ---------------------------------------------------------------------------

/// The columns that a new board starts with.
pub open spec fn first_columns() -> Seq<Seq<char>> {
    seq!["Todo"@, "Doing"@, "Done"@]
}

/// The text of the board's file, or of a new board where there is none.
pub open spec fn board_source(f: FilesView) -> Seq<char> {
    match f.board_md {
        Some(t) => t,
        None => board_text("My Board"@, first_columns()),
    }
}

/// The columns of the board.
pub open spec fn columns_of(f: FilesView) -> Seq<Seq<char>> {
    all_marked(lines(board_source(f)), '-')
}

/// The card that its files hold; one that names no column is in the first.
pub open spec fn card_of(t: TicketView, columns: Seq<Seq<char>>) -> CardView {
    let meta = meta_of(lines(t.meta_toml));
    CardView {
        id: t.id,
        title: match heading(t.card_md) {
            Some(h) => h,
            None => t.id,
        },
        column: match meta.column {
            Some(c) => c,
            None => default_column(columns),
        },
        position: meta.position,
        done: meta.done,
    }
}

/// The cards of the board.
pub open spec fn cards_of(f: FilesView) -> Seq<CardView> {
    f.tickets.map_values(|t: TicketView| card_of(t, columns_of(f)))
}

/// Where a card's files are in the list; the length of the list if they are not.
pub open spec fn place_of(ts: Seq<TicketView>, id: Seq<char>, i: int) -> int
    decreases ts.len() - i,
{
    if i >= ts.len() || ts[i].id == id {
        i
    } else {
        place_of(ts, id, i + 1)
    }
}

/// The comments that files hold.
pub open spec fn comments_in(files: Seq<(Seq<char>, Seq<char>)>) -> Seq<CommentView>
    decreases files.len(),
{
    if files.len() == 0 {
        Seq::empty()
    } else {
        let front = comments_in(files.drop_last());
        match comment_in(files.last().0, files.last().1) {
            Some(c) => front.push(c),
            None => front,
        }
    }
}

/// Comments in the order of their times; those with the same time stay in the
/// order in which they came.
pub open spec fn by_time(cs: Seq<CommentView>) -> Seq<CommentView> {
    key_order(cs.map_values(|c: CommentView| c.ts)).map_values(|i: int| cs[i])
}

fn new_board() -> (r: String)
    ensures
        r@ == board_text("My Board"@, first_columns()),
{
    let mut columns: Vec<String> = Vec::new();
    columns.push(copy_text("Todo"));
    columns.push(copy_text("Doing"));
    columns.push(copy_text("Done"));
    assert(texts(columns@) =~= first_columns());
    board_md("My Board", columns.as_slice())
}

fn read_card(t: &Ticket, columns: &Vec<String>) -> (r: Card)
    ensures
        r@ == card_of(t@, texts(columns@)),
{
    let column = column_or_default(columns.as_slice());
    card_from_files(t.id.as_str(), t.card_md.as_str(), t.meta_toml.as_str(), column.as_str())
}

fn read_cards(files: &Files, columns: &Vec<String>) -> (r: Vec<Card>)
    requires
        texts(columns@) == columns_of(files@),
    ensures
        card_views(r@) == cards_of(files@),
{
    let ghost want = cards_of(files@);
    let mut out: Vec<Card> = Vec::new();
    let mut i: usize = 0;
    while i < files.tickets.len()
        invariant
            i <= files.tickets@.len(),
            want == cards_of(files@),
            texts(columns@) == columns_of(files@),
            card_views(out@) == want.take(i as int),
        decreases files.tickets@.len() - i,
    {
        let ghost before = out@;
        out.push(read_card(&files.tickets[i], columns));
        assert(files@.tickets[i as int] == files.tickets@[i as int]@);
        assert(card_views(out@) =~= card_views(before).push(want[i as int]));
        assert(want.take(i + 1) =~= want.take(i as int).push(want[i as int]));
        i += 1;
    }
    assert(want.take(i as int) =~= want);
    out
}

fn find_ticket(tickets: &Vec<Ticket>, id: &str) -> (r: usize)
    ensures
        r == place_of(ticket_views(tickets@), id@, 0),
        r <= tickets@.len(),
{
    let ghost all = ticket_views(tickets@);
    let mut i: usize = 0;
    while i < tickets.len()
        invariant
            i <= tickets@.len(),
            all == ticket_views(tickets@),
            place_of(all, id@, 0) == place_of(all, id@, i as int),
        decreases tickets@.len() - i,
    {
        assert(all[i as int] == tickets@[i as int]@);
        if same_text(tickets[i].id.as_str(), id) {
            return i;
        }
        i += 1;
    }
    i
}

fn read_comments(files: &Vec<(String, String)>) -> (r: Vec<Comment>)
    ensures
        comment_views(r@) == by_time(comments_in(file_views(files@))),
{
    let ghost all = file_views(files@);
    let mut found: Vec<Comment> = Vec::new();
    let mut keys: Vec<String> = Vec::new();
    let mut i: usize = 0;
    assert(comment_views(found@) =~= comments_in(all.take(0)));
    assert(texts(keys@) =~= comments_in(all.take(0)).map_values(|c: CommentView| c.ts));
    while i < files.len()
        invariant
            i <= files@.len(),
            all == file_views(files@),
            comment_views(found@) == comments_in(all.take(i as int)),
            texts(keys@) == comments_in(all.take(i as int)).map_values(|c: CommentView| c.ts),
        decreases files@.len() - i,
    {
        assert(all.take(i + 1).drop_last() =~= all.take(i as int));
        assert(all.take(i + 1).last() == (files@[i as int].0@, files@[i as int].1@));
        let ghost before = found@;
        let ghost kb = keys@;
        match read_comment(files[i].0.as_str(), files[i].1.as_str()) {
            Some(c) => {
                let ghost cv = c@;
                keys.push(copy_text(c.ts.as_str()));
                found.push(c);
                assert(comment_views(found@) =~= comment_views(before).push(cv));
                assert(texts(keys@) =~= texts(kb).push(cv.ts));
                assert(comments_in(all.take(i + 1)).map_values(|c: CommentView| c.ts)
                    =~= comments_in(all.take(i as int)).map_values(|c: CommentView| c.ts).push(
                    cv.ts,
                ));
            },
            None => {},
        }
        i += 1;
    }
    assert(all.take(i as int) =~= all);
    let ghost cs = comments_in(all);
    let order = order_by_key(&keys);
    let ghost want = by_time(cs);
    assert(keys@.len() == texts(keys@).len());
    assert(found@.len() == comment_views(found@).len());
    let mut out: Vec<Comment> = Vec::new();
    let mut k: usize = 0;
    while k < order.len()
        invariant
            k <= order@.len(),
            cs == comments_in(all),
            comment_views(found@) == cs,
            found@.len() == cs.len(),
            order@.len() == cs.len(),
            forall|j: int| 0 <= j < order@.len() ==> (#[trigger] order@[j]) < cs.len(),
            order@.map_values(|i: usize| i as int) == key_order(
                cs.map_values(|c: CommentView| c.ts),
            ),
            want == by_time(cs),
            comment_views(out@) == want.take(k as int),
        decreases order@.len() - k,
    {
        let at: usize = order[k];
        assert(order@[k as int] == at);
        let c = &found[at];
        let ghost before = out@;
        assert(comment_views(found@)[at as int] == c@);
        assert(order@.map_values(|i: usize| i as int)[k as int] == at);
        out.push(
            Comment {
                id: copy_text(c.id.as_str()),
                author: copy_text(c.author.as_str()),
                ts: copy_text(c.ts.as_str()),
                text: copy_text(c.text.as_str()),
            },
        );
        assert(comment_views(out@) =~= comment_views(before).push(want[k as int]));
        assert(want.take(k + 1) =~= want.take(k as int).push(want[k as int]));
        k += 1;
    }
    assert(want.take(k as int) =~= want);
    out
}

// ---------------------------------------------------------------------------
// History
// ---------------------------------------------------------------------------

/// The lines among these that are JSON.
pub open spec fn json_lines(ls: Seq<Seq<char>>) -> Seq<Seq<char>>
    decreases ls.len(),
{
    if ls.len() == 0 {
        Seq::empty()
    } else if json_doc(ls.last()) is Some {
        json_lines(ls.drop_last()).push(ls.last())
    } else {
        json_lines(ls.drop_last())
    }
}

/// The entries of all histories, file by file.
pub open spec fn all_entries(files: Seq<(Seq<char>, Seq<char>)>) -> Seq<Seq<char>>
    decreases files.len(),
{
    if files.len() == 0 {
        Seq::empty()
    } else {
        let front = all_entries(files.drop_last());
        if ".jsonl"@.is_suffix_of(files.last().0) {
            front + json_lines(lines(files.last().1))
        } else {
            front
        }
    }
}

/// The time of an entry; none counts as the earliest.
pub open spec fn entry_time(line: Seq<char>) -> Seq<char> {
    match json_doc(line) {
        Some(v) => match text_entry(v, "ts"@) {
            Some(t) => t,
            None => Seq::empty(),
        },
        None => Seq::empty(),
    }
}

/// The entries of all histories in the order of their times.
pub open spec fn history_of(files: Seq<(Seq<char>, Seq<char>)>) -> Seq<Seq<char>> {
    let all = all_entries(files);
    key_order(all.map_values(|l: Seq<char>| entry_time(l))).map_values(|i: int| all[i])
}

/// An entry as it is written out again.
pub open spec fn rewritten(line: Seq<char>) -> Seq<char> {
    match json_doc(line) {
        Some(v) => json_written(v),
        None => Seq::empty(),
    }
}

/// The JSON text of all histories: a list of their entries.
pub open spec fn history_json(files: Seq<(Seq<char>, Seq<char>)>) -> Seq<char> {
    list_json(history_of(files).map_values(|l: Seq<char>| rewritten(l)))
}

/// Puts the entries of a file behind others, with their times.
fn add_entries(text: &str, found: &mut Vec<String>, keys: &mut Vec<String>)
    requires
        texts(old(keys)@) == texts(old(found)@).map_values(|l: Seq<char>| entry_time(l)),
    ensures
        texts(final(found)@) == texts(old(found)@) + json_lines(lines(text@)),
        texts(final(keys)@) == texts(final(found)@).map_values(|l: Seq<char>| entry_time(l)),
{
    let cs = chars_of(text);
    let ls = split_lines(cs.as_slice());
    let ghost all = deep(ls@);
    let ghost base = texts(found@);
    let mut i: usize = 0;
    assert(base + json_lines(all.take(0)) =~= base);
    while i < ls.len()
        invariant
            i <= ls@.len(),
            all == deep(ls@),
            texts(found@) == base + json_lines(all.take(i as int)),
            texts(keys@) == texts(found@).map_values(|l: Seq<char>| entry_time(l)),
        decreases ls@.len() - i,
    {
        assert(all.take(i + 1).drop_last() =~= all.take(i as int));
        assert(all.take(i + 1).last() == ls@[i as int]@);
        let line = string_of(ls[i].as_slice());
        let ghost lv = line@;
        let ghost f0 = found@;
        let ghost k0 = keys@;
        match read_json(line.as_str()) {
            Some(v) => {
                let key = match text_of(&v, "ts") {
                    Some(t) => t,
                    None => String::new(),
                };
                assert(key@ =~= entry_time(lv));
                keys.push(key);
                found.push(line);
                assert(texts(found@) =~= texts(f0).push(lv));
                assert(texts(keys@) =~= texts(k0).push(entry_time(lv)));
                assert(texts(found@) =~= base + json_lines(all.take(i + 1)));
                assert(texts(keys@) =~= texts(found@).map_values(|l: Seq<char>| entry_time(l)));
            },
            None => {},
        }
        i += 1;
    }
    assert(all.take(i as int) =~= all);
}

/// The entries of all histories in the order of their times; those with the same
/// time stay in the order in which they came.
pub fn history(files: &Vec<(String, String)>) -> (r: Vec<String>)
    ensures
        texts(r@) == history_of(file_views(files@)),
{
    let ghost all = file_views(files@);
    let suffix = chars_of(".jsonl");
    let mut found: Vec<String> = Vec::new();
    let mut keys: Vec<String> = Vec::new();
    let mut i: usize = 0;
    assert(texts(found@) =~= all_entries(all.take(0)));
    assert(texts(keys@) =~= texts(found@).map_values(|l: Seq<char>| entry_time(l)));
    while i < files.len()
        invariant
            i <= files@.len(),
            all == file_views(files@),
            suffix@ == ".jsonl"@,
            texts(found@) == all_entries(all.take(i as int)),
            texts(keys@) == texts(found@).map_values(|l: Seq<char>| entry_time(l)),
        decreases files@.len() - i,
    {
        assert(all.take(i + 1).drop_last() =~= all.take(i as int));
        assert(all.take(i + 1).last() == (files@[i as int].0@, files@[i as int].1@));
        let name = chars_of(files[i].0.as_str());
        if ends_with(name.as_slice(), suffix.as_slice()) {
            add_entries(files[i].1.as_str(), &mut found, &mut keys);
        }
        i += 1;
    }
    assert(all.take(i as int) =~= all);
    let ghost es = all_entries(all);
    let ghost want = history_of(all);
    let order = order_by_key(&keys);
    assert(keys@.len() == texts(keys@).len());
    assert(found@.len() == texts(found@).len());
    let mut out: Vec<String> = Vec::new();
    let mut k: usize = 0;
    while k < order.len()
        invariant
            k <= order@.len(),
            texts(found@) == es,
            found@.len() == es.len(),
            order@.len() == es.len(),
            forall|j: int| 0 <= j < order@.len() ==> (#[trigger] order@[j]) < es.len(),
            order@.map_values(|i: usize| i as int) == key_order(
                es.map_values(|l: Seq<char>| entry_time(l)),
            ),
            want == key_order(es.map_values(|l: Seq<char>| entry_time(l))).map_values(|i: int| es[i]),
            texts(out@) == want.take(k as int),
        decreases order@.len() - k,
    {
        let at: usize = order[k];
        assert(order@[k as int] == at);
        let ghost before = out@;
        assert(texts(found@)[at as int] == found@[at as int]@);
        assert(order@.map_values(|i: usize| i as int)[k as int] == at);
        out.push(copy_text(found[at].as_str()));
        assert(texts(out@) =~= texts(before).push(want[k as int]));
        assert(want.take(k + 1) =~= want.take(k as int).push(want[k as int]));
        k += 1;
    }
    assert(want.take(k as int) =~= want);
    out
}

/// The entries of all histories in the order of their times, as one JSON text.
pub fn history_text(files: &Vec<(String, String)>) -> (r: String)
    ensures
        r@ == history_json(file_views(files@)),
{
    let found = history(files);
    let ghost want = texts(found@).map_values(|l: Seq<char>| rewritten(l));
    let mut items: Vec<Vec<char>> = Vec::new();
    let mut i: usize = 0;
    while i < found.len()
        invariant
            i <= found@.len(),
            want == texts(found@).map_values(|l: Seq<char>| rewritten(l)),
            deep(items@) == want.take(i as int),
        decreases found@.len() - i,
    {
        let ghost before = items@;
        let item = match read_json(found[i].as_str()) {
            Some(v) => chars_of(write_json(&v).as_str()),
            None => Vec::new(),
        };
        assert(item@ =~= want[i as int]);
        items.push(item);
        assert(deep(items@) =~= deep(before).push(want[i as int]));
        assert(want.take(i + 1) =~= want.take(i as int).push(want[i as int]));
        i += 1;
    }
    assert(want.take(i as int) =~= want);
    let mut out: Vec<char> = Vec::new();
    push_list(&mut out, &items);
    assert(out@ =~= history_json(file_views(files@)));
    string_of(out.as_slice())
}

fn ends_with(s: &[char], part: &[char]) -> (r: bool)
    ensures
        r == part@.is_suffix_of(s@),
{
    if part.len() > s.len() {
        return false;
    }
    let back = vstd::slice::slice_subrange(s, s.len() - part.len(), s.len());
    let r = crate::chars::same_chars(back, part);
    assert(back@ == s@.subrange(s@.len() - part@.len(), s@.len() as int));
    r
}

/// Whether this site has a name.
pub open spec fn is_named(f: FilesView) -> bool {
    f.site matches Some(s) && trim(s).len() > 0
}

/// The name of this site; one that has none gets a number drawn at random.
pub open spec fn site_of(f: FilesView, n: u32) -> Seq<char> {
    if is_named(f) {
        trim(f.site->Some_0)
    } else {
        hex32(n)
    }
}

/// The text of the first file of a name; nothing where there is none.
pub open spec fn text_named(files: Seq<(Seq<char>, Seq<char>)>, name: Seq<char>, i: int) -> Seq<char>
    decreases files.len() - i,
{
    if i >= files.len() {
        Seq::empty()
    } else if files[i].0 == name {
        files[i].1
    } else {
        text_named(files, name, i + 1)
    }
}

/// A history with entries behind it, a line for each.
pub open spec fn logged(
    log: Seq<char>,
    now: Seq<char>,
    site: Seq<char>,
    es: Seq<EventView>,
) -> Seq<char>
    decreases es.len(),
{
    if es.len() == 0 {
        log
    } else {
        logged(log, now, site, es.drop_last()) + event_text(now, site, es.last()) + "\n"@
    }
}

/// What recording entries writes: the history of this site, anew for each entry,
/// and before that the name of the site where it had none.
pub open spec fn recorded(f: FilesView, n: u32, now: Seq<char>, es: Seq<EventView>) -> Seq<WriteView> {
    let site = site_of(f, n);
    let name = site + ".jsonl"@;
    let log = text_named(f.events, name, 0);
    if es.len() == 0 {
        Seq::empty()
    } else {
        (if is_named(f) {
            Seq::empty()
        } else {
            seq![WriteView { path: ".site"@, text: site, share: Share::Nobody }]
        }) + Seq::new(
            es.len(),
            |k: int|
                WriteView {
                    path: "events/"@ + name,
                    text: logged(log, now, site, es.take(k + 1)),
                    share: Share::AsText,
                },
        )
    }
}

fn find_text(files: &Vec<(String, String)>, name: &str) -> (r: String)
    ensures
        r@ == text_named(file_views(files@), name@, 0),
{
    let ghost all = file_views(files@);
    let mut i: usize = 0;
    while i < files.len()
        invariant
            i <= files@.len(),
            all == file_views(files@),
            text_named(all, name@, 0) == text_named(all, name@, i as int),
        decreases files@.len() - i,
    {
        assert(all[i as int] == (files@[i as int].0@, files@[i as int].1@));
        if same_text(files[i].0.as_str(), name) {
            return copy_text(files[i].1.as_str());
        }
        i += 1;
    }
    let r = String::new();
    assert(r@ =~= Seq::<char>::empty());
    r
}

fn record(files: &Files, n: u32, now: &str, events: &Vec<CardEvent>, out: &mut Vec<Write>)
    ensures
        write_views(final(out)@) == write_views(old(out)@) + recorded(
            files@,
            n,
            now@,
            event_views(events@),
        ),
{
    let ghost start = write_views(out@);
    let ghost es = event_views(events@);
    if events.len() == 0 {
        assert(start + recorded(files@, n, now@, es) =~= start);
        return;
    }
    let known: Option<String> = match &files.site {
        Some(s) => {
            let t = trim_text(s.as_str());
            let cs = chars_of(t.as_str());
            if cs.len() > 0 {
                Some(t)
            } else {
                None
            }
        },
        None => None,
    };
    let ghost named = known is Some;
    assert(named == is_named(files@));
    let site = match known {
        Some(t) => t,
        None => {
            let minted = hex32_text(n);
            out.push(
                Write {
                    path: copy_text(".site"),
                    text: copy_text(minted.as_str()),
                    share: Share::Nobody,
                },
            );
            minted
        },
    };
    let ghost sv = site@;
    assert(sv == site_of(files@, n));
    let ghost head = if named {
        Seq::<WriteView>::empty()
    } else {
        seq![WriteView { path: ".site"@, text: sv, share: Share::Nobody }]
    };
    assert(write_views(out@) =~= start + head);
    let mut name = chars_of(site.as_str());
    push_text(&mut name, ".jsonl");
    let mut path = chars_of("events/");
    push_chars(&mut path, name.as_slice());
    let file = string_of(name.as_slice());
    let log = find_text(&files.events, file.as_str());
    let mut text = chars_of(log.as_str());
    let ghost tail = Seq::new(
        es.len(),
        |k: int|
            WriteView {
                path: path@,
                text: logged(log@, now@, sv, es.take(k + 1)),
                share: Share::AsText,
            },
    );
    let mut i: usize = 0;
    assert(start + head + tail.take(0) =~= start + head);
    while i < events.len()
        invariant
            i <= events@.len(),
            es == event_views(events@),
            site@ == sv,
            text@ == logged(log@, now@, sv, es.take(i as int)),
            tail == Seq::new(
                es.len(),
                |k: int|
                    WriteView {
                        path: path@,
                        text: logged(log@, now@, sv, es.take(k + 1)),
                        share: Share::AsText,
                    },
            ),
            write_views(out@) == start + head + tail.take(i as int),
        decreases events@.len() - i,
    {
        assert(es.take(i + 1).drop_last() =~= es.take(i as int));
        assert(es.take(i + 1).last() == events@[i as int]@);
        let line = event_line(now, site.as_str(), &events[i]);
        push_text(&mut text, line.as_str());
        push_text(&mut text, "\n");
        assert(text@ =~= logged(log@, now@, sv, es.take(i + 1)));
        let ghost before = out@;
        out.push(
            Write {
                path: string_of(path.as_slice()),
                text: string_of(text.as_slice()),
                share: Share::AsText,
            },
        );
        assert(write_views(out@) =~= write_views(before).push(tail[i as int]));
        assert(tail.take(i + 1) =~= tail.take(i as int).push(tail[i as int]));
        assert(write_views(out@) =~= start + head + tail.take(i + 1));
        i += 1;
    }
    assert(tail.take(i as int) =~= tail);
    assert(head + tail =~= recorded(files@, n, now@, es));
    assert(start + head + tail =~= start + (head + tail));
}

// ---------------------------------------------------------------------------
// Answers
// ---------------------------------------------------------------------------

/// The path of a file of a card.
pub open spec fn ticket_path(id: Seq<char>, file: Seq<char>) -> Seq<char> {
    "tickets/"@ + id + "/"@ + file
}

/// What is written before any request is answered: a new board where there is
/// none.
pub open spec fn seed_writes(f: FilesView) -> Seq<WriteView> {
    if f.board_md is Some {
        Seq::empty()
    } else {
        seq![WriteView { path: "board.md"@, text: board_source(f), share: Share::Nobody }]
    }
}

/// An answer that is a text.
pub open spec fn text_reply(status: u16, body: Seq<char>, writes: Seq<WriteView>) -> ReplyView {
    ReplyView { status, body, writes }
}

/// The column that a new card goes to.
pub open spec fn column_asked(f: FilesView, ask: AskView) -> Seq<char> {
    match ask.patch.column {
        Some(c) => if c.len() == 0 {
            default_column(columns_of(f))
        } else {
            c
        },
        None => default_column(columns_of(f)),
    }
}

/// A text that may be absent, or nothing.
pub open spec fn or_empty(s: Option<Seq<char>>) -> Seq<char> {
    match s {
        Some(t) => t,
        None => Seq::empty(),
    }
}

/// The answer to a request for a new card.
pub open spec fn create_reply(
    f: FilesView,
    ask: AskView,
    id: u32,
    site: u32,
    now: Seq<char>,
) -> ReplyView {
    let c = created_card(
        columns_of(f),
        cards_of(f),
        or_empty(ask.patch.column),
        or_empty(ask.patch.title),
        card_id(id),
    );
    text_reply(
        200,
        card_json(c),
        seed_writes(f) + seq![
            WriteView {
                path: ticket_path(c.id, "card.md"@),
                text: card_text(c.title, Seq::empty()),
                share: Share::AsText,
            },
            WriteView {
                path: ticket_path(c.id, "meta.toml"@),
                text: meta_text(c.column, c.position, false),
                share: Share::AsFile,
            },
        ] + recorded(f, site, now, seq![EventView::Create(c.id, c.column, c.title)]),
    )
}

/// The answer to a request to change a card.
pub open spec fn patch_reply(
    f: FilesView,
    t: TicketView,
    ask: AskView,
    site: u32,
    now: Seq<char>,
) -> ReplyView {
    let before = card_of(t, columns_of(f));
    let c = patched(before, ask.patch);
    let old_description = card_parts(t.card_md).1;
    text_reply(
        200,
        card_json(c),
        seed_writes(f) + seq![
            WriteView {
                path: ticket_path(t.id, "meta.toml"@),
                text: meta_text(c.column, c.position, c.done),
                share: Share::AsFile,
            },
        ] + (if ask.patch.names_title || ask.patch.names_description {
            seq![
                WriteView {
                    path: ticket_path(t.id, "card.md"@),
                    text: card_text(c.title, patched_description(old_description, ask.patch)),
                    share: Share::AsText,
                },
            ]
        } else {
            Seq::empty()
        }) + recorded(f, site, now, patch_events(before, c, ask.patch, old_description)),
    )
}

/// The comment that a request brings, if its text is not blank.
pub open spec fn comment_asked(ask: AskView, now: Seq<char>) -> Option<CommentView> {
    let text = trim(or_empty(ask.text));
    let author = slug(
        lowercase(
            match ask.author {
                Some(a) => a,
                None => "anon"@,
            },
        ),
    );
    if text.len() == 0 {
        None
    } else {
        Some(
            CommentView {
                id: file_stamp(now) + "__"@ + author,
                author,
                ts: file_stamp(now),
                text,
            },
        )
    }
}

/// The answer to a request to comment on a card.
pub open spec fn comment_reply(
    f: FilesView,
    id: Seq<char>,
    ask: AskView,
    site: u32,
    now: Seq<char>,
) -> ReplyView {
    match comment_asked(ask, now) {
        None => text_reply(400, "Comment text is required"@, seed_writes(f)),
        Some(c) => text_reply(
            200,
            comment_json(c),
            seed_writes(f) + seq![
                WriteView {
                    path: ticket_path(id, "comments/"@ + c.id + ".md"@),
                    text: c.text,
                    share: Share::AsText,
                },
            ] + recorded(f, site, now, seq![EventView::Comment(id, c.id)]),
        ),
    }
}

/// The answer to a request.
pub open spec fn reply_to(
    f: FilesView,
    method: Method,
    url: Seq<char>,
    ask: AskView,
    id: u32,
    site: u32,
    now: Seq<char>,
) -> ReplyView {
    let columns = columns_of(f);
    let missing = text_reply(404, "Not Found"@, seed_writes(f));
    match route_of(method, url, false) {
        RouteView::Board => text_reply(
            200,
            board_json(board_title(board_source(f)), columns, cards_of(f)),
            seed_writes(f),
        ),
        RouteView::Card(c) => {
            let i = place_of(f.tickets, c, 0);
            if i < f.tickets.len() {
                text_reply(200, card_json(card_of(f.tickets[i], columns)), seed_writes(f))
            } else {
                missing
            }
        },
        RouteView::Detail(c) => {
            let i = place_of(f.tickets, c, 0);
            if i < f.tickets.len() {
                let t = f.tickets[i];
                text_reply(
                    200,
                    detail_json(
                        card_of(t, columns),
                        card_parts(t.card_md).1,
                        by_time(comments_in(t.comments)),
                    ),
                    seed_writes(f),
                )
            } else {
                missing
            }
        },
        RouteView::Create => create_reply(f, ask, id, site, now),
        RouteView::Patch(c) => {
            let i = place_of(f.tickets, c, 0);
            if i < f.tickets.len() {
                patch_reply(f, f.tickets[i], ask, site, now)
            } else {
                missing
            }
        },
        RouteView::Comment(c) => {
            let i = place_of(f.tickets, c, 0);
            if i < f.tickets.len() {
                comment_reply(f, c, ask, site, now)
            } else {
                missing
            }
        },
        RouteView::History => ReplyView {
            status: 200,
            body: history_json(f.events),
            writes: seed_writes(f),
        },
        _ => missing,
    }
}

fn ticket_file(id: &str, file: &str) -> (r: String)
    ensures
        r@ == ticket_path(id@, file@),
{
    let mut out = chars_of("tickets/");
    push_text(&mut out, id);
    push_text(&mut out, "/");
    push_text(&mut out, file);
    string_of(out.as_slice())
}

fn put(out: &mut Vec<Write>, path: String, text: String, share: Share)
    ensures
        write_views(final(out)@) == write_views(old(out)@).push(
            WriteView { path: path@, text: text@, share },
        ),
{
    let ghost w = WriteView { path: path@, text: text@, share };
    out.push(Write { path, text, share });
    assert(write_views(out@) =~= write_views(old(out)@).push(w));
}

fn reply(status: u16, body: String, writes: Vec<Write>) -> (r: Reply)
    ensures
        r@ == text_reply(status, body@, write_views(writes@)),
{
    Reply { status, body, writes }
}

fn answer_create(
    files: &Files,
    columns: &Vec<String>,
    ask: &Ask,
    id: u32,
    site: u32,
    now: &str,
    writes: Vec<Write>,
) -> (r: Reply)
    requires
        texts(columns@) == columns_of(files@),
        write_views(writes@) == seed_writes(files@),
        top_position(cards_of(files@), column_asked(files@, ask@)) < i64::MAX,
    ensures
        r@ == create_reply(files@, ask@, id, site, now@),
{
    let mut out = writes;
    let cards = read_cards(files, columns);
    let column = or_nothing(&ask.patch.column);
    let title = or_nothing(&ask.patch.title);
    let name = new_id(id);
    let plan = create_card(
        columns.as_slice(),
        cards.as_slice(),
        column.as_str(),
        title.as_str(),
        name.as_str(),
    );
    let ghost c = plan.card@;
    put(&mut out, ticket_file(name.as_str(), "card.md"), plan.card_md, Share::AsText);
    put(&mut out, ticket_file(name.as_str(), "meta.toml"), plan.meta_toml, Share::AsFile);
    let mut events: Vec<CardEvent> = Vec::new();
    let ghost ev = plan.event@;
    events.push(plan.event);
    assert(event_views(events@) =~= seq![ev]);
    record(files, site, now, &events, &mut out);
    let body = card_chars(&plan.card);
    assert(write_views(out@) =~= create_reply(files@, ask@, id, site, now@).writes);
    reply(200, string_of(body.as_slice()), out)
}

fn or_nothing(s: &Option<String>) -> (r: String)
    ensures
        r@ == or_empty(opt(*s)),
{
    match s {
        Some(t) => copy_text(t.as_str()),
        None => {
            let r = String::new();
            assert(r@ =~= Seq::<char>::empty());
            r
        },
    }
}

fn answer_patch(
    files: &Files,
    columns: &Vec<String>,
    t: &Ticket,
    ask: &Ask,
    site: u32,
    now: &str,
    writes: Vec<Write>,
) -> (r: Reply)
    requires
        texts(columns@) == columns_of(files@),
        write_views(writes@) == seed_writes(files@),
    ensures
        r@ == patch_reply(files@, t@, ask@, site, now@),
{
    let mut out = writes;
    let current = read_card(t, columns);
    let (_, description) = split_card_md(t.card_md.as_str());
    let plan = patch_card(&current, description.as_str(), &ask.patch);
    put(&mut out, ticket_file(t.id.as_str(), "meta.toml"), plan.meta_toml, Share::AsFile);
    match plan.card_md {
        Some(text) => put(&mut out, ticket_file(t.id.as_str(), "card.md"), text, Share::AsText),
        None => {},
    }
    record(files, site, now, &plan.events, &mut out);
    let body = card_chars(&plan.card);
    assert(write_views(out@) =~= patch_reply(files@, t@, ask@, site, now@).writes);
    reply(200, string_of(body.as_slice()), out)
}

fn answer_comment(
    files: &Files,
    id: &str,
    ask: &Ask,
    site: u32,
    now: &str,
    writes: Vec<Write>,
) -> (r: Reply)
    requires
        write_views(writes@) == seed_writes(files@),
    ensures
        r@ == comment_reply(files@, id@, ask@, site, now@),
{
    let mut out = writes;
    let stamp = stamp_of(now);
    let text = match &ask.text {
        Some(t) => Some(t.as_str()),
        None => None,
    };
    let author = match &ask.author {
        Some(a) => Some(a.as_str()),
        None => None,
    };
    match new_comment(text, author, stamp.as_str()) {
        Some(c) => {
            let mut file = chars_of("comments/");
            push_text(&mut file, c.id.as_str());
            push_text(&mut file, ".md");
            let name = string_of(file.as_slice());
            put(
                &mut out,
                ticket_file(id, name.as_str()),
                copy_text(c.text.as_str()),
                Share::AsText,
            );
            let mut events: Vec<CardEvent> = Vec::new();
            events.push(CardEvent::Comment { id: copy_text(id), comment: copy_text(c.id.as_str()) });
            assert(event_views(events@) =~= seq![EventView::Comment(id@, c@.id)]);
            record(files, site, now, &events, &mut out);
            let body = comment_chars(&c);
            assert(write_views(out@) =~= comment_reply(files@, id@, ask@, site, now@).writes);
            reply(200, string_of(body.as_slice()), out)
        },
        None => reply(400, copy_text("Comment text is required"), out),
    }
}

/// Whether a request can be answered: the positions in the column that a new card
/// goes to are not used up.
pub open spec fn has_answer(f: FilesView, method: Method, url: Seq<char>, ask: AskView) -> bool {
    route_of(method, url, false) is Create ==> top_position(cards_of(f), column_asked(f, ask))
        < i64::MAX
}

/// Whether a request can be answered: the positions in the column that a new card
/// goes to are not used up.
pub fn can_answer(files: &Files, method: Method, url: &str, ask: &Ask) -> (r: bool)
    ensures
        r == has_answer(files@, method, url@, ask@),
{
    match route(method, url, false) {
        Route::Create => {
            let source = match &files.board_md {
                Some(t) => copy_text(t.as_str()),
                None => new_board(),
            };
            let (_, columns) = parse_board_md(source.as_str());
            let cards = read_cards(files, &columns);
            let column = or_nothing(&ask.patch.column);
            has_room(columns.as_slice(), cards.as_slice(), column.as_str())
        },
        _ => true,
    }
}

/// Answers a request from the files of the board. `id` and `site` are numbers
/// drawn at random, for a new card and for a site that has no name yet; `now` is
/// the time.
pub fn respond(
    files: &Files,
    method: Method,
    url: &str,
    ask: &Ask,
    id: u32,
    site: u32,
    now: &str,
) -> (r: Reply)
    requires
        has_answer(files@, method, url@, ask@),
    ensures
        r@ == reply_to(files@, method, url@, ask@, id, site, now@),
{
    let ghost f = files@;
    let mut writes: Vec<Write> = Vec::new();
    let source = match &files.board_md {
        Some(t) => copy_text(t.as_str()),
        None => {
            let seed = new_board();
            put(&mut writes, copy_text("board.md"), copy_text(seed.as_str()), Share::Nobody);
            seed
        },
    };
    assert(write_views(writes@) =~= seed_writes(f));
    let (title, columns) = parse_board_md(source.as_str());
    match route(method, url, false) {
        Route::Board => {
            let cards = read_cards(files, &columns);
            let body = board_chars(title.as_str(), &columns, &cards);
            return reply(200, string_of(body.as_slice()), writes);
        },
        Route::Create => {
            return answer_create(files, &columns, ask, id, site, now, writes);
        },
        Route::Card(c) => {
            let i = find_ticket(&files.tickets, c.as_str());
            if i < files.tickets.len() {
                assert(f.tickets[i as int] == files.tickets@[i as int]@);
                let card = read_card(&files.tickets[i], &columns);
                let body = card_chars(&card);
                return reply(200, string_of(body.as_slice()), writes);
            }
        },
        Route::Detail(c) => {
            let i = find_ticket(&files.tickets, c.as_str());
            if i < files.tickets.len() {
                assert(f.tickets[i as int] == files.tickets@[i as int]@);
                let t = &files.tickets[i];
                let card = read_card(t, &columns);
                let (_, description) = split_card_md(t.card_md.as_str());
                let comments = read_comments(&t.comments);
                let body = detail_chars(&card, description.as_str(), &comments);
                return reply(200, string_of(body.as_slice()), writes);
            }
        },
        Route::Patch(c) => {
            let i = find_ticket(&files.tickets, c.as_str());
            if i < files.tickets.len() {
                assert(f.tickets[i as int] == files.tickets@[i as int]@);
                return answer_patch(files, &columns, &files.tickets[i], ask, site, now, writes);
            }
        },
        Route::Comment(c) => {
            let i = find_ticket(&files.tickets, c.as_str());
            if i < files.tickets.len() {
                return answer_comment(files, c.as_str(), ask, site, now, writes);
            }
        },
        Route::History => {
            return Reply { status: 200, body: history_text(&files.events), writes };
        },
        _ => {},
    }
    reply(404, copy_text("Not Found"), writes)
}

/// Answers a request whose body is still to be read; none where it cannot be
/// answered.
pub fn handle(
    files: &Files,
    method: Method,
    url: &str,
    body: &str,
    id: u32,
    site: u32,
    now: &str,
) -> (r: Option<Reply>)
    ensures
        ({
            let ask = asked(
                match json_doc(body@) {
                    Some(v) => v,
                    None => JsonView::Null,
                },
            );
            match r {
                Some(x) => has_answer(files@, method, url@, ask) && x@ == reply_to(
                    files@,
                    method,
                    url@,
                    ask,
                    id,
                    site,
                    now@,
                ),
                None => !has_answer(files@, method, url@, ask),
            }
        }),
{
    let ask = read_ask(body);
    if can_answer(files, method, url, &ask) {
        Some(respond(files, method, url, &ask, id, site, now))
    } else {
        None
    }
}

// ---------------------------------------------------------------------------
// Laws
// ---------------------------------------------------------------------------

/// The first line of a card's text is its title.
proof fn lemma_heading(title: Seq<char>, description: Seq<char>)
    requires
        is_line(title),
    ensures
        heading(card_text(title, description)) == Some(title),
{
    let text = card_text(title, description);
    let head = mark_line('#', title);
    lemma_mark_line('#', title);
    let rest = text.skip(head.len() as int + 1);
    assert(text =~= head + seq!['\n'] + rest);
    lemma_lines_cons(head, rest);
    assert(lines(text)[0] == head);
    assert(first_marked(lines(text), 0, '#') == 0);
}

/// A card that a request made is read back by the next one as it was answered.
/// A title that does not fit on a line, and a column with a line feed or without
/// a name, are left out.
pub proof fn law_new_cards_read_back(
    f: FilesView,
    ask: AskView,
    id: u32,
    comments: Seq<(Seq<char>, Seq<char>)>,
    columns: Seq<Seq<char>>,
)
    requires
        ({
            let c = created_card(
                columns_of(f),
                cards_of(f),
                or_empty(ask.patch.column),
                or_empty(ask.patch.title),
                card_id(id),
            );
            is_line(c.title) && !c.column.contains('\n') && c.column.len() > 0
        }),
    ensures
        ({
            let c = created_card(
                columns_of(f),
                cards_of(f),
                or_empty(ask.patch.column),
                or_empty(ask.patch.title),
                card_id(id),
            );
            let t = TicketView {
                id: c.id,
                card_md: card_text(c.title, Seq::empty()),
                meta_toml: meta_text(c.column, c.position, false),
                comments,
            };
            card_of(t, columns) == c
        }),
{
    let c = created_card(
        columns_of(f),
        cards_of(f),
        or_empty(ask.patch.column),
        or_empty(ask.patch.title),
        card_id(id),
    );
    lemma_heading(c.title, Seq::empty());
    law_fields_read_back(c.column, c.position, false);
}

/// A card that a request changed is read back by the next one as it was answered,
/// with the title that it had where the request names none. Titles that do not
/// fit on a line, and columns with a line feed or without a name, are left out.
pub proof fn law_changed_cards_read_back(
    t: TicketView,
    p: PatchView,
    columns: Seq<Seq<char>>,
)
    requires
        ({
            let c = patched(card_of(t, columns), p);
            is_line(c.title) && !c.column.contains('\n') && c.column.len() > 0
        }),
        p.title is Some ==> p.names_title,
    ensures
        ({
            let c = patched(card_of(t, columns), p);
            let after = TicketView {
                card_md: if p.names_title || p.names_description {
                    card_text(c.title, patched_description(card_parts(t.card_md).1, p))
                } else {
                    t.card_md
                },
                meta_toml: meta_text(c.column, c.position, c.done),
                ..t
            };
            card_of(after, columns) == c
        }),
{
    let c = patched(card_of(t, columns), p);
    if p.names_title || p.names_description {
        lemma_heading(c.title, patched_description(card_parts(t.card_md).1, p));
    }
    law_fields_read_back(c.column, c.position, c.done);
}

/// Looking changes nothing: where there is a board, only requests that make or
/// change something write.
pub proof fn law_looking_writes_nothing(
    f: FilesView,
    url: Seq<char>,
    ask: AskView,
    id: u32,
    site: u32,
    now: Seq<char>,
)
    requires
        f.board_md is Some,
    ensures
        reply_to(f, Method::Get, url, ask, id, site, now).writes.len() == 0,
{
}

/// A history only grows: what is written for it starts with what it held.
pub proof fn law_histories_grow(
    log: Seq<char>,
    now: Seq<char>,
    site: Seq<char>,
    es: Seq<EventView>,
)
    ensures
        log.is_prefix_of(logged(log, now, site, es)),
    decreases es.len(),
{
    if es.len() > 0 {
        let front = logged(log, now, site, es.drop_last());
        law_histories_grow(log, now, site, es.drop_last());
        let whole = logged(log, now, site, es);
        assert forall|i: int| 0 <= i < log.len() implies log[i] == whole[i] by {
            assert(log[i] == front[i]);
        }
    }
}

proof fn lemma_place_of(ts: Seq<TicketView>, id: Seq<char>, i: int)
    requires
        0 <= i <= ts.len(),
    ensures
        i <= place_of(ts, id, i) <= ts.len(),
        place_of(ts, id, i) < ts.len() ==> ts[place_of(ts, id, i)].id == id,
        forall|j: int| i <= j < place_of(ts, id, i) ==> (#[trigger] ts[j]).id != id,
    decreases ts.len() - i,
{
    if i < ts.len() && ts[i].id != id {
        lemma_place_of(ts, id, i + 1);
    }
}

/// A request for a card that is not there is answered with 404, and writes nothing where
/// there is a board; one for a card that is there is answered.
pub proof fn law_cards_are_answered_where_they_are(
    f: FilesView,
    card: Seq<char>,
    ask: AskView,
    id: u32,
    site: u32,
    now: Seq<char>,
)
    requires
        card.len() > 0,
        !card.contains('/'),
        !card.contains('?'),
    ensures
        ({
            let there = exists|i: int| 0 <= i < f.tickets.len() && (#[trigger] f.tickets[i]).id == card;
            let read = reply_to(f, Method::Get, "/api/cards/"@ + card, ask, id, site, now);
            let changed = reply_to(f, Method::Patch, "/api/cards/"@ + card, ask, id, site, now);
            let detail = reply_to(
                f,
                Method::Get,
                "/api/cards/"@ + card + "/detail"@,
                ask,
                id,
                site,
                now,
            );
            let said = reply_to(
                f,
                Method::Post,
                "/api/cards/"@ + card + "/comments"@,
                ask,
                id,
                site,
                now,
            );
            &&& !there ==> read.status == 404 && changed.status == 404 && detail.status == 404
                && said.status == 404
            &&& !there && f.board_md is Some ==> changed.writes.len() == 0 && said.writes.len() == 0
            &&& there ==> read.status == 200 && changed.status == 200 && detail.status == 200
            &&& there ==> said.status == (if trim(or_empty(ask.text)).len() > 0 {
                200u16
            } else {
                400u16
            })
        }),
{
    law_cards_are_found_under_their_identity(card, false);
    lemma_place_of(f.tickets, card, 0);
    if exists|i: int| 0 <= i < f.tickets.len() && (#[trigger] f.tickets[i]).id == card {
        let i = choose|i: int| 0 <= i < f.tickets.len() && (#[trigger] f.tickets[i]).id == card;
        assert(place_of(f.tickets, card, 0) <= i);
    }
}

/// A change of a card writes its fields as the request names them, and as they were where
/// it does not; the file is that of the card. A column with a line feed or without a name
/// is left out.
pub proof fn law_changes_are_written(
    f: FilesView,
    card: Seq<char>,
    i: int,
    ask: AskView,
    id: u32,
    site: u32,
    now: Seq<char>,
)
    requires
        card.len() > 0,
        !card.contains('/'),
        !card.contains('?'),
        0 <= i < f.tickets.len(),
        f.tickets[i].id == card,
        forall|j: int| 0 <= j < i ==> (#[trigger] f.tickets[j]).id != card,
        ask.patch.column matches Some(c) ==> !c.contains('\n') && c.len() > 0,
        ask.patch.column is None ==> ({
            let c = card_of(f.tickets[i], columns_of(f)).column;
            !c.contains('\n') && c.len() > 0
        }),
    ensures
        ({
            let before = card_of(f.tickets[i], columns_of(f));
            let r = reply_to(f, Method::Patch, "/api/cards/"@ + card, ask, id, site, now);
            exists|k: int|
                0 <= k < r.writes.len() && (#[trigger] r.writes[k]).path == "tickets/"@ + card
                    + "/"@ + "meta.toml"@ && ({
                    let m = meta_of(lines(r.writes[k].text));
                    &&& m.column == (match ask.patch.column {
                        Some(c) => Some(c),
                        None => Some(before.column),
                    })
                    &&& m.position == (match ask.patch.position {
                        Some(p) => p,
                        None => before.position,
                    })
                    &&& m.done == (match ask.patch.done {
                        Some(d) => d,
                        None => before.done,
                    })
                })
        }),
{
    law_cards_are_found_under_their_identity(card, false);
    lemma_place_of(f.tickets, card, 0);
    assert(place_of(f.tickets, card, 0) == i);
    let before = card_of(f.tickets[i], columns_of(f));
    let c = patched(before, ask.patch);
    law_patches_set_what_they_name(before, ask.patch, Seq::empty());
    let r = reply_to(f, Method::Patch, "/api/cards/"@ + card, ask, id, site, now);
    let k = seed_writes(f).len() as int;
    law_fields_read_back(c.column, c.position, c.done);
    assert(r.writes[k].path == ticket_path(card, "meta.toml"@));
    assert(r.writes[k].text == meta_text(c.column, c.position, c.done));
}

/// A comment with a text is written to a file of the card, named by the time and the
/// author, with the text; the file reads back as the comment. Times that hold two
/// underscores in a row, or end in one, are left out.
pub proof fn law_comments_are_written(
    f: FilesView,
    card: Seq<char>,
    i: int,
    ask: AskView,
    id: u32,
    site: u32,
    now: Seq<char>,
)
    requires
        card.len() > 0,
        !card.contains('/'),
        !card.contains('?'),
        0 <= i < f.tickets.len(),
        f.tickets[i].id == card,
        trim(or_empty(ask.text)).len() > 0,
        forall|j: int| 0 <= j < now.len() - 1 ==> !(#[trigger] now[j] == '_' && now[j + 1] == '_'),
        now.len() > 0 ==> now.last() != '_',
    ensures
        ({
            let r = reply_to(f, Method::Post, "/api/cards/"@ + card + "/comments"@, ask, id, site, now);
            let author = slug(
                lowercase(
                    match ask.author {
                        Some(a) => a,
                        None => "anon"@,
                    },
                ),
            );
            exists|k: int, name: Seq<char>|
                0 <= k < r.writes.len() && r.writes[k].path == "tickets/"@ + card + "/"@ + (
                "comments/"@ + name) && #[trigger] comment_in(name, r.writes[k].text) == Some(
                    CommentView {
                        id: file_stamp(now) + seq!['_', '_'] + author,
                        author,
                        ts: file_stamp(now),
                        text: trim(or_empty(ask.text)),
                    },
                )
        }),
{
    reveal_strlit("__");
    law_cards_are_found_under_their_identity(card, false);
    lemma_place_of(f.tickets, card, 0);
    let p = place_of(f.tickets, card, 0);
    assert(p <= i);
    let c = comment_asked(ask, now)->Some_0;
    let r = reply_to(f, Method::Post, "/api/cards/"@ + card + "/comments"@, ask, id, site, now);
    let k = seed_writes(f).len() as int;
    let ts = file_stamp(now);
    assert("__"@ =~= seq!['_', '_']);
    let name = c.id + ".md"@;
    assert("comments/"@ + name =~= "comments/"@ + c.id + ".md"@);
    assert(r.writes[k].path == ticket_path(card, "comments/"@ + c.id + ".md"@));
    assert forall|j: int| 0 <= j < ts.len() - 1 implies !(#[trigger] ts[j] == '_' && ts[j + 1]
        == '_') by {
        assert(!(now[j] == '_' && now[j + 1] == '_'));
    }
    let t = trim(or_empty(ask.text));
    lemma_trim_end_prefix(crate::chars::trim_start(or_empty(ask.text)));
    law_comments_read_back(ts, c.author, t);
    assert(c.id =~= ts + seq!['_', '_'] + c.author);
    assert(comment_in(name, r.writes[k].text) == Some(c));
}

/// The history holds every line of every history file that is JSON, and nothing else, in
/// the order of the times.
pub proof fn law_histories_hold_all_entries(files: Seq<(Seq<char>, Seq<char>)>, line: Seq<char>)
    ensures
        history_of(files).contains(line) <==> json_doc(line) is Some && exists|i: int|
            0 <= i < files.len() && ".jsonl"@.is_suffix_of((#[trigger] files[i]).0) && lines(
                files[i].1,
            ).contains(line),
        forall|i: int, j: int|
            0 <= i < j < history_of(files).len() ==> !text_lt(
                entry_time(#[trigger] history_of(files)[j]),
                entry_time(#[trigger] history_of(files)[i]),
            ),
{
    let all = all_entries(files);
    let keys = all.map_values(|l: Seq<char>| entry_time(l));
    let order = key_order(keys);
    let h = history_of(files);
    law_key_order_orders_all(keys);
    lemma_all_entries(files, line);
    lemma_order_is_onto(keys);
    if h.contains(line) {
        let k = h.index_of(line);
        assert(all[order[k]] == line);
        assert(all.contains(line));
    }
    if all.contains(line) {
        let i = all.index_of(line);
        assert(order.contains(i));
        let k = order.index_of(i);
        assert(h[k] == line);
    }
    assert forall|i: int, j: int| 0 <= i < j < h.len() implies !text_lt(
        entry_time(#[trigger] h[j]),
        entry_time(#[trigger] h[i]),
    ) by {
        let x = order[i];
        let y = order[j];
        assert(keys[x] == entry_time(h[i]) && keys[y] == entry_time(h[j]));
        if text_lt(keys[x], keys[y]) {
            crate::chars::lemma_text_lt_asymmetric(keys[x], keys[y]);
        } else {
            crate::chars::lemma_text_lt_irreflexive(keys[x]);
        }
    }
}

/// Every place is listed in the order of the keys.
proof fn lemma_order_is_onto(keys: Seq<Seq<char>>)
    ensures
        forall|i: int| 0 <= i < keys.len() ==> #[trigger] key_order(keys).contains(i),
    decreases keys.len(),
{
    if keys.len() > 0 {
        let short = keys.drop_last();
        lemma_order_is_onto(short);
        law_key_order_orders_all(short);
        law_key_order_orders_all(keys);
        let front = key_order(short);
        let p = crate::board::key_place(front.map_values(|i: int| keys[i]), keys.last());
        let all = front.insert(p, keys.len() - 1);
        assert(key_order(keys) == all);
        lemma_key_place(front.map_values(|i: int| keys[i]), keys.last());
        assert forall|i: int| 0 <= i < keys.len() implies #[trigger] all.contains(i) by {
            if i == keys.len() - 1 {
                assert(all[p] == i);
            } else {
                assert(front.contains(i));
                let k = front.index_of(i);
                assert(all[if k < p {
                    k
                } else {
                    k + 1
                }] == i);
            }
        }
    }
}

proof fn lemma_json_lines(ls: Seq<Seq<char>>, line: Seq<char>)
    ensures
        json_lines(ls).contains(line) <==> json_doc(line) is Some && ls.contains(line),
    decreases ls.len(),
{
    if ls.len() > 0 {
        let front = ls.drop_last();
        lemma_json_lines(front, line);
        let a = json_lines(front);
        let b = json_lines(ls);
        if b.contains(line) {
            let k = b.index_of(line);
            if k < a.len() {
                assert(a[k] == line);
                assert(ls[front.index_of(line)] == line);
            } else {
                assert(ls[ls.len() - 1] == line);
            }
        }
        if json_doc(line) is Some && ls.contains(line) {
            let k = ls.index_of(line);
            if k < front.len() {
                assert(front[k] == line);
                assert(b[a.index_of(line)] == line);
            } else {
                assert(b[a.len() as int] == line);
            }
        }
    }
}

proof fn lemma_all_entries(files: Seq<(Seq<char>, Seq<char>)>, line: Seq<char>)
    ensures
        all_entries(files).contains(line) <==> json_doc(line) is Some && exists|i: int|
            0 <= i < files.len() && ".jsonl"@.is_suffix_of((#[trigger] files[i]).0) && lines(
                files[i].1,
            ).contains(line),
    decreases files.len(),
{
    if files.len() > 0 {
        let front = files.drop_last();
        lemma_all_entries(front, line);
        let last = files.last();
        lemma_json_lines(lines(last.1), line);
        let a = all_entries(front);
        let b = if ".jsonl"@.is_suffix_of(last.0) {
            json_lines(lines(last.1))
        } else {
            Seq::empty()
        };
        let all = all_entries(files);
        assert(all =~= a + b);
        if all.contains(line) {
            let k = all.index_of(line);
            if k < a.len() {
                assert(a[k] == line);
                let i = choose|i: int|
                    0 <= i < front.len() && ".jsonl"@.is_suffix_of((#[trigger] front[i]).0) && lines(
                        front[i].1,
                    ).contains(line);
                assert(files[i] == front[i]);
            } else {
                assert(b[k - a.len()] == line);
                assert(files[files.len() - 1] == last);
            }
        }
        if json_doc(line) is Some && exists|i: int|
            0 <= i < files.len() && ".jsonl"@.is_suffix_of((#[trigger] files[i]).0) && lines(
                files[i].1,
            ).contains(line) {
            let i = choose|i: int|
                0 <= i < files.len() && ".jsonl"@.is_suffix_of((#[trigger] files[i]).0) && lines(
                    files[i].1,
                ).contains(line);
            if i < front.len() {
                assert(front[i] == files[i]);
                assert(all[a.index_of(line)] == line);
            } else {
                assert(all[a.len() + b.index_of(line)] == line);
            }
        }
    }
}

/// The details of a card show every comment whose file has the name of one, in the order
/// of the times.
pub proof fn law_all_comments_are_shown(files: Seq<(Seq<char>, Seq<char>)>, c: CommentView)
    ensures
        by_time(comments_in(files)).contains(c) <==> exists|i: int|
            0 <= i < files.len() && comment_in((#[trigger] files[i]).0, files[i].1) == Some(c),
        forall|i: int, j: int|
            0 <= i < j < by_time(comments_in(files)).len() ==> !text_lt(
                (#[trigger] by_time(comments_in(files))[j]).ts,
                (#[trigger] by_time(comments_in(files))[i]).ts,
            ),
{
    let all = comments_in(files);
    let keys = all.map_values(|c: CommentView| c.ts);
    let order = key_order(keys);
    let shown = by_time(all);
    law_key_order_orders_all(keys);
    lemma_order_is_onto(keys);
    lemma_comments_in(files, c);
    if shown.contains(c) {
        let k = shown.index_of(c);
        assert(all[order[k]] == c);
    }
    if all.contains(c) {
        let i = all.index_of(c);
        assert(order.contains(i));
        assert(shown[order.index_of(i)] == c);
    }
    assert forall|i: int, j: int| 0 <= i < j < shown.len() implies !text_lt(
        (#[trigger] shown[j]).ts,
        (#[trigger] shown[i]).ts,
    ) by {
        let x = order[i];
        let y = order[j];
        assert(keys[x] == shown[i].ts && keys[y] == shown[j].ts);
        if text_lt(keys[x], keys[y]) {
            crate::chars::lemma_text_lt_asymmetric(keys[x], keys[y]);
        } else {
            crate::chars::lemma_text_lt_irreflexive(keys[x]);
        }
    }
}

proof fn lemma_comments_in(files: Seq<(Seq<char>, Seq<char>)>, c: CommentView)
    ensures
        comments_in(files).contains(c) <==> exists|i: int|
            0 <= i < files.len() && comment_in((#[trigger] files[i]).0, files[i].1) == Some(c),
    decreases files.len(),
{
    if files.len() > 0 {
        let front = files.drop_last();
        lemma_comments_in(front, c);
        let a = comments_in(front);
        let b = comments_in(files);
        if b.contains(c) {
            let k = b.index_of(c);
            if k < a.len() {
                assert(a[k] == c);
                let i = choose|i: int|
                    0 <= i < front.len() && comment_in((#[trigger] front[i]).0, front[i].1) == Some(c);
                assert(files[i] == front[i]);
            } else {
                assert(comment_in(files[files.len() - 1].0, files[files.len() - 1].1) == Some(c));
            }
        }
        if exists|i: int|
            0 <= i < files.len() && comment_in((#[trigger] files[i]).0, files[i].1) == Some(c) {
            let i = choose|i: int|
                0 <= i < files.len() && comment_in((#[trigger] files[i]).0, files[i].1) == Some(c);
            if i < front.len() {
                assert(front[i] == files[i]);
                assert(b[a.index_of(c)] == c);
            } else {
                assert(b[a.len() as int] == c);
            }
        }
    }
}

/// Making a card writes its two files: one with the title that was asked for, one with the
/// column that was asked for, or the first one, a place behind the cards that are there, and
/// no mark. Titles that do not fit on a line, and columns with a line feed or without a
/// name, are left out.
#[verifier::rlimit(40)]
pub proof fn law_new_cards_are_written(
    f: FilesView,
    ask: AskView,
    id: u32,
    site: u32,
    now: Seq<char>,
    title: Seq<char>,
    column: Seq<char>,
    i: int,
)
    requires
        ask.patch.title == Some(title),
        ask.patch.column == Some(column) || (ask.patch.column is None && columns_of(f).len() > 0
            && column == columns_of(f)[0]),
        is_line(title),
        column.len() > 0,
        !column.contains('\n'),
    ensures
        ({
            let r = reply_to(f, Method::Post, "/api/cards"@, ask, id, site, now);
            &&& r.status == 200
            &&& exists|k: int|
                0 <= k < r.writes.len() && (#[trigger] r.writes[k]).path == "tickets/"@ + card_id(
                    id,
                ) + "/"@ + "card.md"@ && heading(r.writes[k].text) == Some(title)
            &&& exists|k: int|
                0 <= k < r.writes.len() && (#[trigger] r.writes[k]).path == "tickets/"@ + card_id(
                    id,
                ) + "/"@ + "meta.toml"@ && ({
                    let m = meta_of(lines(r.writes[k].text));
                    &&& m.column == Some(column)
                    &&& !m.done
                    &&& 0 <= i < f.tickets.len() && cards_of(f)[i].column == column && top_position(
                        cards_of(f),
                        column,
                    ) < i64::MAX ==> m.position > cards_of(f)[i].position
                })
        }),
{
    lemma_create_route();
    let c = created_card(
        columns_of(f),
        cards_of(f),
        or_empty(ask.patch.column),
        or_empty(ask.patch.title),
        card_id(id),
    );
    assert(c.title == title && c.column == column);
    let r = reply_to(f, Method::Post, "/api/cards"@, ask, id, site, now);
    let k = seed_writes(f).len() as int;
    lemma_heading(c.title, Seq::empty());
    law_fields_read_back(c.column, c.position, false);
    assert(r.writes[k].path == ticket_path(c.id, "card.md"@));
    assert(r.writes[k].text == card_text(c.title, Seq::empty()));
    assert(r.writes[k + 1].path == ticket_path(c.id, "meta.toml"@));
    assert(r.writes[k + 1].text == meta_text(c.column, c.position, false));
    if 0 <= i < f.tickets.len() && cards_of(f)[i].column == column && top_position(
        cards_of(f),
        column,
    ) < i64::MAX {
        law_new_cards_come_last(
            columns_of(f),
            cards_of(f),
            or_empty(ask.patch.column),
            or_empty(ask.patch.title),
            card_id(id),
            i,
        );
    }
}

proof fn lemma_create_route()
    ensures
        route_of(Method::Post, "/api/cards"@, false) is Create,
{
    reveal_strlit("/api/cards");
    reveal_strlit("api");
    reveal_strlit("cards");
    let path = "/api/cards"@;
    let none = Seq::<char>::empty();
    assert(!path.contains('?'));
    law_queries_do_not_count(Method::Post, path, none, false);
    crate::chars::lemma_first_index_is(path, '?', path.len() as int);
    assert(path.take(path.len() as int) =~= path);
    assert(!none.contains('/') && !"api"@.contains('/') && !"cards"@.contains('/'));
    assert(path =~= none + seq!['/'] + ("api"@ + seq!['/'] + "cards"@));
    crate::chars::law_pieces_are_between_separators(none, '/', "api"@ + seq!['/'] + "cards"@);
    crate::chars::law_pieces_are_between_separators("api"@, '/', "cards"@);
    crate::chars::law_pieces_are_between_separators("cards"@, '/', none);
    let parts = seq![none, "api"@, "cards"@];
    assert(crate::chars::split(path, '/') =~= parts);
    reveal_with_fuel(crate::board::full_parts, 4);
    assert(parts.drop_last() =~= seq![none, "api"@]);
    assert(seq![none, "api"@].drop_last() =~= seq![none]);
    assert(seq![none].drop_last() =~= Seq::<Seq<char>>::empty());
    assert(crate::board::full_parts(parts) =~= seq!["api"@, "cards"@]);
}

/// The cards of a board are those of its tickets, each from its own files.
pub proof fn law_boards_show_every_ticket(f: FilesView, i: int)
    ensures
        cards_of(f).len() == f.tickets.len(),
        0 <= i < f.tickets.len() ==> {
            let c = cards_of(f)[i];
            let m = meta_of(lines(f.tickets[i].meta_toml));
            &&& c.id == f.tickets[i].id
            &&& c.position == m.position
            &&& c.done == m.done
            &&& m.column matches Some(x) ==> c.column == x
            &&& m.column is None && columns_of(f).len() > 0 ==> c.column == columns_of(f)[0]
            &&& heading(f.tickets[i].card_md) matches Some(h) ==> c.title == h
            &&& heading(f.tickets[i].card_md) is None ==> c.title == f.tickets[i].id
        },
{
}

/// What changed is recorded: every entry is added, in order and with a line each, to the
/// history of the site, which is a file of its own; the last write holds them all. A site
/// without a name gets one, which is written down. Where nothing changed nothing is written.
pub proof fn law_changes_are_recorded(f: FilesView, n: u32, now: Seq<char>, es: Seq<EventView>)
    ensures
        es.len() == 0 ==> recorded(f, n, now, es).len() == 0,
        es.len() > 0 ==> {
            let w = recorded(f, n, now, es);
            let site = site_of(f, n);
            let named = f.site matches Some(s) && trim(s).len() > 0;
            &&& w.len() == es.len() + if named {
                0int
            } else {
                1int
            }
            &&& w.last().path == "events/"@ + (site + ".jsonl"@)
            &&& w.last().text == logged(text_named(f.events, site + ".jsonl"@, 0), now, site, es)
            &&& w.last().share == Share::AsText
            &&& !named ==> w[0].path == ".site"@ && w[0].text == site && w[0].share == Share::Nobody
            &&& named ==> site == trim(f.site->Some_0)
        },
{
    assert(es.take(es.len() as int) =~= es);
}

/// An entry is added behind the history, on a line of its own.
pub proof fn law_entries_are_added_behind(
    log: Seq<char>,
    now: Seq<char>,
    site: Seq<char>,
    es: Seq<EventView>,
    e: EventView,
)
    ensures
        logged(log, now, site, Seq::empty()) == log,
        logged(log, now, site, es.push(e)) == logged(log, now, site, es) + event_text(now, site, e)
            + "\n"@,
{
    assert(es.push(e).drop_last() =~= es);
}

/// The history of a site is the file of its name, and empty where there is none.
pub proof fn law_histories_are_found_by_name(
    files: Seq<(Seq<char>, Seq<char>)>,
    name: Seq<char>,
    i: int,
)
    ensures
        0 <= i < files.len() && files[i].0 == name && (forall|j: int|
            0 <= j < i ==> (#[trigger] files[j]).0 != name) ==> text_named(files, name, 0)
            == files[i].1,
        (forall|j: int| 0 <= j < files.len() ==> (#[trigger] files[j]).0 != name) ==> text_named(
            files,
            name,
            0,
        ).len() == 0,
{
    if 0 <= i < files.len() && files[i].0 == name && (forall|j: int|
        0 <= j < i ==> (#[trigger] files[j]).0 != name) {
        lemma_text_named(files, name, 0, i);
    }
    if forall|j: int| 0 <= j < files.len() ==> (#[trigger] files[j]).0 != name {
        lemma_text_named(files, name, 0, files.len() as int);
    }
}

proof fn lemma_text_named(
    files: Seq<(Seq<char>, Seq<char>)>,
    name: Seq<char>,
    k: int,
    i: int,
)
    requires
        0 <= k <= i <= files.len(),
        i < files.len() ==> files[i].0 == name,
        forall|j: int| k <= j < i ==> (#[trigger] files[j]).0 != name,
    ensures
        text_named(files, name, k) == (if i < files.len() {
            files[i].1
        } else {
            Seq::empty()
        }),
    decreases i - k,
{
    if k < i {
        assert(files[k].0 != name);
        lemma_text_named(files, name, k + 1, i);
    }
}

/// A request for a comment names its text and its author under their keys.
pub proof fn law_comments_are_named_by_their_keys(m: Map<Seq<char>, JsonView>)
    ensures
        asked(JsonView::Object(m)).text == (if m.contains_key("text"@) && m["text"@] is Text {
            Some(m["text"@]->Text_0)
        } else {
            None
        }),
        asked(JsonView::Object(m)).author == (if m.contains_key("author"@) && m["author"@] is Text {
            Some(m["author"@]->Text_0)
        } else {
            None
        }),
        asked(JsonView::Object(m)).patch == patch_in(JsonView::Object(m)),
{
}

/// The time of an entry is the text under its key `ts`; an entry without one counts as the
/// earliest.
pub proof fn law_entries_are_timed(line: Seq<char>, m: Map<Seq<char>, JsonView>)
    requires
        json_doc(line) == Some(JsonView::Object(m)),
    ensures
        entry_time(line) == (if m.contains_key("ts"@) && m["ts"@] is Text {
            m["ts"@]->Text_0
        } else {
            Seq::empty()
        }),
        rewritten(line) == json_written(JsonView::Object(m)),
{
}

/// The history is a JSON list of its entries, each written out again: an entry more is one
/// more item behind the others.
pub proof fn law_lists_hold_their_items(items: Seq<Seq<char>>, last: Seq<char>)
    ensures
        list_json(Seq::empty()) == "["@ + "]"@,
        list_json(seq![last]) == "["@ + last + "]"@,
        items.len() > 0 ==> list_json(items.push(last)) == "["@ + (join(items, ","@) + ","@ + last)
            + "]"@,
{
    law_joining_puts_the_separator_between(items, last, ","@);
    assert(list_json(Seq::empty()) =~= "["@ + "]"@);
}

} // verus!
