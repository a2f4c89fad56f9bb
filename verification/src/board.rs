//! The board's interface: which request means what, and what each change writes
//! and records. Reading and writing files is left to the caller.
use crate::chars::{
    chars_of, copy_chars, copy_text, deep, find_char, first_index, is_white,
    law_pieces_are_between_separators, lemma_first_index_is, lemma_trim_end_append, push_text,
    same_chars, same_text, split, split_chars, starts_with_chars, string_of, text_less, text_lt,
    texts, trim, trim_end, trim_end_chars, trim_text,
};
use crate::json::{
    bool_entry, bool_of, entry, int_entry, int_of, json_quoted, json_view, quote, tagged_json,
    tagged_text, text_entry, text_of, value_get, JsonView,
};
use crate::kanban::{
    card_md, card_text, comment_parts, law_comment_names_read_back, lowercase, meta_text, meta_toml,
    parse_comment_name, sanitize_author, slug, truth_word, Card, CardView, Comment,
};
use crate::net::bridge::{contains_text, holds};
use crate::numerals::{hex32, hex32_text};
use crate::sync::tree::slashed;
use serde_json::Value;
use vstd::prelude::*;
use vstd::slice::slice_subrange;

verus! {

// ---------------------------------------------------------------------------
// Requests
// ---------------------------------------------------------------------------

/// How a request is made.
#[derive(Debug, Clone, Copy, PartialEq, Eq, Structural)]
pub enum Method {
    Get,
    Post,
    Patch,
    Other,
}

/// What a request asks for.
pub enum Route {
    Board,
    Events,
    History,
    Card(String),
    Detail(String),
    Create,
    Patch(String),
    Comment(String),
    /// A file of the interface.
    Static,
    NotFound,
}

/// What a request asks for, as a value.
pub enum RouteView {
    Board,
    Events,
    History,
    Card(Seq<char>),
    Detail(Seq<char>),
    Create,
    Patch(Seq<char>),
    Comment(Seq<char>),
    Static,
    NotFound,
}

impl View for Route {
    type V = RouteView;

    open spec fn view(&self) -> RouteView {
        match self {
            Route::Board => RouteView::Board,
            Route::Events => RouteView::Events,
            Route::History => RouteView::History,
            Route::Card(id) => RouteView::Card(id@),
            Route::Detail(id) => RouteView::Detail(id@),
            Route::Create => RouteView::Create,
            Route::Patch(id) => RouteView::Patch(id@),
            Route::Comment(id) => RouteView::Comment(id@),
            Route::Static => RouteView::Static,
            Route::NotFound => RouteView::NotFound,
        }
    }
}

/// A path without its query.
pub open spec fn clean(url: Seq<char>) -> Seq<char> {
    url.take(first_index(url, '?'))
}

/// The parts of a list that are not empty.
pub open spec fn full_parts(parts: Seq<Seq<char>>) -> Seq<Seq<char>>
    decreases parts.len(),
{
    if parts.len() == 0 {
        Seq::empty()
    } else if parts.last().len() == 0 {
        full_parts(parts.drop_last())
    } else {
        full_parts(parts.drop_last()).push(parts.last())
    }
}

/// The segments of a path; slashes at either end and in a row do not count.
pub open spec fn segments(path: Seq<char>) -> Seq<Seq<char>> {
    full_parts(split(path, '/'))
}

/// What a request asks for. A server offers a stream of events and the files of
/// the interface; without one, the history of the board can be read instead.
pub open spec fn route_of(method: Method, url: Seq<char>, server: bool) -> RouteView {
    let path = clean(url);
    let s = segments(path);
    let n = s.len();
    if n >= 2 && s[0] == "api"@ && method == Method::Get && n == 2 && s[1] == "board"@ {
        RouteView::Board
    } else if n == 2 && s[0] == "api"@ && method == Method::Get && s[1] == "events"@ && server {
        RouteView::Events
    } else if n == 2 && s[0] == "api"@ && method == Method::Get && s[1] == "history"@ && !server {
        RouteView::History
    } else if n == 2 && s[0] == "api"@ && s[1] == "cards"@ && method == Method::Post {
        RouteView::Create
    } else if n == 3 && s[0] == "api"@ && s[1] == "cards"@ && method == Method::Get {
        RouteView::Card(s[2])
    } else if n == 3 && s[0] == "api"@ && s[1] == "cards"@ && method == Method::Patch {
        RouteView::Patch(s[2])
    } else if n == 4 && s[0] == "api"@ && s[1] == "cards"@ && s[3] == "detail"@ && method
        == Method::Get {
        RouteView::Detail(s[2])
    } else if n == 4 && s[0] == "api"@ && s[1] == "cards"@ && s[3] == "comments"@ && method
        == Method::Post {
        RouteView::Comment(s[2])
    } else if server && method == Method::Get && !"/api/"@.is_prefix_of(path) {
        RouteView::Static
    } else {
        RouteView::NotFound
    }
}

fn segments_of(path: &[char]) -> (r: Vec<Vec<char>>)
    ensures
        deep(r@) == segments(path@),
{
    let parts = split_chars(path, '/');
    let ghost all = deep(parts@);
    let mut out: Vec<Vec<char>> = Vec::new();
    let mut i: usize = 0;
    assert(deep(out@) =~= full_parts(all.take(0)));
    while i < parts.len()
        invariant
            i <= parts@.len(),
            all == deep(parts@),
            deep(out@) == full_parts(all.take(i as int)),
        decreases parts@.len() - i,
    {
        assert(all.take(i + 1).drop_last() =~= all.take(i as int));
        assert(all.take(i + 1).last() == parts@[i as int]@);
        let ghost before = out@;
        if parts[i].len() > 0 {
            out.push(copy_chars(parts[i].as_slice()));
            assert(deep(out@) =~= deep(before).push(parts@[i as int]@));
        }
        i += 1;
    }
    assert(all.take(i as int) =~= all);
    out
}

/// Whether a part is a word.
fn is_word(part: &Vec<char>, word: &str) -> (r: bool)
    ensures
        r == (part@ == word@),
{
    let w = chars_of(word);
    same_chars(part.as_slice(), w.as_slice())
}

/// What a request asks for.
pub fn route(method: Method, url: &str, server: bool) -> (r: Route)
    ensures
        r@ == route_of(method, url@, server),
{
    let cs = chars_of(url);
    let q = find_char(cs.as_slice(), '?');
    let path = slice_subrange(cs.as_slice(), 0, q);
    assert(path@ =~= clean(url@));
    let s = segments_of(path);
    let ghost sv = segments(path@);
    assert(sv.len() == s@.len());
    assert forall|i: int| 0 <= i < s@.len() implies sv[i] == (#[trigger] s@[i])@ by {}
    if s.len() >= 2 && is_word(&s[0], "api") {
        if s.len() == 2 {
            if method == Method::Get && is_word(&s[1], "board") {
                return Route::Board;
            }
            if method == Method::Get && is_word(&s[1], "events") && server {
                return Route::Events;
            }
            if method == Method::Get && is_word(&s[1], "history") && !server {
                return Route::History;
            }
            if method == Method::Post && is_word(&s[1], "cards") {
                return Route::Create;
            }
        } else if is_word(&s[1], "cards") {
            let id = string_of(s[2].as_slice());
            if s.len() == 3 && method == Method::Get {
                return Route::Card(id);
            }
            if s.len() == 3 && method == Method::Patch {
                return Route::Patch(id);
            }
            if s.len() == 4 && method == Method::Get && is_word(&s[3], "detail") {
                return Route::Detail(id);
            }
            if s.len() == 4 && method == Method::Post && is_word(&s[3], "comments") {
                return Route::Comment(id);
            }
        }
    }
    let api = chars_of("/api/");
    if server && method == Method::Get && !starts_with_chars(path, api.as_slice()) {
        Route::Static
    } else {
        Route::NotFound
    }
}

// ---------------------------------------------------------------------------
// Events
// ---------------------------------------------------------------------------

/// One entry of the board's history.
pub enum CardEvent {
    Create { id: String, column: String, title: String },
    Move { id: String, from: String, to: String },
    Check { id: String, done: bool },
    EditTitle { id: String, value: String },
    EditDescription { id: String },
    Comment { id: String, comment: String },
}

/// What an entry says.
pub enum EventView {
    Create(Seq<char>, Seq<char>, Seq<char>),
    Move(Seq<char>, Seq<char>, Seq<char>),
    Check(Seq<char>, bool),
    EditTitle(Seq<char>, Seq<char>),
    EditDescription(Seq<char>),
    Comment(Seq<char>, Seq<char>),
}

impl View for CardEvent {
    type V = EventView;

    open spec fn view(&self) -> EventView {
        match self {
            CardEvent::Create { id, column, title } => EventView::Create(id@, column@, title@),
            CardEvent::Move { id, from, to } => EventView::Move(id@, from@, to@),
            CardEvent::Check { id, done } => EventView::Check(id@, *done),
            CardEvent::EditTitle { id, value } => EventView::EditTitle(id@, value@),
            CardEvent::EditDescription { id } => EventView::EditDescription(id@),
            CardEvent::Comment { id, comment } => EventView::Comment(id@, comment@),
        }
    }
}

/// What a list of entries says.
pub open spec fn event_views(v: Seq<CardEvent>) -> Seq<EventView> {
    v.map_values(|e: CardEvent| e@)
}

/// The kind of an entry.
pub open spec fn event_kind(e: EventView) -> Seq<char> {
    match e {
        EventView::Create(_, _, _) => "card.create"@,
        EventView::Move(_, _, _) => "card.move"@,
        EventView::Check(_, _) => "card.check"@,
        EventView::EditTitle(_, _) => "card.edit"@,
        EventView::EditDescription(_) => "card.edit"@,
        EventView::Comment(_, _) => "comment.add"@,
    }
}

/// A field of an entry.
pub open spec fn field(name: Seq<char>, value: Seq<char>) -> Seq<char> {
    ",\""@ + name + "\":"@ + value
}

/// The fields of an entry, behind time, site and kind.
pub open spec fn event_fields(e: EventView) -> Seq<char> {
    match e {
        EventView::Create(id, column, title) => field("id"@, json_quoted(id)) + field(
            "column"@,
            json_quoted(column),
        ) + field("title"@, json_quoted(title)),
        EventView::Move(id, from, to) => field("id"@, json_quoted(id)) + field(
            "from"@,
            json_quoted(from),
        ) + field("to"@, json_quoted(to)),
        EventView::Check(id, done) => field("id"@, json_quoted(id)) + field(
            "done"@,
            truth_word(done),
        ),
        EventView::EditTitle(id, value) => field("id"@, json_quoted(id)) + field(
            "field"@,
            json_quoted("title"@),
        ) + field("value"@, json_quoted(value)),
        EventView::EditDescription(id) => field("id"@, json_quoted(id)) + field(
            "field"@,
            json_quoted("description"@),
        ),
        EventView::Comment(id, comment) => field("id"@, json_quoted(id)) + field(
            "comment"@,
            json_quoted(comment),
        ),
    }
}

/// The line of an entry in a site's history.
pub open spec fn event_text(ts: Seq<char>, site: Seq<char>, e: EventView) -> Seq<char> {
    "{\"ts\":"@ + json_quoted(ts) + ",\"site\":"@ + json_quoted(site) + ",\"kind\":"@ + json_quoted(
        event_kind(e),
    ) + event_fields(e) + "}"@
}

fn push_field(out: &mut Vec<char>, name: &str, value: &str)
    ensures
        final(out)@ == old(out)@ + field(name@, json_quoted(value@)),
{
    push_text(out, ",\"");
    push_text(out, name);
    push_text(out, "\":");
    let q = quote(value);
    push_text(out, q.as_str());
    assert(out@ =~= old(out)@ + field(name@, json_quoted(value@)));
}

/// The line of an entry in a site's history: time, site, kind, and what the entry
/// says.
pub fn event_line(ts: &str, site: &str, event: &CardEvent) -> (r: String)
    ensures
        r@ == event_text(ts@, site@, event@),
{
    let kind = match event {
        CardEvent::Create { .. } => "card.create",
        CardEvent::Move { .. } => "card.move",
        CardEvent::Check { .. } => "card.check",
        CardEvent::EditTitle { .. } => "card.edit",
        CardEvent::EditDescription { .. } => "card.edit",
        CardEvent::Comment { .. } => "comment.add",
    };
    let mut out: Vec<char> = Vec::new();
    push_text(&mut out, "{\"ts\":");
    let t = quote(ts);
    push_text(&mut out, t.as_str());
    push_text(&mut out, ",\"site\":");
    let s = quote(site);
    push_text(&mut out, s.as_str());
    push_text(&mut out, ",\"kind\":");
    let k = quote(kind);
    push_text(&mut out, k.as_str());
    let ghost head = out@;
    match event {
        CardEvent::Create { id, column, title } => {
            push_field(&mut out, "id", id.as_str());
            push_field(&mut out, "column", column.as_str());
            push_field(&mut out, "title", title.as_str());
        },
        CardEvent::Move { id, from, to } => {
            push_field(&mut out, "id", id.as_str());
            push_field(&mut out, "from", from.as_str());
            push_field(&mut out, "to", to.as_str());
        },
        CardEvent::Check { id, done } => {
            push_field(&mut out, "id", id.as_str());
            push_text(&mut out, ",\"");
            push_text(&mut out, "done");
            push_text(&mut out, "\":");
            push_text(
                &mut out,
                if *done {
                    "true"
                } else {
                    "false"
                },
            );
        },
        CardEvent::EditTitle { id, value } => {
            push_field(&mut out, "id", id.as_str());
            push_field(&mut out, "field", "title");
            push_field(&mut out, "value", value.as_str());
        },
        CardEvent::EditDescription { id } => {
            push_field(&mut out, "id", id.as_str());
            push_field(&mut out, "field", "description");
        },
        CardEvent::Comment { id, comment } => {
            push_field(&mut out, "id", id.as_str());
            push_field(&mut out, "comment", comment.as_str());
        },
    }
    assert(out@ =~= head + event_fields(event@));
    push_text(&mut out, "}");
    assert(out@ =~= event_text(ts@, site@, event@));
    string_of(out.as_slice())
}

// ---------------------------------------------------------------------------
// Cards
// ---------------------------------------------------------------------------

/// The identity of a new card, from a number drawn at random.
pub open spec fn card_id(n: u32) -> Seq<char> {
    "tk_"@ + hex32(n)
}

/// The identity of a new card, from a number drawn at random: `tk_` and eight
/// hexadecimal digits.
pub fn new_id(n: u32) -> (r: String)
    ensures
        r@ == card_id(n),
        r@.len() == 11,
{
    proof {
        reveal_strlit("tk_");
    }
    let mut out = chars_of("tk_");
    let h = hex32_text(n);
    push_text(&mut out, h.as_str());
    string_of(out.as_slice())
}

/// The column for cards that do not name one: the first, or `Todo`.
pub open spec fn default_column(columns: Seq<Seq<char>>) -> Seq<char> {
    if columns.len() == 0 {
        "Todo"@
    } else {
        columns[0]
    }
}

/// The column for cards that do not name one.
pub fn column_or_default(columns: &[String]) -> (r: String)
    ensures
        r@ == default_column(texts(columns@)),
{
    if columns.len() == 0 {
        copy_text("Todo")
    } else {
        assert(texts(columns@)[0] == columns@[0]@);
        copy_text(columns[0].as_str())
    }
}

/// What a list of cards says.
pub open spec fn card_views(v: Seq<Card>) -> Seq<CardView> {
    v.map_values(|c: Card| c@)
}

/// The highest position in a column, if it has a card.
pub open spec fn highest_in(cards: Seq<CardView>, column: Seq<char>) -> Option<i64>
    decreases cards.len(),
{
    if cards.len() == 0 {
        None
    } else {
        let last = cards.last();
        match highest_in(cards.drop_last(), column) {
            Some(top) => if last.column == column && last.position > top {
                Some(last.position)
            } else {
                Some(top)
            },
            None => if last.column == column {
                Some(last.position)
            } else {
                None
            },
        }
    }
}

/// The highest position in a column; one below zero where it is empty.
pub open spec fn top_position(cards: Seq<CardView>, column: Seq<char>) -> int {
    match highest_in(cards, column) {
        Some(top) => top as int,
        None => -1,
    }
}

fn highest(cards: &[Card], column: &str) -> (r: i64)
    ensures
        r == top_position(card_views(cards@), column@),
{
    let ghost all = card_views(cards@);
    let mut top: Option<i64> = None;
    let mut i: usize = 0;
    while i < cards.len()
        invariant
            i <= cards@.len(),
            all == card_views(cards@),
            top == highest_in(all.take(i as int), column@),
        decreases cards@.len() - i,
    {
        assert(all.take(i + 1).drop_last() =~= all.take(i as int));
        assert(all.take(i + 1).last() == cards@[i as int]@);
        if same_text(cards[i].column.as_str(), column) {
            let here: i64 = cards[i].position;
            top = match top {
                Some(t) => if here > t {
                    Some(here)
                } else {
                    Some(t)
                },
                None => Some(here),
            };
        }
        i += 1;
    }
    assert(all.take(i as int) =~= all);
    match top {
        Some(t) => t,
        None => -1,
    }
}

/// A new card with the texts of its files, and the entry for the history.
pub struct CreatePlan {
    pub card: Card,
    pub card_md: String,
    pub meta_toml: String,
    pub event: CardEvent,
}

/// A new card: in the named column, or the default one, behind the last card
/// there; a card without a title is named by its identity.
pub open spec fn created_card(
    columns: Seq<Seq<char>>,
    cards: Seq<CardView>,
    column: Seq<char>,
    title: Seq<char>,
    id: Seq<char>,
) -> CardView {
    let col = if column.len() == 0 {
        default_column(columns)
    } else {
        column
    };
    CardView {
        id,
        title: if title.len() == 0 {
            id
        } else {
            title
        },
        column: col,
        position: (top_position(cards, col) + 1) as i64,
        done: false,
    }
}

/// Whether the column that a new card goes to has room behind its last card.
pub fn has_room(columns: &[String], cards: &[Card], column: &str) -> (r: bool)
    ensures
        r == (top_position(
            card_views(cards@),
            if column@.len() == 0 {
                default_column(texts(columns@))
            } else {
                column@
            },
        ) < i64::MAX),
{
    let cs = chars_of(column);
    let col = if cs.len() == 0 {
        column_or_default(columns)
    } else {
        copy_text(column)
    };
    highest(cards, col.as_str()) < i64::MAX
}

/// What creating a card writes and records.
pub fn create_card(
    columns: &[String],
    cards: &[Card],
    column: &str,
    title: &str,
    id: &str,
) -> (r: CreatePlan)
    requires
        top_position(
            card_views(cards@),
            if column@.len() == 0 {
                default_column(texts(columns@))
            } else {
                column@
            },
        ) < i64::MAX,
    ensures
        ({
            let c = created_card(texts(columns@), card_views(cards@), column@, title@, id@);
            &&& r.card@ == c
            &&& r.card_md@ == card_text(c.title, Seq::empty())
            &&& r.meta_toml@ == meta_text(c.column, c.position, false)
            &&& r.event@ == EventView::Create(c.id, c.column, c.title)
        }),
{
    let cs = chars_of(column);
    let ts = chars_of(title);
    let col = if cs.len() == 0 {
        column_or_default(columns)
    } else {
        copy_text(column)
    };
    let position: i64 = highest(cards, col.as_str()) + 1;
    let name = if ts.len() == 0 {
        copy_text(id)
    } else {
        copy_text(title)
    };
    let empty = String::new();
    assert(empty@ =~= Seq::<char>::empty());
    let md = card_md(name.as_str(), empty.as_str());
    let meta = meta_toml(col.as_str(), position, false);
    let event = CardEvent::Create {
        id: copy_text(id),
        column: copy_text(col.as_str()),
        title: copy_text(name.as_str()),
    };
    CreatePlan {
        card: Card { id: copy_text(id), title: name, column: col, position, done: false },
        card_md: md,
        meta_toml: meta,
        event,
    }
}

/// A change of a card, as far as the request names it.
pub struct CardPatch {
    pub column: Option<String>,
    pub position: Option<i64>,
    pub done: Option<bool>,
    /// Whether the request names a title at all, and the title if it is a text.
    pub names_title: bool,
    pub title: Option<String>,
    /// Whether the request names a description at all, and the description if it
    /// is a text.
    pub names_description: bool,
    pub description: Option<String>,
}

/// What a change says.
pub struct PatchView {
    pub column: Option<Seq<char>>,
    pub position: Option<i64>,
    pub done: Option<bool>,
    pub names_title: bool,
    pub title: Option<Seq<char>>,
    pub names_description: bool,
    pub description: Option<Seq<char>>,
}

/// A text that may be absent.
pub open spec fn opt(s: Option<String>) -> Option<Seq<char>> {
    match s {
        Some(x) => Some(x@),
        None => None,
    }
}

impl View for CardPatch {
    type V = PatchView;

    open spec fn view(&self) -> PatchView {
        PatchView {
            column: opt(self.column),
            position: self.position,
            done: self.done,
            names_title: self.names_title,
            title: opt(self.title),
            names_description: self.names_description,
            description: opt(self.description),
        }
    }
}

/// The change that a request names.
pub open spec fn patch_in(v: JsonView) -> PatchView {
    PatchView {
        column: text_entry(v, "column"@),
        position: int_entry(v, "position"@),
        done: bool_entry(v, "done"@),
        names_title: entry(v, "title"@) is Some,
        title: text_entry(v, "title"@),
        names_description: entry(v, "description"@) is Some,
        description: text_entry(v, "description"@),
    }
}

/// The change that a request names.
pub(crate) fn read_patch(v: &Value) -> (r: CardPatch)
    ensures
        r@ == patch_in(json_view(*v)),
{
    CardPatch {
        column: text_of(v, "column"),
        position: int_of(v, "position"),
        done: bool_of(v, "done"),
        names_title: value_get(v, "title").is_some(),
        title: text_of(v, "title"),
        names_description: value_get(v, "description").is_some(),
        description: text_of(v, "description"),
    }
}

/// A card after a change. A title that is empty gives way to the identity.
pub open spec fn patched(c: CardView, p: PatchView) -> CardView {
    CardView {
        id: c.id,
        title: match p.title {
            Some(t) => if t.len() == 0 {
                c.id
            } else {
                t
            },
            None => c.title,
        },
        column: match p.column {
            Some(x) => x,
            None => c.column,
        },
        position: match p.position {
            Some(x) => x,
            None => c.position,
        },
        done: match p.done {
            Some(x) => x,
            None => c.done,
        },
    }
}

/// The description after a change.
pub open spec fn patched_description(description: Seq<char>, p: PatchView) -> Seq<char> {
    match p.description {
        Some(d) => d,
        None => description,
    }
}

/// The entries for the history that a change gives.
pub open spec fn patch_events(
    before: CardView,
    after: CardView,
    p: PatchView,
    old_description: Seq<char>,
) -> Seq<EventView> {
    (if after.column != before.column {
        seq![EventView::Move(before.id, before.column, after.column)]
    } else {
        Seq::empty()
    }) + (if after.done != before.done {
        seq![EventView::Check(before.id, after.done)]
    } else {
        Seq::empty()
    }) + (if after.title != before.title {
        seq![EventView::EditTitle(before.id, after.title)]
    } else {
        Seq::empty()
    }) + (if p.names_description && patched_description(old_description, p) != old_description {
        seq![EventView::EditDescription(before.id)]
    } else {
        Seq::empty()
    })
}

/// A changed card with the texts of its files, and the entries for the history.
/// The text of the card is written only where the request names its title or its
/// description.
pub struct PatchPlan {
    pub card: Card,
    pub meta_toml: String,
    pub card_md: Option<String>,
    pub events: Vec<CardEvent>,
}

/// What changing a card writes and records.
pub fn patch_card(current: &Card, description: &str, patch: &CardPatch) -> (r: PatchPlan)
    ensures
        ({
            let c = patched(current@, patch@);
            &&& r.card@ == c
            &&& r.meta_toml@ == meta_text(c.column, c.position, c.done)
            &&& opt(r.card_md) == (if patch@.names_title || patch@.names_description {
                Some(card_text(c.title, patched_description(description@, patch@)))
            } else {
                None
            })
            &&& event_views(r.events@) == patch_events(current@, c, patch@, description@)
        }),
{
    let column = match &patch.column {
        Some(c) => copy_text(c.as_str()),
        None => copy_text(current.column.as_str()),
    };
    let position: i64 = match patch.position {
        Some(p) => p,
        None => current.position,
    };
    let done = match patch.done {
        Some(d) => d,
        None => current.done,
    };
    let title = match &patch.title {
        Some(t) => {
            let cs = chars_of(t.as_str());
            if cs.len() == 0 {
                copy_text(current.id.as_str())
            } else {
                copy_text(t.as_str())
            }
        },
        None => copy_text(current.title.as_str()),
    };
    let text = match &patch.description {
        Some(d) => copy_text(d.as_str()),
        None => copy_text(description),
    };
    let meta = meta_toml(column.as_str(), position, done);
    let md = if patch.names_title || patch.names_description {
        Some(card_md(title.as_str(), text.as_str()))
    } else {
        None
    };
    let mut events: Vec<CardEvent> = Vec::new();
    let id = current.id.as_str();
    assert(event_views(events@) =~= Seq::<EventView>::empty());
    let ghost e0 = event_views(events@);
    if !same_text(column.as_str(), current.column.as_str()) {
        events.push(
            CardEvent::Move {
                id: copy_text(id),
                from: copy_text(current.column.as_str()),
                to: copy_text(column.as_str()),
            },
        );
    }
    if done != current.done {
        events.push(CardEvent::Check { id: copy_text(id), done });
    }
    if !same_text(title.as_str(), current.title.as_str()) {
        events.push(CardEvent::EditTitle { id: copy_text(id), value: copy_text(title.as_str()) });
    }
    if patch.names_description && !same_text(text.as_str(), description) {
        events.push(CardEvent::EditDescription { id: copy_text(id) });
    }
    let card = Card { id: copy_text(id), title, column, position, done };
    assert(event_views(events@) =~= patch_events(current@, card@, patch@, description@));
    PatchPlan { card, meta_toml: meta, card_md: md, events }
}

// ---------------------------------------------------------------------------
// Comments
// ---------------------------------------------------------------------------

/// What a comment says.
pub struct CommentView {
    pub id: Seq<char>,
    pub author: Seq<char>,
    pub ts: Seq<char>,
    pub text: Seq<char>,
}

impl View for Comment {
    type V = CommentView;

    open spec fn view(&self) -> CommentView {
        CommentView { id: self.id@, author: self.author@, ts: self.ts@, text: self.text@ }
    }
}

/// The time as part of a file name.
pub open spec fn file_stamp(ts: Seq<char>) -> Seq<char> {
    ts.map_values(
        |c: char|
            if c == ':' {
                '-'
            } else {
                c
            },
    )
}

/// The time as part of a file name.
pub fn stamp_of(ts: &str) -> (r: String)
    ensures
        r@ == file_stamp(ts@),
{
    let cs = chars_of(ts);
    let mut out: Vec<char> = Vec::new();
    let mut i: usize = 0;
    while i < cs.len()
        invariant
            i <= cs@.len(),
            out@ == file_stamp(cs@).take(i as int),
        decreases cs@.len() - i,
    {
        out.push(
            if cs[i] == ':' {
                '-'
            } else {
                cs[i]
            },
        );
        assert(file_stamp(cs@).take(i + 1) =~= file_stamp(cs@).take(i as int).push(
            file_stamp(cs@)[i as int],
        ));
        i += 1;
    }
    assert(file_stamp(cs@).take(i as int) =~= file_stamp(cs@));
    string_of(out.as_slice())
}

/// A new comment, from the text and the author that the request names, and the
/// time as part of a file name. None where the text is blank.
pub fn new_comment(text: Option<&str>, author: Option<&str>, ts: &str) -> (r: Option<Comment>)
    ensures
        ({
            let t = trim(
                match text {
                    Some(x) => x@,
                    None => Seq::empty(),
                },
            );
            let a = slug(
                lowercase(
                    match author {
                        Some(x) => x@,
                        None => "anon"@,
                    },
                ),
            );
            match r {
                Some(c) => t.len() > 0 && c@ == (CommentView {
                    id: ts@ + "__"@ + a,
                    author: a,
                    ts: ts@,
                    text: t,
                }),
                None => t.len() == 0,
            }
        }),
{
    let raw = match text {
        Some(x) => copy_text(x),
        None => String::new(),
    };
    assert(text is None ==> raw@ =~= Seq::<char>::empty());
    let body = trim_text(raw.as_str());
    let bs = chars_of(body.as_str());
    if bs.len() == 0 {
        return None;
    }
    let who = match author {
        Some(x) => sanitize_author(x),
        None => sanitize_author("anon"),
    };
    let mut name = chars_of(ts);
    push_text(&mut name, "__");
    push_text(&mut name, who.as_str());
    Some(
        Comment {
            id: string_of(name.as_slice()),
            author: who,
            ts: copy_text(ts),
            text: body,
        },
    )
}

/// The comment that a file holds, if its name is that of a comment.
pub open spec fn comment_in(file: Seq<char>, text: Seq<char>) -> Option<CommentView> {
    if !".md"@.is_suffix_of(file) {
        None
    } else {
        let stem = file.take(file.len() - 3);
        match comment_parts(stem) {
            Some((ts, author)) => Some(CommentView { id: stem, author, ts, text: trim_end(text) }),
            None => None,
        }
    }
}

/// The comment that a file holds, if its name is that of a comment.
pub fn read_comment(file: &str, text: &str) -> (r: Option<Comment>)
    ensures
        match r {
            Some(c) => comment_in(file@, text@) == Some(c@),
            None => comment_in(file@, text@) is None,
        },
{
    let cs = chars_of(file);
    let n: usize = cs.len();
    proof {
        reveal_strlit(".md");
    }
    if n < 3 {
        return None;
    }
    let md = chars_of(".md");
    let back = slice_subrange(cs.as_slice(), n - 3, n);
    assert(".md"@.is_suffix_of(cs@) <==> back@ =~= ".md"@);
    if !same_chars(back, md.as_slice()) {
        return None;
    }
    let front = slice_subrange(cs.as_slice(), 0, n - 3);
    assert(front@ =~= file@.take(file@.len() - 3));
    let stem = string_of(front);
    match parse_comment_name(stem.as_str()) {
        Some((ts, author)) => {
            let body = chars_of(text);
            Some(Comment { id: stem, author, ts, text: string_of(trim_end_chars(body.as_slice())) })
        },
        None => None,
    }
}

/// The first place in an ordered list behind everything that does not come after
/// the key.
pub open spec fn key_place(s: Seq<Seq<char>>, key: Seq<char>) -> int
    decreases s.len(),
{
    if s.len() == 0 || !text_lt(key, s.last()) {
        s.len() as int
    } else {
        key_place(s.drop_last(), key)
    }
}

/// The places of a list of keys in the order of the keys; equal keys stay in the
/// order in which they came.
pub open spec fn key_order(keys: Seq<Seq<char>>) -> Seq<int>
    decreases keys.len(),
{
    if keys.len() == 0 {
        Seq::empty()
    } else {
        let front = key_order(keys.drop_last());
        let p = key_place(front.map_values(|i: int| keys[i]), keys.last());
        front.insert(p, keys.len() - 1)
    }
}

/// The places of a list of keys in the order of the keys. Comments and the
/// entries of a history are shown in the order of their times.
pub fn order_by_key(keys: &Vec<String>) -> (r: Vec<usize>)
    ensures
        r@.map_values(|i: usize| i as int) == key_order(texts(keys@)),
        r@.len() == keys@.len(),
        forall|k: int| 0 <= k < r@.len() ==> (#[trigger] r@[k]) < keys@.len(),
{
    let ghost all = texts(keys@);
    let ghost as_int = |i: usize| i as int;
    let mut out: Vec<usize> = Vec::new();
    let mut n: usize = 0;
    assert(out@.map_values(as_int) =~= key_order(all.take(0)));
    while n < keys.len()
        invariant
            n <= keys@.len(),
            all == texts(keys@),
            as_int == (|i: usize| i as int),
            out@.len() == n,
            forall|k: int| 0 <= k < out@.len() ==> (#[trigger] out@[k]) < n,
            out@.map_values(as_int) == key_order(all.take(n as int)),
        decreases keys@.len() - n,
    {
        let ghost front = key_order(all.take(n as int));
        let ghost here = all.take(n + 1);
        let ghost sorted = front.map_values(|i: int| here[i]);
        assert(here.drop_last() =~= all.take(n as int));
        assert(here.last() == all[n as int]);
        let mut p: usize = out.len();
        assert(sorted.take(p as int) =~= sorted);
        while p > 0 && text_less(keys[n].as_str(), keys[out[p - 1]].as_str())
            invariant
                p <= out@.len(),
                n < keys@.len(),
                all == texts(keys@),
                here == all.take(n + 1),
                as_int == (|i: usize| i as int),
                out@.len() == n,
                forall|k: int| 0 <= k < out@.len() ==> (#[trigger] out@[k]) < n,
                out@.map_values(as_int) == front,
                sorted == front.map_values(|i: int| here[i]),
                key_place(sorted, all[n as int]) == key_place(sorted.take(p as int), all[n as int]),
            decreases p,
        {
            assert(sorted[p - 1] == keys@[out@[p - 1] as int]@) by {
                assert(front[p - 1] == out@.map_values(as_int)[p - 1]);
            }
            assert(sorted.take(p as int).drop_last() =~= sorted.take(p - 1));
            p -= 1;
        }
        proof {
            if p > 0 {
                assert(front[p - 1] == out@.map_values(as_int)[p - 1]);
                assert(sorted[p - 1] == keys@[out@[p - 1] as int]@);
            }
            assert(key_place(sorted, all[n as int]) == p);
        }
        let ghost before = out@;
        out.insert(p, n);
        assert(out@ =~= before.insert(p as int, n));
        assert(out@.map_values(as_int) =~= before.map_values(as_int).insert(p as int, n as int));
        n += 1;
    }
    assert(all.take(n as int) =~= all);
    out
}

// ---------------------------------------------------------------------------
// Changes on disk
// ---------------------------------------------------------------------------

/// What a change on disk means to the interface.
pub enum Change {
    Ticket(String),
    Board,
}

/// Where a text first holds another; the length of the text if it does not.
pub open spec fn first_at(s: Seq<char>, part: Seq<char>) -> int
    decreases s.len(),
{
    if s.len() < part.len() || s.len() == 0 {
        s.len() as int
    } else if part.is_prefix_of(s) {
        0
    } else {
        1 + first_at(s.skip(1), part)
    }
}

/// The card whose directory a path lies in, if it lies in one.
pub open spec fn ticket_of(s: Seq<char>) -> Option<Seq<char>> {
    let i = first_at(s, "/tickets/"@);
    if i >= s.len() {
        None
    } else {
        let rest = s.skip(i + 9);
        let id = rest.take(first_index(rest, '/'));
        if id.len() == 0 {
            None
        } else {
            Some(id)
        }
    }
}

/// What a change of a path means to the interface: histories and the name of the
/// site mean nothing.
pub open spec fn change_of(path: Seq<char>) -> Option<Option<Seq<char>>> {
    let s = slashed(path);
    if holds(s, "/events/"@) || "/.site"@.is_suffix_of(s) {
        None
    } else {
        match ticket_of(s) {
            Some(id) => Some(Some(id)),
            None => if "board.md"@.is_suffix_of(s) {
                Some(None)
            } else {
                None
            },
        }
    }
}

fn ends_with(s: &[char], part: &str) -> (r: bool)
    ensures
        r == part@.is_suffix_of(s@),
{
    let p = chars_of(part);
    if p.len() > s.len() {
        return false;
    }
    let back = slice_subrange(s, s.len() - p.len(), s.len());
    let r = same_chars(back, p.as_slice());
    assert(p@.is_suffix_of(s@) <==> back@ =~= p@);
    r
}

fn find_part(s: &[char], part: &[char]) -> (r: usize)
    ensures
        r == first_at(s@, part@),
        r <= s@.len(),
        r < s@.len() ==> r + part@.len() <= s@.len(),
{
    let mut i: usize = 0;
    assert(s@.skip(0) =~= s@);
    while i < s.len()
        invariant
            i <= s@.len(),
            first_at(s@, part@) == i + first_at(s@.skip(i as int), part@),
        decreases s@.len() - i,
    {
        let rest = slice_subrange(s, i, s.len());
        assert(rest@ =~= s@.skip(i as int));
        if rest.len() < part.len() {
            return s.len();
        }
        if starts_with_chars(rest, part) {
            return i;
        }
        assert(rest@.skip(1) =~= s@.skip(i + 1));
        i += 1;
    }
    i
}

/// What a change of a path means to the interface, if it means anything.
pub fn message_for_path(path: &str) -> (r: Option<Change>)
    ensures
        match r {
            Some(Change::Ticket(id)) => change_of(path@) == Some(Some(id@)),
            Some(Change::Board) => change_of(path@) == Some(None::<Seq<char>>),
            None => change_of(path@) is None,
        },
{
    let cs = chars_of(path);
    let mut out: Vec<char> = Vec::new();
    let mut i: usize = 0;
    while i < cs.len()
        invariant
            i <= cs@.len(),
            out@ == slashed(cs@).take(i as int),
        decreases cs@.len() - i,
    {
        out.push(
            if cs[i] == '\\' {
                '/'
            } else {
                cs[i]
            },
        );
        assert(slashed(cs@).take(i + 1) =~= slashed(cs@).take(i as int).push(slashed(cs@)[i as int]));
        i += 1;
    }
    assert(slashed(cs@).take(i as int) =~= slashed(cs@));
    let s = string_of(out.as_slice());
    if contains_text(s.as_str(), "/events/") || ends_with(out.as_slice(), "/.site") {
        return None;
    }
    let tickets = chars_of("/tickets/");
    proof {
        reveal_strlit("/tickets/");
    }
    let at = find_part(out.as_slice(), tickets.as_slice());
    if at < out.len() {
        let rest = slice_subrange(out.as_slice(), at + 9, out.len());
        assert(rest@ =~= out@.skip(at + 9));
        let n = find_char(rest, '/');
        let id = slice_subrange(rest, 0, n);
        assert(id@ =~= rest@.take(n as int));
        if id.len() > 0 {
            return Some(Change::Ticket(string_of(id)));
        }
    }
    if ends_with(out.as_slice(), "board.md") {
        Some(Change::Board)
    } else {
        None
    }
}

/// The message about a change for the interface.
pub fn change_json(c: &Change) -> (r: String)
    ensures
        r@ == (match c {
            Change::Ticket(id) => tagged_text("id"@, id@, "ticket"@),
            Change::Board => "{\"type\":\"board\"}"@,
        }),
{
    match c {
        Change::Ticket(id) => tagged_json("id", id.as_str(), "ticket"),
        Change::Board => copy_text("{\"type\":\"board\"}"),
    }
}

// ---------------------------------------------------------------------------
// Laws
// ---------------------------------------------------------------------------

/// A new card stands behind every card of its column.
pub proof fn law_new_cards_come_last(
    columns: Seq<Seq<char>>,
    cards: Seq<CardView>,
    column: Seq<char>,
    title: Seq<char>,
    id: Seq<char>,
    i: int,
)
    requires
        0 <= i < cards.len(),
        cards[i].column == created_card(columns, cards, column, title, id).column,
        top_position(cards, cards[i].column) < i64::MAX,
    ensures
        cards[i].position < created_card(columns, cards, column, title, id).position,
{
    lemma_top(cards, cards[i].column, i);
}

proof fn lemma_top(cards: Seq<CardView>, column: Seq<char>, i: int)
    requires
        0 <= i < cards.len(),
        cards[i].column == column,
    ensures
        highest_in(cards, column) matches Some(top) && cards[i].position <= top,
    decreases cards.len(),
{
    if i < cards.len() - 1 {
        assert(cards.drop_last()[i] == cards[i]);
        lemma_top(cards.drop_last(), column, i);
    }
}

/// A request that names nothing changes nothing and records nothing.
pub proof fn law_empty_patch_changes_nothing(c: CardView, description: Seq<char>)
    ensures
        ({
            let p = PatchView {
                column: None,
                position: None,
                done: None,
                names_title: false,
                title: None,
                names_description: false,
                description: None,
            };
            &&& patched(c, p) == c
            &&& patch_events(c, patched(c, p), p, description).len() == 0
        }),
{
}

/// A changed card has what the request names, and keeps what it does not name. A title
/// that is named and empty becomes the card's identity.
pub proof fn law_patches_set_what_they_name(c: CardView, p: PatchView, description: Seq<char>)
    ensures
        patched(c, p).id == c.id,
        p.position matches Some(x) ==> patched(c, p).position == x,
        p.position is None ==> patched(c, p).position == c.position,
        p.column matches Some(x) ==> patched(c, p).column == x,
        p.column is None ==> patched(c, p).column == c.column,
        p.done matches Some(x) ==> patched(c, p).done == x,
        p.done is None ==> patched(c, p).done == c.done,
        p.title matches Some(t) ==> patched(c, p).title == (if t.len() > 0 {
            t
        } else {
            c.id
        }),
        p.title is None ==> patched(c, p).title == c.title,
        p.description matches Some(d) ==> patched_description(description, p) == d,
        p.description is None ==> patched_description(description, p) == description,
{
}

/// A request names what stands under its keys, where it has the right type.
pub proof fn law_requests_name_what_they_hold(m: Map<Seq<char>, JsonView>)
    ensures
        ({
            let p = patch_in(JsonView::Object(m));
            let text = |k: Seq<char>|
                if m.contains_key(k) && m[k] is Text {
                    Some(m[k]->Text_0)
                } else {
                    None::<Seq<char>>
                };
            &&& p.column == text("column"@)
            &&& p.title == text("title"@)
            &&& p.description == text("description"@)
            &&& p.names_title == m.contains_key("title"@)
            &&& p.names_description == m.contains_key("description"@)
            &&& p.position == (if m.contains_key("position"@) && m["position"@] is Integer {
                Some(m["position"@]->Integer_0)
            } else {
                None
            })
            &&& p.done == (if m.contains_key("done"@) && m["done"@] is Bool {
                Some(m["done"@]->Bool_0)
            } else {
                None
            })
        }),
{
}

/// The history of a change tells what changed and nothing else: a move where the column
/// differs, a check where the mark does, edits where the title or the description do.
pub proof fn law_histories_tell_what_changed(
    before: CardView,
    after: CardView,
    p: PatchView,
    description: Seq<char>,
    e: EventView,
)
    ensures
        patch_events(before, after, p, description).contains(e) <==> match e {
            EventView::Move(id, from, to) => id == before.id && from == before.column && to
                == after.column && from != to,
            EventView::Check(id, done) => id == before.id && done == after.done && done
                != before.done,
            EventView::EditTitle(id, title) => id == before.id && title == after.title && title
                != before.title,
            EventView::EditDescription(id) => id == before.id && p.names_description
                && p.description is Some && p.description->Some_0 != description,
            _ => false,
        },
        patch_events(before, after, p, description).no_duplicates(),
{
    let all = patch_events(before, after, p, description);
    let a = if after.column != before.column {
        seq![EventView::Move(before.id, before.column, after.column)]
    } else {
        Seq::empty()
    };
    let b = if after.done != before.done {
        seq![EventView::Check(before.id, after.done)]
    } else {
        Seq::empty()
    };
    let c = if after.title != before.title {
        seq![EventView::EditTitle(before.id, after.title)]
    } else {
        Seq::empty()
    };
    let d = if p.names_description && patched_description(description, p) != description {
        seq![EventView::EditDescription(before.id)]
    } else {
        Seq::empty()
    };
    assert(all == a + b + c + d);
    if a.len() > 0 {
        assert(all[0] == a[0]);
    }
    if b.len() > 0 {
        assert(all[a.len() as int] == b[0]);
    }
    if c.len() > 0 {
        assert(all[(a.len() + b.len()) as int] == c[0]);
    }
    if d.len() > 0 {
        assert(all[(a.len() + b.len() + c.len()) as int] == d[0]);
    }
}

/// A new card is as asked: in the named column or the first one, with the title or its
/// identity for one, not done, and right behind the last card of the column, or at zero
/// where there is none.
pub proof fn law_new_cards_are_as_asked(
    columns: Seq<Seq<char>>,
    cards: Seq<CardView>,
    column: Seq<char>,
    title: Seq<char>,
    id: Seq<char>,
)
    ensures
        ({
            let c = created_card(columns, cards, column, title, id);
            &&& c.id == id
            &&& !c.done
            &&& column.len() > 0 ==> c.column == column
            &&& column.len() == 0 && columns.len() > 0 ==> c.column == columns[0]
            &&& title.len() > 0 ==> c.title == title
            &&& title.len() == 0 ==> c.title == id
            &&& (forall|i: int| 0 <= i < cards.len() ==> (#[trigger] cards[i]).column != c.column)
                ==> c.position == 0
            &&& forall|i: int|
                0 <= i < cards.len() && (#[trigger] cards[i]).column == c.column && (forall|j: int|
                    0 <= j < cards.len() && (#[trigger] cards[j]).column == c.column
                        ==> cards[j].position <= cards[i].position) && cards[i].position < i64::MAX
                    ==> c.position == cards[i].position + 1
        }),
{
    let c = created_card(columns, cards, column, title, id);
    lemma_highest(cards, c.column);
    assert forall|i: int|
        0 <= i < cards.len() && (#[trigger] cards[i]).column == c.column && (forall|j: int|
            0 <= j < cards.len() && (#[trigger] cards[j]).column == c.column ==> cards[j].position
                <= cards[i].position) && cards[i].position < i64::MAX implies c.position
        == cards[i].position + 1 by {
        lemma_top(cards, c.column, i);
    }
}

proof fn lemma_highest(cards: Seq<CardView>, column: Seq<char>)
    ensures
        highest_in(cards, column) matches Some(top) ==> exists|i: int|
            0 <= i < cards.len() && (#[trigger] cards[i]).column == column && cards[i].position
                == top,
    decreases cards.len(),
{
    if cards.len() > 0 {
        let front = cards.drop_last();
        lemma_highest(front, column);
        if let Some(top) = highest_in(cards, column) {
            if cards.last().column == column && cards.last().position == top {
                assert(cards[cards.len() - 1].column == column);
            } else {
                let i = choose|i: int|
                    0 <= i < front.len() && (#[trigger] front[i]).column == column && front[i].position
                        == top;
                assert(cards[i] == front[i]);
            }
        }
    }
}

/// The places in the order of the keys are all places, each once; keys do not fall, and
/// equal keys stay in the order in which they came.
pub proof fn law_key_order_orders_all(keys: Seq<Seq<char>>)
    ensures
        key_order(keys).len() == keys.len(),
        forall|k: int|
            0 <= k < keys.len() ==> 0 <= #[trigger] key_order(keys)[k] < keys.len(),
        forall|i: int, j: int|
            0 <= i < j < keys.len() ==> {
                let x = #[trigger] key_order(keys)[i];
                let y = #[trigger] key_order(keys)[j];
                text_lt(keys[x], keys[y]) || (keys[x] == keys[y] && x < y)
            },
    decreases keys.len(),
{
    if keys.len() > 0 {
        let short = keys.drop_last();
        law_key_order_orders_all(short);
        let front = key_order(short);
        let named = front.map_values(|i: int| keys[i]);
        let key = keys.last();
        let n = keys.len() - 1;
        let p = key_place(named, key);
        lemma_key_place(named, key);
        let all = front.insert(p, n as int);
        assert(key_order(keys) == all);
        assert forall|k: int| 0 <= k < front.len() implies keys[#[trigger] front[k]]
            == short[front[k]] by {}
        assert forall|k: int| 0 <= k < all.len() implies 0 <= #[trigger] all[k] < keys.len() by {
            if k < p {
                assert(all[k] == front[k]);
            } else if k > p {
                assert(all[k] == front[k - 1]);
            }
        }
        assert forall|i: int, j: int| 0 <= i < j < all.len() implies {
            let x = #[trigger] all[i];
            let y = #[trigger] all[j];
            text_lt(keys[x], keys[y]) || (keys[x] == keys[y] && x < y)
        } by {
            if i == p {
                assert(all[j] == front[j - 1]);
                assert(named[j - 1] == keys[front[j - 1]]);
                assert(text_lt(key, named[j - 1]));
            } else if j == p {
                assert(all[i] == front[i]);
                assert(named[i] == keys[front[i]]);
                assert(named[p - 1] == keys[front[p - 1]]);
                assert(!text_lt(key, named[p - 1]));
                if named[p - 1] != key {
                    crate::chars::lemma_text_lt_total(named[p - 1], key);
                }
                if i < p - 1 {
                    assert(text_lt(short[front[i]], short[front[p - 1]]) || short[front[i]]
                        == short[front[p - 1]]);
                    if text_lt(named[i], named[p - 1]) && text_lt(named[p - 1], key) {
                        crate::chars::lemma_text_lt_transitive(named[i], named[p - 1], key);
                    }
                }
                assert(front[i] < n);
            } else {
                let x = if i < p {
                    i
                } else {
                    i - 1
                };
                let y = if j < p {
                    j
                } else {
                    j - 1
                };
                assert(all[i] == front[x] && all[j] == front[y]);
                assert(text_lt(short[front[x]], short[front[y]]) || (short[front[x]]
                    == short[front[y]] && front[x] < front[y]));
            }
        }
    }
}

pub(crate) proof fn lemma_key_place(s: Seq<Seq<char>>, key: Seq<char>)
    ensures
        0 <= key_place(s, key) <= s.len(),
        key_place(s, key) > 0 ==> !text_lt(key, s[key_place(s, key) - 1]),
        forall|i: int| key_place(s, key) <= i < s.len() ==> text_lt(key, #[trigger] s[i]),
    decreases s.len(),
{
    if s.len() > 0 && text_lt(key, s.last()) {
        lemma_key_place(s.drop_last(), key);
        let p = key_place(s, key);
        if p > 0 {
            assert(s.drop_last()[p - 1] == s[p - 1]);
        }
        assert forall|i: int| p <= i < s.len() implies text_lt(key, #[trigger] s[i]) by {
            if i < s.len() - 1 {
                assert(s.drop_last()[i] == s[i]);
            }
        }
    }
}

/// A time becomes part of a file name with a dash for each colon, and else as it is.
pub proof fn law_file_stamps_have_dashes_for_colons(ts: Seq<char>)
    ensures
        file_stamp(ts).len() == ts.len(),
        forall|i: int|
            0 <= i < ts.len() ==> #[trigger] file_stamp(ts)[i] == (if ts[i] == ':' {
                '-'
            } else {
                ts[i]
            }),
{
}

/// A query behind a path does not count.
pub proof fn law_queries_do_not_count(
    method: Method,
    path: Seq<char>,
    query: Seq<char>,
    server: bool,
)
    requires
        !path.contains('?'),
    ensures
        route_of(method, path + seq!['?'] + query, server) == route_of(method, path, server),
{
    let url = path + seq!['?'] + query;
    assert forall|j: int| 0 <= j < path.len() implies path[j] != '?' by {
        assert(path.contains(path[j]));
    }
    lemma_first_index_is(path, '?', path.len() as int);
    lemma_first_index_is(url, '?', path.len() as int);
    assert(url.take(path.len() as int) =~= path);
    assert(path.take(path.len() as int) =~= path);
}

proof fn lemma_card_segments(id: Seq<char>, more: Seq<char>)
    requires
        id.len() > 0,
        !id.contains('/'),
        !more.contains('/'),
    ensures
        segments("/api/cards/"@ + id) == seq!["api"@, "cards"@, id],
        more.len() > 0 ==> segments("/api/cards/"@ + id + seq!['/'] + more) == seq![
            "api"@,
            "cards"@,
            id,
            more,
        ],
{
    reveal_strlit("/api/cards/");
    reveal_strlit("api");
    reveal_strlit("cards");
    let none = Seq::<char>::empty();
    assert(!none.contains('/'));
    assert(!"api"@.contains('/'));
    assert(!"cards"@.contains('/'));
    let p1 = "/api/cards/"@ + id;
    let p2 = "/api/cards/"@ + id + seq!['/'] + more;
    let t1 = "cards"@ + seq!['/'] + id;
    let t2 = "cards"@ + seq!['/'] + (id + seq!['/'] + more);
    assert(p1 =~= none + seq!['/'] + ("api"@ + seq!['/'] + t1));
    assert(p2 =~= none + seq!['/'] + ("api"@ + seq!['/'] + t2));
    law_pieces_are_between_separators(none, '/', "api"@ + seq!['/'] + t1);
    law_pieces_are_between_separators(none, '/', "api"@ + seq!['/'] + t2);
    law_pieces_are_between_separators("api"@, '/', t1);
    law_pieces_are_between_separators("api"@, '/', t2);
    law_pieces_are_between_separators("cards"@, '/', id);
    law_pieces_are_between_separators("cards"@, '/', id + seq!['/'] + more);
    law_pieces_are_between_separators(id, '/', more);
    law_pieces_are_between_separators(more, '/', none);
    assert(split(p1, '/') =~= seq![none, "api"@, "cards"@, id]);
    assert(split(p2, '/') =~= seq![none, "api"@, "cards"@, id, more]);
    lemma_full_parts(seq![none, "api"@, "cards"@], id);
    lemma_full_parts(seq![none, "api"@], "cards"@);
    lemma_full_parts(seq![none], "api"@);
    lemma_full_parts(Seq::empty(), none);
    lemma_full_parts(seq![none, "api"@, "cards"@, id], more);
    assert(seq![none, "api"@, "cards"@].push(id) =~= seq![none, "api"@, "cards"@, id]);
    assert(seq![none, "api"@].push("cards"@) =~= seq![none, "api"@, "cards"@]);
    assert(seq![none].push("api"@) =~= seq![none, "api"@]);
    assert(Seq::<Seq<char>>::empty().push(none) =~= seq![none]);
    assert(seq![none, "api"@, "cards"@, id].push(more) =~= seq![none, "api"@, "cards"@, id, more]);
    assert(full_parts(seq![none]) =~= Seq::<Seq<char>>::empty());
    assert(full_parts(seq![none, "api"@]) =~= seq!["api"@]);
    assert(full_parts(seq![none, "api"@, "cards"@]) =~= seq!["api"@, "cards"@]);
    assert(segments(p1) =~= seq!["api"@, "cards"@, id]);
    if more.len() > 0 {
        assert(segments(p2) =~= seq!["api"@, "cards"@, id, more]);
    }
}

proof fn lemma_full_parts(parts: Seq<Seq<char>>, last: Seq<char>)
    ensures
        full_parts(Seq::empty()) == Seq::<Seq<char>>::empty(),
        full_parts(parts.push(last)) == (if last.len() == 0 {
            full_parts(parts)
        } else {
            full_parts(parts).push(last)
        }),
{
    assert(parts.push(last).drop_last() =~= parts);
}

/// A card is read, changed, shown in detail and commented on under its identity.
pub proof fn law_cards_are_found_under_their_identity(id: Seq<char>, server: bool)
    requires
        id.len() > 0,
        !id.contains('/'),
        !id.contains('?'),
    ensures
        route_of(Method::Get, "/api/cards/"@ + id, server) == RouteView::Card(id),
        route_of(Method::Patch, "/api/cards/"@ + id, server) == RouteView::Patch(id),
        route_of(Method::Get, "/api/cards/"@ + id + "/detail"@, server) == RouteView::Detail(id),
        route_of(Method::Post, "/api/cards/"@ + id + "/comments"@, server) == RouteView::Comment(id),
        route_of(Method::Other, "/api/cards/"@ + id, server) is NotFound,
        route_of(Method::Post, "/api/cards/"@ + id, server) is NotFound,
{
    reveal_strlit("/api/cards/");
    reveal_strlit("api");
    reveal_strlit("cards");
    reveal_strlit("board");
    reveal_strlit("events");
    reveal_strlit("history");
    reveal_strlit("/detail");
    reveal_strlit("/comments");
    reveal_strlit("detail");
    reveal_strlit("comments");
    reveal_strlit("/api/");
    assert("detail"@.len() == 6 && "comments"@.len() == 8);
    let p = "/api/cards/"@ + id;
    let d = "/api/cards/"@ + id + "/detail"@;
    let c = "/api/cards/"@ + id + "/comments"@;
    assert(d =~= "/api/cards/"@ + id + seq!['/'] + "detail"@);
    assert(c =~= "/api/cards/"@ + id + seq!['/'] + "comments"@);
    assert(!"detail"@.contains('/'));
    assert(!"comments"@.contains('/'));
    lemma_card_segments(id, "detail"@);
    lemma_card_segments(id, "comments"@);
    lemma_no_query(p);
    lemma_no_query(d);
    lemma_no_query(c);
    assert("/api/"@.is_prefix_of(p)) by {
        assert(p.subrange(0, 5) =~= "/api/"@);
    }
}

proof fn lemma_no_query(path: Seq<char>)
    ensures
        !path.contains('?') ==> clean(path) == path,
{
    if !path.contains('?') {
        assert forall|j: int| 0 <= j < path.len() implies path[j] != '?' by {
            assert(path.contains(path[j]));
        }
        lemma_first_index_is(path, '?', path.len() as int);
        assert(path.take(path.len() as int) =~= path);
    }
}

/// What a text first holds another at: it does so there and nowhere before.
pub proof fn law_the_first_place_is_the_first(s: Seq<char>, part: Seq<char>, k: int)
    requires
        part.len() > 0,
    ensures
        0 <= first_at(s, part) <= s.len(),
        first_at(s, part) < s.len() ==> first_at(s, part) + part.len() <= s.len() && s.subrange(
            first_at(s, part),
            first_at(s, part) + part.len(),
        ) == part,
        0 <= k && k + part.len() <= s.len() && s.subrange(k, k + part.len()) == part ==> first_at(
            s,
            part,
        ) <= k,
    decreases s.len(),
{
    let n = part.len() as int;
    if s.len() < n || s.len() == 0 {
    } else if part.is_prefix_of(s) {
        assert(s.subrange(0, n) =~= part);
    } else {
        let rest = s.skip(1);
        law_the_first_place_is_the_first(rest, part, k - 1);
        let f = first_at(rest, part);
        if f < rest.len() {
            assert(s.subrange(f + 1, f + 1 + n) =~= rest.subrange(f, f + n));
        }
        if 0 <= k && k + n <= s.len() && s.subrange(k, k + n) == part {
            if k == 0 {
                assert(part.is_prefix_of(s)) by {
                    assert(s.subrange(0, n) =~= part);
                }
            } else {
                assert(rest.subrange(k - 1, k - 1 + n) =~= s.subrange(k, k + n));
            }
        }
    }
}

/// A change in the directory of a card concerns that card, unless it is one of a history
/// or of the site's name.
pub proof fn law_changes_concern_their_card(
    front: Seq<char>,
    id: Seq<char>,
    rest: Seq<char>,
)
    requires
        id.len() > 0,
        !id.contains('/'),
        rest.len() == 0 || rest[0] == '/',
        ({
            let path = front + "/tickets/"@ + id + rest;
            &&& !path.contains('\\')
            &&& forall|k: int|
                0 <= k < front.len() ==> #[trigger] path.subrange(k, k + 9) != "/tickets/"@
            &&& forall|k: int|
                0 <= k && k + 8 <= path.len() ==> #[trigger] path.subrange(k, k + 8)
                    != "/events/"@
            &&& !"/.site"@.is_suffix_of(path)
        }),
    ensures
        change_of(front + "/tickets/"@ + id + rest) == Some(Some(id)),
{
    reveal_strlit("/tickets/");
    reveal_strlit("/events/");
    let path = front + "/tickets/"@ + id + rest;
    let i = front.len() as int;
    assert(slashed(path) =~= path) by {
        assert forall|k: int| 0 <= k < path.len() implies slashed(path)[k] == path[k] by {
            assert(path.contains(path[k]));
        }
    }
    assert(path.subrange(i, i + 9) =~= "/tickets/"@);
    law_the_first_place_is_the_first(path, "/tickets/"@, i);
    let f = first_at(path, "/tickets/"@);
    if f < i {
        assert(path.subrange(f, f + 9) == "/tickets/"@);
    }
    assert(f == i);
    let back = path.skip(i + 9);
    assert(back =~= id + rest);
    assert forall|j: int| 0 <= j < id.len() implies back[j] != '/' by {
        assert(back[j] == id[j]);
        assert(id.contains(id[j]));
    }
    lemma_first_index_is(back, '/', id.len() as int);
    assert(back.take(id.len() as int) =~= id);
    law_the_first_place_is_the_first(path, "/events/"@, 0);
    let e = first_at(path, "/events/"@);
    if e < path.len() {
        assert(path.subrange(e, e + 8) == "/events/"@);
    }
}

/// A comment reads back from its file: the name gives the time and the author, the
/// content the text without the whitespace behind it. Times that hold two underscores in
/// a row, or end in one, are left out.
pub proof fn law_comments_read_back(ts: Seq<char>, author: Seq<char>, text: Seq<char>)
    requires
        forall|j: int| 0 <= j < ts.len() - 1 ==> !(#[trigger] ts[j] == '_' && ts[j + 1] == '_'),
        ts.len() > 0 ==> ts.last() != '_',
        text.len() > 0 ==> !is_white(text.last()),
    ensures
        comment_in(ts + seq!['_', '_'] + author + ".md"@, text) == Some(
            CommentView { id: ts + seq!['_', '_'] + author, author, ts, text },
        ),
        comment_in(ts + seq!['_', '_'] + author + ".md"@, text.push('\n')) == Some(
            CommentView { id: ts + seq!['_', '_'] + author, author, ts, text },
        ),
{
    reveal_strlit(".md");
    let stem = ts + seq!['_', '_'] + author;
    let file = stem + ".md"@;
    assert(file.take(file.len() - 3) =~= stem);
    assert(".md"@.is_suffix_of(file)) by {
        assert(file.subrange(file.len() - 3, file.len() as int) =~= ".md"@);
    }
    law_comment_names_read_back(ts, author);
    lemma_trim_end_append(text, '\n');
}

/// A change of the board's own file concerns the board; changes of histories, of the site's
/// name and of other files outside the directories of the cards concern nothing.
pub proof fn law_other_changes_concern_the_board_or_nothing(path: Seq<char>, k: int)
    requires
        !path.contains('\\'),
        forall|j: int|
            0 <= j && j + 9 <= path.len() ==> #[trigger] path.subrange(j, j + 9) != "/tickets/"@,
    ensures
        0 <= k && k + 8 <= path.len() && path.subrange(k, k + 8) == "/events/"@ ==> change_of(path)
            is None,
        "/.site"@.is_suffix_of(path) ==> change_of(path) is None,
        (forall|j: int|
            0 <= j && j + 8 <= path.len() ==> #[trigger] path.subrange(j, j + 8) != "/events/"@)
            && !"/.site"@.is_suffix_of(path) ==> change_of(path) == (if "board.md"@.is_suffix_of(
            path,
        ) {
            Some(None::<Seq<char>>)
        } else {
            None
        }),
{
    reveal_strlit("/tickets/");
    reveal_strlit("/events/");
    assert(slashed(path) =~= path) by {
        assert forall|j: int| 0 <= j < path.len() implies slashed(path)[j] == path[j] by {
            assert(path.contains(path[j]));
        }
    }
    law_the_first_place_is_the_first(path, "/tickets/"@, 0);
    let f = first_at(path, "/tickets/"@);
    if f < path.len() {
        assert(path.subrange(f, f + 9) == "/tickets/"@);
    }
    assert(ticket_of(path) is None);
    let e = "/events/"@;
    if 0 <= k && k + 8 <= path.len() && path.subrange(k, k + 8) == e {
        assert(path.subrange(k, k + e.len()) == e);
        assert(holds(path, e));
    }
}

} // verus!
