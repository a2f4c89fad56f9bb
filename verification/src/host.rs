//! Serving a folder: kinds of content, and the stream of change events.
use crate::bytes::{copy_bytes, text_bytes};
use crate::chars::{chars_of, copy_text, push_text, same_text, string_of, texts};
use crate::json::{tagged_json, tagged_text};
use crate::sync::tree::{rel_of, wire_name};
use vstd::prelude::*;
use vstd::slice::slice_subrange;
use vstd::utf8::encode_utf8;

verus! {

/// The size that a frame is filled up to, so that it leaves the server's buffer
/// at once.
pub const FLUSH: usize = 1200;

/// A frame that fills the server's buffer: to a short one a comment is added, which
/// readers of the stream skip.
pub open spec fn flushed(frame: Seq<u8>) -> Seq<u8> {
    if frame.len() < FLUSH {
        let fill = if frame.len() + 3 < FLUSH {
            FLUSH - 3 - frame.len()
        } else {
            0
        };
        frame + seq![0x3au8] + Seq::new(fill as nat, |i: int| 0x20u8) + seq![0x0au8, 0x0au8]
    } else {
        frame
    }
}

/// A frame that fills the server's buffer.
pub fn pad_to_flush(frame: Vec<u8>) -> (r: Vec<u8>)
    ensures
        r@ == flushed(frame@),
        r@.len() >= FLUSH,
{
    if frame.len() >= FLUSH {
        return frame;
    }
    let ghost f = frame@;
    let mut out = frame;
    out.push(0x3a);
    while out.len() < FLUSH - 2
        invariant
            f.len() < out@.len(),
            out@.len() <= FLUSH - 2 || out@.len() == f.len() + 1,
            out@ =~= f + seq![0x3au8] + Seq::new(
                (out@.len() - f.len() - 1) as nat,
                |i: int| 0x20u8,
            ),
        decreases FLUSH - out@.len(),
    {
        out.push(0x20);
    }
    out.push(0x0a);
    out.push(0x0a);
    assert(out@ =~= flushed(f));
    out
}

/// A frame is a beginning of what is sent for it, whatever its length, and what is
/// sent fills the buffer.
pub proof fn law_padding_keeps_the_frame(frame: Seq<u8>)
    ensures
        frame.is_prefix_of(flushed(frame)),
        flushed(frame).len() >= FLUSH,
        frame.len() + 3 <= FLUSH ==> flushed(frame).len() == FLUSH,
{
    assert(flushed(frame).subrange(0, frame.len() as int) =~= frame);
}

/// The frame of an event.
pub open spec fn event_frame(msg: Seq<char>) -> Seq<u8> {
    encode_utf8("data: "@ + msg + "\n\n"@)
}

/// The different texts of a list, each where it first stands.
pub open spec fn distinct(v: Seq<Seq<char>>) -> Seq<Seq<char>>
    decreases v.len(),
{
    if v.len() == 0 {
        Seq::empty()
    } else {
        let front = distinct(v.drop_last());
        if front.contains(v.last()) {
            front
        } else {
            front.push(v.last())
        }
    }
}

/// The frames for the messages of one event of the file system; a message that
/// comes twice is sent once.
pub fn event_frames(messages: &Vec<String>) -> (r: Vec<Vec<u8>>)
    ensures
        r@.map_values(|b: Vec<u8>| b@) == distinct(texts(messages@)).map_values(
            |m: Seq<char>| event_frame(m),
        ),
{
    let ghost all = texts(messages@);
    let ghost f = |m: Seq<char>| event_frame(m);
    let mut seen: Vec<String> = Vec::new();
    let mut out: Vec<Vec<u8>> = Vec::new();
    let mut i: usize = 0;
    assert(texts(seen@) =~= distinct(all.take(0)));
    assert(out@.map_values(|b: Vec<u8>| b@) =~= distinct(all.take(0)).map_values(f));
    while i < messages.len()
        invariant
            i <= messages@.len(),
            all == texts(messages@),
            f == (|m: Seq<char>| event_frame(m)),
            texts(seen@) == distinct(all.take(i as int)),
            out@.map_values(|b: Vec<u8>| b@) == distinct(all.take(i as int)).map_values(f),
        decreases messages@.len() - i,
    {
        assert(all.take(i + 1).drop_last() =~= all.take(i as int));
        assert(all.take(i + 1).last() == messages@[i as int]@);
        let m = messages[i].as_str();
        let ghost sb = seen@;
        let ghost ob = out@;
        if !holds_text(&seen, m) {
            let mut cs = chars_of("data: ");
            push_text(&mut cs, m);
            push_text(&mut cs, "\n\n");
            let text = string_of(cs.as_slice());
            out.push(text_bytes(text.as_str()));
            seen.push(copy_text(m));
            assert(texts(seen@) =~= texts(sb).push(m@));
            assert(out@.map_values(|b: Vec<u8>| b@) =~= ob.map_values(|b: Vec<u8>| b@).push(f(m@)));
            assert(distinct(all.take(i + 1)).map_values(f) =~= distinct(
                all.take(i as int),
            ).map_values(f).push(f(m@)));
        }
        i += 1;
    }
    assert(all.take(i as int) =~= all);
    out
}

/// Whether a list holds a text.
fn holds_text(v: &Vec<String>, s: &str) -> (r: bool)
    ensures
        r == texts(v@).contains(s@),
{
    let mut i: usize = 0;
    while i < v.len()
        invariant
            i <= v@.len(),
            forall|j: int| 0 <= j < i ==> #[trigger] texts(v@)[j] != s@,
        decreases v@.len() - i,
    {
        assert(texts(v@)[i as int] == v@[i as int]@);
        if same_text(v[i].as_str(), s) {
            return true;
        }
        i += 1;
    }
    false
}

/// What is left of the frame that is being read.
pub struct SseBuffer {
    buf: Vec<u8>,
    pos: usize,
}

impl View for SseBuffer {
    type V = Seq<u8>;

    closed spec fn view(&self) -> Seq<u8> {
        self.buf@.skip(self.pos as int)
    }
}

impl SseBuffer {
    /// The position lies within the frame.
    pub closed spec fn wf(&self) -> bool {
        self.pos <= self.buf@.len()
    }

    /// Nothing to read.
    pub fn new() -> (r: Self)
        ensures
            r.wf(),
            r@ == Seq::<u8>::empty(),
    {
        let r = SseBuffer { buf: Vec::new(), pos: 0 };
        assert(r@ =~= Seq::<u8>::empty());
        r
    }

    /// Whether the next frame is needed.
    pub fn is_empty(&self) -> (r: bool)
        requires
            self.wf(),
        ensures
            r == (self@.len() == 0),
    {
        self.pos >= self.buf.len()
    }

    /// Takes up the next frame.
    pub fn fill(&mut self, frame: Vec<u8>)
        ensures
            final(self).wf(),
            final(self)@ == flushed(frame@),
    {
        self.buf = pad_to_flush(frame);
        self.pos = 0;
        assert(self@ =~= self.buf@);
    }

    /// The next bytes, at most `n` of them.
    pub fn take(&mut self, n: usize) -> (r: Vec<u8>)
        requires
            old(self).wf(),
        ensures
            final(self).wf(),
            r@.len() == (if n < old(self)@.len() {
                n as nat
            } else {
                old(self)@.len()
            }),
            old(self)@ == r@ + final(self)@,
    {
        let left: usize = self.buf.len() - self.pos;
        let k: usize = if n < left {
            n
        } else {
            left
        };
        let part = slice_subrange(self.buf.as_slice(), self.pos, self.pos + k);
        let out = copy_bytes(part);
        self.pos = self.pos + k;
        assert(old(self)@ =~= out@ + self@);
        out
    }
}

/// The kind of content of a file, by the extension of its name.
pub open spec fn content_kind(ext: Option<Seq<char>>) -> Seq<char> {
    match ext {
        Some(e) => if e == "html"@ {
            "text/html; charset=utf-8"@
        } else if e == "js"@ || e == "mjs"@ {
            "text/javascript; charset=utf-8"@
        } else if e == "css"@ {
            "text/css; charset=utf-8"@
        } else if e == "json"@ {
            "application/json"@
        } else if e == "svg"@ {
            "image/svg+xml"@
        } else if e == "ico"@ {
            "image/x-icon"@
        } else if e == "png"@ {
            "image/png"@
        } else if e == "woff2"@ {
            "font/woff2"@
        } else {
            "application/octet-stream"@
        },
        None => "application/octet-stream"@,
    }
}

/// The kind of content of a file, by the extension of its name.
pub fn content_type(ext: Option<&str>) -> (r: &'static str)
    ensures
        r@ == content_kind(
            match ext {
                Some(e) => Some(e@),
                None => None,
            },
        ),
{
    match ext {
        Some(e) => if same_text(e, "html") {
            "text/html; charset=utf-8"
        } else if same_text(e, "js") || same_text(e, "mjs") {
            "text/javascript; charset=utf-8"
        } else if same_text(e, "css") {
            "text/css; charset=utf-8"
        } else if same_text(e, "json") {
            "application/json"
        } else if same_text(e, "svg") {
            "image/svg+xml"
        } else if same_text(e, "ico") {
            "image/x-icon"
        } else if same_text(e, "png") {
            "image/png"
        } else if same_text(e, "woff2") {
            "font/woff2"
        } else {
            "application/octet-stream"
        },
        None => "application/octet-stream",
    }
}

/// `s` without slashes at its start.
pub open spec fn skip_slashes(s: Seq<char>) -> Seq<char>
    decreases s.len(),
{
    if s.len() > 0 && s[0] == '/' {
        skip_slashes(s.skip(1))
    } else {
        s
    }
}

/// The file below the folder that a path asks for.
pub open spec fn asset_of(path: Seq<char>) -> Seq<char> {
    if skip_slashes(path).len() == 0 {
        "index.html"@
    } else {
        skip_slashes(path)
    }
}

/// The file below the folder that a path asks for: the start page where it names
/// none.
pub fn asset_name(path: &str) -> (r: String)
    ensures
        r@ == asset_of(path@),
{
    let cs = chars_of(path);
    let mut n: usize = 0;
    assert(cs@.skip(0) =~= cs@);
    while n < cs.len() && cs[n] == '/'
        invariant
            n <= cs@.len(),
            skip_slashes(cs@) == skip_slashes(cs@.skip(n as int)),
        decreases cs@.len() - n,
    {
        assert(cs@.skip(n as int).skip(1) =~= cs@.skip(n + 1));
        n += 1;
    }
    assert(skip_slashes(cs@) == cs@.skip(n as int));
    if n == cs.len() {
        return copy_text("index.html");
    }
    let rest = slice_subrange(cs.as_slice(), n, cs.len());
    assert(rest@ =~= cs@.skip(n as int));
    string_of(rest)
}

/// The message that a file changed, from its path below the folder. Files that
/// belong to the machine are not announced.
pub fn change_message(below: &str) -> (r: Option<String>)
    ensures
        match wire_name(below@) {
            Some(rel) => r matches Some(m) && m@ == tagged_text("path"@, rel, "change"@),
            None => r is None,
        },
{
    match rel_of(below) {
        Some(rel) => Some(tagged_json("path", rel.as_str(), "change")),
        None => None,
    }
}

/// Messages that come more than once are sent once, where they first came: nothing is
/// lost, nothing is doubled and the order stays.
pub proof fn law_messages_are_sent_once(v: Seq<Seq<char>>, m: Seq<char>)
    ensures
        distinct(v).contains(m) <==> v.contains(m),
        distinct(v).no_duplicates(),
        v.no_duplicates() ==> distinct(v) == v,
        distinct(v.push(m)) == (if v.contains(m) {
            distinct(v)
        } else {
            distinct(v).push(m)
        }),
    decreases v.len(),
{
    lemma_distinct(v, m);
    assert(v.push(m).drop_last() =~= v);
    if v.len() > 0 && v.no_duplicates() {
        let front = v.drop_last();
        law_messages_are_sent_once(front, v.last());
        assert(!front.contains(v.last())) by {
            if front.contains(v.last()) {
                let i = front.index_of(v.last());
                assert(v[i] == v[v.len() - 1]);
            }
        }
        assert(front.no_duplicates());
        assert(distinct(v) =~= v);
    } else if v.len() == 0 {
        assert(distinct(v) =~= v);
    }
}

proof fn lemma_distinct(v: Seq<Seq<char>>, m: Seq<char>)
    ensures
        distinct(v).contains(m) <==> v.contains(m),
        distinct(v).no_duplicates(),
    decreases v.len(),
{
    if v.len() > 0 {
        let front = v.drop_last();
        let last = v.last();
        lemma_distinct(front, m);
        lemma_distinct(front, last);
        let a = distinct(front);
        let b = distinct(v);
        assert(v[v.len() - 1] == last);
        if b.contains(m) {
            if a.contains(m) {
                assert(v[front.index_of(m)] == m);
            } else {
                assert(b[b.index_of(m)] == last);
            }
        }
        if v.contains(m) {
            let k = v.index_of(m);
            if k < front.len() {
                assert(front[k] == m);
                assert(b[a.index_of(m)] == m);
            } else if a.contains(last) {
                assert(b == a);
            } else {
                assert(b[a.len() as int] == last);
            }
        }
    }
}

/// An asset is named by its path without the slashes in front; the empty path is that of
/// the page.
pub proof fn law_assets_are_named_by_their_paths(slashes: Seq<char>, name: Seq<char>)
    requires
        forall|i: int| 0 <= i < slashes.len() ==> #[trigger] slashes[i] == '/',
        name.len() > 0 ==> name[0] != '/',
    ensures
        name.len() > 0 ==> asset_of(slashes + name) == name,
        name.len() == 0 ==> asset_of(slashes + name) == "index.html"@,
{
    lemma_skip_slashes(slashes, name);
}

proof fn lemma_skip_slashes(slashes: Seq<char>, name: Seq<char>)
    requires
        forall|i: int| 0 <= i < slashes.len() ==> #[trigger] slashes[i] == '/',
        name.len() > 0 ==> name[0] != '/',
    ensures
        skip_slashes(slashes + name) == name,
    decreases slashes.len(),
{
    let all = slashes + name;
    if slashes.len() > 0 {
        let rest = slashes.skip(1);
        assert forall|i: int| 0 <= i < rest.len() implies #[trigger] rest[i] == '/' by {
            assert(rest[i] == slashes[i + 1]);
        }
        lemma_skip_slashes(rest, name);
        assert(all.skip(1) =~= rest + name);
        assert(all[0] == slashes[0]);
    } else {
        assert(all =~= name);
    }
}

/// A file is served with the type that its extension stands for, and one with another
/// extension, or with none, as plain bytes.
pub proof fn law_types_follow_extensions(e: Seq<char>)
    ensures
        e == "html"@ ==> content_kind(Some(e)) == "text/html; charset=utf-8"@,
        e == "js"@ || e == "mjs"@ ==> content_kind(Some(e)) == "text/javascript; charset=utf-8"@,
        e == "css"@ ==> content_kind(Some(e)) == "text/css; charset=utf-8"@,
        e == "json"@ ==> content_kind(Some(e)) == "application/json"@,
        e == "svg"@ ==> content_kind(Some(e)) == "image/svg+xml"@,
        e == "ico"@ ==> content_kind(Some(e)) == "image/x-icon"@,
        e == "png"@ ==> content_kind(Some(e)) == "image/png"@,
        e == "woff2"@ ==> content_kind(Some(e)) == "font/woff2"@,
        e != "html"@ && e != "js"@ && e != "mjs"@ && e != "css"@ && e != "json"@ && e != "svg"@ && e
            != "ico"@ && e != "png"@ && e != "woff2"@ ==> content_kind(Some(e))
            == "application/octet-stream"@,
        content_kind(None) == "application/octet-stream"@,
{
    reveal_strlit("html");
    reveal_strlit("js");
    reveal_strlit("mjs");
    reveal_strlit("css");
    reveal_strlit("json");
    reveal_strlit("svg");
    reveal_strlit("ico");
    reveal_strlit("png");
    reveal_strlit("woff2");
    assert("html"@[0] == 'h' && "js"@[0] == 'j' && "mjs"@[0] == 'm' && "css"@[0] == 'c');
    assert("json"@[0] == 'j' && "json"@.len() == 4 && "js"@.len() == 2 && "svg"@[0] == 's');
    assert("ico"@[0] == 'i' && "png"@[0] == 'p' && "woff2"@[0] == 'w');
}

} // verus!
