use riftpipe::board::{
    change_json, column_or_default, create_card, event_line, has_room, message_for_path,
    new_comment, new_id, order_by_key, patch_card, read_comment, route, stamp_of,
    CardEvent, CardPatch, Change, Method, Route,
};
use riftpipe::calendar::{date_of, iso_time};
use riftpipe::cli::{
    decode_mesh_ticket, encode_mesh_ticket, flag_value, link_target, parse, process_path,
};
use riftpipe::host::{
    asset_name, change_message, content_type, event_frames, pad_to_flush, SseBuffer, FLUSH,
};
use riftpipe::kanban::Card;
use riftpipe::page::read_ask;

#[test]
fn ids_and_iso_are_well_formed() {
    let id = new_id(rand::random::<u32>());
    assert!(id.starts_with("tk_") && id.len() == 11);
    let now = std::time::SystemTime::now().duration_since(std::time::UNIX_EPOCH).unwrap();
    let ts = iso_time(now.as_secs(), now.subsec_millis());
    assert_eq!(ts.len(), 24); // YYYY-MM-DDTHH:MM:SS.mmmZ
    assert!(ts.ends_with('Z') && ts.contains('T') && ts.contains('.'));
}

#[test]
fn ids_and_times_are_exact() {
    assert_eq!(new_id(0), "tk_00000000");
    assert_eq!(new_id(0xdead_beef), "tk_deadbeef");
    assert_eq!(iso_time(0, 0), "1970-01-01T00:00:00.000Z");
    assert_eq!(iso_time(951_782_400, 7), "2000-02-29T00:00:00.007Z");
    assert_eq!(iso_time(1_767_225_599, 999), "2025-12-31T23:59:59.999Z");
    assert_eq!(date_of(0), (1970, 1, 1));
    assert_eq!(date_of(11_016), (2000, 2, 29));
    assert_eq!(date_of(47_541), (2100, 3, 1));
    assert_eq!(stamp_of("2026-06-27T18:00:00.000Z"), "2026-06-27T18-00-00.000Z");
}

#[test]
fn requests_are_told_apart() {
    assert!(matches!(route(Method::Get, "/api/board?x=1", true), Route::Board));
    assert!(matches!(route(Method::Get, "/api/events", true), Route::Events));
    assert!(matches!(route(Method::Get, "//api/history/", false), Route::History));
    assert!(matches!(route(Method::Get, "/api/cards/t1", true), Route::Card(id) if id == "t1"));
    assert!(matches!(route(Method::Get, "/api/cards/t1/detail", true), Route::Detail(id) if id == "t1"));
    assert!(matches!(route(Method::Post, "/api/cards", true), Route::Create));
    assert!(matches!(route(Method::Patch, "/api/cards/t1", true), Route::Patch(id) if id == "t1"));
    assert!(matches!(route(Method::Post, "/api/cards/t1/comments", true), Route::Comment(id) if id == "t1"));
    assert!(matches!(route(Method::Get, "/index.html", true), Route::Static));
    assert!(matches!(route(Method::Get, "/index.html", false), Route::NotFound));
    assert!(matches!(route(Method::Get, "/api/events", false), Route::NotFound));
    assert!(matches!(route(Method::Other, "/api/board", true), Route::NotFound));
}

fn card(id: &str, column: &str, position: i64) -> Card {
    Card {
        id: id.to_string(),
        title: format!("title of {id}"),
        column: column.to_string(),
        position,
        done: false,
    }
}

#[test]
fn new_cards_come_last_in_their_column() {
    let columns = vec!["Todo".to_string(), "Done".to_string()];
    let cards = vec![card("a", "Todo", 4), card("b", "Done", 9), card("c", "Todo", -7)];
    assert!(has_room(&columns, &cards, ""));
    let p = create_card(&columns, &cards, "", "", "tk_1");
    assert_eq!((p.card.column.as_str(), p.card.position), ("Todo", 5));
    assert_eq!((p.card.title.as_str(), p.card_md.as_str()), ("tk_1", "# tk_1\n"));
    assert_eq!(p.meta_toml, "column = \"Todo\"\nposition = 5\ndone = false\n");
    let p = create_card(&columns, &[], "New", "T", "tk_2");
    assert_eq!((p.card.column.as_str(), p.card.position), ("New", 0));
    // A column below zero goes on from its last card.
    let low = vec![card("a", "Todo", -9), card("b", "Todo", -5), card("c", "Done", 3)];
    assert_eq!(create_card(&columns, &low, "Todo", "T", "tk_3").card.position, -4);
    assert!(!has_room(&columns, &[card("a", "Todo", i64::MAX)], "Todo"));
    assert_eq!(column_or_default(&[]), "Todo");
}

#[test]
fn history_lines_are_exact() {
    let line = |e: &CardEvent| event_line("T", "s", e);
    let id = || "i\"".to_string();
    let create = CardEvent::Create { id: id(), column: "c".into(), title: "t".into() };
    assert_eq!(
        line(&create),
        r#"{"ts":"T","site":"s","kind":"card.create","id":"i\"","column":"c","title":"t"}"#
    );
    let check = CardEvent::Check { id: id(), done: true };
    assert_eq!(line(&check), r#"{"ts":"T","site":"s","kind":"card.check","id":"i\"","done":true}"#);
    let mv = CardEvent::Move { id: id(), from: "a".into(), to: "b".into() };
    assert_eq!(line(&mv), r#"{"ts":"T","site":"s","kind":"card.move","id":"i\"","from":"a","to":"b"}"#);
    let edit = CardEvent::EditTitle { id: id(), value: "v".into() };
    assert_eq!(
        line(&edit),
        r#"{"ts":"T","site":"s","kind":"card.edit","id":"i\"","field":"title","value":"v"}"#
    );
    let edit = CardEvent::EditDescription { id: id() };
    assert_eq!(
        line(&edit),
        r#"{"ts":"T","site":"s","kind":"card.edit","id":"i\"","field":"description"}"#
    );
    let add = CardEvent::Comment { id: id(), comment: "c".into() };
    assert_eq!(line(&add), r#"{"ts":"T","site":"s","kind":"comment.add","id":"i\"","comment":"c"}"#);
}

fn request(text: &str) -> CardPatch {
    read_ask(text).patch
}

#[test]
fn requests_name_what_they_change() {
    let p = request(r#"{"column":"X","position":3,"done":true,"title":"","description":5}"#);
    assert_eq!((p.column.as_deref(), p.position, p.done), (Some("X"), Some(3), Some(true)));
    assert_eq!((p.names_title, p.title.as_deref()), (true, Some("")));
    assert_eq!((p.names_description, p.description), (true, None));
    let p = request(r#"{"position":1.5,"done":"yes"}"#);
    assert_eq!((p.column, p.position, p.done, p.names_title), (None, None, None, false));
    assert!(!request("[]").names_title);
}

#[test]
fn changes_are_recorded() {
    let c = card("tk", "Todo", 1);
    let p = patch_card(&c, "old", &request(r#"{"column":"Done","done":true,"title":"N","description":"new"}"#));
    assert_eq!(p.events.len(), 4);
    assert!(matches!(&p.events[0], CardEvent::Move { from, to, .. } if from == "Todo" && to == "Done"));
    assert!(matches!(&p.events[1], CardEvent::Check { done: true, .. }));
    assert!(matches!(&p.events[2], CardEvent::EditTitle { value, .. } if value == "N"));
    assert!(matches!(&p.events[3], CardEvent::EditDescription { .. }));
    assert_eq!(p.card_md.as_deref(), Some("# N\n\nnew\n"));
    assert_eq!(p.meta_toml, "column = \"Done\"\nposition = 1\ndone = true\n");
    // Nothing named, nothing changed.
    let p = patch_card(&c, "old", &request("{}"));
    assert!(p.events.is_empty() && p.card_md.is_none());
    assert_eq!(p.card, c);
}

#[test]
fn comments_have_their_author_in_the_name() {
    let c = new_comment(Some("  hi \n"), Some("Alice Smith"), "T1").unwrap();
    assert_eq!((c.id.as_str(), c.author.as_str(), c.text.as_str()), ("T1__alice-smith", "alice-smith", "hi"));
    assert_eq!(new_comment(Some("x"), None, "T").unwrap().id, "T__anon");
    assert!(new_comment(Some(" \n"), None, "T").is_none());
    assert!(new_comment(None, None, "T").is_none());
    let r = read_comment("T1__bob.md", "text \n\n").unwrap();
    assert_eq!((r.id.as_str(), r.ts.as_str(), r.author.as_str(), r.text.as_str()), ("T1__bob", "T1", "bob", "text"));
    assert!(read_comment("T1__bob.txt", "x").is_none());
    assert!(read_comment("T1.md", "x").is_none());
}

#[test]
fn equal_keys_keep_their_order() {
    let keys: Vec<String> = ["b", "a", "b", ""].iter().map(|s| s.to_string()).collect();
    assert_eq!(order_by_key(&keys), [3, 1, 0, 2]);
}

#[test]
fn changes_on_disk_reach_the_interface() {
    let msg = |p: &str| message_for_path(p).map(|c| change_json(&c));
    assert_eq!(msg("/d/tickets/tk_1/card.md").as_deref(), Some(r#"{"id":"tk_1","type":"ticket"}"#));
    assert_eq!(msg("C:\\d\\tickets\\tk_1\\meta.toml").as_deref(), Some(r#"{"id":"tk_1","type":"ticket"}"#));
    assert_eq!(msg("/d/board.md").as_deref(), Some(r#"{"type":"board"}"#));
    assert_eq!(msg("/d/events/x.jsonl"), None);
    assert_eq!(msg("/d/.site"), None);
    assert_eq!(msg("/d/other.txt"), None);
    assert!(matches!(message_for_path("/tickets/x"), Some(Change::Ticket(_))));
}

#[test]
fn short_frames_are_filled_up() {
    let f = pad_to_flush(b"data: x\n\n".to_vec());
    assert_eq!(f.len(), FLUSH);
    assert!(f.starts_with(b"data: x\n\n:  ") && f.ends_with(b"  \n\n"));
    assert_eq!(pad_to_flush(vec![7; FLUSH]), vec![7; FLUSH]);
    for n in [FLUSH - 3, FLUSH - 2, FLUSH - 1] {
        let frame = vec![7; n];
        let f = pad_to_flush(frame.clone());
        assert_eq!(f, [frame, b":\n\n".to_vec()].concat());
    }
    assert_eq!(pad_to_flush(vec![7; FLUSH - 4]).len(), FLUSH);
    let m = |s: &str| s.to_string();
    let frames = event_frames(&vec![m("a"), m("b"), m("a")]);
    assert_eq!(frames, vec![b"data: a\n\n".to_vec(), b"data: b\n\n".to_vec()]);
}

#[test]
fn a_buffer_hands_out_a_frame_in_parts() {
    let mut b = SseBuffer::new();
    assert!(b.is_empty() && b.take(5).is_empty());
    b.fill(b"abc".to_vec());
    assert_eq!(b.take(2), b"ab");
    assert_eq!(b.take(usize::MAX).len(), FLUSH - 2);
    assert!(b.is_empty());
}

#[test]
fn content_goes_by_extension() {
    assert_eq!(content_type(Some("html")), "text/html; charset=utf-8");
    assert_eq!(content_type(Some("mjs")), "text/javascript; charset=utf-8");
    assert_eq!(content_type(Some("woff2")), "font/woff2");
    assert_eq!(content_type(Some("HTML")), "application/octet-stream");
    assert_eq!(content_type(None), "application/octet-stream");
}

#[test]
fn paths_name_files_of_the_folder() {
    assert_eq!(asset_name("/"), "index.html");
    assert_eq!(asset_name(""), "index.html");
    assert_eq!(asset_name("//js/app.js"), "js/app.js");
    assert_eq!(change_message("a\\b.md").as_deref(), Some(r#"{"path":"a/b.md","type":"change"}"#));
    assert_eq!(change_message("a/.b"), None);
    assert_eq!(change_message(""), None);
}

fn args(list: &[&str]) -> Vec<String> {
    list.iter().map(|s| s.to_string()).collect()
}

#[test]
fn options_stand_anywhere() {
    let o = parse(&args(&["riftpipe", "sync", "a", "--pipe", "--metrics", "m", "--what", "b", "--signal"]));
    assert_eq!(o.pos, ["a", "b"]);
    assert!(o.pipe && !o.memory && !o.accept);
    assert_eq!(o.metrics.as_deref(), Some("m"));
    assert_eq!(o.signal, None);
    assert_eq!(process_path(&o), None);
    let o = parse(&args(&["riftpipe", "sync", "--memory", "--accept", "--manifest", "--pipe"]));
    assert_eq!((o.manifest.as_deref(), o.pipe), (Some("--pipe"), false));
    assert_eq!(process_path(&o).as_deref(), Some("process"));
    let o = parse(&args(&["riftpipe", "sync", "--process", "p"]));
    assert_eq!(process_path(&o).as_deref(), Some("p"));
    assert_eq!(flag_value(&args(&["x", "--port", "80"]), "--port").as_deref(), Some("80"));
    assert_eq!(flag_value(&args(&["x", "--port"]), "--port"), None);
}

#[test]
fn links_carry_invitations_behind_the_hash() {
    assert_eq!(link_target("https://x/#abc"), "abc");
    assert_eq!(link_target("a#b#c"), "c");
    assert_eq!(link_target("plain"), "plain");
    assert_eq!(encode_mesh_ticket(&[0, 255, 16]), "00ff10");
    assert_eq!(decode_mesh_ticket("00Ff10"), Some(vec![0, 255, 16]));
    assert_eq!(decode_mesh_ticket("0"), None);
    assert_eq!(decode_mesh_ticket("zz"), None);
    assert_eq!(decode_mesh_ticket(""), None);
}
