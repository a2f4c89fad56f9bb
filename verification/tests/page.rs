use riftpipe::board::Method;
use riftpipe::page::{
    can_answer, handle, history, history_text, read_ask, respond, Files, Reply, Share, Ticket,
};

fn empty() -> Files {
    Files { board_md: None, tickets: vec![], events: vec![], site: None }
}

/// Writes what a reply asks for into the files.
fn write_back(files: &mut Files, reply: &Reply) {
    for w in &reply.writes {
        let parts: Vec<&str> = w.path.split('/').collect();
        match parts.as_slice() {
            ["board.md"] => files.board_md = Some(w.text.clone()),
            [".site"] => files.site = Some(w.text.clone()),
            ["events", name] => {
                files.events.retain(|(n, _)| n != name);
                files.events.push((name.to_string(), w.text.clone()));
            }
            ["tickets", id, rest @ ..] => {
                if !files.tickets.iter().any(|t| t.id == *id) {
                    files.tickets.push(Ticket {
                        id: id.to_string(),
                        card_md: String::new(),
                        meta_toml: String::new(),
                        comments: vec![],
                    });
                }
                let t = files.tickets.iter_mut().find(|t| t.id == *id).unwrap();
                match rest {
                    ["card.md"] => t.card_md = w.text.clone(),
                    ["meta.toml"] => t.meta_toml = w.text.clone(),
                    ["comments", name] => t.comments.push((name.to_string(), w.text.clone())),
                    _ => panic!("unexpected path {}", w.path),
                }
            }
            _ => panic!("unexpected path {}", w.path),
        }
    }
}

const NOW: &str = "2026-06-27T18:00:00.000Z";

fn call(files: &mut Files, method: Method, url: &str, body: &str) -> (u16, String) {
    let reply = handle(files, method, url, body, 0xdead_beef, 0x51, NOW).unwrap();
    write_back(files, &reply);
    (reply.status, reply.body)
}

/// The board's requests without a server: a card that one call makes is seen by
/// the next.
#[test]
fn the_board_runs_without_a_server() {
    let mut files = empty();
    let made = call(&mut files, Method::Post, "/api/cards", r#"{"title":"made in browser","column":"Doing"}"#);
    assert_eq!(
        made,
        (200, r#"{"column":"Doing","done":false,"id":"tk_deadbeef","position":0,"title":"made in browser"}"#.to_string())
    );
    let board = call(&mut files, Method::Get, "/api/board", "");
    assert_eq!(
        board.1,
        format!(r#"{{"cards":[{}],"columns":["Todo","Doing","Done"],"title":"My Board"}}"#, made.1)
    );
    assert_eq!(call(&mut files, Method::Get, "/api/cards/tk_deadbeef", ""), made);

    let patch = call(&mut files, Method::Patch, "/api/cards/tk_deadbeef", r#"{"done":true,"description":"no server!"}"#);
    assert_eq!(patch.0, 200);
    assert!(patch.1.contains(r#""done":true"#));
    let note = call(&mut files, Method::Post, "/api/cards/tk_deadbeef/comments", r#"{"author":"Alice B","text":" hello "}"#);
    assert_eq!(
        note.1,
        r#"{"id":"2026-06-27T18-00-00.000Z__alice-b","author":"alice-b","ts":"2026-06-27T18-00-00.000Z","text":"hello"}"#
    );
    let detail = call(&mut files, Method::Get, "/api/cards/tk_deadbeef/detail", "");
    assert_eq!(
        detail.1,
        format!(
            r#"{{"column":"Doing","comments":[{}],"description":"no server!","done":true,"id":"tk_deadbeef","position":0,"title":"made in browser"}}"#,
            r#"{"author":"alice-b","id":"2026-06-27T18-00-00.000Z__alice-b","text":"hello","ts":"2026-06-27T18-00-00.000Z"}"#
        )
    );
}

/// Each change adds a line to the history of the site, which gets a name of eight
/// hexadecimal digits at first.
#[test]
fn changes_are_logged_under_the_site() {
    let mut files = empty();
    call(&mut files, Method::Post, "/api/cards", r#"{"title":"logged card","column":"Todo"}"#);
    assert_eq!(files.site.as_deref(), Some("00000051"));
    assert_eq!(files.events[0].0, "00000051.jsonl");
    assert_eq!(
        files.events[0].1,
        "{\"ts\":\"2026-06-27T18:00:00.000Z\",\"site\":\"00000051\",\"kind\":\"card.create\",\"id\":\"tk_deadbeef\",\"column\":\"Todo\",\"title\":\"logged card\"}\n"
    );
    call(&mut files, Method::Patch, "/api/cards/tk_deadbeef", r#"{"column":"Done","done":true}"#);
    assert_eq!(files.events[0].1.lines().count(), 3);
    let got = call(&mut files, Method::Get, "/api/history", "");
    assert!(got.1.starts_with("[{\"column\":\"Todo\",\"id\":\"tk_deadbeef\",\"kind\":\"card.create\","));
    assert_eq!(got.1.matches("\"ts\":").count(), 3);
    assert!(got.1.contains("card.move") && got.1.contains("card.check"));
}

#[test]
fn what_is_not_there_is_not_found() {
    let mut files = empty();
    for (m, url) in [
        (Method::Get, "/api/cards/none"),
        (Method::Get, "/api/cards/none/detail"),
        (Method::Patch, "/api/cards/none"),
        (Method::Post, "/api/cards/none/comments"),
        (Method::Get, "/nothing"),
        (Method::Other, "/api/board"),
    ] {
        assert_eq!(call(&mut files, m, url, "{}"), (404, "Not Found".to_string()));
    }
    call(&mut files, Method::Post, "/api/cards", "not json");
    let blank = call(&mut files, Method::Post, "/api/cards/tk_deadbeef/comments", r#"{"text":"  "}"#);
    assert_eq!(blank, (400, "Comment text is required".to_string()));
}

#[test]
fn looking_writes_nothing_but_a_new_board() {
    let mut files = empty();
    let first = handle(&files, Method::Get, "/api/board", "", 1, 2, NOW).unwrap();
    assert_eq!(first.writes.len(), 1);
    assert_eq!(first.writes[0].path, "board.md");
    assert_eq!(first.writes[0].share, Share::Nobody);
    write_back(&mut files, &first);
    for url in ["/api/board", "/api/history", "/api/cards/x", "/else"] {
        assert!(handle(&files, Method::Get, url, "", 1, 2, NOW).unwrap().writes.is_empty());
    }
}

#[test]
fn writes_say_who_gets_them() {
    let mut files = empty();
    files.board_md = Some("# B\n\n- Only\n".to_string());
    files.site = Some(" me \n".to_string());
    files.events = vec![("me.jsonl".to_string(), "old\n".to_string())];
    let r = handle(&files, Method::Post, "/api/cards", "{}", 7, 8, NOW).unwrap();
    let got: Vec<(&str, Share)> = r.writes.iter().map(|w| (w.path.as_str(), w.share)).collect();
    assert_eq!(
        got,
        [
            ("tickets/tk_00000007/card.md", Share::AsText),
            ("tickets/tk_00000007/meta.toml", Share::AsFile),
            ("events/me.jsonl", Share::AsText),
        ]
    );
    assert!(r.writes[2].text.starts_with("old\n{\"ts\":"));
    assert_eq!(r.writes[1].text, "column = \"Only\"\nposition = 0\ndone = false\n");
}

#[test]
fn histories_are_merged_by_time() {
    let files = vec![
        ("a.jsonl".to_string(), "{\"ts\":\"2\",\"n\":1}\nnot json\n{\"n\":2}\n".to_string()),
        ("b.txt".to_string(), "{\"ts\":\"0\"}\n".to_string()),
        ("b.jsonl".to_string(), "{\"ts\":\"1\"}\n{\"ts\":\"2\",\"n\":3}".to_string()),
    ];
    assert_eq!(
        history(&files),
        ["{\"n\":2}", "{\"ts\":\"1\"}", "{\"ts\":\"2\",\"n\":1}", "{\"ts\":\"2\",\"n\":3}"]
    );
    assert_eq!(
        history_text(&files),
        "[{\"n\":2},{\"ts\":\"1\"},{\"n\":1,\"ts\":\"2\"},{\"n\":3,\"ts\":\"2\"}]"
    );
    assert_eq!(history_text(&vec![]), "[]");
}

#[test]
fn a_full_column_takes_no_more_cards() {
    let mut files = empty();
    files.tickets.push(Ticket {
        id: "t".to_string(),
        card_md: String::new(),
        meta_toml: "column = \"Todo\"\nposition = 9223372036854775807\n".to_string(),
        comments: vec![],
    });
    let ask = read_ask(r#"{"column":"Todo"}"#);
    assert!(!can_answer(&files, Method::Post, "/api/cards", &ask));
    assert!(handle(&files, Method::Post, "/api/cards", "{}", 1, 2, NOW).is_none());
    let other = read_ask(r#"{"column":"Done"}"#);
    assert!(can_answer(&files, Method::Post, "/api/cards", &other));
    assert_eq!(respond(&files, Method::Post, "/api/cards", &other, 1, 2, NOW).status, 200);
}
