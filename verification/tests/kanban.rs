use riftpipe::kanban::{
    board_md, card_from_files, card_md, first_heading, meta_toml, parse_board_md,
    parse_comment_name, parse_meta, sanitize_author, slug_of, split_card_md,
};

#[test]
fn board_and_card_roundtrip() {
    let (t, cols) = parse_board_md("# My Board\n\n- Todo\n- Doing\n- Done\n");
    assert_eq!(t, "My Board");
    assert_eq!(cols, ["Todo", "Doing", "Done"]);
    assert_eq!(parse_board_md(&board_md(&t, &cols)), (t, cols));

    let (title, desc) = split_card_md("# Hello\n\nbody line\nmore");
    assert_eq!((title.as_str(), desc.as_str()), ("Hello", "body line\nmore"));
    assert_eq!(split_card_md(&card_md(&title, &desc)).0, "Hello");
}

#[test]
fn meta_roundtrips_and_tolerates_junk() {
    let m = parse_meta(&meta_toml("In Progress", 7, true));
    assert_eq!(m.column.as_deref(), Some("In Progress"));
    assert_eq!((m.position, m.done), (7, true));
    let empty = parse_meta("");
    assert_eq!((empty.column, empty.position, empty.done), (None, 0, false));

    // Columns containing quotes/backslashes round-trip exactly.
    let weird = r#"a"b\c"#;
    let m = parse_meta(&meta_toml(weird, 0, false));
    assert_eq!(m.column.as_deref(), Some(weird));
}

#[test]
fn authors_and_comment_names() {
    assert_eq!(sanitize_author("Alice Smith!"), "alice-smith");
    assert_eq!(sanitize_author("  "), "anon");
    assert_eq!(
        parse_comment_name("2026-06-27T18-00-00Z__alice"),
        Some(("2026-06-27T18-00-00Z".into(), "alice".into()))
    );
    assert_eq!(parse_comment_name("nodelimiter"), None);
}

#[test]
fn headings_are_trimmed_and_the_first_counts() {
    assert_eq!(first_heading("text\n#no\n#   Title  \r\n# Other\n").as_deref(), Some("Title"));
    assert_eq!(first_heading("# \n#\n"), None);
    assert_eq!(first_heading(""), None);
    assert_eq!(parse_board_md(""), ("Board".to_string(), Vec::<String>::new()));
}

#[test]
fn board_text_is_exact() {
    assert_eq!(board_md("B", &["x".to_string(), "y z".to_string()]), "# B\n\n- x\n- y z\n");
    assert_eq!(card_md("T", ""), "# T\n");
    assert_eq!(card_md("T", "  \n"), "# T\n");
    assert_eq!(card_md("T", "d\n\n"), "# T\n\nd\n");
    assert_eq!(meta_toml("a\"b\\", -3, false), "column = \"a\\\"b\\\\\"\nposition = -3\ndone = false\n");
}

#[test]
fn a_card_without_a_heading_has_neither_title_nor_description() {
    assert_eq!(split_card_md("just\ntext\n"), (String::new(), String::new()));
    assert_eq!(split_card_md("x\n# T\n\n\n a\r\nb \n\n"), ("T".to_string(), " a\nb".to_string()));
}

#[test]
fn cards_round_trip_with_their_description() {
    for d in ["one", "one\ntwo\n\nthree", " indented\n", "tail  \n\n"] {
        let (t, got) = split_card_md(&card_md("Title here", d));
        assert_eq!(t, "Title here");
        assert_eq!(got, d.trim_end());
    }
}

#[test]
fn fields_read_numbers_and_later_lines_win() {
    let m = parse_meta("position = +12\nposition = x\ncolumn = bare\ncolumn = \"\"\ndone = TRUE\n");
    assert_eq!((m.column, m.position, m.done), (None, 0, false));
    let m = parse_meta("position = -9223372036854775808\ndone=true\r\n other = 1\ncolumn = plain");
    assert_eq!((m.column.as_deref(), m.position, m.done), (Some("plain"), i64::MIN, true));
    assert_eq!(parse_meta("position = 9223372036854775808").position, 0);
    assert_eq!(parse_meta("position = 9223372036854775807").position, i64::MAX);
}

#[test]
fn cards_take_defaults_for_what_is_missing() {
    let c = card_from_files("tk_1", "", "", "Todo");
    assert_eq!((c.id.as_str(), c.title.as_str(), c.column.as_str()), ("tk_1", "tk_1", "Todo"));
    assert_eq!((c.position, c.done), (0, false));
    let c = card_from_files("tk_1", "# Hi\n", "column = \"X\"\nposition = 4\ndone = true\n", "Todo");
    assert_eq!((c.title.as_str(), c.column.as_str(), c.position, c.done), ("Hi", "X", 4, true));
}

#[test]
fn slugs_keep_letters_digits_and_dashes() {
    assert_eq!(slug_of("--a__b  c--"), "a-b-c");
    assert_eq!(slug_of("a -b"), "a--b");
    assert_eq!(slug_of(""), "anon");
    assert_eq!(sanitize_author("ÄÖÜ Bob"), "bob");
    assert_eq!(sanitize_author("JOSÉ-1"), "jos--1");
    for name in ["Alice Smith!", "  ", "ÄÖÜ Bob", "JOSÉ-1", "-a--b-"] {
        let once = sanitize_author(name);
        assert_eq!(sanitize_author(&once), once);
    }
}

#[test]
fn comment_names_split_at_the_first_pair() {
    assert_eq!(parse_comment_name("a__b__c"), Some(("a".into(), "b__c".into())));
    assert_eq!(parse_comment_name("a___b"), Some(("a".into(), "_b".into())));
    assert_eq!(parse_comment_name("__"), Some((String::new(), String::new())));
    assert_eq!(parse_comment_name("_"), None);
}
