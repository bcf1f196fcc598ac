use rofi_bookmarks::{decide, display_lines, find_bookmark, parse_markdown, Action, Bookmark};

#[test]
fn display_joins_title_and_tags() {
    let b = Bookmark {
        title: "T".to_string(),
        url: "u".to_string(),
        tags: "#a".to_string(),
    };
    assert_eq!(b.to_rofi_string(), "T #a");
    let b2 = Bookmark {
        title: "T".to_string(),
        url: "u".to_string(),
        tags: String::new(),
    };
    assert_eq!(b2.to_rofi_string(), "T");
}

#[test]
fn no_selection_shows_list() {
    let bs = parse_markdown("- [A](u) #x\n- [B](v)\n");
    assert!(matches!(decide(&bs, None), Action::ShowList));
    let lines = display_lines(&bs);
    assert_eq!(lines, vec!["A #x".to_string(), "B".to_string()]);
}

#[test]
fn round_trip_every_display_string() {
    let content = "- [A](u) #x\n- [B](v)\n- [C](w) #y #z\n";
    let bs = parse_markdown(content);
    assert_eq!(bs.len(), 3);
    for (i, b) in bs.iter().enumerate() {
        assert_eq!(find_bookmark(&bs, &b.to_rofi_string()), Some(i));
    }
}

#[test]
fn duplicate_display_opens_first_in_file_order() {
    let content = "- [Docs](http://a)\n- [Docs](http://b)\n";
    let bs = parse_markdown(content);
    assert_eq!(find_bookmark(&bs, "Docs"), Some(0));
    match decide(&bs, Some("Docs")) {
        Action::Open(u) => assert_eq!(u, "http://a"),
        _ => panic!("expected the first matching bookmark to be opened"),
    }
}

#[test]
fn miss_reports_not_found() {
    let bs = parse_markdown("- [A](u)\n");
    assert_eq!(find_bookmark(&bs, "B"), None);
    assert!(matches!(decide(&bs, Some("B")), Action::NotFound));
}

#[test]
fn matching_is_exact_not_normalized() {
    let bs = parse_markdown("- [A](u) #x\n");
    assert_eq!(find_bookmark(&bs, "A #x"), Some(0));
    assert_eq!(find_bookmark(&bs, "a #x"), None);
    assert_eq!(find_bookmark(&bs, "A #x "), None);
    assert_eq!(find_bookmark(&bs, "A"), None);
}

#[test]
fn selection_matches_against_title_alone_when_no_tags() {
    let bs = parse_markdown("- [Plain](u)\n");
    assert_eq!(find_bookmark(&bs, "Plain"), Some(0));
    match decide(&bs, Some("Plain")) {
        Action::Open(u) => assert_eq!(u, "u"),
        _ => panic!("expected open"),
    }
}
