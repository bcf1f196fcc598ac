use rofi_bookmarks::parse_markdown;

#[test]
fn parses_full_line() {
    let bs = parse_markdown("- [Rust Book](https://doc.rust-lang.org/book/) #rust #learning");
    assert_eq!(bs.len(), 1);
    assert_eq!(bs[0].title, "Rust Book");
    assert_eq!(bs[0].url, "https://doc.rust-lang.org/book/");
    assert_eq!(bs[0].tags, "#rust #learning");
    assert_eq!(bs[0].to_rofi_string(), "Rust Book #rust #learning");
}

#[test]
fn parses_empty_url() {
    let bs = parse_markdown("- [Untitled]()");
    assert_eq!(bs.len(), 1);
    assert_eq!(bs[0].title, "Untitled");
    assert_eq!(bs[0].url, "");
    assert_eq!(bs[0].tags, "");
    assert_eq!(bs[0].to_rofi_string(), "Untitled");
}

#[test]
fn parses_empty_title_and_url() {
    let bs = parse_markdown("- []()");
    assert_eq!(bs.len(), 1);
    assert_eq!(bs[0].title, "");
    assert_eq!(bs[0].url, "");
    assert_eq!(bs[0].tags, "");
    assert_eq!(bs[0].to_rofi_string(), "");
}

#[test]
fn skips_prose_line() {
    let bs = parse_markdown("Just some notes, no link here.");
    assert!(bs.is_empty());
}

#[test]
fn skips_headers_blank_lines_and_near_misses() {
    let content = "# Bookmarks\n\nSome prose.\n- not a link\n* [x](y)\n";
    assert!(parse_markdown(content).is_empty());
}

#[test]
fn skips_dash_only_lines() {
    assert!(parse_markdown("-\n- \n").is_empty());
}

#[test]
fn empty_content_parses_to_nothing() {
    assert!(parse_markdown("").is_empty());
}

#[test]
fn keeps_file_order_and_trims_captures() {
    let content = "  -  [ A ](  u1  )   t1  \n- [B](u2)\n- [C](u3) #c\n";
    let bs = parse_markdown(content);
    assert_eq!(bs.len(), 3);
    assert_eq!(bs[0].title, "A");
    assert_eq!(bs[0].url, "u1");
    assert_eq!(bs[0].tags, "t1");
    assert_eq!(bs[1].title, "B");
    assert_eq!(bs[1].url, "u2");
    assert_eq!(bs[1].tags, "");
    assert_eq!(bs[2].title, "C");
    assert_eq!(bs[2].url, "u3");
    assert_eq!(bs[2].tags, "#c");
}

#[test]
fn handles_crlf_line_endings() {
    let bs = parse_markdown("- [A](u) x\r\n- [B](v)\r\n");
    assert_eq!(bs.len(), 2);
    assert_eq!(bs[0].title, "A");
    assert_eq!(bs[0].tags, "x");
    assert_eq!(bs[1].title, "B");
    assert_eq!(bs[1].url, "v");
}

#[test]
fn parses_tab_indented_line() {
    let bs = parse_markdown("\t- [T](u)");
    assert_eq!(bs.len(), 1);
    assert_eq!(bs[0].title, "T");
}

#[test]
fn lazy_captures_break_at_first_closers() {
    // nested brackets and parentheses: the title ends at the first `](`, the
    // url at the first `)`, and what is left of the line becomes the tags
    let bs = parse_markdown("- [a[b]](u(1))");
    assert_eq!(bs.len(), 1);
    assert_eq!(bs[0].title, "a[b]");
    assert_eq!(bs[0].url, "u(1");
    assert_eq!(bs[0].tags, ")");
}

#[test]
fn only_one_match_per_line() {
    let bs = parse_markdown("- [A](u) and [B](v)");
    assert_eq!(bs.len(), 1);
    assert_eq!(bs[0].title, "A");
    assert_eq!(bs[0].url, "u");
    assert_eq!(bs[0].tags, "and [B](v)");
}
