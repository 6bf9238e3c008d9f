use cx::definition::{definition_result, shown_definition};
use cx::lines::{line_range, line_starts, read_body};

#[test]
fn line_of_offsets() {
    let ls = line_starts(b"a\nbc\n\nd");
    assert_eq!(ls.line_of(0), 1);
    assert_eq!(ls.line_of(1), 1);
    assert_eq!(ls.line_of(2), 2);
    assert_eq!(ls.line_of(5), 3);
    assert_eq!(ls.line_of(6), 4);
    assert_eq!(ls.line_of(100), 4);
}

#[test]
fn line_range_single_and_multi_line() {
    let ls = line_starts(b"a\nbc\n\nd");
    assert_eq!(line_range(&ls, (0, 1)), Some("1".to_string()));
    assert_eq!(line_range(&ls, (0, 4)), Some("1-2".to_string()));
    assert_eq!(line_range(&ls, (0, 7)), Some("1-4".to_string()));
    assert_eq!(line_range(&ls, (2, 5)), Some("2".to_string()));
}

#[test]
fn line_range_of_empty_and_reversed_ranges() {
    let ls = line_starts(b"a\nbc\n\nd");
    assert_eq!(line_range(&ls, (2, 2)), Some("2".to_string()));
    assert_eq!(line_range(&ls, (0, 0)), Some("1".to_string()));
    assert_eq!(line_range(&ls, (3, 2)), None);
}

#[test]
fn line_range_of_the_overview_example() {
    let src = b"pub fn alpha() {\n    beta();\n}\n\npub fn beta() {}\n";
    let ls = line_starts(src);
    assert_eq!(line_range(&ls, (0, 31)), Some("1-3".to_string()));
    assert_eq!(line_range(&ls, (32, 48)), Some("5".to_string()));
}

#[test]
fn read_body_gives_text_and_first_line() {
    let src = b"fn a() {}\nfn b() {}\n";
    assert_eq!(read_body(src, (10, 19)), Some(("fn b() {}".to_string(), 2)));
    assert_eq!(read_body(src, (0, 9)), Some(("fn a() {}".to_string(), 1)));
    assert_eq!(read_body(src, (0, 100)), None);
}

#[test]
fn read_body_replaces_invalid_utf8() {
    let src: &[u8] = &[0x66, 0xff, 0x67];
    assert_eq!(read_body(src, (0, 3)), Some(("f\u{FFFD}g".to_string(), 1)));
}

#[test]
fn definition_result_truncates_to_max_lines() {
    let src = b"fn big() {\n    let a = 1;\n    let b = 2;\n}\n";
    let r = definition_result("src\\big.rs", Some(src), (0, src.len()), 2);
    assert_eq!(r.file, "src/big.rs");
    assert_eq!(r.line, 1);
    assert_eq!(r.truncated, Some(true));
    assert_eq!(r.lines, Some(4));
    assert_eq!(r.body, "fn big() {\n    let a = 1;");
}

#[test]
fn definition_result_within_the_limit_is_unchanged() {
    let src = b"x\nfn f() {\n}\n";
    let r = definition_result("a.rs", Some(src), (2, 13), 200);
    assert_eq!(r.line, 2);
    assert_eq!(r.truncated, None);
    assert_eq!(r.lines, None);
    assert_eq!(r.body, "fn f() {\n}\n");
}

#[test]
fn definition_result_drops_carriage_returns_when_cutting() {
    let src = b"a\r\nb\r\nc";
    let r = definition_result("a.rs", Some(src), (0, src.len()), 2);
    assert_eq!(r.body, "a\nb");
    assert_eq!(r.lines, Some(3));
}

#[test]
fn definition_result_without_source() {
    let r = definition_result("gone.rs", None, (0, 10), 200);
    assert_eq!(r.body, "");
    assert_eq!(r.line, 0);
    assert_eq!(r.truncated, None);
    let short = definition_result("short.rs", Some(b"abc"), (0, 10), 200);
    assert_eq!(short.body, "");
    assert_eq!(short.line, 0);
}

#[test]
fn shown_definition_cuts_a_decoded_body() {
    let r = shown_definition("src\\x.rs", "a\nb\nc\n".to_string(), 7, 1);
    assert_eq!(r.file, "src/x.rs");
    assert_eq!(r.line, 7);
    assert_eq!(r.body, "a");
    assert_eq!(r.truncated, Some(true));
    assert_eq!(r.lines, Some(3));
    let whole = shown_definition("x.rs", "a\nb".to_string(), 1, 2);
    assert_eq!(whole.body, "a\nb");
    assert_eq!(whole.lines, None);
}

#[test]
fn ranges_past_the_end_give_nothing_whatever_their_start() {
    assert_eq!(read_body(b"abc", (10, 5)), None);
    let r = definition_result("a.rs", Some(b"abc"), (10, 5), 200);
    assert_eq!(r.body, "");
    assert_eq!(r.line, 0);
}

#[test]
fn valid_utf8_bodies_decode_exactly() {
    let src = "fn caf\u{e9}() {}\n".as_bytes();
    assert_eq!(read_body(src, (0, src.len())), Some(("fn caf\u{e9}() {}\n".to_string(), 1)));
}
