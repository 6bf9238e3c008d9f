use cx::index::{Symbol, SymbolKind};
use cx::pagination::Pagination;
use cx::references::{
    find_enclosing_symbol, may_reference, reference_rows, references, RefSite, ReferenceRow, ReferencesOutput,
};

fn sym(name: &str, range: (usize, usize)) -> Symbol {
    Symbol { name: name.to_string(), kind: SymbolKind::Fn, signature: String::new(), byte_range: range, is_test: false }
}

fn row(file: &str, line: usize, caller: Option<&str>) -> ReferenceRow {
    ReferenceRow {
        file: file.to_string(),
        line,
        caller: caller.map(|c| c.to_string()),
        context: format!("ctx {file} {line}"),
    }
}

fn all() -> Pagination {
    Pagination { limit: None, offset: 0 }
}

#[test]
fn may_reference_finds_the_name_bytes() {
    assert!(may_reference(b"pub struct Foo;", "Foo"));
    assert!(!may_reference(b"pub struct Bar;", "Foo"));
    assert!(may_reference(b"x", ""));
    assert!(!may_reference(b"", "a"));
    assert!(may_reference("caf\u{e9} menu".as_bytes(), "\u{e9}"));
}

#[test]
fn enclosing_symbol_is_the_tightest() {
    let syms = vec![sym("outer", (0, 100)), sym("inner", (10, 20)), sym("twin", (10, 20))];
    assert_eq!(find_enclosing_symbol(&syms, 15), Some("inner"));
    assert_eq!(find_enclosing_symbol(&syms, 50), Some("outer"));
    assert_eq!(find_enclosing_symbol(&syms, 100), None);
    assert_eq!(find_enclosing_symbol(&syms, 200), None);
    assert_eq!(find_enclosing_symbol(&[], 0), None);
}

#[test]
fn rows_of_reference_sites() {
    let src = b"pub struct Foo;\nfn use_foo(f: Foo) {}\n";
    let syms = vec![sym("Foo", (0, 15)), sym("use_foo", (16, 37))];
    let sites = vec![RefSite { line: 2, byte_offset: 30 }, RefSite { line: 1, byte_offset: 11 }];
    let rows = reference_rows("src\\a.rs", src, &syms, &sites);
    assert_eq!(rows.len(), 2);
    assert_eq!(rows[0].file, "src/a.rs");
    assert_eq!(rows[0].line, 2);
    assert_eq!(rows[0].caller.as_deref(), Some("use_foo"));
    assert_eq!(rows[0].context, "fn use_foo(f: Foo) {}");
    assert_eq!(rows[1].caller.as_deref(), Some("Foo"));
    assert_eq!(rows[1].context, "pub struct Foo;");
}

#[test]
fn rows_trim_their_context() {
    let src = b"fn f() {\n    \tlet x = Foo;  \r\n}\n";
    let sites = vec![RefSite { line: 2, byte_offset: 20 }, RefSite { line: 9, byte_offset: 0 }, RefSite { line: 0, byte_offset: 0 }];
    let rows = reference_rows("a.rs", src, &[], &sites);
    assert_eq!(rows[0].context, "let x = Foo;");
    assert_eq!(rows[0].caller, None);
    assert_eq!(rows[1].context, "");
    assert_eq!(rows[2].context, "");
}

#[test]
fn rows_of_invalid_utf8_have_no_context() {
    let src: &[u8] = &[b'F', b'o', b'o', 0xff, b'\n'];
    let rows = reference_rows("a.rs", src, &[], &[RefSite { line: 1, byte_offset: 0 }]);
    assert_eq!(rows[0].context, "");
    assert_eq!(rows[0].line, 1);
}

#[test]
fn context_rows_are_ordered_and_deduplicated() {
    let rows = vec![
        row("src/b.rs", 1, None),
        row("src/a.rs", 2, Some("first")),
        row("src/a.rs", 2, Some("second")),
        row("src/a.rs", 1, Some("Foo")),
    ];
    match references(&rows, true, &all()) {
        ReferencesOutput::Rows(p) => {
            let got: Vec<(String, usize)> = p.items.iter().map(|r| (r.file.clone(), r.line)).collect();
            assert_eq!(got, vec![("src/a.rs".to_string(), 1), ("src/a.rs".to_string(), 2), ("src/b.rs".to_string(), 1)]);
            assert_eq!(p.items[1].caller.as_deref(), Some("first"));
            assert_eq!(p.total, 3);
        },
        ReferencesOutput::Summary(_) => panic!("expected rows"),
    }
}

#[test]
fn summary_groups_by_file() {
    let rows = vec![
        row("src/b.rs", 2, Some("use3")),
        row("src/a.rs", 3, Some("use2")),
        row("src/a.rs", 1, Some("Foo")),
        row("src/a.rs", 2, Some("use1")),
        row("src/b.rs", 1, None),
        row("src/a.rs", 2, Some("use1")),
    ];
    match references(&rows, false, &all()) {
        ReferencesOutput::Summary(p) => {
            assert_eq!(p.total, 2);
            assert_eq!(p.items[0].file, "src/a.rs");
            assert_eq!(p.items[0].lines, "1, 2, 3");
            assert_eq!(p.items[0].refs, 3);
            assert_eq!(p.items[0].callers, "Foo, use1, use2");
            assert_eq!(p.items[1].file, "src/b.rs");
            assert_eq!(p.items[1].lines, "1, 2");
            assert_eq!(p.items[1].refs, 2);
            assert_eq!(p.items[1].callers, "use3");
            let refs: usize = p.items.iter().map(|s| s.refs).sum();
            assert_eq!(refs, 5);
        },
        ReferencesOutput::Rows(_) => panic!("expected a summary"),
    }
}

#[test]
fn summary_callers_are_distinct_and_sorted() {
    let rows = vec![
        row("x.rs", 1, Some("zeta")),
        row("x.rs", 2, Some("alpha")),
        row("x.rs", 3, Some("zeta")),
        row("x.rs", 4, None),
    ];
    match references(&rows, false, &all()) {
        ReferencesOutput::Summary(p) => {
            assert_eq!(p.items[0].callers, "alpha, zeta");
            assert_eq!(p.items[0].refs, 4);
        },
        ReferencesOutput::Rows(_) => panic!("expected a summary"),
    }
}

#[test]
fn references_paginate_and_empty() {
    let rows = vec![row("a.rs", 1, None), row("b.rs", 1, None), row("c.rs", 1, None)];
    match references(&rows, false, &Pagination { limit: Some(1), offset: 1 }) {
        ReferencesOutput::Summary(p) => {
            assert_eq!(p.total, 3);
            assert_eq!(p.items.len(), 1);
            assert_eq!(p.items[0].file, "b.rs");
            assert!(p.was_truncated());
        },
        ReferencesOutput::Rows(_) => panic!("expected a summary"),
    }
    match references(&Vec::new(), true, &all()) {
        ReferencesOutput::Rows(p) => assert_eq!(p.total, 0),
        ReferencesOutput::Summary(_) => panic!("expected rows"),
    }
}
