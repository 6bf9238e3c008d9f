use cx::definition::{definition, definition_result, FromFilter};
use cx::index::{FileData, Index, Symbol, SymbolKind};
use cx::pagination::{pagination_hint, Pagination};
use cx::path::make_relative;
use cx::query::{symbols, FileFilter};
use cx::references::{reference_rows, references, RefSite, ReferenceRow, ReferencesOutput};

/// A project: its index, and the text of each file.
struct Project {
    index: Index,
    sources: Vec<(String, String)>,
}

impl Project {
    fn source(&self, path: &str) -> &str {
        &self.sources.iter().find(|(p, _)| p == path).unwrap().1
    }
}

/// Indexes files, each symbol given by its name, kind and the text it spans.
fn project(root: &str, files: &[(&str, &str, &[(&str, SymbolKind, &str)])]) -> Project {
    let mut index = Index::new(root.to_string());
    let mut sources = Vec::new();
    for (path, text, syms) in files {
        let symbols = syms
            .iter()
            .map(|(name, kind, span)| {
                let start = text.find(span).unwrap();
                Symbol {
                    name: name.to_string(),
                    kind: *kind,
                    signature: span.lines().next().unwrap().to_string(),
                    byte_range: (start, start + span.len()),
                    is_test: false,
                }
            })
            .collect();
        index.insert(path.to_string(), FileData { symbols, language: "rust".to_string() });
        sources.push((path.to_string(), text.to_string()));
    }
    Project { index, sources }
}

/// The sources of this repository that the tests read.
fn repo() -> Project {
    project(
        "/repo",
        &[
            (
                "src/main.rs",
                "struct Cli {\n    json: bool,\n}\n\nfn main() {\n    let cli = Cli::parse();\n}\n",
                &[("Cli", SymbolKind::Struct, "struct Cli {\n    json: bool,\n}"), ("main", SymbolKind::Fn, "fn main() {\n    let cli = Cli::parse();\n}")],
            ),
            ("src/query.rs", "pub fn symbols() {}\n", &[("symbols", SymbolKind::Fn, "pub fn symbols() {}")]),
        ],
    )
}

/// Five files that each define `helper`.
fn five_helpers() -> Project {
    project(
        "/p",
        &[
            ("src/a.rs", "pub fn helper() { 1 }\n", &[("helper", SymbolKind::Fn, "pub fn helper() { 1 }")]),
            ("src/b.rs", "pub fn helper() { 2 }\n", &[("helper", SymbolKind::Fn, "pub fn helper() { 2 }")]),
            ("src/c.rs", "pub fn helper() { 3 }\n", &[("helper", SymbolKind::Fn, "pub fn helper() { 3 }")]),
            ("src/d.rs", "pub fn helper() { 4 }\n", &[("helper", SymbolKind::Fn, "pub fn helper() { 4 }")]),
            ("src/e.rs", "pub fn helper() { 5 }\n", &[("helper", SymbolKind::Fn, "pub fn helper() { 5 }")]),
        ],
    )
}

fn dir_project() -> Project {
    project(
        "/p",
        &[
            ("src/lib.rs", "pub fn alpha() {}\npub fn beta() {}\n", &[("alpha", SymbolKind::Fn, "pub fn alpha() {}"), ("beta", SymbolKind::Fn, "pub fn beta() {}")]),
            ("src/util.rs", "pub fn gamma() {}\n", &[("gamma", SymbolKind::Fn, "pub fn gamma() {}")]),
            ("tests/test_main.rs", "fn test_alpha() {}\n", &[("test_alpha", SymbolKind::Fn, "fn test_alpha() {}")]),
        ],
    )
}

/// The pagination of a command: `--all`, `--limit`, `--offset` and its default.
fn flags(all: bool, limit: Option<usize>, offset: usize, default_limit: Option<usize>) -> Pagination {
    Pagination::from_flags(all, limit, offset, default_limit)
}

/// The reference rows of every occurrence of `name` in the project's files.
fn reference_rows_of(p: &Project, name: &str) -> Vec<ReferenceRow> {
    let mut rows = Vec::new();
    for e in &p.index.entries {
        let text = p.source(&e.path);
        let sites: Vec<RefSite> = text
            .match_indices(name)
            .map(|(off, _)| RefSite { line: text[..off].matches('\n').count() + 1, byte_offset: off })
            .collect();
        rows.extend(reference_rows(&e.path, text.as_bytes(), &e.data.symbols, &sites));
    }
    rows
}

fn file_filter(rel: &str, is_dir: bool) -> FileFilter {
    FileFilter { rel: rel.to_string(), is_dir, unsupported_ext: None }
}

fn from_file(rel: &str) -> FromFilter {
    FromFilter { rel: rel.to_string(), is_dir: false }
}

#[test]
fn json_overview() {
    let p = repo();
    let page = symbols(&p.index, Some(&file_filter("src/main.rs", false)), None, None, &flags(false, None, 0, None)).ok().unwrap();
    assert!(!page.needs_envelope());
    assert!(!page.items.is_empty());
}

#[test]
fn json_definition_always_array() {
    let p = repo();
    let page = definition(&p.index, "main", None, None, &flags(false, None, 0, Some(3)));
    assert!(!page.needs_envelope(), "definition JSON should always be an array");
    assert_eq!(page.items.len(), 1);
}

#[test]
fn definition_from_disambiguates() {
    let p = project(
        "/p",
        &[
            ("src/a.rs", "pub fn helper() { 1 }\n", &[("helper", SymbolKind::Fn, "pub fn helper() { 1 }")]),
            ("src/b.rs", "pub fn helper() { 2 }\n", &[("helper", SymbolKind::Fn, "pub fn helper() { 2 }")]),
        ],
    );
    let both = definition(&p.index, "helper", None, None, &flags(false, None, 0, Some(3)));
    assert_eq!(both.items.len(), 2, "should find both");
    let one = definition(&p.index, "helper", Some(&from_file("src/a.rs")), None, &flags(false, None, 0, None));
    assert_eq!(one.items.len(), 1, "should find one");
    let (e, j) = one.items[0];
    let entry = &p.index.entries[e];
    let r = definition_result(&entry.path, Some(p.source(&entry.path).as_bytes()), entry.data.symbols[j].byte_range, 200);
    assert_eq!(r.file, "src/a.rs");
}

#[test]
fn definition_max_lines_truncates() {
    let mut body = String::from("pub fn big() {\n");
    for i in 0..250 {
        body.push_str(&format!("    let x{i} = {i};\n"));
    }
    body.push_str("}\n");
    let span = body.trim_end().to_string();
    let p = project("/p", &[("src/big.rs", body.as_str(), &[("big", SymbolKind::Fn, span.as_str())])]);
    let page = definition(&p.index, "big", None, None, &flags(false, None, 0, Some(3)));
    let (e, j) = page.items[0];
    let entry = &p.index.entries[e];
    let r = definition_result(&entry.path, Some(p.source(&entry.path).as_bytes()), entry.data.symbols[j].byte_range, 200);
    assert_eq!(r.truncated, Some(true), "should be truncated");
    assert!(r.lines.unwrap() > 200, "should report total lines");
    assert_eq!(r.lines, Some(252));
}

#[test]
fn definition_kind_filter() {
    let p = project(
        "/p",
        &[(
            "src/lib.rs",
            "pub struct Foo;\npub fn Foo() {}\n",
            &[("Foo", SymbolKind::Struct, "pub struct Foo;"), ("Foo", SymbolKind::Fn, "pub fn Foo() {}")],
        )],
    );
    let page = definition(&p.index, "Foo", None, Some(SymbolKind::Fn), &flags(false, None, 0, Some(3)));
    assert_eq!(page.items.len(), 1, "should find only the fn, not the struct");
    let (e, j) = page.items[0];
    let entry = &p.index.entries[e];
    let r = definition_result(&entry.path, Some(p.source(&entry.path).as_bytes()), entry.data.symbols[j].byte_range, 200);
    assert!(r.body.contains("fn Foo()"));
}

#[test]
fn references_dedup_same_line() {
    let p = project(
        "/p",
        &[(
            "src/lib.rs",
            "fn convert(x: Foo) -> Foo { x }\npub struct Foo;\n",
            &[("convert", SymbolKind::Fn, "fn convert(x: Foo) -> Foo { x }"), ("Foo", SymbolKind::Struct, "pub struct Foo;")],
        )],
    );
    let rows = reference_rows_of(&p, "Foo");
    match references(&rows, true, &flags(false, None, 0, Some(50))) {
        ReferencesOutput::Rows(page) => {
            let line1 = page.items.iter().filter(|r| r.line == 1).count();
            assert_eq!(line1, 1, "same-line refs should be deduped");
        },
        ReferencesOutput::Summary(_) => panic!("expected rows"),
    }
}

fn two_files_with_foo() -> Project {
    project(
        "/p",
        &[
            (
                "src/a.rs",
                "pub struct Foo;\nfn use1(f: Foo) {}\nfn use2(f: Foo) {}\n",
                &[
                    ("Foo", SymbolKind::Struct, "pub struct Foo;"),
                    ("use1", SymbolKind::Fn, "fn use1(f: Foo) {}"),
                    ("use2", SymbolKind::Fn, "fn use2(f: Foo) {}"),
                ],
            ),
            ("src/b.rs", "use crate::Foo;\nfn use3(f: Foo) {}\n", &[("use3", SymbolKind::Fn, "fn use3(f: Foo) {}")]),
        ],
    )
}

#[test]
fn references_summary_groups_by_file() {
    let p = two_files_with_foo();
    let rows = reference_rows_of(&p, "Foo");
    match references(&rows, false, &flags(false, None, 0, Some(50))) {
        ReferencesOutput::Summary(page) => {
            let a = page.items.iter().find(|r| r.file == "src/a.rs").expect("summary should include src/a.rs");
            assert_eq!(a.refs, 3);
            assert_eq!(a.callers, "Foo, use1, use2");
            assert_eq!(a.lines, "1, 2, 3");
            assert!(page.items.iter().any(|r| r.file == "src/b.rs"));
        },
        ReferencesOutput::Rows(_) => panic!("expected a summary"),
    }
}

#[test]
fn json_definition_has_expected_fields() {
    let p = repo();
    let page = definition(&p.index, "main", None, None, &flags(false, None, 0, Some(3)));
    let (e, j) = page.items[0];
    let entry = &p.index.entries[e];
    let r = definition_result(&entry.path, Some(p.source(&entry.path).as_bytes()), entry.data.symbols[j].byte_range, 200);
    assert_eq!(r.file, "src/main.rs");
    assert_eq!(r.line, 5);
    assert!(r.body.starts_with("fn main()"));
}

#[test]
fn definition_default_limit_truncates() {
    let p = five_helpers();
    let page = definition(&p.index, "helper", None, None, &flags(false, None, 0, Some(3)));
    assert!(page.needs_envelope(), "paginated output should be an object");
    assert_eq!(page.total, 5);
    assert_eq!(page.items.len(), 3);
    assert!(page.was_truncated());
    let hint = pagination_hint(page.total, page.offset, page.items.len(), "definitions for \"helper\"", "--from PATH");
    assert!(hint.contains("3/5"), "should show 3/5 in hint: {hint}");
    assert!(hint.contains("--offset 3"), "should suggest next offset: {hint}");
    assert!(hint.contains("--all"), "should suggest --all: {hint}");
}

#[test]
fn definition_offset_paginates() {
    let p = five_helpers();
    let page = definition(&p.index, "helper", None, None, &flags(false, None, 3, Some(3)));
    assert!(page.needs_envelope(), "offset > 0 should produce paginated envelope");
    assert_eq!(page.total, 5);
    assert_eq!(page.offset, 3);
    assert_eq!(page.items.len(), 2);
}

#[test]
fn definition_all_bypasses_limit() {
    let p = five_helpers();
    let page = definition(&p.index, "helper", None, None, &flags(true, None, 0, Some(3)));
    assert!(!page.needs_envelope(), "should be bare array with --all");
    assert_eq!(page.items.len(), 5);
}

#[test]
fn definition_from_skips_default_limit() {
    let p = project(
        "/p",
        &[
            (
                "src/a.rs",
                "pub fn thing() { 1 }\npub fn thing2() { 2 }\nstruct thing3;\nstruct thing4;\nenum thing5 {}\n",
                &[
                    ("thing", SymbolKind::Fn, "pub fn thing() { 1 }"),
                    ("thing2", SymbolKind::Fn, "pub fn thing2() { 2 }"),
                    ("thing3", SymbolKind::Struct, "struct thing3;"),
                    ("thing4", SymbolKind::Struct, "struct thing4;"),
                    ("thing5", SymbolKind::Enum, "enum thing5 {}"),
                ],
            ),
            ("src/b.rs", "pub fn thing() { 10 }\n", &[("thing", SymbolKind::Fn, "pub fn thing() { 10 }")]),
            ("src/c.rs", "pub fn thing() { 20 }\n", &[("thing", SymbolKind::Fn, "pub fn thing() { 20 }")]),
            ("src/d.rs", "pub fn thing() { 30 }\n", &[("thing", SymbolKind::Fn, "pub fn thing() { 30 }")]),
            ("src/e.rs", "pub fn thing() { 40 }\n", &[("thing", SymbolKind::Fn, "pub fn thing() { 40 }")]),
        ],
    );
    let with_from = definition(&p.index, "thing", Some(&from_file("src/a.rs")), None, &flags(false, None, 0, None));
    assert!(!with_from.needs_envelope(), "should be bare array when --from used");
    assert_eq!(with_from.items.len(), 1);
    assert!(p.index.entries[with_from.items[0].0].path.contains("a.rs"));
    let without = definition(&p.index, "thing", None, None, &flags(false, None, 0, Some(3)));
    assert!(without.needs_envelope(), "without --from should be paginated");
    assert_eq!(without.total, 5);
    assert_eq!(without.items.len(), 3);
}

#[test]
fn definition_explicit_limit_overrides_default() {
    let p = five_helpers();
    let page = definition(&p.index, "helper", None, None, &flags(false, Some(2), 0, Some(3)));
    assert!(page.needs_envelope(), "should be paginated");
    assert_eq!(page.items.len(), 2);
    assert_eq!(page.total, 5);
}

#[test]
fn references_pagination() {
    let p = two_files_with_foo();
    let rows = reference_rows_of(&p, "Foo");
    match references(&rows, true, &flags(false, Some(2), 0, Some(50))) {
        ReferencesOutput::Rows(page) => {
            if page.needs_envelope() {
                assert_eq!(page.items.len(), 2);
                assert!(page.total >= 2);
            }
            assert_eq!(page.total, 5);
        },
        ReferencesOutput::Summary(_) => panic!("expected rows"),
    }
}

#[test]
fn json_paginated_has_metadata() {
    let p = project(
        "/p",
        &[
            ("src/a.rs", "pub fn helper() { 1 }\n", &[("helper", SymbolKind::Fn, "pub fn helper() { 1 }")]),
            ("src/b.rs", "pub fn helper() { 2 }\n", &[("helper", SymbolKind::Fn, "pub fn helper() { 2 }")]),
            ("src/c.rs", "pub fn helper() { 3 }\n", &[("helper", SymbolKind::Fn, "pub fn helper() { 3 }")]),
            ("src/d.rs", "pub fn helper() { 4 }\n", &[("helper", SymbolKind::Fn, "pub fn helper() { 4 }")]),
        ],
    );
    let page = definition(&p.index, "helper", None, None, &flags(false, Some(2), 0, Some(3)));
    assert!(page.needs_envelope());
    assert_eq!(page.total, 4);
    assert_eq!(page.offset, 0);
    assert_eq!(page.limit, Some(2));
    assert_eq!(page.items.len(), 2);
}

#[test]
fn no_pagination_when_under_limit() {
    let p = repo();
    let page = definition(&p.index, "main", None, None, &flags(false, None, 0, Some(3)));
    assert!(!page.needs_envelope(), "single result should be bare array");
}

#[test]
fn symbols_file_directory_shows_file_column() {
    let p = dir_project();
    let page = symbols(&p.index, Some(&file_filter("src", true)), None, Some(SymbolKind::Fn), &flags(false, None, 0, Some(100))).ok().unwrap();
    assert!(!page.items.is_empty());
    assert!(page.items.iter().all(|r| r.file.is_some()), "directory query should include file column");
}

#[test]
fn symbols_file_single_file_hides_file_column() {
    let p = dir_project();
    let page = symbols(&p.index, Some(&file_filter("src/lib.rs", false)), None, Some(SymbolKind::Fn), &flags(false, None, 0, Some(100))).ok().unwrap();
    assert_eq!(page.items.len(), 2);
    assert!(page.items.iter().all(|r| r.file.is_none()), "single-file query should omit file column");
}

#[test]
fn definition_absolute_from_resolves_foreign_project() {
    let b = project(
        "/tmp/b",
        &[
            ("src/beta.ts", "export function betaFn() {}\nexport class BetaClass {}\n", &[("betaFn", SymbolKind::Fn, "export function betaFn() {}"), ("BetaClass", SymbolKind::Class, "export class BetaClass {}")]),
            ("src/shared.rs", "pub fn shared() { 2 }\n", &[("shared", SymbolKind::Fn, "pub fn shared() { 2 }")]),
        ],
    );
    let rel = make_relative("/tmp/b/src/shared.rs", &b.index.root, "/tmp/a");
    assert_eq!(rel, "src/shared.rs");
    let from = FromFilter { rel, is_dir: false };
    let page = definition(&b.index, "shared", Some(&from), None, &flags(false, None, 0, None));
    assert_eq!(page.items.len(), 1);
    let (e, j) = page.items[0];
    let entry = &b.index.entries[e];
    let r = definition_result(&entry.path, Some(b.source(&entry.path).as_bytes()), entry.data.symbols[j].byte_range, 200);
    assert!(r.body.contains("2"), "should get B's definition, not A's");
}
