use cx::index::{FileData, Index, Symbol, SymbolKind};
use cx::overview::{dir_overview, Overview};
use cx::pagination::Pagination;
use cx::query::QueryError;

fn sym(name: &str, kind: SymbolKind) -> Symbol {
    Symbol { name: name.to_string(), kind, signature: format!("sig {name}"), byte_range: (0, 1), is_test: false }
}

fn project() -> Index {
    let mut idx = Index::new("/p".to_string());
    let mut test_sym = sym("checks", SymbolKind::Fn);
    test_sym.is_test = true;
    let files: Vec<(&str, Vec<Symbol>)> = vec![
        ("src/main.rs", vec![sym("main", SymbolKind::Fn)]),
        ("src/lib.rs", vec![sym("hello", SymbolKind::Fn), sym("Config", SymbolKind::Struct), test_sym]),
        ("src/util/helpers.rs", vec![sym("help", SymbolKind::Fn)]),
        ("src/util/math.rs", vec![sym("add", SymbolKind::Fn), sym("sub", SymbolKind::Fn)]),
        ("src/app.test.ts", vec![sym("testHelper", SymbolKind::Fn)]),
        ("tests/integration.rs", vec![sym("test_it", SymbolKind::Fn)]),
    ];
    for (p, syms) in files {
        idx.insert(p.to_string(), FileData { symbols: syms, language: "rust".to_string() });
    }
    idx
}

fn all() -> Pagination {
    Pagination { limit: None, offset: 0 }
}

fn brief(r: Result<Overview, QueryError>) -> Vec<(String, String)> {
    match r {
        Ok(Overview::Brief(p)) => p.items.iter().map(|r| (r.file.clone(), r.symbols.clone())).collect(),
        _ => panic!("expected a brief overview"),
    }
}

fn pair(a: &str, b: &str) -> (String, String) {
    (a.to_string(), b.to_string())
}

#[test]
fn overview_of_a_directory_is_single_level() {
    let idx = project();
    let rows = brief(dir_overview(&idx, "src", false, false, &all()));
    assert_eq!(rows, vec![
        pair("src/util/", "(2 files, 3 symbols)"),
        pair("src/app.test.ts", "testHelper"),
        pair("src/lib.rs", "Config, checks, hello"),
        pair("src/main.rs", "main"),
    ]);
}

#[test]
fn overview_without_tests() {
    let idx = project();
    let rows = brief(dir_overview(&idx, "src", false, true, &all()));
    assert_eq!(rows, vec![
        pair("src/util/", "(2 files, 3 symbols)"),
        pair("src/lib.rs", "Config, hello"),
        pair("src/main.rs", "main"),
    ]);
    let root = brief(dir_overview(&idx, ".", false, true, &all()));
    assert_eq!(root, vec![pair("src/", "(4 files, 6 symbols)")]);
}

#[test]
fn overview_of_the_project_root() {
    let idx = project();
    let rows = brief(dir_overview(&idx, ".", false, false, &all()));
    assert_eq!(rows, vec![pair("src/", "(5 files, 8 symbols)"), pair("tests/", "(1 files, 1 symbols)")]);
    let same = brief(dir_overview(&idx, "./", false, false, &all()));
    assert_eq!(same, rows);
}

#[test]
fn overview_of_an_unknown_directory_fails() {
    let idx = project();
    match dir_overview(&idx, "nope", false, false, &all()) {
        Err(QueryError::NoIndexedFilesUnder(p)) => assert_eq!(p, "nope"),
        _ => panic!("expected an error"),
    }
    match dir_overview(&idx, "tests", false, true, &all()) {
        Err(QueryError::NoIndexedFilesUnder(p)) => assert_eq!(p, "tests"),
        _ => panic!("expected an error"),
    }
}

#[test]
fn full_overview_lists_symbols() {
    let idx = project();
    match dir_overview(&idx, "src/util", true, false, &all()) {
        Ok(Overview::Full(p)) => {
            let got: Vec<(String, String, String, String)> = p
                .items
                .iter()
                .map(|r| (r.file.clone(), r.name.clone(), r.kind.clone(), r.signature.clone()))
                .collect();
            assert_eq!(got, vec![
                ("src/util/helpers.rs".to_string(), "help".to_string(), "fn".to_string(), "sig help".to_string()),
                ("src/util/math.rs".to_string(), "add".to_string(), "fn".to_string(), "sig add".to_string()),
                ("src/util/math.rs".to_string(), "sub".to_string(), "fn".to_string(), "sig sub".to_string()),
            ]);
            assert_eq!(p.items[1].symbol, Some((3, 0)));
        },
        _ => panic!("expected a full overview"),
    }
}

#[test]
fn full_overview_subdirectory_rows() {
    let idx = project();
    match dir_overview(&idx, "src", true, false, &all()) {
        Ok(Overview::Full(p)) => {
            assert_eq!(p.items[0].file, "src/util/");
            assert_eq!(p.items[0].name, "(2 files, 3 symbols)");
            assert_eq!(p.items[0].kind, "");
            assert_eq!(p.items[0].symbol, None);
            assert_eq!(p.total, 1 + 1 + 3 + 1);
        },
        _ => panic!("expected a full overview"),
    }
}

fn many(n: usize) -> Index {
    let mut idx = Index::new("/p".to_string());
    let syms: Vec<Symbol> = (0..n).map(|i| sym(&format!("f{i:02}"), SymbolKind::Fn)).collect();
    idx.insert("big.rs".to_string(), FileData { symbols: syms, language: "rust".to_string() });
    idx.insert(
        "dup.rs".to_string(),
        FileData { symbols: vec![sym("T", SymbolKind::Type), sym("T", SymbolKind::Type), sym("T", SymbolKind::Type)], language: "rust".to_string() },
    );
    idx
}

#[test]
fn overview_shows_the_first_ten_names() {
    let idx = many(12);
    let rows = brief(dir_overview(&idx, ".", false, false, &all()));
    assert_eq!(rows[0], pair("big.rs", "f00, f01, f02, f03, f04, f05, f06, f07, f08, f09, ... (+2 more)"));
    assert_eq!(rows[1], pair("dup.rs", "T, ... (+2 more)"));
}

#[test]
fn full_overview_marks_more_symbols() {
    let idx = many(12);
    match dir_overview(&idx, ".", true, false, &all()) {
        Ok(Overview::Full(p)) => {
            assert_eq!(p.items.len(), 11 + 3);
            assert_eq!(p.items[10].name, "... (+2 more)");
            assert_eq!(p.items[10].file, "big.rs");
            assert_eq!(p.items[10].symbol, None);
        },
        _ => panic!("expected a full overview"),
    }
}

#[test]
fn overview_is_paginated() {
    let idx = project();
    match dir_overview(&idx, "src", false, false, &Pagination { limit: Some(2), offset: 1 }) {
        Ok(Overview::Brief(p)) => {
            assert_eq!(p.total, 4);
            assert_eq!(p.items.len(), 2);
            assert_eq!(p.items[0].file, "src/app.test.ts");
            assert!(p.was_truncated());
        },
        _ => panic!("expected a brief overview"),
    }
}

#[test]
fn overview_counts_every_covered_file_once() {
    let idx = project();
    let rows = brief(dir_overview(&idx, "src", false, false, &all()));
    let mut counted = 0;
    for (file, symbols) in &rows {
        if file.ends_with('/') {
            let n: usize = symbols.trim_start_matches('(').split(' ').next().unwrap().parse().unwrap();
            counted += n;
        } else {
            counted += 1;
        }
    }
    assert_eq!(counted, 5);
    let root = brief(dir_overview(&idx, ".", false, false, &all()));
    let total: usize = root
        .iter()
        .map(|(_, s)| s.trim_start_matches('(').split(' ').next().unwrap().parse::<usize>().unwrap())
        .sum();
    assert_eq!(total, idx.entries.len());
}

#[test]
fn overview_tells_directories_from_files_by_depth() {
    let mut idx = Index::new("/p".to_string());
    let files: Vec<(&str, Vec<Symbol>)> = vec![
        ("src/v1.2/x.rs", vec![sym("x", SymbolKind::Fn)]),
        ("src/v1.2/y.rs", vec![sym("y", SymbolKind::Fn)]),
        ("src/Makefile", vec![sym("build", SymbolKind::Fn)]),
        ("src/lib.rs", vec![sym("hello", SymbolKind::Fn)]),
    ];
    for (p, syms) in files {
        idx.insert(p.to_string(), FileData { symbols: syms, language: "rust".to_string() });
    }
    let rows = brief(dir_overview(&idx, "src", false, false, &all()));
    assert_eq!(rows, vec![
        pair("src/v1.2/", "(2 files, 2 symbols)"),
        pair("src/Makefile", "build"),
        pair("src/lib.rs", "hello"),
    ]);
}

#[test]
fn overview_normalizes_its_directory() {
    let idx = project();
    let rows = brief(dir_overview(&idx, "src/", false, false, &all()));
    assert_eq!(rows[0], pair("src/util/", "(2 files, 3 symbols)"));
    let same = brief(dir_overview(&idx, "./src/util/../", false, false, &all()));
    assert_eq!(same, rows);
    match dir_overview(&idx, "nope/./", false, false, &all()) {
        Err(QueryError::NoIndexedFilesUnder(p)) => assert_eq!(p, "nope"),
        _ => panic!("expected an error"),
    }
}
