use cx::index::{FileData, Index, Symbol, SymbolKind};
use cx::pagination::Pagination;
use cx::query::{files_to_search, kind_counts, resolve_file_filter, symbols, FileFilter, QueryError};

fn sym(name: &str, kind: SymbolKind) -> Symbol {
    Symbol {
        name: name.to_string(),
        kind,
        signature: format!("sig {name}"),
        byte_range: (0, 1),
        is_test: false,
    }
}

fn project() -> Index {
    let mut idx = Index::new("/p".to_string());
    let files: Vec<(&str, Vec<Symbol>)> = vec![
        ("src/main.rs", vec![sym("main", SymbolKind::Fn), sym("Cli", SymbolKind::Struct)]),
        ("src/lib.rs", vec![sym("hello", SymbolKind::Fn), sym("Config", SymbolKind::Struct), sym("cfg_field", SymbolKind::Field)]),
        ("src/util/math.rs", vec![sym("sub", SymbolKind::Fn), sym("add", SymbolKind::Fn)]),
        ("tests/it.rs", vec![sym("test_it", SymbolKind::Fn)]),
    ];
    for (p, syms) in files {
        idx.insert(p.to_string(), FileData { symbols: syms, language: "rust".to_string() });
    }
    idx
}

fn all() -> Pagination {
    Pagination { limit: None, offset: 0 }
}

fn file(rel: &str) -> FileFilter {
    FileFilter { rel: rel.to_string(), is_dir: false, unsupported_ext: None }
}

fn dir(rel: &str) -> FileFilter {
    FileFilter { rel: rel.to_string(), is_dir: true, unsupported_ext: None }
}

fn names(p: &cx::pagination::Paginated<cx::query::SymbolRow>) -> Vec<String> {
    p.items.iter().map(|r| r.name.clone()).collect()
}

#[test]
fn symbols_are_ordered_by_path_then_name() {
    let idx = project();
    let p = symbols(&idx, None, None, None, &all()).ok().unwrap();
    assert_eq!(p.total, 8);
    assert_eq!(names(&p), vec!["Config", "cfg_field", "hello", "Cli", "main", "add", "sub", "test_it"]);
    assert_eq!(p.items[0].file.as_deref(), Some("src/lib.rs"));
    assert_eq!(p.items[5].file.as_deref(), Some("src/util/math.rs"));
    assert_eq!(p.items[0].kind, SymbolKind::Struct);
    assert_eq!(p.items[0].signature, "sig Config");
}

#[test]
fn symbols_name_glob_filters() {
    let idx = project();
    let p = symbols(&idx, None, Some("*e*"), None, &all()).ok().unwrap();
    assert_eq!(names(&p), vec!["cfg_field", "hello", "test_it"]);
    let p = symbols(&idx, None, Some("zzz_no_match"), None, &all()).ok().unwrap();
    assert_eq!(p.total, 0);
    assert!(p.items.is_empty());
}

#[test]
fn symbols_kind_filter() {
    let idx = project();
    let p = symbols(&idx, None, None, Some(SymbolKind::Struct), &all()).ok().unwrap();
    assert_eq!(names(&p), vec!["Config", "Cli"]);
}

#[test]
fn symbols_of_a_single_file_omit_the_file_column() {
    let idx = project();
    let f = file("src/main.rs");
    let p = symbols(&idx, Some(&f), None, None, &all()).ok().unwrap();
    assert_eq!(names(&p), vec!["Cli", "main"]);
    assert!(p.items.iter().all(|r| r.file.is_none()));
}

#[test]
fn symbols_of_a_directory() {
    let idx = project();
    let d = dir("src");
    let p = symbols(&idx, Some(&d), None, Some(SymbolKind::Fn), &all()).ok().unwrap();
    assert_eq!(names(&p), vec!["hello", "main", "add", "sub"]);
    assert!(p.items.iter().all(|r| r.file.is_some()));
    let one = dir("src/util");
    let p = symbols(&idx, Some(&one), None, None, &all()).ok().unwrap();
    assert_eq!(names(&p), vec!["add", "sub"]);
    assert!(p.items.iter().all(|r| r.file.is_none()));
}

#[test]
fn symbols_are_paginated() {
    let idx = project();
    let p = symbols(&idx, None, None, None, &Pagination { limit: Some(2), offset: 1 }).ok().unwrap();
    assert_eq!(p.total, 8);
    assert_eq!(names(&p), vec!["cfg_field", "hello"]);
    assert!(p.was_truncated());
}

#[test]
fn filter_errors() {
    let idx = project();
    match resolve_file_filter(&idx, &dir("nope")) {
        Err(QueryError::NoIndexedFilesUnder(p)) => assert_eq!(p, "nope"),
        _ => panic!("expected no indexed files"),
    }
    let unsupported = FileFilter { rel: "notes.txt".to_string(), is_dir: false, unsupported_ext: Some("txt".to_string()) };
    match resolve_file_filter(&idx, &unsupported) {
        Err(QueryError::UnsupportedFileType(e)) => assert_eq!(e, "txt"),
        _ => panic!("expected unsupported file type"),
    }
    match resolve_file_filter(&idx, &file("src\\missing.rs")) {
        Err(QueryError::NotInIndex(p)) => assert_eq!(p, "src/missing.rs"),
        _ => panic!("expected not in index"),
    }
    assert!(symbols(&idx, Some(&file("src/missing.rs")), None, None, &all()).is_err());
}

#[test]
fn filter_selects_entries() {
    let idx = project();
    assert_eq!(resolve_file_filter(&idx, &file("src/lib.rs")).ok().unwrap(), vec![1]);
    assert_eq!(resolve_file_filter(&idx, &dir("src")).ok().unwrap(), vec![0, 1, 2]);
    assert_eq!(resolve_file_filter(&idx, &dir("src/main.rs")).ok().unwrap(), vec![0]);
    assert_eq!(files_to_search(&idx, None).ok().unwrap(), vec![0, 1, 2, 3]);
}

#[test]
fn kind_counts_most_frequent_first() {
    let idx = project();
    let rows = kind_counts(&idx, None).ok().unwrap();
    let got: Vec<(SymbolKind, usize)> = rows.iter().map(|r| (r.kind, r.count)).collect();
    assert_eq!(got, vec![(SymbolKind::Fn, 5), (SymbolKind::Struct, 2), (SymbolKind::Field, 1)]);
    let sum: usize = rows.iter().map(|r| r.count).sum();
    assert_eq!(sum, 8);
}

#[test]
fn kind_counts_ties_by_kind_name() {
    let mut idx = Index::new("/p".to_string());
    idx.insert(
        "a.rs".to_string(),
        FileData {
            symbols: vec![sym("T", SymbolKind::Type), sym("C", SymbolKind::Const), sym("E", SymbolKind::Enum)],
            language: "rust".to_string(),
        },
    );
    let rows = kind_counts(&idx, None).ok().unwrap();
    let got: Vec<SymbolKind> = rows.iter().map(|r| r.kind).collect();
    assert_eq!(got, vec![SymbolKind::Const, SymbolKind::Enum, SymbolKind::Type]);
}

#[test]
fn kind_counts_of_a_file_and_of_nothing() {
    let idx = project();
    let rows = kind_counts(&idx, Some(&file("src/lib.rs"))).ok().unwrap();
    let got: Vec<(SymbolKind, usize)> = rows.iter().map(|r| (r.kind, r.count)).collect();
    assert_eq!(got, vec![(SymbolKind::Field, 1), (SymbolKind::Fn, 1), (SymbolKind::Struct, 1)]);
    let empty = Index::new("/p".to_string());
    assert!(kind_counts(&empty, None).ok().unwrap().is_empty());
    assert!(kind_counts(&idx, Some(&dir("nope"))).is_err());
}

#[test]
fn filters_are_taken_in_normalized_form() {
    let idx = project();
    assert_eq!(resolve_file_filter(&idx, &file("./src/lib.rs")).ok().unwrap(), vec![1]);
    assert_eq!(resolve_file_filter(&idx, &dir("src/util/")).ok().unwrap(), vec![2]);
    match resolve_file_filter(&idx, &dir("nope/")) {
        Err(QueryError::NoIndexedFilesUnder(p)) => assert_eq!(p, "nope"),
        _ => panic!("expected no indexed files"),
    }
    match resolve_file_filter(&idx, &file("src/./gone.rs")) {
        Err(QueryError::NotInIndex(p)) => assert_eq!(p, "src/gone.rs"),
        _ => panic!("expected not in index"),
    }
}
