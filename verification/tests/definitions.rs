use cx::definition::{definition, FromFilter};
use cx::index::{FileData, Index, Symbol, SymbolKind};
use cx::pagination::Pagination;

fn sym(name: &str, kind: SymbolKind) -> Symbol {
    Symbol { name: name.to_string(), kind, signature: String::new(), byte_range: (0, 1), is_test: false }
}

fn project() -> Index {
    let mut idx = Index::new("/p".to_string());
    let files: Vec<(&str, Vec<Symbol>)> = vec![
        ("src/b.rs", vec![sym("helper", SymbolKind::Fn), sym("Foo", SymbolKind::Struct)]),
        ("src/a.rs", vec![sym("helper", SymbolKind::Fn), sym("Foo", SymbolKind::Fn)]),
        ("lib/c.rs", vec![sym("helper", SymbolKind::Const)]),
    ];
    for (p, syms) in files {
        idx.insert(p.to_string(), FileData { symbols: syms, language: "rust".to_string() });
    }
    idx
}

fn all() -> Pagination {
    Pagination { limit: None, offset: 0 }
}

#[test]
fn definitions_in_path_order_within_a_priority() {
    let idx = project();
    let p = definition(&idx, "helper", None, None, &all());
    assert_eq!(p.total, 3);
    assert_eq!(p.items, vec![(2, 0), (1, 0), (0, 0)]);
}

#[test]
fn definitions_types_first() {
    let idx = project();
    let p = definition(&idx, "Foo", None, None, &all());
    assert_eq!(p.items, vec![(0, 1), (1, 1)]);
}

#[test]
fn definitions_kind_filter() {
    let idx = project();
    let p = definition(&idx, "Foo", None, Some(SymbolKind::Fn), &all());
    assert_eq!(p.items, vec![(1, 1)]);
}

#[test]
fn definitions_from_a_file_narrow() {
    let idx = project();
    let from = FromFilter { rel: "src/b.rs".to_string(), is_dir: false };
    let p = definition(&idx, "helper", Some(&from), None, &all());
    assert_eq!(p.items, vec![(0, 0)]);
}

#[test]
fn definitions_from_a_directory_narrow() {
    let idx = project();
    let from = FromFilter { rel: "src".to_string(), is_dir: true };
    let p = definition(&idx, "helper", Some(&from), None, &all());
    assert_eq!(p.items, vec![(1, 0), (0, 0)]);
}

#[test]
fn definitions_from_that_selects_nothing_keep_all() {
    let idx = project();
    let from = FromFilter { rel: "other/x.rs".to_string(), is_dir: false };
    let p = definition(&idx, "helper", Some(&from), None, &all());
    assert_eq!(p.total, 3);
}

#[test]
fn definitions_paginated_and_missing() {
    let idx = project();
    let p = definition(&idx, "helper", None, None, &Pagination { limit: Some(1), offset: 1 });
    assert_eq!(p.total, 3);
    assert_eq!(p.items, vec![(1, 0)]);
    assert!(p.was_truncated());
    let none = definition(&idx, "zzz_nonexistent", None, None, &all());
    assert_eq!(none.total, 0);
    assert!(none.items.is_empty());
}
