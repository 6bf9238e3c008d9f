use cx::index::{glob_match, symbol_priority, FileData, Index, Symbol, SymbolKind};

fn data(names: &[&str]) -> FileData {
    FileData {
        symbols: names
            .iter()
            .map(|n| Symbol {
                name: n.to_string(),
                kind: SymbolKind::Fn,
                signature: String::new(),
                byte_range: (0, 0),
                is_test: false,
            })
            .collect(),
        language: "rust".to_string(),
    }
}

#[test]
fn kind_names_round_trip() {
    let all = [
        SymbolKind::Struct, SymbolKind::Enum, SymbolKind::Trait, SymbolKind::Interface,
        SymbolKind::Class, SymbolKind::Fn, SymbolKind::Const, SymbolKind::Type,
        SymbolKind::Module, SymbolKind::Event, SymbolKind::Heading, SymbolKind::Field,
    ];
    for k in all {
        assert_eq!(SymbolKind::from_name(k.as_str()), Some(k));
    }
    assert_eq!(SymbolKind::Fn.as_str(), "fn");
    assert_eq!(SymbolKind::Heading.as_str(), "heading");
    assert_eq!(SymbolKind::from_name("method"), None);
    assert_eq!(SymbolKind::from_name("Fn"), None);
}

#[test]
fn kind_ranks_follow_the_names() {
    assert_eq!(SymbolKind::Class.rank(), 0);
    assert_eq!(SymbolKind::Fn.rank(), 5);
    assert_eq!(SymbolKind::Type.rank(), 11);
    assert_eq!(SymbolKind::at_rank(9), SymbolKind::Struct);
    for r in 0..12u8 {
        assert_eq!(SymbolKind::at_rank(r).rank(), r);
    }
}

#[test]
fn priority_values() {
    assert_eq!(symbol_priority(SymbolKind::Class), 0);
    assert_eq!(symbol_priority(SymbolKind::Heading), 1);
    assert_eq!(symbol_priority(SymbolKind::Module), 1);
    assert_eq!(symbol_priority(SymbolKind::Field), 2);
}

#[test]
fn glob_star_matches_everything() {
    assert!(glob_match("*", ""));
    assert!(glob_match("*", "anything_at_all"));
    assert!(glob_match("**", "x"));
}

#[test]
fn glob_literal_matches_only_itself() {
    assert!(glob_match("foo", "foo"));
    assert!(!glob_match("foo", "foobar"));
    assert!(!glob_match("foo", "fo"));
    assert!(glob_match("", ""));
    assert!(!glob_match("", "a"));
}

#[test]
fn glob_wildcards() {
    assert!(glob_match("get_*", "get_name"));
    assert!(!glob_match("get_*", "set_name"));
    assert!(glob_match("*_test", "a_test"));
    assert!(glob_match("?oo", "foo"));
    assert!(!glob_match("?oo", "fooo"));
    assert!(glob_match("a*b*c", "aXXbYc"));
    assert!(!glob_match("a*b*c", "aXXcYb"));
}

#[test]
fn insert_replaces_an_entry_with_the_same_path() {
    let mut idx = Index::new("/p".to_string());
    idx.insert("src/a.rs".to_string(), data(&["one"]));
    idx.insert("src/b.rs".to_string(), data(&["two"]));
    idx.insert("src//a.rs".to_string(), data(&["three", "four"]));
    assert_eq!(idx.entries.len(), 2);
    assert_eq!(idx.root, "/p");
    assert_eq!(idx.entries[0].path, "src//a.rs");
    assert_eq!(idx.entries[0].data.symbols.len(), 2);
    assert_eq!(idx.entries[0].data.symbols[0].name, "three");
    assert_eq!(idx.entries[1].path, "src/b.rs");
    idx.insert("src/c.rs".to_string(), data(&["five"]));
    assert_eq!(idx.entries.len(), 3);
    assert_eq!(idx.entries[2].path, "src/c.rs");
}
