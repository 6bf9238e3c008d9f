use cx::index::{symbol_priority, SymbolKind};
use cx::path::{display_path, is_test_file, normalize};

#[test]
fn display_path_normalizes_backslashes() {
    assert_eq!(display_path("src/main.rs"), "src/main.rs");
    assert_eq!(display_path("src\\main.rs"), "src/main.rs");
    assert_eq!(display_path("src\\sub\\file.rs"), "src/sub/file.rs");
}

#[test]
fn test_file_go() {
    assert!(is_test_file("pkg/handler_test.go"));
    assert!(!is_test_file("pkg/handler.go"));
}

#[test]
fn test_file_ts_js() {
    assert!(is_test_file("src/app.test.ts"));
    assert!(is_test_file("src/app.test.tsx"));
    assert!(is_test_file("src/app.spec.js"));
    assert!(is_test_file("src/app.spec.jsx"));
    assert!(!is_test_file("src/app.ts"));
}

#[test]
fn test_file_python() {
    assert!(is_test_file("test_utils.py"));
    assert!(!is_test_file("utils_test.py"));
    assert!(!is_test_file("test_utils.rs"));
}

#[test]
fn test_file_ruby() {
    assert!(is_test_file("models/user_spec.rb"));
    assert!(!is_test_file("models/user.rb"));
}

#[test]
fn test_file_directory() {
    assert!(is_test_file("tests/unit/foo.rs"));
    assert!(is_test_file("test/foo.js"));
    assert!(is_test_file("src/__tests__/app.tsx"));
    assert!(!is_test_file("src/foo.rs"));
}

#[test]
fn test_file_normal_files() {
    assert!(!is_test_file("src/main.rs"));
    assert!(!is_test_file("lib/utils.ts"));
    assert!(!is_test_file("index.js"));
}

#[test]
fn symbol_priority_ordering() {
    assert!(symbol_priority(SymbolKind::Struct) < symbol_priority(SymbolKind::Fn));
    assert!(symbol_priority(SymbolKind::Enum) < symbol_priority(SymbolKind::Fn));
    assert!(symbol_priority(SymbolKind::Trait) < symbol_priority(SymbolKind::Fn));
    assert!(symbol_priority(SymbolKind::Interface) < symbol_priority(SymbolKind::Fn));
    assert!(symbol_priority(SymbolKind::Class) < symbol_priority(SymbolKind::Fn));
    assert!(symbol_priority(SymbolKind::Fn) < symbol_priority(SymbolKind::Field));
}

#[test]
fn normalizes_parent_components() {
    assert_eq!(normalize("/repo/child/.."), "/repo");
    assert_eq!(normalize("child/../src/lib.rs"), "src/lib.rs");
    assert_eq!(normalize("../src"), "../src");
}
