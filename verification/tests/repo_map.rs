use cki::repo::context::{crate_name_from_manifest, is_skipped_entry, RepoMap, SymbolKind};
use std::path::PathBuf;

fn bank_map() -> RepoMap {
    let lib = RepoMap::parse_rust_source(
        PathBuf::from("/w/src/lib.rs"),
        "src/lib.rs",
        "pub mod storage;\npub mod service;\npub use storage::AccountStore;\n",
    );
    let storage = RepoMap::parse_rust_source(
        PathBuf::from("/w/src/storage.rs"),
        "src/storage.rs",
        "use std::collections::HashMap;\n\npub struct AccountStore {\n    pub accounts: HashMap<u64, f64>,\n}\n\nimpl AccountStore {\n    pub fn new() -> Self {\n        Self { accounts: HashMap::new() }\n    }\n    pub fn get(&self, id: u64) -> Option<f64> {\n        self.accounts.get(&id).copied()\n    }\n}\n",
    );
    let name = crate_name_from_manifest("[package]\nname = \"bank_demo\"\nversion = \"0.1.0\"\n");
    RepoMap::from_files(name, vec![storage, lib])
}

#[test]
fn parses_multi_module_rust_repo_sources() {
    let repo_map = bank_map();
    assert_eq!(repo_map.crate_name.as_deref(), Some("bank_demo"));
    assert_eq!(repo_map.files.len(), 2);
    assert_eq!(repo_map.files[0].rel_path, "src/lib.rs");

    let map_str = repo_map.to_prompt_string();
    assert!(map_str.contains("Crate Name: `bank_demo`"));
    assert!(map_str.contains("src/lib.rs"));
    assert!(map_str.contains("pub mod storage"));
    assert!(map_str.contains("pub use storage::AccountStore"));
    assert!(map_str.contains("src/storage.rs"));
    assert!(map_str.contains("pub struct AccountStore"));
    assert!(map_str.contains("field: pub accounts: HashMap<u64, f64>"));
    assert!(map_str.contains("AccountStore::pub fn new() -> Self"));
    assert!(map_str.contains("AccountStore::pub fn get(&self, id: u64) -> Option<f64>"));
    assert!(map_str.contains("Strict Grounding Constraints & Invariants"));
}

#[test]
fn scan_records_kinds_and_lines() {
    let info = RepoMap::parse_rust_source(
        PathBuf::from("a.rs"),
        "a.rs",
        "// c\nmod inner;\n#[test]\nfn checks() {}\nenum E { A }\ntrait T;\nfn free() {}\nprivate_fn() {\n",
    );
    assert_eq!(info.modules, vec!["mod inner".to_string()]);
    let kinds: Vec<SymbolKind> = info.symbols.iter().map(|s| s.kind).collect();
    assert_eq!(
        kinds,
        vec![SymbolKind::Module, SymbolKind::Test, SymbolKind::Enum, SymbolKind::Trait, SymbolKind::Function]
    );
    assert_eq!(info.symbols[1].line_number, 4);
    assert_eq!(info.symbols[2].name, "enum E");
    assert_eq!(info.symbols[2].signature.as_deref(), Some("enum E { A }"));
    assert_eq!(info.symbols[3].name, "trait T");
    assert_eq!(info.symbols[4].name, "fn free()");
}

#[test]
fn impl_block_ends_at_its_closing_brace() {
    let info = RepoMap::parse_rust_source(
        PathBuf::from("b.rs"),
        "b.rs",
        "impl Stack<T> {\n    fn a(&self) {}\n}\nfn b() {}\n",
    );
    assert_eq!(info.symbols.len(), 2);
    assert_eq!(info.symbols[0].name, "Stack<T>::fn a(&self)");
    assert_eq!(info.symbols[0].kind, SymbolKind::Method);
    assert_eq!(info.symbols[1].name, "fn b()");
    assert_eq!(info.symbols[1].kind, SymbolKind::Function);
}

#[test]
fn manifest_names_and_skipped_entries() {
    assert_eq!(crate_name_from_manifest("name = 'x_y'\n"), Some("x_y".to_string()));
    assert_eq!(crate_name_from_manifest("[package]\nversion = \"1\"\n"), None);
    assert_eq!(crate_name_from_manifest("name = \"\"\nname=\"b\"\n"), Some("b".to_string()));
    assert!(is_skipped_entry("target"));
    assert!(is_skipped_entry(".git"));
    assert!(!is_skipped_entry("src"));
    assert_eq!(RepoMap::from_files(None, vec![]).to_prompt_string(), "");
}
