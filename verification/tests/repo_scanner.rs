use cki::repo::scanner::{extract_symbols_from_content, render_symbol_map, SymbolIndex};

#[test]
fn generates_repo_map_for_rust_project() {
    let symbols = extract_symbols_from_content("src/lib.rs", "pub fn parse_input() {}\npub struct Data {}\n");
    let map = render_symbol_map(&symbols, 1000);
    assert!(map.contains("File `src/lib.rs`:"));
    assert!(map.contains("fn parse_input"));
    assert!(map.contains("type struct Data"));
}

#[test]
fn symbol_index_searches_by_name_and_type() {
    let symbols = extract_symbols_from_content(
        "src/lib.rs",
        "pub fn parse_input() {}\npub struct Data {}\npub fn process_data() {}\n",
    );
    let index = SymbolIndex::from_entries(symbols);
    let hits = index.search("parse", 10);
    assert_eq!(hits.len(), 1);
    assert_eq!(hits[0].name, "parse_input");
    assert_eq!(hits[0].symbol_type, "fn");

    let hits = index.search("data", 10);
    assert_eq!(hits.len(), 2);
    let fn_hits = index.search_type("fn", 10);
    assert_eq!(fn_hits.len(), 2);
    let type_hits = index.search_type("type", 10);
    assert_eq!(type_hits.len(), 1);
    assert_eq!(type_hits[0].name, "struct Data");
}

#[test]
fn python_and_javascript_declarations() {
    let py = extract_symbols_from_content("a/b.py", "class Foo:\n    async def bar(self):\n        pass\n");
    assert_eq!(py.len(), 2);
    assert_eq!((py[0].symbol_type, py[0].name.as_str(), py[0].line_number), ("class", "Foo", 1));
    assert_eq!((py[1].symbol_type, py[1].name.as_str(), py[1].line_number), ("def", "bar", 2));
    let js = extract_symbols_from_content("x.tsx", "export async function go() {}\nexport class View {}\n");
    assert_eq!((js[0].symbol_type, js[0].name.as_str()), ("function", "go"));
    assert_eq!((js[1].symbol_type, js[1].name.as_str()), ("class", "View"));
    assert!(extract_symbols_from_content("notes.md", "fn looks_like_rust() {}").is_empty());
}

#[test]
fn exact_names_come_first_and_limit_applies() {
    let symbols = extract_symbols_from_content("m.rs", "fn data_loader() {}\nfn Data() {}\nfn data() {}\n");
    let index = SymbolIndex::from_entries(symbols);
    let hits = index.search("DATA", 10);
    let names: Vec<&str> = hits.iter().map(|h| h.name.as_str()).collect();
    assert_eq!(names, vec!["Data", "data", "data_loader"]);
    assert_eq!(index.search("data", 1).len(), 1);
    assert_eq!(index.all().len(), 3);
}

#[test]
fn map_layout_and_truncation() {
    let symbols = extract_symbols_from_content("a.rs", "fn one() {}\n\nfn two() {}\n");
    let map = render_symbol_map(&symbols, 1000);
    assert_eq!(map, "### Repository Symbol Map\n\nFile `a.rs`:\n  L1    fn one\n  L3    fn two");
    let short = render_symbol_map(&symbols, 10);
    assert_eq!(short, "### Reposi\n...[repo map truncated at 10 bytes]");
    assert_eq!(render_symbol_map(&Vec::new(), 10), "No symbols found in workspace.");
}

#[test]
fn map_truncation_counts_bytes() {
    let symbols = extract_symbols_from_content("é.rs", "fn one() {}\n");
    let short = render_symbol_map(&symbols, 34);
    assert_eq!(short, "### Repository Symbol Map\n\nFile `\n...[repo map truncated at 34 bytes]");
    let kept = short.split("\n...[").next().unwrap();
    assert!(kept.len() <= 34);
}
