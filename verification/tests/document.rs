//! Tests that run the reorderer over real parsed documents.

use toml_reorder::{
    for_entries, get_table_name, node_children, node_text, parse_mutable, reorder_table_keys,
    ElemKind, TableError, Tables,
};

fn strings(v: &[&str]) -> Vec<String> {
    v.iter().map(|s| s.to_string()).collect()
}

fn reorder_text(input: &str, priority: &[&str]) -> String {
    let mut root = parse_mutable(input);
    let mut tables = Tables::from_ast(&mut root);
    tables.reorder(&mut root, &strings(priority)).unwrap();
    node_text(&root)
}

#[test]
fn sections_follow_priority_list() {
    let out = reorder_text(
        "[project]\nname=\"x\"\n\n[build-system]\nrequires=[]\n",
        &["build-system"],
    );
    assert_eq!(out, "[build-system]\nrequires=[]\n\n[project]\nname=\"x\"\n\n");
}

#[test]
fn exact_section_precedes_its_nested_sections() {
    let out = reorder_text(
        "[tool.widget.deps]\na=1\n\n[tool.widget]\nb=2\n",
        &["tool.widget"],
    );
    // Both sections share the group key `tool.widget`, so the separator
    // between them is preserved as-is rather than normalized.
    assert_eq!(out, "[tool.widget]\nb=2\n[tool.widget.deps]\na=1\n\n");
}

#[test]
fn leading_blank_line_is_dropped() {
    let out = reorder_text("\n[a]\nx=1\n", &[]);
    assert_eq!(out, "[a]\nx=1\n\n");
}

#[test]
fn separator_between_differing_groups_becomes_one_blank_line() {
    let out = reorder_text("[a]\nx=1\n\n\n\n[b]\ny=2\n", &[]);
    assert_eq!(out, "[a]\nx=1\n\n[b]\ny=2\n\n");
}

#[test]
fn roundtrip_with_discovered_order_is_byte_identical() {
    let input = "[a]\nx=1\n\n[b]\ny=2\n\n";
    let out = reorder_text(input, &["a", "b"]);
    assert_eq!(out, input);
}

#[test]
fn reorder_is_idempotent() {
    let input = "[project]\nname=\"x\"\n\n[tool.widget.deps]\na=1\n\n[build-system]\nr=[]\n\n[tool.widget]\nb=2\n";
    let priority = ["build-system", "tool.widget"];
    let once = reorder_text(input, &priority);
    let twice = reorder_text(&once, &priority);
    assert_eq!(twice, once);
}

#[test]
fn child_count_is_conserved_without_leading_blank() {
    let mut root = parse_mutable("[a]\nx=1\n\n[b]\ny=2\n");
    let before = node_children(&root).len();
    let mut tables = Tables::from_ast(&mut root);
    tables.reorder(&mut root, &strings(&["b"])).unwrap();
    let after = node_children(&root).len();
    assert_eq!(before, after);
}

#[test]
fn dropped_leading_blank_removes_exactly_one_child() {
    let mut root = parse_mutable("\n[a]\nx=1\n");
    let before = node_children(&root).len();
    let mut tables = Tables::from_ast(&mut root);
    tables.reorder(&mut root, &strings(&[])).unwrap();
    let after = node_children(&root).len();
    assert_eq!(before, after + 1);
}

#[test]
fn entry_groups_follow_key_list() {
    let mut root = parse_mutable("name=1\nversion=2\nlicense=3\n");
    let mut tables = Tables::from_ast(&mut root);
    assert_eq!(tables.table_set.len(), 1);
    let mut section = tables.table_set.remove(0);
    reorder_table_keys(&mut section, &strings(&["license", "name"]));
    let keys: Vec<String> = section
        .iter()
        .filter(|e| e.kind == ElemKind::Entry)
        .map(|e| e.name.clone())
        .collect();
    assert_eq!(keys, strings(&["license", "name", "version"]));
}

#[test]
fn entry_reorder_keeps_every_element() {
    let mut root = parse_mutable("a=1\nb=2\nc=3\n");
    let mut tables = Tables::from_ast(&mut root);
    let mut section = tables.table_set.remove(0);
    let before = section.len();
    reorder_table_keys(&mut section, &strings(&["c"]));
    assert_eq!(section.len(), before);
    let keys: Vec<String> = section
        .iter()
        .filter(|e| e.kind == ElemKind::Entry)
        .map(|e| e.name.clone())
        .collect();
    assert_eq!(keys, strings(&["c", "a", "b"]));
}

#[test]
fn for_entries_yields_key_value_pairs_in_order() {
    let mut root = parse_mutable("a=1\nb=2\n");
    let mut tables = Tables::from_ast(&mut root);
    let section = tables.table_set.remove(0);
    let pairs = for_entries(&section);
    let keys: Vec<String> = pairs.iter().map(|(k, _)| k.clone()).collect();
    assert_eq!(keys, strings(&["a", "b"]));
}

#[test]
fn get_finds_section_by_name() {
    let mut root = parse_mutable("[a]\nx=1\n\n[b]\ny=2\n");
    let tables = Tables::from_ast(&mut root);
    assert!(tables.get(&"a".to_string()).is_some());
    assert!(tables.get(&"b".to_string()).is_some());
    assert!(tables.get(&"missing".to_string()).is_none());
}

#[test]
fn get_table_name_reads_header_and_rejects_others() {
    let mut root = parse_mutable("[a]\nx=1\n");
    let tables = Tables::from_ast(&mut root);
    let header = &tables.table_set[0][0];
    assert_eq!(get_table_name(&header.node), "a");
    let newline = &tables.table_set[0][1];
    assert_eq!(get_table_name(&newline.node), "");
}

#[test]
fn array_headers_are_section_boundaries() {
    let out = reorder_text("[[a]]\nx=1\n\n[b]\ny=2\n", &["b"]);
    assert_eq!(out, "[b]\ny=2\n\n[[a]]\nx=1\n\n");
}

#[test]
fn tampered_tables_report_name_not_found() {
    let mut root = parse_mutable("[a]\nx=1\n");
    let text_before = node_text(&root);
    let mut tables = Tables {
        headers: strings(&["a"]),
        table_set: Vec::new(),
    };
    let res = tables.reorder(&mut root, &strings(&[]));
    assert_eq!(res, Err(TableError::NameNotFound));
    assert_eq!(node_text(&root), text_before);
}
