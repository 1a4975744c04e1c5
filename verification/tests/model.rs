//! Tests of the pure model: key extraction and order calculation.

use toml_reorder::{calculate_order, get_key};

fn strings(v: &[&str]) -> Vec<String> {
    v.iter().map(|s| s.to_string()).collect()
}

#[test]
fn group_key_of_nested_tool_name() {
    assert_eq!(get_key("tool.widget.deps"), "tool.widget");
}

#[test]
fn group_key_of_plain_name() {
    assert_eq!(get_key("project"), "project");
}

#[test]
fn group_key_of_empty_name() {
    assert_eq!(get_key(""), "");
}

#[test]
fn group_key_of_bare_tool() {
    assert_eq!(get_key("tool"), "tool");
}

#[test]
fn group_key_of_deeply_dotted_name() {
    assert_eq!(get_key("a.b.c.d"), "a");
    assert_eq!(get_key("tool.a.b.c"), "tool.a");
}

#[test]
fn priority_ordering_with_nested_names() {
    let discovered = strings(&["project", "tool.widget.deps", "build-system", "tool.widget"]);
    let priority = strings(&["build-system", "tool.widget"]);
    let order = calculate_order(&discovered, &priority);
    assert_eq!(
        order,
        strings(&["build-system", "tool.widget", "tool.widget.deps", "project"])
    );
}

#[test]
fn empty_priority_keeps_discovery_order() {
    let discovered = strings(&["b", "a", "c"]);
    let order = calculate_order(&discovered, &strings(&[]));
    assert_eq!(order, strings(&["b", "a", "c"]));
}

#[test]
fn unlisted_names_keep_relative_order_after_listed() {
    let discovered = strings(&["z", "m", "a"]);
    let order = calculate_order(&discovered, &strings(&["m"]));
    assert_eq!(order, strings(&["m", "z", "a"]));
}

#[test]
fn self_priority_without_nesting_is_identity() {
    let discovered = strings(&["alpha", "beta", "gamma"]);
    let order = calculate_order(&discovered, &discovered);
    assert_eq!(order, discovered);
}
