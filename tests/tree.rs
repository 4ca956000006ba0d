use relay_dedup::scan::{
    find_import_end, is_order_insensitive, is_valid_identifier, is_valid_leaf_content,
};
use relay_dedup::tree::FileTree;

fn chars(s: &str) -> Vec<char> {
    s.chars().collect()
}

#[test]
fn test_build_tree() {
    let content = r#"const x = {"a": 1, "b": [{"c": 2}]};"#.to_string();
    let tree = FileTree::new(content, &Vec::new());

    assert!(!tree.nodes.is_empty());
}

#[test]
fn test_find_leaves() {
    let content = r#"const x = {"kind": "Field", "name": "id"};"#.to_string();
    let tree = FileTree::new(content, &Vec::new());

    let leaves = tree.find_leaves();
    assert!(!leaves.is_empty());
}

#[test]
fn tree_records_nesting() {
    let content = r#"const x = {"a": 1, "b": [{"c": 2}]};"#.to_string();
    let tree = FileTree::new(content, &Vec::new());
    assert_eq!(tree.nodes.len(), 3);
    assert_eq!(tree.root_nodes, vec![0]);
    assert_eq!(tree.nodes[1].parent, Some(0));
    assert_eq!(tree.nodes[2].parent, Some(1));
    assert!(tree.nodes[1].is_array);
    assert_eq!(tree.nodes[0].start, 10);
    assert_eq!(tree.nodes[0].end, 35);
}

#[test]
fn brackets_in_strings_and_imports_are_skipped() {
    let content = "import { a } from \"b\";\n// {x}\nconst y = {\"s\": \"[not a node]\"};\n".to_string();
    let tree = FileTree::new(content, &Vec::new());
    assert_eq!(tree.nodes.len(), 1);
}

#[test]
fn unclosed_node_is_left_inline() {
    let content = "const y = {\"kind\": \"Field\", \"name\": \"id\"".to_string();
    let mut tree = FileTree::new(content.clone(), &Vec::new());
    assert_eq!(tree.nodes[0].end, 0);
    assert!(tree.find_leaves().is_empty());
    assert_eq!(tree.serialize(), content);
}

#[test]
fn marking_replaces_span_and_promotes_parent() {
    let content =
        r#"const x = {"items": [{"kind": "Field", "name": "id"}, "some text here"]};"#.to_string();
    let mut tree = FileTree::new(content, &Vec::new());
    let leaves = tree.find_leaves();
    assert_eq!(leaves.len(), 1);
    assert_eq!(leaves[0].0, 2);
    tree.mark_extracted(2, chars("x_abc"), &Vec::new());
    assert_eq!(tree.serialize(), r#"const x = {"items": [x_abc, "some text here"]};"#);
    let leaves = tree.find_leaves();
    assert_eq!(leaves.len(), 1);
    assert_eq!(leaves[0].0, 1);
    assert_eq!(leaves[0].1, chars(r#"[x_abc,"some text here"]"#));
    tree.mark_extracted(1, chars("x_def"), &Vec::new());
    assert_eq!(tree.serialize(), r#"const x = {"items": x_def};"#);
    let leaves = tree.find_leaves();
    assert_eq!(leaves.len(), 1);
    assert_eq!(leaves[0].1, chars(r#"{"items":x_def}"#));
}

#[test]
fn short_rebuilt_parent_stays_inline() {
    let content = r#"const x = {"items": [{"kind": "Field", "name": "id"}]};"#.to_string();
    let mut tree = FileTree::new(content, &Vec::new());
    tree.mark_extracted(2, chars("x_abc"), &Vec::new());
    assert!(tree.find_leaves().is_empty());
    assert_eq!(tree.serialize(), r#"const x = {"items": [x_abc]};"#);
}

#[test]
fn short_structures_are_not_candidates() {
    let content = r#"const x = {"a": 1};"#.to_string();
    let tree = FileTree::new(content, &Vec::new());
    assert!(tree.find_leaves().is_empty());
}

#[test]
fn bare_identifiers_block_candidacy() {
    let content = r#"const x = {"kind": someVariable, "name": "id"};"#.to_string();
    let tree = FileTree::new(content, &Vec::new());
    assert!(tree.find_leaves().is_empty());
}

#[test]
fn order_insensitive_field_sorts_array() {
    let fields = vec!["selections".to_string()];
    let content = r#"const x = {"selections": ["gamma", "alpha", "beta"]};"#.to_string();
    let tree = FileTree::new(content, &fields);
    let leaves = tree.find_leaves();
    assert_eq!(leaves.len(), 1);
    assert_eq!(leaves[0].1, chars(r#"["alpha","beta","gamma"]"#));
}

#[test]
fn identifiers_accepted() {
    assert!(is_valid_identifier(&chars("x_ab12")));
    assert!(is_valid_identifier(&chars("_0123abcd")));
    assert!(is_valid_identifier(&chars("null")));
    assert!(is_valid_identifier(&chars("true")));
    assert!(is_valid_identifier(&chars("false")));
    assert!(is_valid_identifier(&chars("12345")));
    assert!(!is_valid_identifier(&chars("x_zz")));
    assert!(!is_valid_identifier(&chars("x_a")));
    assert!(!is_valid_identifier(&chars("v0")));
}

#[test]
fn leaf_content_accepted() {
    assert!(is_valid_leaf_content(&chars(r#"{"a": x_abc, "b": null}"#)));
    assert!(!is_valid_leaf_content(&chars(r#"{"a": foo}"#)));
    assert!(!is_valid_leaf_content(&chars("[   ]")));
}

#[test]
fn import_header_end() {
    let text = chars("import a from \"b\";\n\n// note\nconst x = 1;\n");
    assert_eq!(find_import_end(&text), 28);
    assert_eq!(find_import_end(&chars("const x = 1;")), 0);
}

#[test]
fn import_header_end_with_crlf() {
    assert_eq!(find_import_end(&chars("import a from \"b\";\r\nconst x = 1;\r\n")), 20);
    assert_eq!(find_import_end(&chars("// only a comment")), 17);
}

#[test]
fn field_name_needs_opening_quote() {
    let fields = vec![chars("args")];
    assert!(!is_order_insensitive(&chars("Xargs\":[1]"), 7, &fields));
    assert!(is_order_insensitive(&chars("{\"args\":[1]"), 8, &fields));
    assert!(is_order_insensitive(&chars("{\"args\" : [1]"), 10, &fields));
    assert!(!is_order_insensitive(&chars("{\"other\":[1]"), 9, &fields));
    assert!(is_order_insensitive(&chars("{\"args\":"), 8, &fields));
}
