use relay_dedup::writer::{generate_shared_module_content, get_deps, topo_sort, update_imports};
use relay_dedup::ExtractedEntry;

fn entry(name: &str, hash: &str) -> ExtractedEntry {
    ExtractedEntry {
        name: name.to_string(),
        hash: hash.to_string(),
        count: 2,
    }
}

#[test]
fn test_get_deps() {
    assert_eq!(get_deps(r#"{"ref": x_abc}"#), vec!["x_abc"]);
    assert_eq!(get_deps(r#"[x_abc, x_def]"#), vec!["x_abc", "x_def"]);
    assert!(get_deps(r#"{"key": "value"}"#).is_empty());
}

#[test]
fn test_topo_sort() {
    let mut extracted: Vec<(String, ExtractedEntry)> = Vec::new();
    extracted.push((r#"[x_aaa]"#.to_string(), entry("x_bbb", "bbb12345")));
    extracted.push((r#"{"kind":"Literal"}"#.to_string(), entry("x_aaa", "aaa12345")));

    let sorted = topo_sort(&extracted);

    let aaa_idx = sorted.iter().position(|(_, e)| e.name == "x_aaa").unwrap();
    let bbb_idx = sorted.iter().position(|(_, e)| e.name == "x_bbb").unwrap();
    assert!(aaa_idx < bbb_idx);
    assert_eq!(sorted.len(), 2);
}

#[test]
fn topo_sort_orders_by_name_without_dependencies() {
    let mut extracted: Vec<(String, ExtractedEntry)> = Vec::new();
    extracted.push(("[1]".to_string(), entry("x_ccc", "c")));
    extracted.push(("[2]".to_string(), entry("x_aaa", "a")));
    extracted.push(("[3]".to_string(), entry("x_bbb", "b")));
    let names: Vec<String> = topo_sort(&extracted).into_iter().map(|(_, e)| e.name).collect();
    assert_eq!(names, vec!["x_aaa", "x_bbb", "x_ccc"]);
}

#[test]
fn shared_module_lists_dependencies_first() {
    let mut extracted: Vec<(String, ExtractedEntry)> = Vec::new();
    extracted.push(("[x_bbb, x_ccc]".to_string(), entry("x_aaa", "a")));
    extracted.push(("{\"k\":x_ccc}".to_string(), entry("x_bbb", "b")));
    extracted.push(("{\"k\":1}".to_string(), entry("x_ccc", "c")));
    let text = generate_shared_module_content(&extracted);
    let expected = "/**\n * @generated - Do not edit manually\n * Shared Relay structures\n */\n\
// eslint-disable-next-line @typescript-eslint/no-explicit-any\ntype RelayNode = any;\n\n\
export const x_ccc: RelayNode = {\"k\":1};\n\
export const x_bbb: RelayNode = {\"k\":x_ccc};\n\
export const x_aaa: RelayNode = [x_bbb, x_ccc];\n";
    assert_eq!(text, expected);
}

#[test]
fn imports_added_after_existing_imports() {
    let content = "import { a } from \"b\";\n\nexport const n = x_abc;\nconst m = [x_abc, x_0f1];\n";
    let out = update_imports(content, "__shared.ts");
    assert_eq!(
        out,
        "import { a } from \"b\";\nimport { x_0f1, x_abc } from \"./__shared\";\n\nexport const n = x_abc;\nconst m = [x_abc, x_0f1];\n"
    );
}

#[test]
fn stale_shared_import_is_replaced() {
    let content = "import { x_old } from \"./__shared\";\nexport const n = x_def;\n";
    let out = update_imports(content, "__shared.ts");
    assert_eq!(out, "import { x_def } from \"./__shared\";\nexport const n = x_def;\n");
}

#[test]
fn no_refs_no_import() {
    let content = "import { x_old } from \"./__shared\";\r\nexport const n = 1;";
    let out = update_imports(content, "__shared.ts");
    assert_eq!(out, "export const n = 1;");
}

#[test]
fn untouched_text_keeps_every_byte() {
    assert_eq!(update_imports("a", "__shared.ts"), "a");
    assert_eq!(update_imports("", "__shared.ts"), "");
    let crlf = "// c\r\nexport const n = 1;\r\n\r\nconst m = 2;";
    assert_eq!(update_imports(crlf, "__shared.ts"), crlf);
}

#[test]
fn crlf_lines_keep_their_endings_when_import_is_added() {
    let content = "import { a } from \"b\";\r\nexport const n = x_abc;\r\n";
    assert_eq!(
        update_imports(content, "__shared.ts"),
        "import { a } from \"b\";\r\nimport { x_abc } from \"./__shared\";\nexport const n = x_abc;\r\n"
    );
}

#[test]
fn import_after_last_line_without_ending() {
    let content = "const n = x_abc\nimport { a } from \"b\";";
    assert_eq!(
        update_imports(content, "__shared.ts"),
        "import { x_abc } from \"./__shared\";\nconst n = x_abc\nimport { a } from \"b\";"
    );
    let content = "let n = x_abc\nimport { a } from \"b\";";
    assert_eq!(
        update_imports(content, "__shared.ts"),
        "let n = x_abc\nimport { a } from \"b\";\nimport { x_abc } from \"./__shared\";"
    );
}

#[test]
fn module_name_suffixes_are_trimmed() {
    let out = update_imports("const n = x_abc;\n", "common.ts.ts");
    assert_eq!(out, "import { x_abc } from \"./common\";\nconst n = x_abc;\n");
}
