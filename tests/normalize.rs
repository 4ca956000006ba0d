use relay_dedup::normalize::{normalize, split_array_elements, strip_whitespace};

#[test]
fn test_strip_whitespace() {
    assert_eq!(strip_whitespace("{ }"), "{}");
    assert_eq!(strip_whitespace("[ 1 , 2 ]"), "[1,2]");
    assert_eq!(
        strip_whitespace(r#"{ "key" : "value with spaces" }"#),
        r#"{"key":"value with spaces"}"#
    );
}

#[test]
fn test_normalize_array_no_sort() {
    assert_eq!(normalize("[3, 1, 2]", false), "[3,1,2]");
}

#[test]
fn test_normalize_array_with_sort() {
    assert_eq!(normalize("[3, 1, 2]", true), "[1,2,3]");
    assert_eq!(normalize(r#"["c", "a", "b"]"#, true), r#"["a","b","c"]"#);
}

#[test]
fn test_normalize_object_sorts_keys() {
    assert_eq!(normalize(r#"{"z": 1, "a": 2}"#, false), r#"{"a":2,"z":1}"#);
}

#[test]
fn test_normalize_object_with_refs_no_sort() {
    assert_eq!(
        normalize(r#"{"z": x_abc, "a": 2}"#, false),
        r#"{"z":x_abc,"a":2}"#
    );
    assert_eq!(
        normalize(r#"{"items": [v0, v1]}"#, false),
        r#"{"items":[v0,v1]}"#
    );
}

#[test]
fn test_normalize_empty() {
    assert_eq!(normalize("[]", false), "[]");
    assert_eq!(normalize("{}", false), "{}");
}

#[test]
fn test_split_array_elements() {
    assert_eq!(split_array_elements("1, 2, 3"), vec!["1", "2", "3"]);
    assert_eq!(
        split_array_elements(r#"{"a": 1}, {"b": 2}"#),
        vec![r#"{"a": 1}"#, r#"{"b": 2}"#]
    );
}

#[test]
fn whitespace_inside_strings_is_kept() {
    assert_eq!(strip_whitespace("[ \"a b\" ,\t\"c\\\" d\" ]"), "[\"a b\",\"c\\\" d\"]");
}

#[test]
fn split_respects_nesting_and_strings() {
    assert_eq!(
        split_array_elements(r#"[1, 2], "x,y" , {"k": [3, 4]}, "#),
        vec!["[1, 2]", r#""x,y""#, r#"{"k": [3, 4]}"#]
    );
}

#[test]
fn order_insensitive_arrays_agree() {
    let a = normalize(r#"["beta", "alpha", {"k": 1}]"#, true);
    let b = normalize(r#"[ {"k": 1}, "alpha",  "beta" ]"#, true);
    assert_eq!(a, b);
    assert_eq!(a, r#"["alpha","beta",{"k":1}]"#);
}

#[test]
fn blank_array_sorts_to_empty() {
    assert_eq!(normalize("[ , ]", true), "[]");
}

#[test]
fn nested_object_values_render_compactly() {
    assert_eq!(
        normalize(r#"{"b": {"y": [1, 2], "x": null}, "a": "s"}"#, false),
        r#"{"a":"s","b":{"x":null,"y":[1,2]}}"#
    );
}

#[test]
fn scalar_text_is_only_stripped() {
    assert_eq!(normalize(" a b ", true), "ab");
}
