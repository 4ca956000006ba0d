use relay_dedup::{hash_string, Config, Deduplicator, Stats};

fn config(min: usize, dry: bool) -> Config {
    let mut c = Config::default();
    c.min_occurrences = min;
    c.dry_run = dry;
    c
}

fn files(list: &[(&str, &str)]) -> Vec<(String, String)> {
    list.iter().map(|(n, t)| (n.to_string(), t.to_string())).collect()
}

const SCALAR: &str = r#"{"kind":"ScalarField","name":"id"}"#;

fn scalar_file(name: &str) -> (String, String) {
    (name.to_string(), format!("export const node = {};\n", SCALAR))
}

#[test]
fn test_hash_string() {
    let hash = hash_string("test");
    assert_eq!(hash.len(), 32);
    assert_eq!(hash, hash_string("test"));
    assert_ne!(hash, hash_string("test2"));
}

#[test]
fn hash_is_md5_hex() {
    assert_eq!(hash_string("test"), "098f6bcd4621d373cade4e832627b4f6");
    assert_eq!(hash_string(""), "d41d8cd98f00b204e9800998ecf8427e");
}

#[test]
fn default_config_values() {
    let c = Config::default();
    assert_eq!(c.shared_module_name, "__shared.ts");
    assert_eq!(c.min_occurrences, 2);
    assert_eq!(c.order_insensitive_fields, vec!["selections", "args", "argumentDefinitions"]);
    assert!(!c.dry_run);
    assert!(!c.verbose);
    assert_eq!(c.max_passes, 50);
    assert!(!c.compute_gzip);
}

#[test]
fn savings_are_signed_differences() {
    let s = Stats {
        raw_before: 100,
        raw_after: 140,
        gzipped_before: 50,
        gzipped_after: 20,
        total_extracted: 0,
        passes: 1,
    };
    assert_eq!(s.raw_savings(), -40);
    assert_eq!(s.gzipped_savings(), 30);
}

#[test]
fn repeated_literal_is_extracted_once() {
    let mut d = Deduplicator::new(config(2, false));
    let out = d.run(vec![scalar_file("A.graphql.ts"), scalar_file("B.graphql.ts")]);
    assert_eq!(out.stats.total_extracted, 1);
    let name = format!("x_{}", &hash_string(SCALAR)[..3]);
    let expected = format!(
        "import {{ {} }} from \"./__shared\";\nexport const node = {};\n",
        name, name
    );
    assert_eq!(out.files.len(), 2);
    assert_eq!(out.files[0].0, "A.graphql.ts");
    assert_eq!(out.files[0].1, expected);
    assert_eq!(out.files[1].1, expected);
    let shared = out.shared_module.unwrap();
    let exports: Vec<&str> = shared.lines().filter(|l| l.starts_with("export const")).collect();
    assert_eq!(exports, vec![format!("export const {}: RelayNode = {};", name, SCALAR)]);
    let before: usize = 2 * format!("export const node = {};\n", SCALAR).len();
    assert_eq!(out.stats.raw_before, before as u64);
    let after: usize = out.files.iter().map(|(_, t)| t.len()).sum::<usize>() + shared.len();
    assert_eq!(out.stats.raw_after, after as u64);
}

#[test]
fn below_threshold_nothing_changes() {
    let mut d = Deduplicator::new(config(3, false));
    let input = vec![scalar_file("A.graphql.ts"), scalar_file("B.graphql.ts")];
    let out = d.run(input.clone());
    assert_eq!(out.stats.total_extracted, 0);
    assert_eq!(out.files, input);
    assert!(out.shared_module.is_none());
    assert_eq!(out.stats.raw_before, out.stats.raw_after);
    let total: usize = input.iter().map(|(_, t)| t.len()).sum();
    assert_eq!(out.stats.raw_before, total as u64);
}

#[test]
fn unique_structure_stays_inline() {
    let unique = r#"export const other = {"kind":"ScalarField","name":"unique_only_here"};"#;
    let a = format!("export const node = {};\n{}\n", SCALAR, unique);
    let mut d = Deduplicator::new(config(2, false));
    let out = d.run(files(&[("A.graphql.ts", &a), ("B.graphql.ts", &format!("export const node = {};\n", SCALAR))]));
    assert_eq!(out.stats.total_extracted, 1);
    assert!(out.files[0].1.contains("unique_only_here"));
    assert!(!out.shared_module.unwrap().contains("unique_only_here"));
}

#[test]
fn dry_run_hands_back_nothing_to_write() {
    let mut d = Deduplicator::new(config(2, true));
    let out = d.run(vec![scalar_file("A.graphql.ts"), scalar_file("B.graphql.ts")]);
    assert_eq!(out.stats.total_extracted, 1);
    assert!(out.files.is_empty());
    assert!(out.shared_module.is_none());
    assert!(out.stats.raw_after < out.stats.raw_before + 1000);
}

#[test]
fn runs_are_deterministic() {
    let input = files(&[
        ("A.graphql.ts", r#"export const a = {"selections": [{"kind":"ScalarField","name":"id"}, {"kind":"ScalarField","name":"name"}]};"#),
        ("B.graphql.ts", r#"export const b = {"selections": [{"kind":"ScalarField","name":"name"}, {"kind":"ScalarField","name":"id"}]};"#),
    ]);
    let mut d1 = Deduplicator::new(config(2, false));
    let mut d2 = Deduplicator::new(config(2, false));
    let o1 = d1.run(input.clone());
    let o2 = d2.run(input);
    assert_eq!(o1.files, o2.files);
    assert_eq!(o1.shared_module, o2.shared_module);
    assert_eq!(o1.stats.total_extracted, o2.stats.total_extracted);
}

#[test]
fn order_insensitive_arrays_share_an_entry() {
    let input = files(&[
        ("A.graphql.ts", "export const a = {\"selections\": [\"alpha\", \"beta\", \"gamma\"]};\n"),
        ("B.graphql.ts", "export const b = {\"selections\": [\"gamma\", \"alpha\", \"beta\"]};\n"),
    ]);
    let mut d = Deduplicator::new(config(2, false));
    let out = d.run(input);
    assert_eq!(out.stats.total_extracted, 2);
    assert!(out.stats.passes >= 2);
    let shared = out.shared_module.unwrap();
    let array_line = shared.lines().position(|l| l.ends_with("= [\"alpha\",\"beta\",\"gamma\"];")).unwrap();
    let object_line = shared.lines().position(|l| l.contains("= {\"selections\":x_")).unwrap();
    assert!(array_line < object_line);
    assert!(out.files[0].1.starts_with("import { x_"));
    assert!(!out.files[0].1.contains("alpha"));
}

#[test]
fn rerun_on_output_extracts_nothing() {
    let input = files(&[
        ("A.graphql.ts", "export const a = {\"selections\": [\"alpha\", \"beta\", \"gamma\"], \"other\": [\"only in a\", 1]};\n"),
        ("B.graphql.ts", "export const b = {\"selections\": [\"gamma\", \"alpha\", \"beta\"]};\n"),
    ]);
    let mut d = Deduplicator::new(config(2, false));
    let out = d.run(input);
    assert!(out.stats.total_extracted >= 1);
    let mut again = Deduplicator::new(config(2, false));
    let out2 = again.run(out.files.clone());
    assert_eq!(out2.stats.total_extracted, 0);
    assert_eq!(out2.files, out.files);
}

#[test]
fn pass_budget_limits_passes() {
    let input = files(&[
        ("A.graphql.ts", "export const a = {\"selections\": [\"alpha\", \"beta\", \"gamma\"]};\n"),
        ("B.graphql.ts", "export const b = {\"selections\": [\"gamma\", \"alpha\", \"beta\"]};\n"),
    ]);
    let mut c = config(2, false);
    c.max_passes = 1;
    let mut d = Deduplicator::new(c);
    let out = d.run(input);
    assert_eq!(out.stats.passes, 1);
    assert_eq!(out.stats.total_extracted, 1);
}

#[test]
fn gzip_sizes_when_asked() {
    let mut c = config(2, false);
    c.compute_gzip = true;
    let mut d = Deduplicator::new(c);
    let out = d.run(vec![scalar_file("A.graphql.ts"), scalar_file("B.graphql.ts")]);
    assert!(out.stats.gzipped_before > 20);
    assert_ne!(out.stats.gzipped_before, out.stats.raw_before);
    let mut plain = Deduplicator::new(config(2, false));
    let out2 = plain.run(vec![scalar_file("A.graphql.ts"), scalar_file("B.graphql.ts")]);
    assert_eq!(out2.stats.gzipped_before, 0);
}

#[test]
fn unbalanced_file_is_kept_verbatim() {
    let broken = format!("export const node = {};\nexport const open = {{\"kind\": [1, 2, 3, 4, 5, 6, 7]\n", SCALAR);
    let mut d = Deduplicator::new(config(2, false));
    let out = d.run(vec![
        ("A.graphql.ts".to_string(), broken),
        scalar_file("B.graphql.ts"),
    ]);
    assert_eq!(out.stats.total_extracted, 1);
    assert!(out.files[0].1.ends_with("export const open = {\"kind\": [1, 2, 3, 4, 5, 6, 7]\n"));
}

#[test]
fn strings_with_brackets_do_not_nest() {
    let text = "export const a = {\"label\": \"{not [a] node}\", \"k\": 1};\n";
    let mut d = Deduplicator::new(config(2, false));
    let out = d.run(files(&[("A.graphql.ts", text), ("B.graphql.ts", text)]));
    assert_eq!(out.stats.total_extracted, 1);
    let shared = out.shared_module.unwrap();
    assert!(shared.contains("= {\"k\":1,\"label\":\"{not [a] node}\"};"));
}

#[test]
fn files_without_extraction_stay_byte_identical() {
    let input = files(&[
        ("A.graphql.ts", "a"),
        ("B.graphql.ts", "// x\r\nexport const n = {\"k\": \"some long text\"};\r\n"),
    ]);
    let mut d = Deduplicator::new(config(2, false));
    let out = d.run(input.clone());
    assert_eq!(out.stats.total_extracted, 0);
    assert_eq!(out.files, input);
}
