use op_cache::inject::parse_inject_output;
use op_cache::{build_env, build_inject_template, collect_op_refs, merge_env, SecretMap};

#[test]
fn collect_op_refs_finds_op_values() {
    let env = vec![
        ("SECRET".into(), "op://vault/item/field".into()),
        ("PLAIN".into(), "hello".into()),
        ("ANOTHER".into(), "op://vault/other/key".into()),
    ];
    let refs = collect_op_refs(&env);
    assert_eq!(refs, vec!["op://vault/item/field", "op://vault/other/key"]);
}

#[test]
fn collect_op_refs_empty_env() {
    let env: Vec<(String, String)> = vec![];
    let refs = collect_op_refs(&env);
    assert!(refs.is_empty());
}

#[test]
fn collect_op_refs_ignores_non_op() {
    let env = vec![
        ("URL".into(), "https://example.com".into()),
        ("PATH".into(), "/usr/bin".into()),
    ];
    let refs = collect_op_refs(&env);
    assert!(refs.is_empty());
}

#[test]
fn collect_op_refs_skips_partial_match() {
    let env = vec![
        ("URL".into(), "https://example.com/op://fake".into()),
        ("REAL".into(), "op://vault/item/field".into()),
    ];
    let refs = collect_op_refs(&env);
    assert_eq!(refs, vec!["op://vault/item/field"]);
}

#[test]
fn collect_op_refs_deduplicates() {
    let env = vec![
        ("SECRET_A".into(), "op://vault/item/field".into()),
        ("SECRET_B".into(), "op://vault/item/field".into()),
        ("OTHER".into(), "op://vault/other/key".into()),
    ];
    let refs = collect_op_refs(&env);
    assert_eq!(refs, vec!["op://vault/item/field", "op://vault/other/key"]);
}

#[test]
fn build_env_substitutes_resolved_values() {
    let env = vec![
        ("SECRET".into(), "op://vault/item/field".into()),
        ("PLAIN".into(), "hello".into()),
        ("ANOTHER".into(), "op://vault/other/key".into()),
    ];
    let mut resolved = SecretMap::new();
    resolved.insert("op://vault/item/field".into(), "s3cret".into());
    resolved.insert("op://vault/other/key".into(), "k3y".into());

    let result = build_env(&env, &resolved);
    assert_eq!(result[0], ("SECRET".into(), "s3cret".into()));
    assert_eq!(result[1], ("PLAIN".into(), "hello".into()));
    assert_eq!(result[2], ("ANOTHER".into(), "k3y".into()));
}

#[test]
fn build_env_substitutes_duplicate_refs() {
    let env = vec![
        ("SECRET_A".into(), "op://vault/item/field".into()),
        ("SECRET_B".into(), "op://vault/item/field".into()),
    ];
    let mut resolved = SecretMap::new();
    resolved.insert("op://vault/item/field".into(), "s3cret".into());

    let result = build_env(&env, &resolved);
    assert_eq!(result[0], ("SECRET_A".into(), "s3cret".into()));
    assert_eq!(result[1], ("SECRET_B".into(), "s3cret".into()));
}

#[test]
fn build_env_preserves_order() {
    let env = vec![
        ("A".into(), "1".into()),
        ("B".into(), "op://vault/b".into()),
        ("C".into(), "3".into()),
    ];
    let mut resolved = SecretMap::new();
    resolved.insert("op://vault/b".into(), "2".into());

    let result = build_env(&env, &resolved);
    let keys: Vec<&str> = result.iter().map(|(k, _)| k.as_str()).collect();
    assert_eq!(keys, vec!["A", "B", "C"]);
}

#[test]
fn build_env_leaves_unresolved_unchanged() {
    let env = vec![("X".into(), "op://vault/x".into())];
    let resolved = SecretMap::new();
    let result = build_env(&env, &resolved);
    assert_eq!(result[0], ("X".into(), "op://vault/x".into()));
}

#[test]
fn merge_env_file_overrides_process_env() {
    let process_env = vec![("KEY".into(), "old".into())];
    let file_env = vec![("KEY".into(), "new".into())];
    let result = merge_env(process_env, file_env);
    assert_eq!(result, vec![("KEY".into(), "new".into())]);
}

#[test]
fn merge_env_file_adds_new_vars() {
    let process_env = vec![("EXISTING".into(), "val".into())];
    let file_env = vec![("NEW_KEY".into(), "new_val".into())];
    let result = merge_env(process_env, file_env);
    assert_eq!(result.len(), 2);
    assert_eq!(result[0], ("EXISTING".into(), "val".into()));
    assert_eq!(result[1], ("NEW_KEY".into(), "new_val".into()));
}

#[test]
fn merge_preserves_non_overridden_vars() {
    let process_env = vec![
        ("A".into(), "1".into()),
        ("B".into(), "2".into()),
        ("C".into(), "3".into()),
    ];
    let file_env = vec![("B".into(), "override".into())];
    let result = merge_env(process_env, file_env);
    assert_eq!(result[0], ("A".into(), "1".into()));
    assert_eq!(result[1], ("B".into(), "override".into()));
    assert_eq!(result[2], ("C".into(), "3".into()));
}

#[test]
fn merge_preserves_order() {
    let process_env = vec![
        ("A".into(), "1".into()),
        ("B".into(), "2".into()),
        ("C".into(), "3".into()),
    ];
    let file_env = vec![("B".into(), "new_b".into()), ("D".into(), "4".into())];
    let result = merge_env(process_env, file_env);
    let keys: Vec<&str> = result.iter().map(|(k, _)| k.as_str()).collect();
    assert_eq!(keys, vec!["A", "B", "C", "D"]);
}

#[test]
fn collect_op_refs_from_merged_env() {
    let process_env = vec![("PLAIN".into(), "hello".into())];
    let file_env = vec![("SECRET".into(), "op://vault/item/field".into())];
    let merged = merge_env(process_env, file_env);
    let refs = collect_op_refs(&merged);
    assert_eq!(refs, vec!["op://vault/item/field"]);
}

#[test]
fn build_inject_template_wraps_and_joins() {
    let refs = vec!["op://vault/a", "op://vault/b"];
    let template = build_inject_template(&refs, "|SEP|");
    assert_eq!(template, "{{ op://vault/a }}|SEP|{{ op://vault/b }}");
}

#[test]
fn build_inject_template_single_ref_has_no_delimiter() {
    let refs = vec!["op://vault/only"];
    let template = build_inject_template(&refs, "|SEP|");
    assert_eq!(template, "{{ op://vault/only }}");
}

#[test]
fn parse_inject_output_maps_values_positionally() {
    let refs = vec!["op://vault/a", "op://vault/b"];
    let output = "value-a|SEP|value-b";
    let parsed = parse_inject_output(output, "|SEP|", &refs).unwrap();
    assert_eq!(parsed.get("op://vault/a").map(String::as_str), Some("value-a"));
    assert_eq!(parsed.get("op://vault/b").map(String::as_str), Some("value-b"));
}

#[test]
fn parse_inject_output_preserves_multiline_values() {
    let refs = vec!["op://vault/key", "op://vault/token"];
    let output = "-----BEGIN KEY-----\nline1\nline2\n-----END KEY-----|SEP|tok=en";
    let parsed = parse_inject_output(output, "|SEP|", &refs).unwrap();
    assert_eq!(
        parsed.get("op://vault/key").map(String::as_str),
        Some("-----BEGIN KEY-----\nline1\nline2\n-----END KEY-----")
    );
    assert_eq!(parsed.get("op://vault/token").map(String::as_str), Some("tok=en"));
}

#[test]
fn parse_inject_output_rejects_count_mismatch() {
    let refs = vec!["op://vault/a", "op://vault/b"];
    let output = "only-one-value";
    assert!(parse_inject_output(output, "|SEP|", &refs).is_err());
}

#[test]
fn build_env_with_merged_file_refs() {
    let process_env = vec![("PLAIN".into(), "hello".into())];
    let file_env = vec![
        ("SECRET".into(), "op://vault/item/field".into()),
        ("DEBUG".into(), "true".into()),
    ];
    let merged = merge_env(process_env, file_env);

    let refs = collect_op_refs(&merged);
    assert_eq!(refs, vec!["op://vault/item/field"]);

    let mut resolved = SecretMap::new();
    resolved.insert("op://vault/item/field".into(), "s3cret".into());

    let result = build_env(&merged, &resolved);
    assert_eq!(result[0], ("PLAIN".into(), "hello".into()));
    assert_eq!(result[1], ("SECRET".into(), "s3cret".into()));
    assert_eq!(result[2], ("DEBUG".into(), "true".into()));
}
