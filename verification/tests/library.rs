use op_cache::env_file::EnvFileError;
use op_cache::inject::parse_inject_output;
use op_cache::{
    build_env, build_inject_template, collect_op_refs, delimiter_from_bytes, merge_env,
    parse_env_contents, InjectError, RefResolution, SecretMap,
};

fn pairs(items: &[(&str, &str)]) -> Vec<(String, String)> {
    items.iter().map(|(k, v)| (k.to_string(), v.to_string())).collect()
}

#[test]
fn malformed_error_names_line_and_entry() {
    let err = parse_env_contents("A=1\n# note\n  BROKEN  \nB=2").unwrap_err();
    assert_eq!(err, EnvFileError::Malformed { line: 3, entry: "BROKEN".into() });
    assert_eq!(err.message(), "malformed env entry on line 3: missing '=' in \"BROKEN\"");
}

#[test]
fn malformed_error_message_escapes_like_debug() {
    let err = parse_env_contents("say \"hi\"").unwrap_err();
    assert_eq!(err.message(), "malformed env entry on line 1: missing '=' in \"say \\\"hi\\\"\"");
}

#[test]
fn parse_trims_keys_values_and_crlf() {
    let result = parse_env_contents("  KEY  =  value  \r\n\tOTHER= 'x y' \r\n").unwrap();
    assert_eq!(result, pairs(&[("KEY", "value"), ("OTHER", "x y")]));
}

#[test]
fn parse_trims_unicode_whitespace() {
    let result = parse_env_contents("\u{3000}KEY\u{a0}=\u{2003}v\u{85}").unwrap();
    assert_eq!(result, pairs(&[("KEY", "v")]));
}

#[test]
fn parse_keeps_mismatched_or_lone_quotes() {
    let result = parse_env_contents("A='x\"\nB=\"\nC=''\nD=\"'\"").unwrap();
    assert_eq!(result, pairs(&[("A", "'x\""), ("B", "\""), ("C", ""), ("D", "'")]));
}

#[test]
fn parse_splits_at_first_equals_only() {
    let result = parse_env_contents("K=a=b=c\n=novalue").unwrap();
    assert_eq!(result, pairs(&[("K", "a=b=c"), ("", "novalue")]));
}

#[test]
fn parse_indented_comment_and_empty_input() {
    assert!(parse_env_contents("   # indented comment\n\n").unwrap().is_empty());
    assert!(parse_env_contents("").unwrap().is_empty());
}

#[test]
fn collected_refs_are_distinct_and_cover_every_reference() {
    let env = pairs(&[
        ("A", "op://v/1"),
        ("B", "op:/v/2"),
        ("C", "op://v/1"),
        ("D", "op://"),
        ("E", "op://v/3"),
        ("F", " op://v/4"),
    ]);
    assert_eq!(collect_op_refs(&env), vec!["op://v/1", "op://", "op://v/3"]);
}

#[test]
fn secret_map_read_after_write() {
    let mut m = SecretMap::new();
    assert_eq!(m.get("k"), None);
    m.insert("k".into(), "v1".into());
    m.insert("other".into(), "o".into());
    m.insert("k".into(), "v2".into());
    assert_eq!(m.get("k").map(String::as_str), Some("v2"));
    assert_eq!(m.get("other").map(String::as_str), Some("o"));
    assert_eq!(m.entries().len(), 2);
}

#[test]
fn build_env_keeps_names_and_unresolved_values() {
    let env = pairs(&[("A", "op://x"), ("B", "op://y"), ("A", "plain")]);
    let mut resolved = SecretMap::new();
    resolved.insert("op://x".into(), "sx".into());
    resolved.insert("plain".into(), "p".into());
    let out = build_env(&env, &resolved);
    assert_eq!(out, pairs(&[("A", "sx"), ("B", "op://y"), ("A", "p")]));
}

#[test]
fn merge_uses_last_file_value_for_process_keys_and_first_for_new_keys() {
    let process = pairs(&[("A", "1"), ("B", "2")]);
    let file = pairs(&[("A", "x"), ("N", "first"), ("A", "y"), ("N", "second"), ("M", "m")]);
    let out = merge_env(process, file);
    assert_eq!(out, pairs(&[("A", "y"), ("B", "2"), ("N", "first"), ("M", "m")]));
}

#[test]
fn merge_keeps_every_file_key_without_duplicates() {
    let process = pairs(&[("P", "p")]);
    let file = pairs(&[("Q", "1"), ("P", "2"), ("Q", "3")]);
    let out = merge_env(process, file);
    let keys: Vec<&str> = out.iter().map(|(k, _)| k.as_str()).collect();
    assert_eq!(keys, vec!["P", "Q"]);
}

#[test]
fn inject_output_split_undoes_join() {
    let refs = vec!["op://a", "op://b", "op://c"];
    let values = ["x|SE", "", "P|y"];
    let delimiter = "|SEP|";
    let output = values.join(delimiter);
    let m = parse_inject_output(&output, delimiter, &refs).unwrap();
    assert_eq!(m.get("op://a").map(String::as_str), Some("x|SE"));
    assert_eq!(m.get("op://b").map(String::as_str), Some(""));
    assert_eq!(m.get("op://c").map(String::as_str), Some("P|y"));
}

#[test]
fn inject_output_trims_trailing_whitespace_only() {
    let refs = vec!["op://a", "op://b"];
    let m = parse_inject_output("  a \n|SEP|b\t\n", "|SEP|", &refs).unwrap();
    assert_eq!(m.get("op://a").map(String::as_str), Some("  a"));
    assert_eq!(m.get("op://b").map(String::as_str), Some("b"));
}

#[test]
fn inject_output_count_mismatch_error() {
    let refs = vec!["op://a"];
    let err = parse_inject_output("1|2|3", "|", &refs).unwrap_err();
    assert_eq!(err, InjectError::ValueCountMismatch { values: 3, references: 1 });
    assert_eq!(err.message(), "op inject returned 3 value(s) for 1 reference(s)");
}

#[test]
fn inject_output_empty_delimiter_splits_every_character() {
    let refs = vec!["r0", "r1", "r2", "r3"];
    let m = parse_inject_output("ab", "", &refs).unwrap();
    assert_eq!(m.get("r0").map(String::as_str), Some(""));
    assert_eq!(m.get("r1").map(String::as_str), Some("a"));
    assert_eq!(m.get("r2").map(String::as_str), Some("b"));
    assert_eq!(m.get("r3").map(String::as_str), Some(""));
}

#[test]
fn inject_output_overlapping_delimiter_found_from_left() {
    let refs = vec!["r0", "r1"];
    let m = parse_inject_output("xaaay", "aa", &refs).unwrap();
    assert_eq!(m.get("r0").map(String::as_str), Some("x"));
    assert_eq!(m.get("r1").map(String::as_str), Some("ay"));
}

#[test]
fn delimiter_is_prefixed_lowercase_hex() {
    let bytes = [0x00u8, 0x0f, 0xa5, 0xff];
    assert_eq!(delimiter_from_bytes(&bytes), "--op-cache-000fa5ff--");
    let sixteen = [0xabu8; 16];
    let d = delimiter_from_bytes(&sixteen);
    assert_eq!(d, format!("--op-cache-{}--", "ab".repeat(16)));
    assert_eq!(d.len(), 11 + 32 + 2);
}

#[test]
fn resolution_serves_hits_and_batches_misses() {
    let mut r = RefResolution::new();
    r.record_lookup("op://v/hit", Some("cached".into()));
    r.record_lookup("op://v/miss1", None);
    r.record_lookup("op://v/miss2", None);
    assert!(r.needs_inject());
    assert_eq!(r.missing_refs(), vec!["op://v/miss1", "op://v/miss2"]);
    let delimiter = "--op-cache-00--";
    assert_eq!(
        r.inject_template(delimiter),
        "{{ op://v/miss1 }}--op-cache-00--{{ op://v/miss2 }}"
    );
    let fetched = r.apply_inject_output("one\n--op-cache-00--two\n", delimiter).unwrap();
    assert_eq!(fetched.get("op://v/miss1").map(String::as_str), Some("one"));
    assert_eq!(fetched.get("op://v/hit"), None);
    let resolved = r.into_resolved();
    assert_eq!(resolved.get("op://v/hit").map(String::as_str), Some("cached"));
    assert_eq!(resolved.get("op://v/miss1").map(String::as_str), Some("one"));
    assert_eq!(resolved.get("op://v/miss2").map(String::as_str), Some("two"));
}

#[test]
fn resolution_failure_changes_nothing() {
    let mut r = RefResolution::new();
    r.record_lookup("op://v/a", None);
    r.record_lookup("op://v/b", None);
    let err = r.apply_inject_output("only", "|").unwrap_err();
    assert_eq!(err, InjectError::ValueCountMismatch { values: 1, references: 2 });
    assert_eq!(r.missing_refs(), vec!["op://v/a", "op://v/b"]);
    assert_eq!(r.resolved().get("op://v/a"), None);
}

#[test]
fn resolution_with_all_hits_needs_no_inject() {
    let mut r = RefResolution::new();
    r.record_lookup("op://v/a", Some("1".into()));
    assert!(!r.needs_inject());
    assert!(r.missing_refs().is_empty());
}

#[test]
fn template_then_answer_round_trip() {
    let refs = vec!["op://v/a", "op://v/b"];
    let d = delimiter_from_bytes(&[1, 2, 3]);
    let template = build_inject_template(&refs, &d);
    let answer = template.replace("{{ op://v/a }}", "A").replace("{{ op://v/b }}", "B");
    let m = parse_inject_output(&answer, &d, &refs).unwrap();
    assert_eq!(m.get("op://v/a").map(String::as_str), Some("A"));
    assert_eq!(m.get("op://v/b").map(String::as_str), Some("B"));
}

#[test]
fn stop_counts_connection_reset_as_stopped() {
    assert!(op_cache::stop_error_means_stopped("Connection reset by peer (os error 104)"));
    assert!(op_cache::stop_error_means_stopped("io: Connection reset"));
    assert!(!op_cache::stop_error_means_stopped("Connection refused (os error 111)"));
    assert!(!op_cache::stop_error_means_stopped("connection reset"));
    assert!(!op_cache::stop_error_means_stopped(""));
}

#[test]
fn resolution_keys_are_exactly_the_references() {
    let refs = ["op://v/a", "op://v/b", "op://v/c", "op://v/d"];
    let answers = [None, Some("B"), None, Some("D")];
    let mut r = RefResolution::new();
    for (reference, answer) in refs.iter().zip(answers.iter()) {
        r.record_lookup(reference, answer.map(|v| v.to_string()));
    }
    assert_eq!(r.missing_refs(), vec!["op://v/a", "op://v/c"]);
    let d = "|";
    r.apply_inject_output("first \n|third\n", d).unwrap();
    let resolved = r.into_resolved();
    assert_eq!(resolved.entries().len(), 4);
    assert_eq!(resolved.get("op://v/a").map(String::as_str), Some("first"));
    assert_eq!(resolved.get("op://v/b").map(String::as_str), Some("B"));
    assert_eq!(resolved.get("op://v/c").map(String::as_str), Some("third"));
    assert_eq!(resolved.get("op://v/d").map(String::as_str), Some("D"));
}

#[test]
fn malformed_message_format_from_quoted_text() {
    assert_eq!(
        op_cache::env_file::format_malformed(12, "\"X Y\""),
        "malformed env entry on line 12: missing '=' in \"X Y\""
    );
}

#[test]
fn status_line_texts() {
    assert_eq!(op_cache::status_line(false, Some(7)), "daemon not running");
    assert_eq!(op_cache::status_line(true, Some(4321)), "daemon running (pid 4321)");
    assert_eq!(op_cache::status_line(true, None), "daemon running");
}

#[test]
fn parse_of_joined_texts_is_concatenation() {
    let a = "A=1\n# c";
    let b = "\nB='2'\n";
    let joined = format!("{}\n{}", a, b);
    let mut expected = parse_env_contents(a).unwrap();
    expected.extend(parse_env_contents(b).unwrap());
    assert_eq!(parse_env_contents(&joined).unwrap(), expected);
}

#[test]
fn merge_twice_with_distinct_file_keys_changes_nothing() {
    let process = pairs(&[("A", "1"), ("B", "2")]);
    let file = pairs(&[("B", "x"), ("C", "y")]);
    let once = merge_env(process, file.clone());
    let twice = merge_env(once.clone(), file);
    assert_eq!(once, twice);
    assert_eq!(once, pairs(&[("A", "1"), ("B", "x"), ("C", "y")]));
}

#[test]
fn collected_refs_follow_first_occurrence() {
    let env = pairs(&[("A", "op://b"), ("B", "op://a"), ("C", "op://b"), ("D", "op://c")]);
    assert_eq!(collect_op_refs(&env), vec!["op://b", "op://a", "op://c"]);
}

#[test]
fn delimiter_round_trip_when_no_value_matches_early() {
    let refs = vec!["op://1", "op://2", "op://3"];
    let d = "--op-cache-ab--";
    let values = ["-", "op-cache-ab-", "x--"];
    let output = values.join(d);
    let m = parse_inject_output(&output, d, &refs).unwrap();
    assert_eq!(m.get("op://1").map(String::as_str), Some("-"));
    assert_eq!(m.get("op://2").map(String::as_str), Some("op-cache-ab-"));
    assert_eq!(m.get("op://3").map(String::as_str), Some("x--"));
}

#[test]
fn resolution_with_repeated_references() {
    let refs = ["op://v/a", "op://v/b", "op://v/a", "op://v/b"];
    let answers = [None, Some("B"), None, Some("B")];
    let mut r = RefResolution::new();
    for (reference, answer) in refs.iter().zip(answers.iter()) {
        r.record_lookup(reference, answer.map(|v| v.to_string()));
    }
    assert_eq!(r.missing_refs(), vec!["op://v/a", "op://v/a"]);
    r.apply_inject_output("A|A", "|").unwrap();
    let resolved = r.into_resolved();
    assert_eq!(resolved.entries().len(), 2);
    assert_eq!(resolved.get("op://v/a").map(String::as_str), Some("A"));
    assert_eq!(resolved.get("op://v/b").map(String::as_str), Some("B"));
}

#[test]
fn borderless_delimiter_round_trip() {
    let refs = vec!["op://1", "op://2"];
    let d = "SEP|";
    let values = ["EP|S", "|SE"];
    let output = values.join(d);
    let m = parse_inject_output(&output, d, &refs).unwrap();
    assert_eq!(m.get("op://1").map(String::as_str), Some("EP|S"));
    assert_eq!(m.get("op://2").map(String::as_str), Some("|SE"));
}
