//! Tests of the text format: rendering, parsing, and their round trip.

use lino_env::LinoEnv;

#[test]
fn test_create_and_write() {
    let mut env = LinoEnv::new("basic_create_write.lenv");
    env.set("GITHUB_TOKEN", "gh_test123");
    env.set("TELEGRAM_TOKEN", "054test456");
    let text = env.to_text();

    assert!(text.contains("GITHUB_TOKEN: gh_test123"));
}

#[test]
fn test_read() {
    let mut env1 = LinoEnv::new("basic_read.lenv");
    env1.set("GITHUB_TOKEN", "gh_test123");
    env1.set("TELEGRAM_TOKEN", "054test456");
    let text = env1.to_text();

    let mut env2 = LinoEnv::new("basic_read.lenv");
    env2.load_str(&text);

    assert_eq!(env2.get("GITHUB_TOKEN"), Some("gh_test123".to_string()));
    assert_eq!(env2.get("TELEGRAM_TOKEN"), Some("054test456".to_string()));
}

#[test]
fn test_persist_duplicates() {
    let mut env1 = LinoEnv::new("persist_duplicates.lenv");
    env1.add("KEY", "value1");
    env1.add("KEY", "value2");
    env1.add("KEY", "value3");
    let text = env1.to_text();

    let mut env2 = LinoEnv::new("persist_duplicates.lenv");
    env2.load_str(&text);

    assert_eq!(env2.get_all("KEY"), vec!["value1", "value2", "value3"]);
    assert_eq!(env2.get("KEY"), Some("value3".to_string()));
}

#[test]
fn test_read_lino_env() {
    let mut pairs: Vec<(String, String)> = Vec::new();
    pairs.push(("GITHUB_TOKEN".to_string(), "gh_test".to_string()));
    pairs.push(("TELEGRAM_TOKEN".to_string(), "054test".to_string()));
    let written = LinoEnv::from_pairs("convenience_read.lenv", &pairs);
    let text = written.to_text();

    let mut env = LinoEnv::new("convenience_read.lenv");
    env.load_str(&text);
    assert_eq!(env.get("GITHUB_TOKEN"), Some("gh_test".to_string()));
    assert_eq!(env.get("TELEGRAM_TOKEN"), Some("054test".to_string()));
}

#[test]
fn test_write_lino_env() {
    let mut pairs: Vec<(String, String)> = Vec::new();
    pairs.push(("API_KEY".to_string(), "test_key".to_string()));
    pairs.push(("SECRET".to_string(), "test_secret".to_string()));
    let written = LinoEnv::from_pairs("convenience_write.lenv", &pairs);
    let text = written.to_text();

    let mut env = LinoEnv::new("convenience_write.lenv");
    env.load_str(&text);
    assert_eq!(env.get("API_KEY"), Some("test_key".to_string()));
    assert_eq!(env.get("SECRET"), Some("test_secret".to_string()));
}

#[test]
fn test_values_with_colons() {
    let mut env = LinoEnv::new("format_colons.lenv");
    env.set("URL", "https://example.com:8080");
    let text = env.to_text();

    let mut env2 = LinoEnv::new("format_colons.lenv");
    env2.load_str(&text);
    assert_eq!(
        env2.get("URL"),
        Some("https://example.com:8080".to_string())
    );
}

#[test]
fn test_values_with_spaces() {
    let mut env = LinoEnv::new("format_spaces.lenv");
    env.set("MESSAGE", "Hello World");
    let text = env.to_text();

    let mut env2 = LinoEnv::new("format_spaces.lenv");
    env2.load_str(&text);
    assert_eq!(env2.get("MESSAGE"), Some("Hello World".to_string()));
}

#[test]
fn test_nonexistent_file() {
    let mut env = LinoEnv::new("nonexistent.lenv");
    env.load_str("");

    assert_eq!(env.get("ANY_KEY"), None);
    assert!(env.keys().is_empty());
}

#[test]
fn test_empty_values() {
    let mut env = LinoEnv::new("empty_values.lenv");
    env.set("EMPTY_KEY", "");
    let text = env.to_text();

    let mut env2 = LinoEnv::new("empty_values.lenv");
    env2.load_str(&text);
    assert_eq!(env2.get("EMPTY_KEY"), Some(String::new()));
}

#[test]
fn test_blank_and_comment_lines_are_skipped() {
    let mut env = LinoEnv::new("comments.lenv");
    env.load_str("# a comment\n\n   \n\t\n# another: one\n");

    assert!(env.keys().is_empty());
    assert_eq!(env.get("a"), None);
}

#[test]
fn test_indented_comment_is_skipped() {
    let mut env = LinoEnv::new("indented_comment.lenv");
    env.load_str("   # note: not a record\nKEY: value\n");

    assert_eq!(env.keys(), vec!["KEY".to_string()]);
    assert_eq!(env.get("KEY"), Some("value".to_string()));
}

#[test]
fn test_line_without_separator_is_ignored() {
    let mut env = LinoEnv::new("malformed.lenv");
    env.load_str("NOSEPARATOR\nALSO:NOTHING\nKEY: value\n");

    assert_eq!(env.keys(), vec!["KEY".to_string()]);
}

#[test]
fn test_first_separator_wins() {
    let mut env = LinoEnv::new("first_sep.lenv");
    env.load_str("A: b: c\n");

    assert_eq!(env.get("A"), Some("b: c".to_string()));
}

#[test]
fn test_key_is_trimmed_value_is_not() {
    let mut env = LinoEnv::new("trimming.lenv");
    env.load_str("  KEY  :  padded \n");

    assert_eq!(env.get("KEY"), Some(" padded ".to_string()));
    assert_eq!(env.get("  KEY  "), None);
}

#[test]
fn test_duplicate_lines_accumulate_on_read() {
    let mut env = LinoEnv::new("dups.lenv");
    env.load_str("K: 1\nOTHER: x\nK: 2\nK: 3\n");

    assert_eq!(env.get_all("K"), vec!["1", "2", "3"]);
    assert_eq!(env.get("K"), Some("3".to_string()));
    assert_eq!(env.get("OTHER"), Some("x".to_string()));
}

#[test]
fn test_crlf_line_endings() {
    let mut env = LinoEnv::new("crlf.lenv");
    env.load_str("A: 1\r\nB: 2\r\n");

    assert_eq!(env.get("A"), Some("1".to_string()));
    assert_eq!(env.get("B"), Some("2".to_string()));
}

#[test]
fn test_final_line_without_newline() {
    let mut env = LinoEnv::new("no_final_newline.lenv");
    env.load_str("A: 1\nB: 2");

    assert_eq!(env.get("A"), Some("1".to_string()));
    assert_eq!(env.get("B"), Some("2".to_string()));
}

#[test]
fn test_load_str_replaces_prior_state() {
    let mut env = LinoEnv::new("replace.lenv");
    env.set("OLD", "gone");
    env.load_str("NEW: here\n");

    assert_eq!(env.get("OLD"), None);
    assert_eq!(env.get("NEW"), Some("here".to_string()));
}

#[test]
fn test_to_text_exact_single_key() {
    let mut env = LinoEnv::new("exact.lenv");
    env.add("K", "1");
    env.add("K", "2");

    assert_eq!(env.to_text(), "K: 1\nK: 2\n");
}

#[test]
fn test_round_trip_mixed_store() {
    let mut env = LinoEnv::new("mixed.lenv");
    env.add("MULTI", "first");
    env.add("MULTI", "second");
    env.set("SINGLE", "only");
    let text = env.to_text();

    let mut env2 = LinoEnv::new("mixed.lenv");
    env2.load_str(&text);
    assert_eq!(env2.get_all("MULTI"), vec!["first", "second"]);
    assert_eq!(env2.get_all("SINGLE"), vec!["only"]);
    assert_eq!(env2.keys().len(), 2);
}
