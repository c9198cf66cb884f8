//! The template variable engine on concrete inputs.

use quickurl::template::{split_var_definition, TemplateEngine, TemplateError};

#[test]
fn test_random_template() {
    let engine = TemplateEngine::new();
    let result = engine.process("https://api.example.com/users/{{random:1-100}}");
    assert!(result.starts_with("https://api.example.com/users/"));
    assert!(!result.contains("{{"));
}

#[test]
fn test_uuid_template() {
    let engine = TemplateEngine::new();
    let result = engine.process("session={{uuid}}");
    assert!(result.starts_with("session="));
    assert!(!result.contains("{{"));
}

#[test]
fn test_custom_variable() {
    let mut engine = TemplateEngine::new();
    engine.add_variable("user_id".to_string(), "random:1-1000").unwrap();
    let result = engine.process("https://api.example.com/users/{{user_id}}");
    assert!(result.starts_with("https://api.example.com/users/"));
}

#[test]
fn test_process_without_placeholders_is_identity() {
    let engine = TemplateEngine::new();
    assert_eq!(engine.process("plain text, no braces"), "plain text, no braces");
    assert_eq!(engine.process(""), "");
    assert_eq!(engine.process("single {brace} only"), "single {brace} only");
    assert_eq!(engine.process("unclosed {{name"), "unclosed {{name");
}

#[test]
fn test_uuid_placeholder_length() {
    let engine = TemplateEngine::new();
    let result = engine.process("x{{uuid}}y");
    assert!(result.starts_with('x'));
    assert!(result.ends_with('y'));
    assert_eq!(result.chars().count(), "xy".chars().count() + 36);
}

#[test]
fn test_degenerate_random_range_is_exact() {
    let engine = TemplateEngine::new();
    assert_eq!(engine.process("{{random:5-5}}"), "5");
}

#[test]
fn test_random_value_stays_in_range() {
    let engine = TemplateEngine::new();
    for _ in 0..20 {
        let rendered = engine.process("{{random:1-9}}");
        let v: i64 = rendered.parse().unwrap();
        assert!((1..=9).contains(&v));
    }
}

#[test]
fn test_single_choice_is_exact() {
    let engine = TemplateEngine::new();
    assert_eq!(engine.process("{{choice:only}}"), "only");
}

#[test]
fn test_choice_picks_an_option() {
    let engine = TemplateEngine::new();
    let rendered = engine.process("{{choice:a,b,c}}");
    assert!(rendered == "a" || rendered == "b" || rendered == "c");
}

#[test]
fn test_sequence_renders_start() {
    let engine = TemplateEngine::new();
    assert_eq!(engine.process("{{sequence:41}}"), "41");
}

#[test]
fn test_static_variable_substitution() {
    let mut engine = TemplateEngine::new();
    engine.add_variable("env".to_string(), "staging").unwrap();
    assert_eq!(engine.process("https://{{env}}.example.com"), "https://staging.example.com");
}

#[test]
fn test_unknown_placeholder_is_left_untouched() {
    let engine = TemplateEngine::new();
    assert_eq!(engine.process("a{{nope}}b"), "a{{nope}}b");
}

#[test]
fn test_timestamp_placeholder_is_numeric() {
    let engine = TemplateEngine::new();
    let rendered = engine.process("{{timestamp}}");
    assert!(!rendered.is_empty());
    assert!(rendered.chars().all(|c| c.is_ascii_digit() || c == '-'));
}

#[test]
fn test_variable_redefinition_replaces() {
    let mut engine = TemplateEngine::new();
    engine.add_variable("v".to_string(), "one").unwrap();
    engine.add_variable("v".to_string(), "two").unwrap();
    assert_eq!(engine.process("{{v}}"), "two");
}

#[test]
fn test_bad_definitions_are_rejected() {
    let mut engine = TemplateEngine::new();
    assert_eq!(
        engine.add_variable("a".to_string(), "random:1"),
        Err(TemplateError::InvalidRandomRange)
    );
    assert_eq!(
        engine.add_variable("b".to_string(), "random:1-2-3"),
        Err(TemplateError::InvalidRandomRange)
    );
    assert_eq!(
        engine.add_variable("c".to_string(), "random:x-y"),
        Err(TemplateError::InvalidNumber)
    );
    assert_eq!(
        engine.add_variable("d".to_string(), "timestamp:bogus"),
        Err(TemplateError::UnknownTimestampFormat)
    );
    assert_eq!(
        engine.add_variable("e".to_string(), "sequence:notanumber"),
        Err(TemplateError::InvalidNumber)
    );
}

#[test]
fn test_empty_random_range_placeholder_kept() {
    // min above max cannot generate; the placeholder stays as written
    let engine = TemplateEngine::new();
    assert_eq!(engine.process("{{random:9-1}}"), "{{random:9-1}}");
}

#[test]
fn test_split_var_definition() {
    assert_eq!(
        split_var_definition("id=random:1-9"),
        Some(("id".to_string(), "random:1-9".to_string()))
    );
    assert_eq!(split_var_definition("a=b=c"), Some(("a".to_string(), "b=c".to_string())));
    assert_eq!(split_var_definition("="), Some((String::new(), String::new())));
    assert_eq!(split_var_definition("noequals"), None);
}
