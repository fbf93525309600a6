use anonymize_rs::config::ReplaceTokens;
use anonymize_rs::error::AnonymizeError;

#[test]
fn test_replace_tokens() {
    let vars = vec![
        ("Q_1".to_string(), "TOKEN1".to_string()),
        ("Q_2".to_string(), "TOKEN2".to_string()),
    ];
    let mut text = "${Q_1} ${Q_2}".to_string();
    text = ReplaceTokens::replace(&text, &vars).unwrap();

    assert_eq!(text, "TOKEN1 TOKEN2");
}

#[test]
fn test_find_tokens() {
    let text = "a ${A} b ${B_2} c".to_string();
    assert_eq!(ReplaceTokens::find_tokens(&text), vec!["A".to_string(), "B_2".to_string()]);
}

#[test]
fn test_find_tokens_skips_malformed_tokens() {
    let text = "${} ${unclosed and ${ok}".to_string();
    assert_eq!(ReplaceTokens::find_tokens(&text), vec!["ok".to_string()]);
}

#[test]
fn test_replace_tokens_missing_variable_is_a_config_error() {
    let vars = vec![("A".to_string(), "1".to_string())];
    let text = "${A} ${MISSING}".to_string();
    let res = ReplaceTokens::replace(&text, &vars);
    assert_eq!(res.unwrap_err(), AnonymizeError::Config);
}

#[test]
fn test_replace_tokens_repeated_token() {
    let vars = vec![("A".to_string(), "x".to_string())];
    let text = "${A}-${A}".to_string();
    assert_eq!(ReplaceTokens::replace(&text, &vars).unwrap(), "x-x");
}
