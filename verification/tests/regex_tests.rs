use anonymize_rs::regex_anonymizer::RegexAnonymizer;
use anonymize_rs::error::AnonymizeError;

#[test]
fn test_regex_replace() {
    let mut regex_anonymizer = RegexAnonymizer::new(None);
    regex_anonymizer.add_regex_pattern(r"\bapple\w*\b").unwrap();
    regex_anonymizer.add_regex_pattern(r"\bbanana\w*\b").unwrap();
    regex_anonymizer.add_regex_pattern(r"\bplum\w*\b").unwrap();

    let test_cases = [
        (
            "I like to eat apples and bananas and plums and apples",
            "I like to eat FRUIT0 and FRUIT1 and FRUIT2 and FRUIT0",
        ),
        (
            "I like to eat apples and apples and plums",
            "I like to eat FRUIT0 and FRUIT0 and FRUIT1",
        ),
        (
            "{\"content\": \"I like to eat apples and bananas and plums\"}",
            "{\"content\": \"I like to eat FRUIT0 and FRUIT1 and FRUIT2\"}",
        ),
    ];

    for test_case in test_cases {
        let text = test_case.0;

        let res = regex_anonymizer.replace_regex_matches(text, Some("FRUIT"), None).unwrap();

        assert_eq!(res.text, test_case.1);
    }
}

#[test]
fn integration_regex_anonymizer_test_regex_replace() {
    let mut regex_anonymizer = RegexAnonymizer::new(None);
    regex_anonymizer.add_regex_pattern(r"\bapple\w*\b").unwrap();
    regex_anonymizer.add_regex_pattern(r"\bbanana\w*\b").unwrap();
    regex_anonymizer.add_regex_pattern(r"\bplum\w*\b").unwrap();

    let text = "I like to eat apples and bananas and plums";

    let res = regex_anonymizer.replace_regex_matches(text, Some("FRUIT"), None).unwrap();

    assert_eq!(res.text, "I like to eat FRUIT0 and FRUIT1 and FRUIT2");
}

#[test]
fn test_regex_replace_phone() {
    let mut regex_anonymizer = RegexAnonymizer::new(None);
    regex_anonymizer.add_regex_pattern("\\b[0-9]{10}\\b").unwrap();

    let text = "1555555555 and 1555555551 and 1555555552 and 1555555555";

    let res = regex_anonymizer.replace_regex_matches(text, Some("NUM"), None).unwrap();

    assert_eq!(res.text, "NUM0 and NUM1 and NUM2 and NUM0");
}

#[test]
fn test_regex_invalid_pattern_is_a_config_error() {
    let mut regex_anonymizer = RegexAnonymizer::new(None);
    let res = regex_anonymizer.add_regex_pattern("foo(bar");
    assert_eq!(res.unwrap_err(), AnonymizeError::Config);
}

#[test]
fn test_regex_missing_prefix_is_an_error() {
    let mut regex_anonymizer = RegexAnonymizer::new(None);
    regex_anonymizer.add_regex_pattern(r"\d+").unwrap();
    let res = regex_anonymizer.replace_regex_matches("abc 123", None, None);
    assert_eq!(res.unwrap_err(), AnonymizeError::MissingReplacementPrefix);
}

#[test]
fn test_regex_configured_prefix() {
    let mut regex_anonymizer = RegexAnonymizer::new(Some("NUM".to_string()));
    regex_anonymizer.add_regex_pattern(r"\d+").unwrap();
    let res = regex_anonymizer.replace_regex_matches("abc 123 def 456", None, None).unwrap();
    assert_eq!(res.text, "abc NUM0 def NUM1");
    assert_eq!(
        res.items,
        vec![
            ("NUM0".to_string(), "123".to_string()),
            ("NUM1".to_string(), "456".to_string()),
        ]
    );
}

#[test]
fn test_regex_later_pattern_sees_substituted_text() {
    // The second pattern would match the original value, but the first
    // pattern already replaced it; the second only sees the placeholder.
    let mut regex_anonymizer = RegexAnonymizer::new(None);
    regex_anonymizer.add_regex_pattern(r"\bsecret\b").unwrap();
    regex_anonymizer.add_regex_pattern(r"\bsec\w*\b").unwrap();
    let res = regex_anonymizer.replace_regex_matches("one secret here", Some("X"), None).unwrap();
    assert_eq!(res.text, "one X0 here");
    assert_eq!(res.items, vec![("X0".to_string(), "secret".to_string())]);
}

#[test]
fn test_regex_later_pattern_can_match_inserted_placeholder() {
    // By construction a later pattern scans the already-substituted text,
    // so it can match a placeholder a previous pattern just inserted.
    let mut regex_anonymizer = RegexAnonymizer::new(None);
    regex_anonymizer.add_regex_pattern(r"\bsecret\b").unwrap();
    regex_anonymizer.add_regex_pattern(r"X\d").unwrap();
    let res = regex_anonymizer.replace_regex_matches("my secret", Some("X"), None).unwrap();
    assert_eq!(res.text, "my X1");
    assert_eq!(
        res.items,
        vec![
            ("X0".to_string(), "secret".to_string()),
            ("X1".to_string(), "X0".to_string()),
        ]
    );
}
