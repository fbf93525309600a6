use anonymize_rs::flashtext_anonymizer::FlashTextAnonymizer;
use anonymize_rs::deanon::deanonymize;
use anonymize_rs::error::AnonymizeError;

#[test]
fn test_flashtext_replace() {
    let mut flash_text = FlashTextAnonymizer::new(None);
    flash_text.add_keyword("apple").unwrap();
    flash_text.add_keyword("banana").unwrap();
    flash_text.add_keyword("plum").unwrap();

    let test_cases = [
        (
            "I like to eat apples and bananas and plums",
            "I like to eat FRUIT0 and FRUIT1 and FRUIT2",
        ),
        (
            "{\"content\": \"I like to eat apples and bananas and plums\"}",
            "{\"content\": \"I like to eat FRUIT0 and FRUIT1 and FRUIT2\"}",
        ),
    ];

    for test_case in test_cases {
        let text = test_case.0;
        let keywords = flash_text.find_keywords(text);
        assert_eq!(keywords[0], "apple");

        let res = flash_text.replace_keywords(text, Some("FRUIT"), None).unwrap();
        assert_eq!(&res.text, &test_case.1);

        let d_res = deanonymize(res);
        assert_eq!(d_res, test_case.0);
    }
}

#[test]
fn test_flashtext_dedup_repeated_values() {
    let mut flash_text = FlashTextAnonymizer::new(None);
    flash_text.add_keyword("apple").unwrap();
    flash_text.add_keyword("banana").unwrap();
    flash_text.add_keyword("plum").unwrap();

    let res = flash_text
        .replace_keywords(
            "I like to eat apples and bananas and plums and apples",
            Some("FRUIT"),
            None,
        )
        .unwrap();
    assert_eq!(res.text, "I like to eat FRUIT0 and FRUIT1 and FRUIT2 and FRUIT0");
    assert_eq!(res.items.len(), 3);
    let mut items = res.items.clone();
    items.sort();
    assert_eq!(
        items,
        vec![
            ("FRUIT0".to_string(), "apples".to_string()),
            ("FRUIT1".to_string(), "bananas".to_string()),
            ("FRUIT2".to_string(), "plums".to_string()),
        ]
    );

    let res2 = flash_text
        .replace_keywords("I like to eat apples and apples and plums", Some("FRUIT"), None)
        .unwrap();
    assert_eq!(res2.text, "I like to eat FRUIT0 and FRUIT0 and FRUIT1");
    assert_eq!(res2.items.len(), 2);
}

#[test]
fn test_flashtext_configured_prefix() {
    let mut flash_text = FlashTextAnonymizer::new(Some("FRUIT".to_string()));
    flash_text.add_keyword("apple").unwrap();
    let res = flash_text.replace_keywords("an apple", None, None).unwrap();
    assert_eq!(res.text, "an FRUIT0");
}

#[test]
fn test_flashtext_override_beats_configured_prefix() {
    let mut flash_text = FlashTextAnonymizer::new(Some("FRUIT".to_string()));
    flash_text.add_keyword("apple").unwrap();
    let res = flash_text.replace_keywords("an apple", Some("ITEM"), None).unwrap();
    assert_eq!(res.text, "an ITEM0");
}

#[test]
fn test_flashtext_missing_prefix_is_an_error() {
    let mut flash_text = FlashTextAnonymizer::new(None);
    flash_text.add_keyword("apple").unwrap();
    let res = flash_text.replace_keywords("an apple", None, None);
    assert_eq!(res.unwrap_err(), AnonymizeError::MissingReplacementPrefix);
}

#[test]
fn test_flashtext_trailing_punctuation_preserved() {
    let mut flash_text = FlashTextAnonymizer::new(None);
    flash_text.add_keyword("apple").unwrap();
    let res = flash_text.replace_keywords("apples, pears.", Some("FRUIT"), None).unwrap();
    assert_eq!(res.text, "FRUIT0, pears.");
    assert_eq!(res.items, vec![("FRUIT0".to_string(), "apples".to_string())]);
}

#[test]
fn test_flashtext_match_extends_through_alphabetic_run() {
    let mut flash_text = FlashTextAnonymizer::new(None);
    flash_text.add_keyword("apple").unwrap();
    // The run continues past the keyword; the preceding characters are not
    // a boundary, so a mid-word occurrence still matches.
    let res = flash_text.replace_keywords("pineapple pie", Some("FRUIT"), None).unwrap();
    assert_eq!(res.text, "pineFRUIT0 pie");
    assert_eq!(res.items, vec![("FRUIT0".to_string(), "apple".to_string())]);
}

#[test]
fn test_flashtext_no_match_is_identity() {
    let mut flash_text = FlashTextAnonymizer::new(None);
    flash_text.add_keyword("apple").unwrap();
    let res = flash_text.replace_keywords("nothing to see", Some("FRUIT"), None).unwrap();
    assert_eq!(res.text, "nothing to see");
    assert!(res.items.is_empty());
}

#[test]
fn test_flashtext_empty_text() {
    let mut flash_text = FlashTextAnonymizer::new(None);
    flash_text.add_keyword("apple").unwrap();
    let res = flash_text.replace_keywords("", Some("FRUIT"), None).unwrap();
    assert_eq!(res.text, "");
    assert!(res.items.is_empty());
}

#[test]
fn test_flashtext_inherited_ledger_is_reused() {
    let mut flash_text = FlashTextAnonymizer::new(None);
    flash_text.add_keyword("apple").unwrap();
    let inherited = vec![("FRUIT9".to_string(), "apples".to_string())];
    let res = flash_text
        .replace_keywords("apples and apples", Some("FRUIT"), Some(inherited))
        .unwrap();
    // The inherited entry already records the value, so it is reused and
    // nothing new is minted.
    assert_eq!(res.text, "FRUIT9 and FRUIT9");
    assert_eq!(res.items, vec![("FRUIT9".to_string(), "apples".to_string())]);
}

#[test]
fn test_find_keywords_reports_matches_in_order() {
    let mut flash_text = FlashTextAnonymizer::new(None);
    flash_text.add_keyword("apple").unwrap();
    flash_text.add_keyword("plum").unwrap();
    let found = flash_text.find_keywords("plum then apple");
    assert_eq!(found, vec!["plum".to_string(), "apple".to_string()]);
}
