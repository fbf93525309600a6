use anonymize_rs::ner_anonymizer::{replace_words, select_candidates, check_replacement_override};
use anonymize_rs::error::AnonymizeError;

#[test]
fn test_replace_words_offset_adjustment() {
    // Two non-adjacent spans against the original text, replaced by tokens
    // of different lengths: the second replacement's applied position must
    // account for the length delta introduced by the first.
    let text = "abcdefghijklmnop";
    let reps = vec![
        (0usize, 3usize, "PER".to_string()),
        (10usize, 16usize, "LOC".to_string()),
    ];
    let res = replace_words(text, reps, None).unwrap();
    assert_eq!(res.text, "PER0defghijLOC0");
    assert_eq!(
        res.items,
        vec![
            ("PER0".to_string(), "abc".to_string()),
            ("LOC0".to_string(), "klmnop".to_string()),
        ]
    );
}

#[test]
fn test_replace_words_per_label_counters() {
    let res = replace_words(
        "a b",
        vec![(0usize, 1usize, "PER".to_string()), (2usize, 3usize, "PER".to_string())],
        None,
    )
    .unwrap();
    assert_eq!(res.text, "PER0 PER1");
    assert_eq!(
        res.items,
        vec![("PER0".to_string(), "a".to_string()), ("PER1".to_string(), "b".to_string())]
    );
}

#[test]
fn test_replace_words_dedups_by_value() {
    let res = replace_words(
        "a a",
        vec![(0usize, 1usize, "PER".to_string()), (2usize, 3usize, "PER".to_string())],
        None,
    )
    .unwrap();
    assert_eq!(res.text, "PER0 PER0");
    assert_eq!(res.items, vec![("PER0".to_string(), "a".to_string())]);
}

#[test]
fn test_replace_words_range_error() {
    let res = replace_words("short", vec![(2usize, 99usize, "PER".to_string())], None);
    assert_eq!(res.unwrap_err(), AnonymizeError::Range);
}

#[test]
fn test_replace_words_inverted_span_is_a_range_error() {
    let res = replace_words("longer text", vec![(5usize, 2usize, "PER".to_string())], None);
    assert_eq!(res.unwrap_err(), AnonymizeError::Range);
}

#[test]
fn test_select_candidates_keeps_sensitive_nonempty_spans() {
    let offsets = vec![(0usize, 0usize), (0usize, 3usize), (4usize, 9usize)];
    let classes = vec![1usize, 1usize, 0usize];
    let table = vec![
        ("0".to_string(), ("O".to_string(), false)),
        ("1".to_string(), ("B-PER".to_string(), true)),
    ];
    let cands = select_candidates(&offsets, &classes, &table).unwrap();
    // The empty span and the non-sensitive class are dropped.
    assert_eq!(cands, vec![(0usize, 3usize, "B-PER".to_string())]);
}

#[test]
fn test_select_candidates_missing_id_is_a_config_error() {
    let offsets = vec![(0usize, 3usize)];
    let classes = vec![7usize];
    let table = vec![("0".to_string(), ("O".to_string(), false))];
    let res = select_candidates(&offsets, &classes, &table);
    assert_eq!(res.unwrap_err(), AnonymizeError::Config);
}

#[test]
fn test_label_stage_rejects_prefix_override() {
    assert!(check_replacement_override(None).is_ok());
    assert_eq!(
        check_replacement_override(Some("PER")).unwrap_err(),
        AnonymizeError::UnsupportedOperation
    );
}
