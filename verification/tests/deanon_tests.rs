use anonymize_rs::ReplaceResult;
use anonymize_rs::deanon::deanonymize;
use anonymize_rs::error::AnonymizeError;

#[test]
fn test_deanonymize_replaces_each_entry() {
    let res = ReplaceResult {
        text: "X0 and X1 and X0".to_string(),
        items: vec![
            ("X0".to_string(), "alpha".to_string()),
            ("X1".to_string(), "beta".to_string()),
        ],
    };
    assert_eq!(deanonymize(res), "alpha and beta and alpha");
}

#[test]
fn test_deanonymize_empty_ledger_is_identity() {
    let res = ReplaceResult { text: "unchanged".to_string(), items: vec![] };
    assert_eq!(deanonymize(res), "unchanged");
}

#[test]
fn test_error_messages() {
    assert_eq!(AnonymizeError::MissingReplacementPrefix.message(), "SET REPLACEMENT");
    assert_eq!(AnonymizeError::Range.message(), "Invalid range");
}
