use anonymize_rs::config::{AnonymizePipelineConfig, AnonymizerConfig};
use anonymize_rs::pipeline::{AnonymizePipeline, Anonymizer};
use anonymize_rs::error::AnonymizeError;

fn flash_config(name: &str, keywords: &[&str]) -> AnonymizerConfig {
    AnonymizerConfig::FlashText {
        name: name.to_string(),
        file: None,
        keywords: Some(keywords.iter().map(|s| s.to_string()).collect()),
    }
}

fn regex_config(name: &str, patterns: &[&str]) -> AnonymizerConfig {
    AnonymizerConfig::Regex {
        name: name.to_string(),
        file: None,
        patterns: Some(patterns.iter().map(|s| s.to_string()).collect()),
    }
}

#[test]
fn test_pipeline_two_stages() {
    let config = AnonymizePipelineConfig {
        pipeline: vec![
            flash_config("FRUIT_FLASH", &["apple", "banana"]),
            regex_config("FRUIT_REGEX", &[r"\bplum\w*\b"]),
        ],
    };
    let pipeline = AnonymizePipeline::new(config).unwrap();
    let res = pipeline.anonymize("I like to eat apples and bananas and plums", None, None).unwrap();
    assert_eq!(res.text, "I like to eat FRUIT_FLASH0 and FRUIT_FLASH1 and FRUIT_REGEX0");
    assert_eq!(res.items.len(), 3);
}

#[test]
fn test_stage_order_owns_ambiguous_matches() {
    // Both stages can match the same literal value; whichever runs first
    // captures it, and the later stage only sees the substituted text.
    let text = "apples and apples";

    let keyword_first = AnonymizePipeline::new(AnonymizePipelineConfig {
        pipeline: vec![
            flash_config("FLASH", &["apple"]),
            regex_config("REGEX", &[r"\bapple\w*\b"]),
        ],
    })
    .unwrap();
    let res1 = keyword_first.anonymize(text, None, None).unwrap();
    assert_eq!(res1.text, "FLASH0 and FLASH0");
    assert_eq!(res1.items, vec![("FLASH0".to_string(), "apples".to_string())]);

    let pattern_first = AnonymizePipeline::new(AnonymizePipelineConfig {
        pipeline: vec![
            regex_config("REGEX", &[r"\bapple\w*\b"]),
            flash_config("FLASH", &["apple"]),
        ],
    })
    .unwrap();
    let res2 = pattern_first.anonymize(text, None, None).unwrap();
    assert_eq!(res2.text, "REGEX0 and REGEX0");
    assert_eq!(res2.items, vec![("REGEX0".to_string(), "apples".to_string())]);
}

#[test]
fn test_pipeline_shares_ledger_across_stages() {
    // The value captured by the first stage stays recorded when the second
    // stage runs; a later occurrence minted by the second stage reuses it.
    let pipeline = AnonymizePipeline::new(AnonymizePipelineConfig {
        pipeline: vec![
            regex_config("A", &[r"x\d"]),
            regex_config("B", &[r"y\d"]),
        ],
    })
    .unwrap();
    let res = pipeline.anonymize("x1 y2 x1", None, None).unwrap();
    assert_eq!(res.text, "A0 B0 A0");
    assert_eq!(
        res.items,
        vec![("A0".to_string(), "x1".to_string()), ("B0".to_string(), "y2".to_string())]
    );
}

#[test]
fn test_pipeline_build_fails_on_unresolved_file_source() {
    let config = AnonymizePipelineConfig {
        pipeline: vec![AnonymizerConfig::FlashText {
            name: "FRUIT".to_string(),
            file: Some("fruits.txt".to_string()),
            keywords: None,
        }],
    };
    assert_eq!(AnonymizePipeline::new(config).unwrap_err(), AnonymizeError::Config);
}

#[test]
fn test_pipeline_build_fails_on_invalid_pattern() {
    let config = AnonymizePipelineConfig {
        pipeline: vec![regex_config("BAD", &["foo(bar"])],
    };
    assert_eq!(AnonymizePipeline::new(config).unwrap_err(), AnonymizeError::Config);
}

#[test]
fn test_pipeline_round_trip() {
    let pipeline = AnonymizePipeline::new(AnonymizePipelineConfig {
        pipeline: vec![flash_config("FRUIT", &["apple", "banana"])],
    })
    .unwrap();
    let original = "I like apples and bananas";
    let res = pipeline.anonymize(original, None, None).unwrap();
    assert_eq!(res.text, "I like FRUIT0 and FRUIT1");
    let restored = pipeline.deanonymize(res);
    assert_eq!(restored, original);
}

#[test]
fn test_pipeline_build_fails_on_label_stage_descriptor() {
    // The library cannot drive the label stage's inference runtime, so a
    // configuration naming one aborts the build instead of silently
    // dropping the stage.
    let config = AnonymizePipelineConfig {
        pipeline: vec![
            flash_config("FRUIT", &["apple"]),
            AnonymizerConfig::Ner {
                model_path: "model.onnx".to_string(),
                tokenizer_path: "tokenizer.json".to_string(),
                id2label: vec![("0".to_string(), ("O".to_string(), false))],
                token_type_ids_included: Some(true),
            },
        ],
    };
    assert_eq!(AnonymizePipeline::new(config).unwrap_err(), AnonymizeError::Config);
}
