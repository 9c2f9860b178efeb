//! Answer validation: mark detection on label runs and the exactly-one
//! rule with both error codes.
use siromix::validator::{
    detect_correct_label_for_question, is_label_marked_correct, LabelRunStyle, LabeledOptionRuns,
    ValidationErrorCode,
};

fn plain() -> LabelRunStyle {
    LabelRunStyle {
        underline: false,
        color: None,
    }
}

fn underlined() -> LabelRunStyle {
    LabelRunStyle {
        underline: true,
        color: None,
    }
}

fn colored(c: &str) -> LabelRunStyle {
    LabelRunStyle {
        underline: false,
        color: Some(c.to_string()),
    }
}

fn entry(label: &str, runs: Vec<LabelRunStyle>) -> LabeledOptionRuns {
    LabeledOptionRuns {
        label: label.to_string(),
        runs,
    }
}

#[test]
fn test_is_marked_by_underline_or_red() {
    assert!(underlined().is_marked());
    assert!(colored("FF0000").is_marked());
    assert!(colored("ff0000").is_marked());
    assert!(colored("Ff0000").is_marked());
    assert!(!colored("00FF00").is_marked());
    assert!(!colored("FF000").is_marked());
    assert!(!plain().is_marked());
}

#[test]
fn test_is_label_marked_correct_any_run() {
    assert!(is_label_marked_correct(&[plain(), underlined()]));
    assert!(!is_label_marked_correct(&[plain(), plain()]));
    assert!(!is_label_marked_correct(&[]));
}

#[test]
fn test_detect_missing_mark() {
    let options = vec![entry("A", vec![plain()]), entry("B", vec![plain()])];
    let err = detect_correct_label_for_question(9, &options).unwrap_err();
    assert_eq!(err.code, ValidationErrorCode::E020CorrectMarkMissing);
    assert_eq!(err.question_number, 9);
    assert_eq!(err.code.as_str(), "E020_CORRECT_MARK_MISSING");
}

#[test]
fn test_detect_single_mark() {
    let options = vec![
        entry("A", vec![plain()]),
        entry("B", vec![plain(), colored("ff0000")]),
        entry("C", vec![plain()]),
    ];
    let label = detect_correct_label_for_question(3, &options).unwrap();
    assert_eq!(label, "B");
}

#[test]
fn test_detect_multiple_marks() {
    let options = vec![
        entry("A", vec![underlined()]),
        entry("B", vec![colored("FF0000")]),
    ];
    let err = detect_correct_label_for_question(5, &options).unwrap_err();
    assert_eq!(err.code, ValidationErrorCode::E021CorrectMarkMultiple);
    assert_eq!(err.question_number, 5);
    assert_eq!(err.code.as_str(), "E021_CORRECT_MARK_MULTIPLE");
}

#[test]
fn test_detect_on_empty_collection() {
    let options: Vec<LabeledOptionRuns> = Vec::new();
    let err = detect_correct_label_for_question(1, &options).unwrap_err();
    assert_eq!(err.code, ValidationErrorCode::E020CorrectMarkMissing);
}
