//! Header template data, page estimation and the answer-key workbook.
use siromix::excel::write_answer_key;
use siromix::header_template::StandardHeaderTemplate;
use siromix::mixer::mix_exams;
use siromix::model::{OptionItem, Question, Segment};

#[test]
fn test_new_header_defaults() {
    let h = StandardHeaderTemplate::new(
        "THPT Example".to_string(),
        "132".to_string(),
        "KIEM TRA GIUA KY".to_string(),
        "2022 - 2023".to_string(),
        "Toan".to_string(),
        "LOP 10".to_string(),
        60,
    );
    assert_eq!(h.school_name, "THPT Example");
    assert_eq!(h.exam_code, "132");
    assert!(h.is_official);
    assert_eq!(h.total_pages, 1);
    assert_eq!(h.duration_minutes, 60);
    assert!(h.include_distribution_note);
}

#[test]
fn test_estimate_pages() {
    assert_eq!(StandardHeaderTemplate::estimate_pages(0), 1);
    assert_eq!(StandardHeaderTemplate::estimate_pages(1), 1);
    assert_eq!(StandardHeaderTemplate::estimate_pages(28), 1);
    assert_eq!(StandardHeaderTemplate::estimate_pages(29), 2);
    assert_eq!(StandardHeaderTemplate::estimate_pages(56), 2);
    assert_eq!(StandardHeaderTemplate::estimate_pages(57), 3);
}

#[test]
fn test_format_page_count() {
    assert_eq!(StandardHeaderTemplate::format_page_count(2), "02");
    assert_eq!(StandardHeaderTemplate::format_page_count(9), "09");
    assert_eq!(StandardHeaderTemplate::format_page_count(10), "10");
    assert_eq!(StandardHeaderTemplate::format_page_count(123), "123");
}

#[test]
fn test_write_answer_key_produces_workbook_bytes() {
    let questions = vec![Question {
        number: 1,
        stem: vec![Segment::Text {
            text: "Stem".to_string(),
            raw_xml: String::new(),
        }],
        options: vec![
            OptionItem {
                label: "A".to_string(),
                locked: false,
                content: vec![Segment::Text {
                    text: "one".to_string(),
                    raw_xml: String::new(),
                }],
            },
            OptionItem {
                label: "B".to_string(),
                locked: false,
                content: vec![Segment::Text {
                    text: "two".to_string(),
                    raw_xml: String::new(),
                }],
            },
        ],
        correct_label: "A".to_string(),
    }];
    let variants = mix_exams(&questions, 2, Some(vec!["111".to_string(), "222".to_string()]))
        .unwrap();
    let original_answers = vec!["A".to_string()];
    let bytes = write_answer_key(&variants, &original_answers).unwrap();
    // A zip-packaged spreadsheet starts with the local-file signature.
    assert!(bytes.len() > 4);
    assert_eq!(&bytes[0..2], b"PK");
}

#[test]
fn test_write_answer_key_accepts_empty_answer_strings() {
    // Empty answer texts are accepted: the spreadsheet library ignores
    // them, so the cell is simply left unwritten.
    let questions = vec![Question {
        number: 1,
        stem: vec![Segment::Text {
            text: "Stem".to_string(),
            raw_xml: String::new(),
        }],
        options: vec![
            OptionItem {
                label: "A".to_string(),
                locked: false,
                content: vec![Segment::Text {
                    text: "one".to_string(),
                    raw_xml: String::new(),
                }],
            },
            OptionItem {
                label: "B".to_string(),
                locked: false,
                content: vec![Segment::Text {
                    text: "two".to_string(),
                    raw_xml: String::new(),
                }],
            },
        ],
        correct_label: "A".to_string(),
    }];
    let variants = mix_exams(&questions, 1, Some(vec!["333".to_string()])).unwrap();
    let original_answers = vec!["".to_string()];
    let bytes = write_answer_key(&variants, &original_answers).unwrap();
    assert_eq!(&bytes[0..2], b"PK");
}
