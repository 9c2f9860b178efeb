//! Mixing: code generation, variant counts, option permutation, the
//! mapped correct answer, and determinism.
use std::collections::HashSet;

use siromix::mixer::{generate_exam_codes, mix_exams, shuffle_options, MixError, MixedExam};
use siromix::model::{OptionItem, Question, Segment};

fn text_seg(t: &str) -> Segment {
    Segment::Text {
        text: t.to_string(),
        raw_xml: String::new(),
    }
}

fn seg_text(s: &Segment) -> String {
    match s {
        Segment::Text { text, .. } => text.clone(),
        Segment::Image { asset_path, .. } => format!("[img:{}]", asset_path),
        Segment::Math { omml, .. } => format!("[math:{}]", omml),
    }
}

fn opt(label: &str, content: &str) -> OptionItem {
    OptionItem {
        label: label.to_string(),
        locked: false,
        content: vec![text_seg(content)],
    }
}

fn sample_question() -> Question {
    Question {
        number: 1,
        stem: vec![text_seg("Question 1")],
        options: vec![opt("A", "Option A"), opt("B", "Option B")],
        correct_label: "A".to_string(),
    }
}

#[test]
fn test_generate_exam_codes() {
    let codes = generate_exam_codes(4);
    assert_eq!(codes.len(), 4);

    let unique: HashSet<_> = codes.iter().collect();
    assert_eq!(unique.len(), 4);

    for code in &codes {
        let num: u32 = code.parse().unwrap();
        assert!(num >= 100 && num <= 999);
    }
}

#[test]
fn test_mix_exams_generates_correct_count() {
    let questions = vec![sample_question()];

    let variants = mix_exams(&questions, 3, None).unwrap();
    assert_eq!(variants.len(), 3);

    for variant in &variants {
        assert_eq!(variant.questions.len(), 1);
        assert!(!variant.exam_code.is_empty());
    }
}

#[test]
fn test_shuffle_options_preserves_content() {
    let options = vec![opt("A", "Option A"), opt("B", "Option B")];

    let shuffled = shuffle_options(&options, 42);

    assert_eq!(shuffled.len(), 2);

    let originals: HashSet<_> = shuffled.iter().map(|o| o.original_label.as_str()).collect();
    assert!(originals.contains("A"));
    assert!(originals.contains("B"));

    let new_labels: HashSet<_> = shuffled.iter().map(|o| o.label.as_str()).collect();
    assert!(new_labels.contains("A"));
    assert!(new_labels.contains("B"));

    for o in &shuffled {
        let orig_content = if o.original_label == "A" { "Option A" } else { "Option B" };
        assert_eq!(seg_text(&o.content[0]), orig_content);
    }
}

#[test]
fn test_mix_distinct_three_digit_codes_for_every_count() {
    for n in [1usize, 2, 7, 40] {
        let questions = vec![sample_question()];
        let variants = mix_exams(&questions, n, None).unwrap();
        assert_eq!(variants.len(), n);
        let codes: HashSet<String> = variants.iter().map(|v| v.exam_code.clone()).collect();
        assert_eq!(codes.len(), n);
        for c in &codes {
            assert_eq!(c.chars().count(), 3);
            let v: u32 = c.parse().unwrap();
            assert!((100..=999).contains(&v));
        }
    }
}

fn four_option_question() -> Question {
    Question {
        number: 7,
        stem: vec![text_seg("Pick one")],
        options: vec![
            opt("A", "alpha"),
            opt("B", "beta"),
            opt("C", "gamma"),
            opt("D", "delta"),
        ],
        correct_label: "C".to_string(),
    }
}

#[test]
fn test_mix_options_are_relabeled_permutation_with_one_correct() {
    let questions = vec![four_option_question()];
    let variants = mix_exams(&questions, 4, None).unwrap();
    for variant in &variants {
        let q = &variant.questions[0];
        assert_eq!(q.options.len(), 4);
        // New labels are exactly A, B, C, D by position.
        for (k, o) in q.options.iter().enumerate() {
            let expected = ["A", "B", "C", "D"][k];
            assert_eq!(o.label, expected);
        }
        // The options are a permutation of the originals.
        let mut originals: Vec<&str> = q.options.iter().map(|o| o.original_label.as_str()).collect();
        originals.sort();
        assert_eq!(originals, vec!["A", "B", "C", "D"]);
        for o in &q.options {
            let expected = match o.original_label.as_str() {
                "A" => "alpha",
                "B" => "beta",
                "C" => "gamma",
                _ => "delta",
            };
            assert_eq!(seg_text(&o.content[0]), expected);
        }
        // Exactly one option carries the mapped correct answer, and it is
        // the one that originally carried label C.
        let matching: Vec<_> = q
            .options
            .iter()
            .filter(|o| o.label == q.correct_answer)
            .collect();
        assert_eq!(matching.len(), 1);
        assert_eq!(matching[0].original_label, "C");
    }
}

fn exams_equal(a: &[MixedExam], b: &[MixedExam]) -> bool {
    if a.len() != b.len() {
        return false;
    }
    for (x, y) in a.iter().zip(b.iter()) {
        if x.exam_code != y.exam_code || x.questions.len() != y.questions.len() {
            return false;
        }
        for (qx, qy) in x.questions.iter().zip(y.questions.iter()) {
            if qx.original_number != qy.original_number
                || qx.display_number != qy.display_number
                || qx.correct_answer != qy.correct_answer
                || qx.options.len() != qy.options.len()
            {
                return false;
            }
            if qx.stem.iter().map(seg_text).collect::<Vec<_>>()
                != qy.stem.iter().map(seg_text).collect::<Vec<_>>()
            {
                return false;
            }
            for (ox, oy) in qx.options.iter().zip(qy.options.iter()) {
                if ox.label != oy.label
                    || ox.original_label != oy.original_label
                    || ox.content.iter().map(seg_text).collect::<Vec<_>>()
                        != oy.content.iter().map(seg_text).collect::<Vec<_>>()
                {
                    return false;
                }
            }
        }
    }
    true
}

#[test]
fn test_mix_is_deterministic_for_fixed_codes() {
    let questions = vec![four_option_question(), sample_question()];
    let codes = vec!["111".to_string(), "222".to_string(), "333".to_string()];
    let a = mix_exams(&questions, 3, Some(codes.clone())).unwrap();
    let b = mix_exams(&questions, 3, Some(codes)).unwrap();
    assert!(exams_equal(&a, &b));
}

#[test]
fn test_mix_precondition_errors() {
    let questions = vec![sample_question()];
    assert_eq!(mix_exams(&questions, 0, None).unwrap_err(), MixError::ZeroVariants);
    let empty: Vec<Question> = Vec::new();
    assert_eq!(mix_exams(&empty, 2, None).unwrap_err(), MixError::EmptyQuestions);
    let codes = vec!["123".to_string()];
    assert_eq!(
        mix_exams(&questions, 2, Some(codes)).unwrap_err(),
        MixError::CodeCountMismatch
    );
}

#[test]
fn test_mix_uses_supplied_codes_in_order() {
    let questions = vec![sample_question()];
    let codes = vec!["901".to_string(), "902".to_string()];
    let variants = mix_exams(&questions, 2, Some(codes)).unwrap();
    assert_eq!(variants[0].exam_code, "901");
    assert_eq!(variants[1].exam_code, "902");
}
