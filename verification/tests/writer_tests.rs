//! Writing: part generation, the diagnostic run for unresolved images,
//! image relationship planning, packaging, and the parse round trip.
use siromix::model::{ExtractedAsset, OptionItem, Question, Segment};
use siromix::mixer::mix_exams;
use siromix::parser::parse_document_xml_to_parsed_doc;
use siromix::writer::{plan_image_rels, ExamWriter, ImageAsset, ImageRel};

fn text_seg(t: &str) -> Segment {
    Segment::Text {
        text: t.to_string(),
        raw_xml: String::new(),
    }
}

fn text_of(seg: &Segment) -> &str {
    match seg {
        Segment::Text { text, .. } => text.as_str(),
        _ => panic!("expected a text segment"),
    }
}

fn opt(label: &str, content: &str) -> OptionItem {
    OptionItem {
        label: label.to_string(),
        locked: false,
        content: vec![text_seg(content)],
    }
}

fn writer_for(questions: Vec<Question>) -> ExamWriter {
    ExamWriter {
        exam_code: "123".to_string(),
        questions,
        exam_title: "Sample Exam".to_string(),
        subject: "Math".to_string(),
        duration_minutes: 45,
        assets_dir: "/tmp/assets".to_string(),
    }
}

#[test]
fn test_unresolved_image_emits_diagnostic_run() {
    let q = Question {
        number: 1,
        stem: vec![Segment::Image {
            asset_path: "/missing/image9.png".to_string(),
            raw_xml: String::new(),
            width_emu: 914400,
            height_emu: 914400,
        }],
        options: vec![opt("A", "one")],
        correct_label: "A".to_string(),
    };
    let w = writer_for(vec![q]);
    let rels: Vec<ImageRel> = Vec::new();
    let seg = w.questions[0].stem[0].clone();
    let xml = w.segment_to_xml(&seg, &rels);
    assert!(xml.contains("[Image: /missing/image9.png]"));
    // The whole package still assembles instead of raising.
    let images: Vec<ImageAsset> = Vec::new();
    let bytes = w.build_package(&images).unwrap();
    assert!(!bytes.is_empty());
}

#[test]
fn test_resolved_image_emits_drawing_with_dimensions() {
    let q = Question {
        number: 1,
        stem: vec![Segment::Image {
            asset_path: "/assets/pic.png".to_string(),
            raw_xml: String::new(),
            width_emu: 123456,
            height_emu: 654321,
        }],
        options: vec![opt("A", "one")],
        correct_label: "A".to_string(),
    };
    let w = writer_for(vec![q]);
    let images = vec![ImageAsset {
        path: "/assets/pic.png".to_string(),
        bytes: vec![1, 2, 3],
    }];
    let rels = plan_image_rels(&w.questions, &images);
    assert_eq!(rels.len(), 1);
    assert_eq!(rels[0].rid, 3);
    assert_eq!(rels[0].media_name, "media/image3.png");
    let seg = w.questions[0].stem[0].clone();
    let xml = w.segment_to_xml(&seg, &rels);
    assert!(xml.contains("cx=\"123456\""));
    assert!(xml.contains("cy=\"654321\""));
    assert!(xml.contains("r:embed=\"rId3\""));
}

#[test]
fn test_plan_image_rels_dedups_by_path() {
    let img = |p: &str| Segment::Image {
        asset_path: p.to_string(),
        raw_xml: String::new(),
        width_emu: 1,
        height_emu: 1,
    };
    let q = Question {
        number: 1,
        stem: vec![img("/a.png"), img("/b.png"), img("/a.png")],
        options: vec![opt("A", "one")],
        correct_label: "A".to_string(),
    };
    let images = vec![
        ImageAsset {
            path: "/a.png".to_string(),
            bytes: vec![0],
        },
        ImageAsset {
            path: "/b.png".to_string(),
            bytes: vec![0],
        },
    ];
    let rels = plan_image_rels(&vec![q], &images);
    assert_eq!(rels.len(), 2);
    assert_eq!(rels[0].path, "/a.png");
    assert_eq!(rels[0].rid, 3);
    assert_eq!(rels[1].path, "/b.png");
    assert_eq!(rels[1].rid, 4);
}

#[test]
fn test_generated_parts_contain_mandated_layout() {
    let w = writer_for(vec![Question {
        number: 1,
        stem: vec![text_seg("What?")],
        options: vec![opt("A", "this"), opt("B", "that")],
        correct_label: "A".to_string(),
    }]);
    let rels: Vec<ImageRel> = Vec::new();
    let doc = w.generate_document_xml(&rels);
    assert!(doc.contains("w:w=\"11906\""));
    assert!(doc.contains("w:h=\"16838\""));
    assert!(doc.contains("w:top=\"1134\""));
    assert!(doc.contains("w:left=\"1701\""));
    assert!(doc.contains("w:right=\"851\""));
    assert!(doc.contains("Câu 1. "));
    assert!(doc.contains("Mã đề: 123"));
    let ct = w.generate_content_types();
    assert!(ct.contains("footer1.xml"));
    let ft = w.generate_footer();
    assert!(ft.contains("PAGE"));
    let dr = w.generate_document_rels(&rels);
    assert!(dr.contains("footer1.xml"));
    assert!(dr.contains("styles.xml"));
}

#[test]
fn test_text_segment_is_escaped() {
    let w = writer_for(vec![]);
    let rels: Vec<ImageRel> = Vec::new();
    let xml = w.segment_to_xml(&text_seg("a < b & c > d"), &rels);
    assert!(xml.contains("a &lt; b &amp; c &gt; d"));
}

#[test]
fn test_round_trip_parse_write_parse() {
    // parse(write(mix(parse(X)))) preserves the question count, the stem
    // text content, and the content of the option that carries the mapped
    // correct answer.
    let para = |t: &str| format!("<w:p><w:r><w:t>{}</w:t></w:r></w:p>", t);
    let xml = format!(
        "{}{}{}{}{}{}{}{}",
        para("Câu 1. What is 2+2?"),
        para("A. three"),
        para("B. four"),
        para("C. five"),
        para("Câu 2. Pick a vowel"),
        para("A. k"),
        para("B. e"),
        para("C. z")
    );
    let assets: Vec<ExtractedAsset> = Vec::new();
    let doc = parse_document_xml_to_parsed_doc(&xml.chars().collect(), &assets);
    assert_eq!(doc.questions.len(), 2);

    // Validation would fill these; fix them directly for the round trip.
    let mut questions = doc.questions;
    questions[0].correct_label = "B".to_string();
    questions[1].correct_label = "B".to_string();

    let variants = mix_exams(&questions, 1, Some(vec!["777".to_string()])).unwrap();
    let variant = &variants[0];

    // Convert the mixed questions back to the writer's question shape.
    let wq: Vec<Question> = variant
        .questions
        .iter()
        .map(|mq| Question {
            number: mq.display_number,
            stem: mq.stem.clone(),
            options: mq
                .options
                .iter()
                .map(|o| OptionItem {
                    label: o.label.clone(),
                    locked: false,
                    content: o.content.clone(),
                })
                .collect(),
            correct_label: mq.correct_answer.clone(),
        })
        .collect();
    let w = writer_for(wq);
    let rels: Vec<ImageRel> = Vec::new();
    let written = w.generate_document_xml(&rels);

    let reparsed = parse_document_xml_to_parsed_doc(&written.chars().collect(), &assets);
    assert_eq!(reparsed.questions.len(), variant.questions.len());
    for (mq, rq) in variant.questions.iter().zip(reparsed.questions.iter()) {
        // Stem text content is preserved.
        let stem_before: String = mq.stem.iter().map(text_of).collect();
        let stem_after: String = rq.stem.iter().map(text_of).collect();
        assert_eq!(stem_before, stem_after);
        // The content of the option that carries the correct answer is
        // preserved under its label.
        let correct_before = mq
            .options
            .iter()
            .find(|o| o.label == mq.correct_answer)
            .expect("mixed correct option");
        let correct_after = rq
            .options
            .iter()
            .find(|o| o.label == mq.correct_answer)
            .expect("reparsed correct option");
        let cb: String = correct_before.content.iter().map(text_of).collect();
        let ca: String = correct_after.content.iter().map(text_of).collect();
        assert_eq!(cb, ca);
    }
}
