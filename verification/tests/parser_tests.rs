//! Parsing: the classification scenario, segment extraction, projection,
//! prefix trimming, label-run collection and piece conversion.
use siromix::model::{ExtractedAsset, Segment};
use siromix::parser::{
    build_segments_from_pieces, collect_labeled_option_runs, extract_segments_from_paragraph,
    extract_text_from_w_p, parse_document_xml_to_parsed_doc, segments_to_plain_text,
    trim_prefix_from_segments, InlinePiece,
};

fn chars(s: &str) -> Vec<char> {
    s.chars().collect()
}

fn text_of(seg: &Segment) -> &str {
    match seg {
        Segment::Text { text, .. } => text.as_str(),
        _ => panic!("expected a text segment"),
    }
}

fn para(t: &str) -> String {
    format!("<w:p><w:r><w:t>{}</w:t></w:r></w:p>", t)
}

#[test]
fn test_parse_basic_question_scenario() {
    let xml = format!(
        "{}{}{}{}",
        para("Câu 1. 2+2=?"),
        para("A. 3"),
        para("#B. 4"),
        para("C. 5")
    );
    let assets: Vec<ExtractedAsset> = Vec::new();
    let doc = parse_document_xml_to_parsed_doc(&chars(&xml), &assets);
    assert_eq!(doc.questions.len(), 1);
    let q = &doc.questions[0];
    assert_eq!(q.number, 1);
    assert_eq!(q.stem.len(), 1);
    assert_eq!(text_of(&q.stem[0]), "2+2=?");
    assert_eq!(q.options.len(), 3);
    assert_eq!(q.options[0].label, "A");
    assert!(!q.options[0].locked);
    assert_eq!(text_of(&q.options[0].content[0]), "3");
    assert_eq!(q.options[1].label, "B");
    assert!(q.options[1].locked);
    assert_eq!(text_of(&q.options[1].content[0]), "4");
    assert_eq!(q.options[2].label, "C");
    assert!(!q.options[2].locked);
    assert_eq!(text_of(&q.options[2].content[0]), "5");
    // The lock marker is informational only: the correct label stays
    // empty until validation fills it.
    assert_eq!(q.correct_label, "");
}

#[test]
fn test_parse_multiple_options_in_one_paragraph() {
    let xml = format!(
        "{}{}{}",
        para("Câu 2. Choose"),
        para("A. one B. two"),
        para("C. three D. four")
    );
    let assets: Vec<ExtractedAsset> = Vec::new();
    let doc = parse_document_xml_to_parsed_doc(&chars(&xml), &assets);
    assert_eq!(doc.questions.len(), 1);
    let q = &doc.questions[0];
    assert_eq!(q.options.len(), 4);
    let labels: Vec<&str> = q.options.iter().map(|o| o.label.as_str()).collect();
    assert_eq!(labels, vec!["A", "B", "C", "D"]);
    let texts: Vec<&str> = q.options.iter().map(|o| text_of(&o.content[0])).collect();
    assert_eq!(texts, vec!["one", "two", "three", "four"]);
}

#[test]
fn test_parse_question_without_options_is_discarded() {
    let xml = format!("{}{}", para("Câu 1. Orphan"), para("just a note"));
    let assets: Vec<ExtractedAsset> = Vec::new();
    let doc = parse_document_xml_to_parsed_doc(&chars(&xml), &assets);
    assert_eq!(doc.questions.len(), 0);
}

#[test]
fn test_parse_continuation_content() {
    let xml = format!(
        "{}{}{}{}{}",
        para("Câu 4. First part"),
        para("second part"),
        para("A. yes"),
        para("more of A"),
        para("B. no")
    );
    let assets: Vec<ExtractedAsset> = Vec::new();
    let doc = parse_document_xml_to_parsed_doc(&chars(&xml), &assets);
    assert_eq!(doc.questions.len(), 1);
    let q = &doc.questions[0];
    assert_eq!(q.number, 4);
    assert_eq!(q.stem.len(), 2);
    assert_eq!(text_of(&q.stem[0]), "First part");
    assert_eq!(text_of(&q.stem[1]), "second part");
    assert_eq!(q.options.len(), 2);
    assert_eq!(q.options[0].content.len(), 2);
    assert_eq!(text_of(&q.options[0].content[1]), "more of A");
}

#[test]
fn test_extract_segments_text_math_image() {
    let block = chars(
        "<w:p><w:r><w:t>before</w:t></w:r><m:oMath><m:r>x</m:r></m:oMath>\
         <w:drawing><wp:extent cx=\"1000\" cy=\"2000\"/></w:drawing>\
         <w:r><w:t>after</w:t></w:r></w:p>",
    );
    let assets = vec![ExtractedAsset {
        file_name: "image1.png".to_string(),
        absolute_path: "/assets/image1.png".to_string(),
        converted_path: None,
    }];
    let mut cursor = 0usize;
    let segs = extract_segments_from_paragraph(&block, &assets, &mut cursor);
    assert_eq!(cursor, 1);
    assert_eq!(segs.len(), 4);
    assert_eq!(text_of(&segs[0]), "before");
    match &segs[1] {
        Segment::Math { omml, .. } => assert_eq!(omml, "<m:oMath><m:r>x</m:r></m:oMath>"),
        _ => panic!("expected math"),
    }
    match &segs[2] {
        Segment::Image {
            asset_path,
            width_emu,
            height_emu,
            ..
        } => {
            assert_eq!(asset_path, "/assets/image1.png");
            assert_eq!(*width_emu, 1000);
            assert_eq!(*height_emu, 2000);
        }
        _ => panic!("expected image"),
    }
    assert_eq!(text_of(&segs[3]), "after");
}

#[test]
fn test_extract_segments_entities_and_preserve_space() {
    let block = chars(
        "<w:p><w:r><w:t>a &lt;b&gt; &amp; c</w:t></w:r></w:p>",
    );
    let assets: Vec<ExtractedAsset> = Vec::new();
    let mut cursor = 0usize;
    let segs = extract_segments_from_paragraph(&block, &assets, &mut cursor);
    assert_eq!(segs.len(), 1);
    assert_eq!(text_of(&segs[0]), "a <b> & c");
}

#[test]
fn test_extract_segments_default_image_size() {
    let block = chars("<w:p><w:drawing>no dims here</w:drawing></w:p>");
    let assets: Vec<ExtractedAsset> = Vec::new();
    let mut cursor = 0usize;
    let segs = extract_segments_from_paragraph(&block, &assets, &mut cursor);
    assert_eq!(segs.len(), 1);
    match &segs[0] {
        Segment::Image {
            asset_path,
            width_emu,
            height_emu,
            ..
        } => {
            assert_eq!(asset_path, "");
            assert_eq!(*width_emu, 914400);
            assert_eq!(*height_emu, 914400);
        }
        _ => panic!("expected image"),
    }
}

#[test]
fn test_extract_object_dimensions_in_points() {
    let block = chars(
        "<w:p><w:object><v:shape style=\"width:72pt;height:36pt\"/></w:object></w:p>",
    );
    let assets: Vec<ExtractedAsset> = Vec::new();
    let mut cursor = 0usize;
    let segs = extract_segments_from_paragraph(&block, &assets, &mut cursor);
    assert_eq!(segs.len(), 1);
    match &segs[0] {
        Segment::Image {
            width_emu,
            height_emu,
            ..
        } => {
            // 72pt is exactly one inch.
            assert_eq!(*width_emu, 914400);
            assert_eq!(*height_emu, 457200);
        }
        _ => panic!("expected image"),
    }
}

#[test]
fn test_extract_object_dimensions_metric_units() {
    // 2cm = 720000 EMU; 1in = 914400 EMU.
    let block = chars(
        "<w:p><w:object><v:shape style=\"width:2cm;height:1in\"/></w:object></w:p>",
    );
    let assets: Vec<ExtractedAsset> = Vec::new();
    let mut cursor = 0usize;
    let segs = extract_segments_from_paragraph(&block, &assets, &mut cursor);
    match &segs[0] {
        Segment::Image {
            width_emu,
            height_emu,
            ..
        } => {
            assert_eq!(*width_emu, 720000);
            assert_eq!(*height_emu, 914400);
        }
        _ => panic!("expected image"),
    }
}

#[test]
fn test_math_keeps_whitespace_only_preceding_run() {
    // A preceding text run that contributes only whitespace is dropped as
    // a segment, but its raw markup travels with the math segment.
    let block = chars(
        "<w:p><w:r><w:t> </w:t></w:r><m:oMath><m:r>y</m:r></m:oMath></w:p>",
    );
    let assets: Vec<ExtractedAsset> = Vec::new();
    let mut cursor = 0usize;
    let segs = extract_segments_from_paragraph(&block, &assets, &mut cursor);
    assert_eq!(segs.len(), 1);
    match &segs[0] {
        Segment::Math { omml, raw_xml } => {
            assert_eq!(omml, "<m:oMath><m:r>y</m:r></m:oMath>");
            assert_eq!(raw_xml, "<w:t> </w:t><m:oMath><m:r>y</m:r></m:oMath>");
        }
        _ => panic!("expected math"),
    }
}

#[test]
fn test_segments_to_plain_text_separators() {
    let segs = vec![
        Segment::Text {
            text: "one".to_string(),
            raw_xml: String::new(),
        },
        Segment::Math {
            omml: "<m:oMath/>".to_string(),
            raw_xml: String::new(),
        },
        Segment::Text {
            text: "two".to_string(),
            raw_xml: String::new(),
        },
    ];
    let plain: String = segments_to_plain_text(&segs).into_iter().collect();
    assert_eq!(plain, "one two");
}

#[test]
fn test_trim_prefix_from_segments_codepoints() {
    // The prefix length counts codepoints, not bytes: "Câu 9." has 6
    // codepoints but 7 bytes.
    let segs = vec![Segment::Text {
        text: "Câu 9. nội dung".to_string(),
        raw_xml: String::new(),
    }];
    let trimmed = trim_prefix_from_segments(&segs, 6);
    assert_eq!(trimmed.len(), 1);
    assert_eq!(text_of(&trimmed[0]), "nội dung");
}

#[test]
fn test_extract_text_from_w_p_joins_runs() {
    let block = chars("<w:p><w:r><w:t>one</w:t></w:r><w:r><w:t>two</w:t></w:r></w:p>");
    let joined: String = extract_text_from_w_p(&block).into_iter().collect();
    assert_eq!(joined, "one two");
}

#[test]
fn test_collect_labeled_option_runs_styles() {
    let xml = format!(
        "{}{}{}",
        para("Câu 1. stem"),
        "<w:p><w:r><w:rPr><w:u w:val=\"single\"/></w:rPr><w:t>A.</w:t></w:r><w:r><w:t>alpha</w:t></w:r></w:p>",
        "<w:p><w:r><w:rPr><w:color w:val=\"00FF00\"/></w:rPr><w:t>B.</w:t></w:r><w:r><w:t>beta</w:t></w:r></w:p>"
    );
    let m = collect_labeled_option_runs(&chars(&xml));
    let entries = m.get(&1).expect("question 1 collected");
    assert_eq!(entries.len(), 2);
    let a = entries.iter().find(|e| e.label == "A").unwrap();
    assert_eq!(a.runs.len(), 1);
    assert!(a.runs[0].underline);
    let b = entries.iter().find(|e| e.label == "B").unwrap();
    assert_eq!(b.runs.len(), 1);
    assert!(!b.runs[0].underline);
    assert_eq!(b.runs[0].color.as_deref(), Some("00FF00"));
}

#[test]
fn test_collect_underline_bare_element_is_marked() {
    // An attribute-less underline element also marks the run.
    let xml = format!(
        "{}{}",
        para("Câu 3. stem"),
        "<w:p><w:r><w:rPr><w:u/></w:rPr><w:t>A.</w:t></w:r></w:p>"
    );
    let m = collect_labeled_option_runs(&chars(&xml));
    let entries = m.get(&3).expect("question 3 collected");
    let a = entries.iter().find(|e| e.label == "A").unwrap();
    assert!(a.runs[0].underline);
}

#[test]
fn test_question_prefix_with_no_break_space() {
    // The whitespace between the keyword and the number may be any
    // Unicode whitespace, as with the standard whitespace classes.
    let xml = format!("{}{}", para("Câu\u{a0}5. stem here"), para("A. yes"));
    let assets: Vec<ExtractedAsset> = Vec::new();
    let doc = parse_document_xml_to_parsed_doc(&chars(&xml), &assets);
    assert_eq!(doc.questions.len(), 1);
    assert_eq!(doc.questions[0].number, 5);
}

#[test]
fn test_collect_underline_none_is_not_marked() {
    let xml = format!(
        "{}{}",
        para("Câu 2. stem"),
        "<w:p><w:r><w:rPr><w:u w:val=\"none\"/></w:rPr><w:t>A.</w:t></w:r></w:p>"
    );
    let m = collect_labeled_option_runs(&chars(&xml));
    let entries = m.get(&2).expect("question 2 collected");
    let a = entries.iter().find(|e| e.label == "A").unwrap();
    assert!(!a.runs[0].underline);
}

#[test]
fn test_build_segments_from_pieces_cursor() {
    let pieces = vec![
        InlinePiece::Text("hello".to_string()),
        InlinePiece::Image,
        InlinePiece::Text(String::new()),
        InlinePiece::Image,
        InlinePiece::Math {
            omml: "<m:oMath/>".to_string(),
        },
    ];
    let assets = vec![ExtractedAsset {
        file_name: "a.png".to_string(),
        absolute_path: "/x/a.png".to_string(),
        converted_path: None,
    }];
    let mut cursor = 0usize;
    let segs = build_segments_from_pieces(&pieces, &assets, &mut cursor);
    assert_eq!(cursor, 1);
    // Empty text is dropped: hello, image, image, math.
    assert_eq!(segs.len(), 4);
    match &segs[1] {
        Segment::Image { asset_path, .. } => assert_eq!(asset_path, "/x/a.png"),
        _ => panic!("expected image"),
    }
    match &segs[2] {
        Segment::Image { asset_path, .. } => assert_eq!(asset_path, ""),
        _ => panic!("expected image"),
    }
}
