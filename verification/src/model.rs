//! Shared document model: segments, options, questions and parsed documents,
//! together with the spec-level equalities and well-formedness predicates
//! that the other modules state their contracts over.
use vstd::prelude::*;

verus! {

/// One atomic, ordered unit of rich content inside a question stem or an
/// option body.  Each variant keeps the exact slice of original markup it
/// was extracted from, so the writer can reproduce it with high fidelity.
#[derive(Debug, Clone)]
pub enum Segment {
    /// A plain text run; `raw_xml` holds the original run markup.
    Text { text: String, raw_xml: String },
    /// An inline image, correlated to an extracted asset by order of
    /// appearance; dimensions are in EMU (914400 per inch).
    Image { asset_path: String, raw_xml: String, width_emu: u64, height_emu: u64 },
    /// An inline math expression; `omml` is the opaque original math markup.
    Math { omml: String, raw_xml: String },
}

/// Deep equality of two segments, comparing the string views of every field.
pub open spec fn seg_eq(a: Segment, b: Segment) -> bool {
    match (a, b) {
        (Segment::Text { text: t1, raw_xml: r1 }, Segment::Text { text: t2, raw_xml: r2 }) => {
            t1@ == t2@ && r1@ == r2@
        },
        (
            Segment::Image { asset_path: p1, raw_xml: r1, width_emu: w1, height_emu: h1 },
            Segment::Image { asset_path: p2, raw_xml: r2, width_emu: w2, height_emu: h2 },
        ) => {
            p1@ == p2@ && r1@ == r2@ && w1 == w2 && h1 == h2
        },
        (Segment::Math { omml: m1, raw_xml: r1 }, Segment::Math { omml: m2, raw_xml: r2 }) => {
            m1@ == m2@ && r1@ == r2@
        },
        _ => false,
    }
}

/// Deep equality of two segment sequences.
pub open spec fn segs_eq(a: Seq<Segment>, b: Seq<Segment>) -> bool {
    a.len() == b.len() && forall|i: int| 0 <= i < a.len() ==> seg_eq(a[i], b[i])
}

/// One answer option of a question.  The label is a single letter A-F;
/// `locked` records the legacy `#`-marker, which is informational only.
#[derive(Debug, Clone)]
pub struct OptionItem {
    pub label: String,
    pub locked: bool,
    pub content: Vec<Segment>,
}

/// Deep equality of two options.
pub open spec fn opt_eq(a: OptionItem, b: OptionItem) -> bool {
    a.label@ == b.label@ && a.locked == b.locked && segs_eq(a.content@, b.content@)
}

/// One question: its original number, the stem segments, the options in
/// document order, and the correct label (empty until validation fills it).
#[derive(Debug, Clone)]
pub struct Question {
    pub number: u32,
    pub stem: Vec<Segment>,
    pub options: Vec<OptionItem>,
    pub correct_label: String,
}

/// Deep equality of two questions.
pub open spec fn question_eq(a: Question, b: Question) -> bool {
    &&& a.number == b.number
    &&& segs_eq(a.stem@, b.stem@)
    &&& a.options@.len() == b.options@.len()
    &&& forall|i: int| 0 <= i < a.options@.len() ==> opt_eq(a.options@[i], b.options@[i])
    &&& a.correct_label@ == b.correct_label@
}

/// The structured result of parsing one document.
#[derive(Debug, Clone)]
pub struct ParsedDoc {
    pub questions: Vec<Question>,
}

/// One media asset extracted from the input package, in first-appearance
/// order.  Paths are plain strings; an optional converted raster path may
/// accompany a legacy vector image.
#[derive(Debug, Clone)]
pub struct ExtractedAsset {
    pub file_name: String,
    pub absolute_path: String,
    pub converted_path: Option<String>,
}

/// A valid option label letter.
pub open spec fn valid_label_char(c: char) -> bool {
    'A' <= c && c <= 'F'
}

/// A valid option label: exactly one letter among A-F.
pub open spec fn valid_label(s: Seq<char>) -> bool {
    s.len() == 1 && valid_label_char(s[0])
}

/// Well-formedness of one option: its label is a single letter A-F.
pub open spec fn wf_option(o: OptionItem) -> bool {
    valid_label(o.label@)
}

/// Well-formedness of a question as the mixer consumes it: at least one and
/// at most six options, all labels valid and pairwise distinct, and the
/// stored correct label one of the option labels.
pub open spec fn wf_question(q: Question) -> bool {
    &&& 1 <= q.options@.len() <= 6
    &&& forall|i: int| 0 <= i < q.options@.len() ==> wf_option(#[trigger] q.options@[i])
    &&& forall|i: int, j: int|
        0 <= i < q.options@.len() && 0 <= j < q.options@.len() && i != j
            ==> q.options@[i].label@ != q.options@[j].label@
    &&& exists|i: int| 0 <= i < q.options@.len() && (#[trigger] q.options@[i]).label@ == q.correct_label@
}

} // verus!
