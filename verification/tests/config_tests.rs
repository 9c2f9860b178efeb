//! The mandated layout constants must never drift.
use siromix::config::NghiDinh30;

#[test]
fn test_nghi_dinh_30_page_size_immutable() {
    assert_eq!(
        NghiDinh30::PAGE_WIDTH_TWIPS,
        11906,
        "Page width MUST be 11906 twips (210mm) per Nghị định 30"
    );
    assert_eq!(
        NghiDinh30::PAGE_HEIGHT_TWIPS,
        16838,
        "Page height MUST be 16838 twips (297mm) per Nghị định 30"
    );
}

#[test]
fn test_nghi_dinh_30_margins_immutable() {
    assert_eq!(
        NghiDinh30::MARGIN_TOP_TWIPS,
        1134,
        "Top margin MUST be 1134 twips (20mm) per Nghị định 30"
    );
    assert_eq!(
        NghiDinh30::MARGIN_BOTTOM_TWIPS,
        1134,
        "Bottom margin MUST be 1134 twips (20mm) per Nghị định 30"
    );
    assert_eq!(
        NghiDinh30::MARGIN_LEFT_TWIPS,
        1701,
        "Left margin MUST be 1701 twips (30mm) per Nghị định 30"
    );
    assert_eq!(
        NghiDinh30::MARGIN_RIGHT_TWIPS,
        851,
        "Right margin MUST be 851 twips (15mm) per Nghị định 30"
    );
}

#[test]
fn test_nghi_dinh_30_font_name_immutable() {
    assert_eq!(
        NghiDinh30::FONT_NAME,
        "Times New Roman",
        "Font name MUST be 'Times New Roman' per Nghị định 30"
    );
}

#[test]
fn test_nghi_dinh_30_font_encoding_immutable() {
    assert_eq!(
        NghiDinh30::FONT_ENCODING,
        "Unicode (TCVN 6909:2001)",
        "Font encoding MUST be 'Unicode (TCVN 6909:2001)' per Nghị định 30"
    );
}

#[test]
fn test_nghi_dinh_30_font_sizes_immutable() {
    assert_eq!(
        NghiDinh30::FONT_SIZE_TITLE,
        28,
        "Title font size MUST be 28 (14pt) per Nghị định 30"
    );
    assert_eq!(
        NghiDinh30::FONT_SIZE_EXAM_NAME,
        32,
        "Exam name font size MUST be 32 (16pt) per Nghị định 30"
    );
    assert_eq!(
        NghiDinh30::FONT_SIZE_SUBTITLE,
        24,
        "Subtitle font size MUST be 24 (12pt) per Nghị định 30"
    );
    assert_eq!(
        NghiDinh30::FONT_SIZE_BODY,
        26,
        "Body font size MUST be 26 (13pt) per Nghị định 30"
    );
    assert_eq!(
        NghiDinh30::FONT_SIZE_PAGE_NUMBER,
        26,
        "Page number font size MUST be 26 (13pt) per Nghị định 30"
    );
}

#[test]
fn test_nghi_dinh_30_complete_compliance() {
    assert_eq!(NghiDinh30::PAGE_WIDTH_TWIPS, 11906);
    assert_eq!(NghiDinh30::PAGE_HEIGHT_TWIPS, 16838);
    assert_eq!(NghiDinh30::MARGIN_TOP_TWIPS, 1134);
    assert_eq!(NghiDinh30::MARGIN_BOTTOM_TWIPS, 1134);
    assert_eq!(NghiDinh30::MARGIN_LEFT_TWIPS, 1701);
    assert_eq!(NghiDinh30::MARGIN_RIGHT_TWIPS, 851);
    assert_eq!(NghiDinh30::FONT_NAME, "Times New Roman");
    assert_eq!(NghiDinh30::FONT_SIZE_BODY, 26);
    assert_eq!(NghiDinh30::FONT_SIZE_PAGE_NUMBER, 26);
}
