//! Formatting constants for the mandated A4 layout profile used by the
//! document writer: page size, margins, font and font sizes.
use vstd::prelude::*;

verus! {

/// The fixed page-layout profile for official exam documents.  The values
/// are mandated; they must not be changed.
pub struct NghiDinh30;

impl NghiDinh30 {
    /// A4 paper width: 210mm, in twips.
    pub const PAGE_WIDTH_TWIPS: i32 = 11906;

    /// A4 paper height: 297mm, in twips.
    pub const PAGE_HEIGHT_TWIPS: i32 = 16838;

    /// Top margin: 20mm.
    pub const MARGIN_TOP_TWIPS: i32 = 1134;

    /// Bottom margin: 20mm.
    pub const MARGIN_BOTTOM_TWIPS: i32 = 1134;

    /// Left margin: 30mm, for binding.
    pub const MARGIN_LEFT_TWIPS: i32 = 1701;

    /// Right margin: 15mm.
    pub const MARGIN_RIGHT_TWIPS: i32 = 851;

    /// Header margin: 12.5mm.
    pub const MARGIN_HEADER_TWIPS: i32 = 708;

    /// Footer margin: 12.5mm.
    pub const MARGIN_FOOTER_TWIPS: i32 = 708;

    /// Font family, mandatory.
    pub const FONT_NAME: &'static str = "Times New Roman";

    /// Font encoding.
    pub const FONT_ENCODING: &'static str = "Unicode (TCVN 6909:2001)";

    /// Title font size: 14pt, in half-points.
    pub const FONT_SIZE_TITLE: i32 = 28;

    /// Exam name font size: 16pt.
    pub const FONT_SIZE_EXAM_NAME: i32 = 32;

    /// Subtitle font size: 12pt.
    pub const FONT_SIZE_SUBTITLE: i32 = 24;

    /// Body text font size: 13pt.
    pub const FONT_SIZE_BODY: i32 = 26;

    /// Page number font size: 13pt.
    pub const FONT_SIZE_PAGE_NUMBER: i32 = 26;
}

} // verus!
