//! Header data for exam documents: school and exam identification on the
//! two sides of the standard header, with a page-count estimate.
use vstd::prelude::*;

use crate::strutil::{chars_to_string, dec_digits, u32_to_string};

verus! {

/// Standard header data for exam documents: school information on the
/// left, exam information on the right.
#[derive(Debug, Clone)]
pub struct StandardHeaderTemplate {
    pub school_name: String,
    pub exam_code: String,
    pub is_official: bool,
    /// Calculated during export.
    pub total_pages: u32,
    pub exam_name: String,
    pub academic_year: String,
    pub subject: String,
    pub grade: String,
    pub duration_minutes: u32,
    pub include_distribution_note: bool,
}

/// The number of pages estimated for a question count: about 28 questions
/// per page, at least one page, capped at the 32-bit maximum.
pub open spec fn spec_pages(n: nat) -> nat {
    let p = (n + 27) / 28;
    if p == 0 {
        1
    } else if p > 0xFFFF_FFFF {
        0xFFFF_FFFF
    } else {
        p
    }
}

/// The page count, zero-padded to at least two digits.
pub open spec fn spec_page_count(pages: u32) -> Seq<char> {
    if pages < 10 {
        seq!['0'] + dec_digits(pages as nat)
    } else {
        dec_digits(pages as nat)
    }
}

impl StandardHeaderTemplate {
    /// A new header with the given identification, marked official, with
    /// one page and the distribution note until export fills them in.
    pub fn new(
        school_name: String,
        exam_code: String,
        exam_name: String,
        academic_year: String,
        subject: String,
        grade: String,
        duration_minutes: u32,
    ) -> (r: Self)
        ensures
            r.school_name == school_name,
            r.exam_code == exam_code,
            r.is_official,
            r.total_pages == 1,
            r.exam_name == exam_name,
            r.academic_year == academic_year,
            r.subject == subject,
            r.grade == grade,
            r.duration_minutes == duration_minutes,
            r.include_distribution_note,
    {
        Self {
            school_name,
            exam_code,
            is_official: true,
            total_pages: 1,
            exam_name,
            academic_year,
            subject,
            grade,
            duration_minutes,
            include_distribution_note: true,
        }
    }

    /// Estimate the number of pages from the question count.
    pub fn estimate_pages(question_count: usize) -> (r: u32)
        ensures
            r as nat == spec_pages(question_count as nat),
    {
        let q = question_count / 28;
        let rem = question_count % 28;
        let mut pages: u64 = q as u64;
        if rem > 0 {
            pages = pages + 1;
        }
        proof {
            assert((question_count as nat + 27) / 28 == pages as nat) by (nonlinear_arith)
                requires
                    q == question_count / 28,
                    rem == question_count % 28,
                    pages == q as u64 + (if rem > 0 {
                        1u64
                    } else {
                        0u64
                    }),
            ;
        }
        if pages == 0 {
            1
        } else if pages > 0xFFFF_FFFF {
            0xFFFF_FFFF
        } else {
            pages as u32
        }
    }

    /// Format the page count as at least two digits.
    pub fn format_page_count(pages: u32) -> (r: String)
        ensures
            r@ == spec_page_count(pages),
    {
        if pages < 10 {
            let d = ((48 + pages % 10) as u8) as char;
            let mut v: Vec<char> = Vec::new();
            v.push('0');
            v.push(d);
            proof {
                assert(pages % 10 == pages as nat);
                assert(v@ =~= seq!['0'] + dec_digits(pages as nat));
            }
            chars_to_string(&v)
        } else {
            u32_to_string(pages)
        }
    }
}

} // verus!
