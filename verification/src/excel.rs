//! Spreadsheet answer key: one sheet per exam variant with four columns -
//! display number, new correct answer, original number, original answer -
//! assembled in memory through trusted spreadsheet wrappers that record
//! every write in a cell model, so the workbook contents are fixed
//! exactly.
use vstd::prelude::*;

use crate::mixer::MixedExam;

verus! {

/// Errors while assembling the answer-key workbook.
#[derive(Debug, Clone, Copy, PartialEq, Eq, Structural)]
pub enum ExcelError {
    /// A workbook operation failed.
    Workbook,
}

/// The violet background of the header row.
pub const HEADER_BG_COLOR: u32 = 0x4F46E5;

#[verifier::external_type_specification]
#[verifier::external_body]
pub struct ExWorkbook(rust_xlsxwriter::Workbook);

#[verifier::external_type_specification]
#[verifier::external_body]
pub struct ExWorksheet(rust_xlsxwriter::Worksheet);

/// The modeled value of one cell: a text or a number.
#[verifier::ext_equal]
pub enum CellValue {
    Text(Seq<char>),
    Number(u32),
}

/// What a worksheet holds: its written cells by (row, column).
pub uninterp spec fn ws_cells(ws: rust_xlsxwriter::Worksheet) -> Map<(u32, u16), CellValue>;

/// The worksheet's name.
pub uninterp spec fn ws_name(ws: rust_xlsxwriter::Worksheet) -> Seq<char>;

/// What a workbook holds: its sheets in order, each a name with its cells.
pub uninterp spec fn wb_sheets(wb: rust_xlsxwriter::Workbook) -> Seq<(Seq<char>, Map<(u32, u16),
    CellValue,
>)>;

/// Relies on rust_xlsxwriter::Workbook::new: a fresh workbook holds no
/// sheets.
#[verifier::external_body]
fn xlsx_workbook_new() -> (r: rust_xlsxwriter::Workbook)
    ensures
        wb_sheets(r) == Seq::<(Seq<char>, Map<(u32, u16), CellValue>)>::empty(),
{
    rust_xlsxwriter::Workbook::new()
}

/// Relies on rust_xlsxwriter::Worksheet::new: a fresh worksheet has no
/// cells and an empty name.
#[verifier::external_body]
fn xlsx_worksheet_new() -> (r: rust_xlsxwriter::Worksheet)
    ensures
        ws_cells(r).dom() == Set::<(u32, u16)>::empty(),
        ws_name(r).len() == 0,
{
    rust_xlsxwriter::Worksheet::new()
}

/// Relies on rust_xlsxwriter::Worksheet::set_name: on success the sheet
/// carries the given name; the cells are untouched.
#[verifier::external_body]
fn xlsx_set_name(ws: &mut rust_xlsxwriter::Worksheet, name: &str) -> (r: Result<(), ExcelError>)
    ensures
        r is Ok ==> ws_name(*final(ws)) == name@ && ws_cells(*final(ws)) == ws_cells(*old(ws)),
{
    match ws.set_name(name) {
        Ok(_) => Ok(()),
        Err(_) => Err(ExcelError::Workbook),
    }
}

/// Relies on rust_xlsxwriter::Worksheet::write_string: on success a
/// nonempty text fills the cell, while an empty unformatted string is
/// accepted but ignored, leaving the sheet untouched; the name is
/// untouched either way.
#[verifier::external_body]
fn xlsx_write_string(
    ws: &mut rust_xlsxwriter::Worksheet,
    row: u32,
    col: u16,
    s: &str,
) -> (r: Result<(), ExcelError>)
    ensures
        r is Ok && s@.len() > 0 ==> ws_cells(*final(ws)) == ws_cells(*old(ws)).insert(
            (row, col),
            CellValue::Text(s@),
        ) && ws_name(*final(ws)) == ws_name(*old(ws)),
        r is Ok && s@.len() == 0 ==> ws_cells(*final(ws)) == ws_cells(*old(ws)) && ws_name(
            *final(ws),
        ) == ws_name(*old(ws)),
{
    match ws.write_string(row, col, s) {
        Ok(_) => Ok(()),
        Err(_) => Err(ExcelError::Workbook),
    }
}

/// Relies on rust_xlsxwriter::Worksheet::write_string_with_format, with a
/// bold format over the given background color built by Format::new,
/// Format::set_bold and Format::set_background_color: on success the cell
/// holds the text (the format is not modeled; a formatted write of an
/// empty string stores a blank formatted cell, which the model reads as
/// empty text); the name is untouched.
#[verifier::external_body]
fn xlsx_write_string_bold_bg(
    ws: &mut rust_xlsxwriter::Worksheet,
    row: u32,
    col: u16,
    s: &str,
    color: u32,
) -> (r: Result<(), ExcelError>)
    ensures
        r is Ok ==> ws_cells(*final(ws)) == ws_cells(*old(ws)).insert(
            (row, col),
            CellValue::Text(s@),
        ) && ws_name(*final(ws)) == ws_name(*old(ws)),
{
    let format = rust_xlsxwriter::Format::new().set_bold().set_background_color(
        rust_xlsxwriter::Color::RGB(color),
    );
    match ws.write_string_with_format(row, col, s, &format) {
        Ok(_) => Ok(()),
        Err(_) => Err(ExcelError::Workbook),
    }
}

/// Relies on rust_xlsxwriter::Worksheet::write_number: on success the
/// cell holds the number (a 32-bit integer converts exactly); the name is
/// untouched.
#[verifier::external_body]
fn xlsx_write_number_u32(
    ws: &mut rust_xlsxwriter::Worksheet,
    row: u32,
    col: u16,
    n: u32,
) -> (r: Result<(), ExcelError>)
    ensures
        r is Ok ==> ws_cells(*final(ws)) == ws_cells(*old(ws)).insert(
            (row, col),
            CellValue::Number(n),
        ) && ws_name(*final(ws)) == ws_name(*old(ws)),
{
    match ws.write_number(row, col, n) {
        Ok(_) => Ok(()),
        Err(_) => Err(ExcelError::Workbook),
    }
}

/// Relies on rust_xlsxwriter::Worksheet::set_column_width: layout only,
/// the cells and the name are untouched.
#[verifier::external_body]
fn xlsx_set_column_width(
    ws: &mut rust_xlsxwriter::Worksheet,
    col: u16,
    width: u32,
) -> (r: Result<(), ExcelError>)
    ensures
        ws_cells(*final(ws)) == ws_cells(*old(ws)),
        ws_name(*final(ws)) == ws_name(*old(ws)),
{
    match ws.set_column_width(col, width) {
        Ok(_) => Ok(()),
        Err(_) => Err(ExcelError::Workbook),
    }
}

/// Relies on rust_xlsxwriter::Workbook::push_worksheet: a sheet that
/// already carries a name is appended as it stands (an unnamed one would
/// be renamed, so nothing is claimed of that case).
#[verifier::external_body]
fn xlsx_push_worksheet(wb: &mut rust_xlsxwriter::Workbook, ws: rust_xlsxwriter::Worksheet)
    ensures
        ws_name(ws).len() > 0 ==> wb_sheets(*final(wb)) == wb_sheets(*old(wb)).push(
            (ws_name(ws), ws_cells(ws)),
        ),
{
    wb.push_worksheet(ws);
}

/// Relies on rust_xlsxwriter::Workbook::save_to_buffer: the whole
/// workbook as spreadsheet bytes.  The bytes embed a creation timestamp
/// read from the clock, so nothing is stated of them.
#[verifier::external_body]
fn xlsx_save_to_buffer(wb: &mut rust_xlsxwriter::Workbook) -> (r: Result<Vec<u8>, ExcelError>) {
    match wb.save_to_buffer() {
        Ok(b) => Ok(b),
        Err(_) => Err(ExcelError::Workbook),
    }
}

/// The name of one variant's sheet.
pub open spec fn spec_sheet_name(e: MixedExam) -> Seq<char> {
    "Đề "@ + e.exam_code@
}

/// The header row of every sheet.
pub open spec fn spec_header_cells() -> Map<(u32, u16), CellValue> {
    Map::<(u32, u16), CellValue>::empty().insert((0u32, 0u16), CellValue::Text("Câu hỏi"@)).insert(
        (0u32, 1u16),
        CellValue::Text("Đáp án"@),
    ).insert((0u32, 2u16), CellValue::Text("Câu gốc"@)).insert(
        (0u32, 3u16),
        CellValue::Text("Đáp án gốc"@),
    )
}

/// The cells after the rows for questions `j` onward are written: row
/// j+1 holds the display number, the new correct answer, the original
/// number and, where the parallel answer list reaches, the original
/// answer.  An empty answer string writes no cell.
pub open spec fn spec_rows(
    m: Map<(u32, u16), CellValue>,
    e: MixedExam,
    answers: Seq<String>,
    j: int,
) -> Map<(u32, u16), CellValue>
    decreases e.questions@.len() + 1 - j,
{
    if j < 0 || j >= e.questions@.len() {
        m
    } else {
        let q = e.questions@[j];
        let row = (j + 1) as u32;
        let m0 = m.insert((row, 0u16), CellValue::Number(q.display_number));
        let m1 = if q.correct_answer@.len() > 0 {
            m0.insert((row, 1u16), CellValue::Text(q.correct_answer@))
        } else {
            m0
        };
        let m2 = m1.insert((row, 2u16), CellValue::Number(q.original_number));
        let m3 = if 1 <= q.original_number && q.original_number <= answers.len() && answers[
            q.original_number - 1
        ]@.len() > 0 {
            m2.insert((row, 3u16), CellValue::Text(answers[q.original_number - 1]@))
        } else {
            m2
        };
        spec_rows(m3, e, answers, j + 1)
    }
}

/// One variant's whole sheet: the header row, then one row per question.
pub open spec fn spec_sheet_cells(e: MixedExam, answers: Seq<String>) -> Map<(u32, u16),
    CellValue,
> {
    spec_rows(spec_header_cells(), e, answers, 0)
}

/// The sheets of the answer key for the first `i` exams, in order.
pub open spec fn spec_answer_sheets(exams: Seq<MixedExam>, answers: Seq<String>, i: int) -> Seq<(
    Seq<char>,
    Map<(u32, u16), CellValue>,
)>
    decreases i + 1,
{
    if i <= 0 {
        Seq::empty()
    } else {
        spec_answer_sheets(exams, answers, i - 1) + seq![
            (spec_sheet_name(exams[i - 1]), spec_sheet_cells(exams[i - 1], answers)),
        ]
    }
}

/// Build the answer-key workbook: on success it holds exactly one sheet
/// per exam variant, in order, named with the variant's code and holding
/// the header row and one row per question.
pub fn build_answer_workbook(exams: &Vec<MixedExam>, original_answers: &Vec<String>) -> (r: Result<
    rust_xlsxwriter::Workbook,
    ExcelError,
>)
    requires
        forall|i: int|
            0 <= i < exams@.len() ==> (#[trigger] exams@[i]).questions@.len() < 0xFFFF_FFFF,
    ensures
        match r {
            Ok(wb) => wb_sheets(wb) == spec_answer_sheets(exams@, original_answers@, exams@.len() as int),
            Err(_) => true,
        },
{
    let mut wb = xlsx_workbook_new();
    let mut e: usize = 0;
    proof {
        assert(wb_sheets(wb) =~= spec_answer_sheets(exams@, original_answers@, 0));
    }
    while e < exams.len()
        invariant
            e <= exams@.len(),
            forall|i: int|
                0 <= i < exams@.len() ==> (#[trigger] exams@[i]).questions@.len() < 0xFFFF_FFFF,
            wb_sheets(wb) == spec_answer_sheets(exams@, original_answers@, e as int),
        decreases exams@.len() - e,
    {
        let exam = &exams[e];
        let mut ws = xlsx_worksheet_new();
        let mut sheet_name = String::new();
        sheet_name.append("Đề ");
        sheet_name.append(exam.exam_code.as_str());
        match xlsx_set_name(&mut ws, sheet_name.as_str()) {
            Ok(_) => {},
            Err(_) => {
                return Err(ExcelError::Workbook);
            },
        }
        proof {
            assert(ws_name(ws) == spec_sheet_name(exams@[e as int]));
        }
        match xlsx_write_string_bold_bg(&mut ws, 0, 0, "Câu hỏi", HEADER_BG_COLOR) {
            Ok(_) => {},
            Err(_) => {
                return Err(ExcelError::Workbook);
            },
        }
        match xlsx_write_string_bold_bg(&mut ws, 0, 1, "Đáp án", HEADER_BG_COLOR) {
            Ok(_) => {},
            Err(_) => {
                return Err(ExcelError::Workbook);
            },
        }
        match xlsx_write_string_bold_bg(&mut ws, 0, 2, "Câu gốc", HEADER_BG_COLOR) {
            Ok(_) => {},
            Err(_) => {
                return Err(ExcelError::Workbook);
            },
        }
        match xlsx_write_string_bold_bg(&mut ws, 0, 3, "Đáp án gốc", HEADER_BG_COLOR) {
            Ok(_) => {},
            Err(_) => {
                return Err(ExcelError::Workbook);
            },
        }
        proof {
            assert(ws_cells(ws) == spec_header_cells());
        }
        let mut qi: usize = 0;
        while qi < exam.questions.len()
            invariant
                qi <= exam.questions@.len(),
                exam == exams@[e as int],
                e < exams@.len(),
                exam.questions@.len() < 0xFFFF_FFFF,
                ws_name(ws) == spec_sheet_name(exams@[e as int]),
                spec_rows(ws_cells(ws), *exam, original_answers@, qi as int) == spec_sheet_cells(
                    *exam,
                    original_answers@,
                ),
            decreases exam.questions@.len() - qi,
        {
            let q = &exam.questions[qi];
            let row = (qi + 1) as u32;
            let ghost cells0 = ws_cells(ws);
            match xlsx_write_number_u32(&mut ws, row, 0, q.display_number) {
                Ok(_) => {},
                Err(_) => {
                    return Err(ExcelError::Workbook);
                },
            }
            match xlsx_write_string(&mut ws, row, 1, q.correct_answer.as_str()) {
                Ok(_) => {},
                Err(_) => {
                    return Err(ExcelError::Workbook);
                },
            }
            match xlsx_write_number_u32(&mut ws, row, 2, q.original_number) {
                Ok(_) => {},
                Err(_) => {
                    return Err(ExcelError::Workbook);
                },
            }
            if q.original_number >= 1 && (q.original_number as usize) <= original_answers.len() {
                let orig = &original_answers[(q.original_number - 1) as usize];
                match xlsx_write_string(&mut ws, row, 3, orig.as_str()) {
                    Ok(_) => {},
                    Err(_) => {
                        return Err(ExcelError::Workbook);
                    },
                }
            }
            proof {
                assert(spec_rows(cells0, *exam, original_answers@, qi as int) == spec_rows(
                    ws_cells(ws),
                    *exam,
                    original_answers@,
                    qi + 1,
                ));
            }
            qi = qi + 1;
        }
        proof {
            assert(spec_rows(ws_cells(ws), *exam, original_answers@, exam.questions@.len() as int)
                == ws_cells(ws));
            assert(ws_cells(ws) == spec_sheet_cells(*exam, original_answers@));
        }
        let mut col: u16 = 0;
        while col < 4
            invariant
                ws_name(ws) == spec_sheet_name(exams@[e as int]),
                e < exams@.len(),
                ws_cells(ws) == spec_sheet_cells(exams@[e as int], original_answers@),
            decreases 4 - col,
        {
            match xlsx_set_column_width(&mut ws, col, 12) {
                Ok(_) => {},
                Err(_) => {
                    return Err(ExcelError::Workbook);
                },
            }
            col = col + 1;
        }
        proof {
            reveal_strlit("Đề ");
            assert(ws_name(ws).len() > 0);
        }
        xlsx_push_worksheet(&mut wb, ws);
        proof {
            assert(wb_sheets(wb) =~= spec_answer_sheets(exams@, original_answers@, e + 1));
        }
        e = e + 1;
    }
    Ok(wb)
}

/// Assemble the answer key and return the spreadsheet bytes.  The
/// workbook's contents are fixed exactly by `build_answer_workbook`; the
/// final bytes embed a clock-dependent timestamp, so only the assembly is
/// specified.
pub fn write_answer_key(exams: &Vec<MixedExam>, original_answers: &Vec<String>) -> (r: Result<
    Vec<u8>,
    ExcelError,
>)
    requires
        forall|i: int|
            0 <= i < exams@.len() ==> (#[trigger] exams@[i]).questions@.len() < 0xFFFF_FFFF,
{
    let mut wb = match build_answer_workbook(exams, original_answers) {
        Ok(wb) => wb,
        Err(e) => {
            return Err(e);
        },
    };
    xlsx_save_to_buffer(&mut wb)
}

} // verus!
