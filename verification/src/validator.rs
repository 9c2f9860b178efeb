//! Answer validation: a question's correct option is marked only by run
//! styling (underline or pure red) on the option label, and each question
//! must carry exactly one marked label.
use vstd::prelude::*;

verus! {

/// Styling facts observed on one run that composes an option label.
#[derive(Debug, Clone)]
pub struct LabelRunStyle {
    pub underline: bool,
    /// Raw color value from the run's color attribute, e.g. "FF0000".
    pub color: Option<String>,
}

/// The six characters of pure red, compared ignoring ASCII case.
pub open spec fn is_red_hex(s: Seq<char>) -> bool {
    &&& s.len() == 6
    &&& (s[0] == 'F' || s[0] == 'f')
    &&& (s[1] == 'F' || s[1] == 'f')
    &&& s[2] == '0'
    &&& s[3] == '0'
    &&& s[4] == '0'
    &&& s[5] == '0'
}

/// A run marks its label when it is underlined or colored pure red.
pub open spec fn spec_is_marked(r: LabelRunStyle) -> bool {
    r.underline || match r.color {
        Some(c) => is_red_hex(c@),
        None => false,
    }
}

impl LabelRunStyle {
    /// Whether this run contributes to marking its label as correct.
    pub fn is_marked(&self) -> (res: bool)
        ensures
            res == spec_is_marked(*self),
    {
        if self.underline {
            return true;
        }
        match &self.color {
            Some(c) => {
                let s = c.as_str();
                if s.unicode_len() != 6 {
                    return false;
                }
                let c0 = s.get_char(0);
                let c1 = s.get_char(1);
                (c0 == 'F' || c0 == 'f') && (c1 == 'F' || c1 == 'f') && s.get_char(2) == '0'
                    && s.get_char(3) == '0' && s.get_char(4) == '0' && s.get_char(5) == '0'
            },
            None => false,
        }
    }
}

/// One option's label together with the runs that compose the label text.
#[derive(Debug, Clone)]
pub struct LabeledOptionRuns {
    /// Logical label for the option, e.g. "A", with any leading '#' stripped.
    pub label: String,
    /// Runs that belong only to the label text, never to the option body.
    pub runs: Vec<LabelRunStyle>,
}

/// A label is marked when any of its runs is marked.
pub open spec fn spec_label_marked(runs: Seq<LabelRunStyle>) -> bool {
    exists|i: int| 0 <= i < runs.len() && spec_is_marked(#[trigger] runs[i])
}

/// How many of the given options carry a marked label.
pub open spec fn marked_count(opts: Seq<LabeledOptionRuns>) -> nat
    decreases opts.len(),
{
    if opts.len() == 0 {
        0
    } else {
        marked_count(opts.drop_last()) + if spec_label_marked(opts.last().runs@) {
            1nat
        } else {
            0nat
        }
    }
}

/// Validation error codes.
#[derive(Debug, Clone, Copy, PartialEq, Eq, Structural)]
pub enum ValidationErrorCode {
    /// No option in the question has a correct-marked label.
    E020CorrectMarkMissing,
    /// More than one option in the question has a correct-marked label.
    E021CorrectMarkMultiple,
}

impl ValidationErrorCode {
    /// Stable string representation for logging and the caller's interface.
    pub fn as_str(&self) -> (res: &'static str)
        ensures
            *self == ValidationErrorCode::E020CorrectMarkMissing ==> res@
                == "E020_CORRECT_MARK_MISSING"@,
            *self == ValidationErrorCode::E021CorrectMarkMultiple ==> res@
                == "E021_CORRECT_MARK_MULTIPLE"@,
    {
        match self {
            ValidationErrorCode::E020CorrectMarkMissing => "E020_CORRECT_MARK_MISSING",
            ValidationErrorCode::E021CorrectMarkMultiple => "E021_CORRECT_MARK_MULTIPLE",
        }
    }
}

/// A validation error associated with one question.
#[derive(Debug, Clone, Copy, PartialEq, Eq, Structural)]
pub struct ValidationError {
    pub code: ValidationErrorCode,
    /// Question number in the parsed document.
    pub question_number: u32,
}

/// Whether a label, described by its runs, is marked as the correct answer.
pub fn is_label_marked_correct(runs: &[LabelRunStyle]) -> (res: bool)
    ensures
        res == spec_label_marked(runs@),
{
    let mut i: usize = 0;
    while i < runs.len()
        invariant
            0 <= i <= runs@.len(),
            forall|k: int| 0 <= k < i ==> !spec_is_marked(#[trigger] runs@[k]),
        decreases runs@.len() - i,
    {
        if runs[i].is_marked() {
            return true;
        }
        i = i + 1;
    }
    false
}

/// Detect the single marked label among a question's options.
///
/// Returns the marked label when exactly one option is marked, the
/// missing-mark error when none is, and the multiple-mark error when two or
/// more are; the error always carries the question number.
pub fn detect_correct_label_for_question(
    question_number: u32,
    options: &[LabeledOptionRuns],
) -> (res: Result<String, ValidationError>)
    ensures
        match res {
            Ok(l) => {
                &&& marked_count(options@) == 1
                &&& exists|i: int|
                    0 <= i < options@.len() && spec_label_marked(
                        (#[trigger] options@[i]).runs@,
                    ) && l@ == options@[i].label@
            },
            Err(e) => {
                &&& e.question_number == question_number
                &&& (e.code == ValidationErrorCode::E020CorrectMarkMissing <==> marked_count(
                    options@,
                ) == 0)
                &&& (e.code == ValidationErrorCode::E021CorrectMarkMultiple <==> marked_count(
                    options@,
                ) >= 2)
            },
        },
{
    let mut marked_labels: Vec<String> = Vec::new();
    let ghost mut idxs: Seq<int> = Seq::empty();
    let mut i: usize = 0;
    while i < options.len()
        invariant
            0 <= i <= options@.len(),
            marked_labels@.len() == marked_count(options@.take(i as int)),
            idxs.len() == marked_labels@.len(),
            forall|k: int|
                0 <= k < idxs.len() ==> 0 <= #[trigger] idxs[k] < i && spec_label_marked(
                    options@[idxs[k]].runs@,
                ) && marked_labels@[k]@ == options@[idxs[k]].label@,
        decreases options@.len() - i,
    {
        proof {
            assert(options@.take(i + 1).drop_last() =~= options@.take(i as int));
            assert(options@.take(i + 1).last() == options@[i as int]);
        }
        if is_label_marked_correct(options[i].runs.as_slice()) {
            let lbl = options[i].label.clone();
            assert(lbl@ == options@[i as int].label@);
            marked_labels.push(lbl);
            proof {
                idxs = idxs.push(i as int);
            }
        }
        i = i + 1;
    }
    proof {
        assert(options@.take(options@.len() as int) =~= options@);
    }
    if marked_labels.len() == 0 {
        Err(ValidationError {
            code: ValidationErrorCode::E020CorrectMarkMissing,
            question_number,
        })
    } else if marked_labels.len() == 1 {
        let l = marked_labels.pop().unwrap();
        proof {
            let j0 = idxs[0];
            assert(0 <= j0 < options@.len() && spec_label_marked((#[trigger] options@[j0]).runs@)
                && l@ == options@[j0].label@);
        }
        Ok(l)
    } else {
        Err(ValidationError {
            code: ValidationErrorCode::E021CorrectMarkMultiple,
            question_number,
        })
    }
}

} // verus!
