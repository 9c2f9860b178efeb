//! Plain data carried across the application boundary: the analysis
//! request and its response.  The shell serializes copies of these; the
//! library only states their shape.
use vstd::prelude::*;

verus! {

/// A request to analyze one input file within a job workspace.
#[derive(Debug, Clone)]
pub struct AnalyzeDocxPayload {
    pub job_id: String,
    pub source_path: String,
}

/// One validation failure reported to the caller.
#[derive(Debug, Clone)]
pub struct AnalyzeDocxError {
    pub code: String,
    pub question_number: u32,
}

/// The outcome of an analysis: ok with no errors, or the complete list of
/// per-question validation failures.
#[derive(Debug, Clone)]
pub struct AnalyzeDocxResponse {
    pub ok: bool,
    pub job_id: String,
    pub errors: Option<Vec<AnalyzeDocxError>>,
}

} // verus!
