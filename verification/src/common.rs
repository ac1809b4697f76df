//! Filings as they are announced.
use vstd::prelude::*;

verus! {

/// Where a filing was seen.
#[derive(Debug, Clone, Copy, PartialEq, Eq, Structural)]
pub enum SubmissionSource {
    Rss,
    Efts,
}

/// A moment: seconds since 1970 in universal time, and nanoseconds.
#[derive(Debug, Clone, Copy, PartialEq, Eq, Structural)]
pub struct Timestamp {
    pub seconds: i64,
    pub nanos: u32,
}

/// A single SEC filing.
#[derive(Debug, Clone)]
pub struct Submission {
    pub accession: u64,
    pub submission_type: String,
    pub ciks: Vec<u64>,
    pub filing_date: String,
    pub size_bytes: Option<u64>,
    pub source: SubmissionSource,
    pub detected_time: Timestamp,
}

pub struct SubmissionModel {
    pub accession: u64,
    pub submission_type: Seq<char>,
    pub ciks: Seq<u64>,
    pub filing_date: Seq<char>,
    pub size_bytes: Option<u64>,
    pub source: SubmissionSource,
    pub detected_time: Timestamp,
}

impl View for Submission {
    type V = SubmissionModel;

    open spec fn view(&self) -> SubmissionModel {
        SubmissionModel {
            accession: self.accession,
            submission_type: self.submission_type@,
            ciks: self.ciks@,
            filing_date: self.filing_date@,
            size_bytes: self.size_bytes,
            source: self.source,
            detected_time: self.detected_time,
        }
    }
}

pub open spec fn submission_models(s: Seq<Submission>) -> Seq<SubmissionModel> {
    s.map_values(|x: Submission| x@)
}

} // verus!
