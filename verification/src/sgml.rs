//! What an SGML submission was parsed into.
use vstd::prelude::*;

verus! {

/// The kinds of events in the header of a submission.
#[derive(Debug, Clone, Copy, PartialEq, Eq, Structural)]
pub enum SubmissionEventType {
    KeyValue,
    SectionStart,
    SectionEnd,
}

/// One event of a submission's header. `depth` counts the sections around it.
#[derive(Debug, Clone)]
pub struct SubmissionEvent {
    pub event_type: SubmissionEventType,
    pub key: Vec<u8>,
    pub value: Vec<u8>,
    pub depth: i32,
}

/// The header of a submission.
#[derive(Debug, Clone)]
pub struct ParsedSubmissionMetadata {
    pub events: Vec<SubmissionEvent>,
}

/// One document of a submission, as it stands in the SGML.
#[derive(Debug, Clone)]
pub struct SgmlDocument {
    pub doc_type: Vec<u8>,
    pub sequence: Vec<u8>,
    pub filename: Vec<u8>,
    pub description: Vec<u8>,
    pub content: Vec<u8>,
}

/// The documents of a submission, and what the parser counted.
#[derive(Debug, Clone)]
pub struct ParsedSgml {
    pub documents: Vec<SgmlDocument>,
    pub doc_count: usize,
    pub uuencoded_count: usize,
}

} // verus!
