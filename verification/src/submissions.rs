//! The files of the archive of all submissions: one or more per company, with its filings as
//! arrays, one per field.
use vstd::prelude::*;

use crate::json::{
    as_array, items, member, object_get, value_models, JsonModel, JsonValue,
};
use crate::numeral::{parse_unsigned, read_u64};
use crate::text::{
    chars_of, find, find_in, has_prefix, head, head_of, strip_prefix, without_prefix,
};

verus! {

/// Why a file cannot be used.
#[derive(Debug)]
pub enum SubmissionsError {
    /// The name does not begin with `CIK`.
    NotCikFile,
    /// What stands behind `CIK` is no number.
    InvalidCik,
    InvalidJson(serde_json::Error),
    /// The filings are not where they belong.
    MissingRecent,
    /// There is no array of the given name.
    MissingField(String),
    /// An array is shorter than that of the accession numbers.
    MismatchedLengths,
}

pub enum ErrorModel {
    NotCikFile,
    InvalidCik,
    InvalidJson,
    MissingRecent,
    MissingField(Seq<char>),
    MismatchedLengths,
}

impl View for SubmissionsError {
    type V = ErrorModel;

    open spec fn view(&self) -> ErrorModel {
        match self {
            SubmissionsError::NotCikFile => ErrorModel::NotCikFile,
            SubmissionsError::InvalidCik => ErrorModel::InvalidCik,
            SubmissionsError::InvalidJson(_) => ErrorModel::InvalidJson,
            SubmissionsError::MissingRecent => ErrorModel::MissingRecent,
            SubmissionsError::MissingField(f) => ErrorModel::MissingField(f@),
            SubmissionsError::MismatchedLengths => ErrorModel::MismatchedLengths,
        }
    }
}

/// A count that stops at what a machine word holds.
pub open spec fn capped(n: int) -> nat {
    if n <= usize::MAX {
        n as nat
    } else {
        usize::MAX as nat
    }
}

/// The sum, or the largest machine word where it is larger.
pub fn add_capped(a: usize, b: usize) -> (n: usize)
    ensures
        n == capped(a + b),
{
    if a > usize::MAX - b {
        usize::MAX
    } else {
        a + b
    }
}

// ---------------------------------------------------------------------------
// Names
// ---------------------------------------------------------------------------

/// The company that a file name gives: the number behind `CIK`, up to a hyphen or a dot.
pub open spec fn filename_cik(filename: Seq<char>) -> Result<nat, ErrorModel> {
    match strip_prefix(head(head(filename, '.'), '-'), "CIK"@) {
        None => Err(ErrorModel::NotCikFile),
        Some(digits) => match parse_unsigned(digits, u64::MAX as nat) {
            Some(n) => Ok(n),
            None => Err(ErrorModel::InvalidCik),
        },
    }
}

/// Whether a file name is that of a company.
pub open spec fn is_cik_name(filename: Seq<char>) -> bool {
    "CIK"@.is_prefix_of(filename)
}

/// The company that a file name gives.
pub fn cik_from_filename(filename: &str) -> (r: Result<u64, SubmissionsError>)
    ensures
        match r {
            Ok(n) => filename_cik(filename@) == Ok::<nat, ErrorModel>(n as nat),
            Err(e) => filename_cik(filename@) == Err::<nat, ErrorModel>(e@),
        },
{
    let chars = chars_of(filename);
    match without_prefix(head_of(head_of(&chars, '.'), '-'), &chars_of("CIK")) {
        None => Err(SubmissionsError::NotCikFile),
        Some(digits) => match read_u64(digits) {
            Some(n) => Ok(n),
            None => Err(SubmissionsError::InvalidCik),
        },
    }
}

/// Whether a file name is that of a company.
pub fn is_cik_filename(filename: &str) -> (r: bool)
    ensures
        r == is_cik_name(filename@),
{
    has_prefix(&chars_of(filename), &chars_of("CIK"))
}

// ---------------------------------------------------------------------------
// Filings
// ---------------------------------------------------------------------------

/// Where a file keeps its filings: a file of older ones at the top, the main file of a company
/// under `filings` and `recent`.
pub open spec fn filings_of(filename: Seq<char>, data: JsonModel) -> Result<JsonModel, ErrorModel> {
    if find(filename, "submissions"@) is Some {
        Ok(data)
    } else {
        match member(data, "filings"@) {
            Some(filings) => match member(filings, "recent"@) {
                Some(recent) => Ok(recent),
                None => Err(ErrorModel::MissingRecent),
            },
            None => Err(ErrorModel::MissingRecent),
        }
    }
}

/// The values of a field.
pub open spec fn field_values(filings: JsonModel, field: Seq<char>) -> Result<
    Seq<JsonModel>,
    ErrorModel,
> {
    match member(filings, field) {
        Some(v) => match items(v) {
            Some(values) => Ok(values),
            None => Err(ErrorModel::MissingField(field)),
        },
        None => Err(ErrorModel::MissingField(field)),
    }
}

/// Where a file keeps its filings.
pub fn filings_data<'a>(filename: &str, data: &'a JsonValue) -> (r: Result<
    &'a JsonValue,
    SubmissionsError,
>)
    ensures
        match r {
            Ok(v) => filings_of(filename@, data.model()) == Ok::<JsonModel, ErrorModel>(v.model()),
            Err(e) => filings_of(filename@, data.model()) == Err::<JsonModel, ErrorModel>(e@),
        },
{
    if find_in(&chars_of(filename), &chars_of("submissions")).is_some() {
        return Ok(data);
    }
    match object_get(data, "filings") {
        Some(filings) => match object_get(filings, "recent") {
            Some(recent) => Ok(recent),
            None => Err(SubmissionsError::MissingRecent),
        },
        None => Err(SubmissionsError::MissingRecent),
    }
}

/// The values of a field.
pub fn field_array<'a>(filings: &'a JsonValue, field: &str) -> (r: Result<
    &'a Vec<JsonValue>,
    SubmissionsError,
>)
    ensures
        match r {
            Ok(v) => field_values(filings.model(), field@) == Ok::<Seq<JsonModel>, ErrorModel>(
                value_models(v@),
            ),
            Err(e) => field_values(filings.model(), field@) == Err::<Seq<JsonModel>, ErrorModel>(
                e@,
            ),
        },
{
    match object_get(filings, field) {
        Some(v) => match as_array(v) {
            Some(values) => Ok(values),
            None => Err(SubmissionsError::MissingField(field.to_owned())),
        },
        None => Err(SubmissionsError::MissingField(field.to_owned())),
    }
}

} // verus!
