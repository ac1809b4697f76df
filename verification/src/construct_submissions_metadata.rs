//! The filings of all companies as rows with chosen columns.
use vstd::hash_set::StringHashSet;
use vstd::prelude::*;

use crate::collections::turned_round;
use crate::json::{
    json_decoded, metadata_value_bool, metadata_value_u64, parquet_value, parse_json, value_bool,
    value_models, value_text, value_u64, JsonModel, JsonValue,
};
use crate::submissions::{
    add_capped, capped, cik_from_filename, field_array, field_values, filename_cik, filings_data,
    filings_of, is_cik_filename, is_cik_name, ErrorModel, SubmissionsError,
};
use crate::text::{same_str, texts};

verus! {

/// The columns that are written unless others are asked for.
pub const DEFAULT_COLUMNS: [&'static str; 16] = [
    "accessionNumber",
    "filingDate",
    "reportDate",
    "acceptanceDateTime",
    "act",
    "form",
    "fileNumber",
    "filmNumber",
    "items",
    "core_type",
    "size",
    "isXBRL",
    "isInlineXBRL",
    "isXBRLNumeric",
    "primaryDocument",
    "primaryDocDescription",
];

/// How many rows make a batch.
pub const BATCH_TARGET_ROWS: usize = 100000;

/// How many files a worker is given at a time.
pub const WORKER_FILE_BATCH_SIZE: usize = 100;

/// What became of the files of an archive.
#[derive(Debug, Clone, Copy, PartialEq, Eq, Structural)]
pub struct ConstructSubmissionsMetadataStats {
    pub files_processed: usize,
    pub files_skipped: usize,
    pub filings_written: usize,
    pub batches_written: usize,
}

// ---------------------------------------------------------------------------
// Columns
// ---------------------------------------------------------------------------

/// What the values of a column are.
#[derive(Debug, Clone, Copy, PartialEq, Eq, Structural)]
pub enum ColumnKind {
    Utf8,
    UInt64,
    Boolean,
}

#[derive(Debug, Clone)]
pub struct ColumnSpec {
    pub name: String,
    pub kind: ColumnKind,
}

/// Why columns or threads cannot be used.
#[derive(Debug)]
pub enum ConfigError {
    NoColumns,
    EmptyColumn,
    /// The company is a column anyway.
    CikColumn,
    DuplicateColumn(String),
    NoThreads,
}

pub enum ConfigErrorModel {
    NoColumns,
    EmptyColumn,
    CikColumn,
    DuplicateColumn(Seq<char>),
    NoThreads,
}

impl View for ConfigError {
    type V = ConfigErrorModel;

    open spec fn view(&self) -> ConfigErrorModel {
        match self {
            ConfigError::NoColumns => ConfigErrorModel::NoColumns,
            ConfigError::EmptyColumn => ConfigErrorModel::EmptyColumn,
            ConfigError::CikColumn => ConfigErrorModel::CikColumn,
            ConfigError::DuplicateColumn(c) => ConfigErrorModel::DuplicateColumn(c@),
            ConfigError::NoThreads => ConfigErrorModel::NoThreads,
        }
    }
}

pub open spec fn kind_of(column: Seq<char>) -> ColumnKind {
    if column == "size"@ {
        ColumnKind::UInt64
    } else if column == "isXBRL"@ || column == "isInlineXBRL"@ || column == "isXBRLNumeric"@ {
        ColumnKind::Boolean
    } else {
        ColumnKind::Utf8
    }
}

/// What the values of a column are.
pub fn column_kind(column: &str) -> (kind: ColumnKind)
    ensures
        kind == kind_of(column@),
{
    if same_str(column, "size") {
        ColumnKind::UInt64
    } else if same_str(column, "isXBRL") || same_str(column, "isInlineXBRL") || same_str(
        column,
        "isXBRLNumeric",
    ) {
        ColumnKind::Boolean
    } else {
        ColumnKind::Utf8
    }
}

pub open spec fn column_models(v: Seq<ColumnSpec>) -> Seq<(Seq<char>, ColumnKind)> {
    v.map_values(|c: ColumnSpec| (c.name@, c.kind))
}

pub open spec fn kinds_of(columns: Seq<Seq<char>>) -> Seq<(Seq<char>, ColumnKind)> {
    columns.map_values(|c: Seq<char>| (c, kind_of(c)))
}

/// What is wrong with the columns from the `i`-th on, or nothing: a column may not be empty, not
/// the company, and not be there twice.
pub open spec fn column_error(columns: Seq<Seq<char>>, i: int) -> Option<ConfigErrorModel>
    decreases columns.len() - i,
{
    if i >= columns.len() {
        None
    } else if columns[i].len() == 0 {
        Some(ConfigErrorModel::EmptyColumn)
    } else if columns[i] == "cik"@ {
        Some(ConfigErrorModel::CikColumn)
    } else if columns.take(i).contains(columns[i]) {
        Some(ConfigErrorModel::DuplicateColumn(columns[i]))
    } else {
        column_error(columns, i + 1)
    }
}

/// The columns that are written: those asked for, or else the usual ones.
pub open spec fn chosen_columns(columns: Option<Seq<Seq<char>>>) -> Result<
    Seq<(Seq<char>, ColumnKind)>,
    ConfigErrorModel,
> {
    let names = match columns {
        Some(c) => c,
        None => Seq::new(16, |i: int| DEFAULT_COLUMNS@[i]@),
    };
    if names.len() == 0 {
        Err(ConfigErrorModel::NoColumns)
    } else {
        match column_error(names, 0) {
            Some(e) => Err(e),
            None => Ok(kinds_of(names)),
        }
    }
}

proof fn lemma_column_error(columns: Seq<Seq<char>>, i: int)
    requires
        0 <= i <= columns.len(),
        column_error(columns, i) is None,
    ensures
        forall|k: int|
            i <= k < columns.len() ==> (#[trigger] columns[k]).len() > 0 && columns[k] != "cik"@
                && !columns.take(k).contains(columns[k]),
    decreases columns.len() - i,
{
    if i < columns.len() {
        lemma_column_error(columns, i + 1);
    }
}

/// The columns that are written have different names, none of them empty and none that of the
/// column that is always there.
pub proof fn law_chosen_columns_are_distinct(columns: Option<Seq<Seq<char>>>)
    ensures
        chosen_columns(columns) matches Ok(chosen) ==> {
            &&& chosen.len() > 0
            &&& forall|k: int|
                0 <= k < chosen.len() ==> (#[trigger] chosen[k]).0.len() > 0 && chosen[k].0
                    != "cik"@ && chosen[k].1 == kind_of(chosen[k].0)
            &&& forall|j: int, k: int|
                0 <= j < k < chosen.len() ==> (#[trigger] chosen[j]).0 != (#[trigger] chosen[k]).0
        },
{
    let names = match columns {
        Some(c) => c,
        None => Seq::new(16, |i: int| DEFAULT_COLUMNS@[i]@),
    };
    if names.len() > 0 && column_error(names, 0) is None {
        lemma_column_error(names, 0);
        let chosen = kinds_of(names);
        assert forall|k: int| 0 <= k < chosen.len() implies (#[trigger] chosen[k]).0.len() > 0
            && chosen[k].0 != "cik"@ && chosen[k].1 == kind_of(chosen[k].0) by {
            assert(chosen[k].0 == names[k]);
        }
        assert forall|j: int, k: int| 0 <= j < k < chosen.len() implies (#[trigger] chosen[j]).0
            != (#[trigger] chosen[k]).0 by {
            assert(chosen[k].0 == names[k]);
            assert(names.take(k)[j] == names[j]);
        }
    }
}

/// The usual columns are accepted.
pub proof fn law_usual_columns_are_accepted()
    ensures
        chosen_columns(None) is Ok,
{
    reveal_strlit("accessionNumber");
    reveal_strlit("filingDate");
    reveal_strlit("reportDate");
    reveal_strlit("acceptanceDateTime");
    reveal_strlit("act");
    reveal_strlit("form");
    reveal_strlit("fileNumber");
    reveal_strlit("filmNumber");
    reveal_strlit("items");
    reveal_strlit("core_type");
    reveal_strlit("size");
    reveal_strlit("isXBRL");
    reveal_strlit("isInlineXBRL");
    reveal_strlit("isXBRLNumeric");
    reveal_strlit("primaryDocument");
    reveal_strlit("primaryDocDescription");
    reveal_strlit("cik");
    let names = Seq::new(16, |i: int| DEFAULT_COLUMNS@[i]@);
    assert(names[0].len() == 15 && names[0][0] == 'a');
    assert(names[1].len() == 10 && names[1][0] == 'f');
    assert(names[2].len() == 10 && names[2][0] == 'r');
    assert(names[3].len() == 18);
    assert(names[4].len() == 3 && names[4][0] == 'a');
    assert(names[5].len() == 4 && names[5][0] == 'f');
    assert(names[6].len() == 10 && names[6][2] == 'l' && names[6][3] == 'e' && names[6][0] == 'f');
    assert(names[7].len() == 10 && names[7][2] == 'l' && names[7][3] == 'm' && names[7][0] == 'f');
    assert(names[1][3] == 'i');
    assert(names[8].len() == 5);
    assert(names[9].len() == 9);
    assert(names[10].len() == 4 && names[10][0] == 's');
    assert(names[11].len() == 6);
    assert(names[12].len() == 12);
    assert(names[13].len() == 13);
    assert(names[14].len() == 15 && names[14][0] == 'p');
    assert(names[15].len() == 21);
    assert("cik"@[0] == 'c');
    assert(forall|j: int, k: int|
        0 <= j < k < 16 ==> #[trigger] names[j] != #[trigger] names[k]);
    lemma_no_column_error(names, 0);
}

proof fn lemma_no_column_error(columns: Seq<Seq<char>>, i: int)
    requires
        0 <= i <= columns.len(),
        forall|k: int|
            0 <= k < columns.len() ==> (#[trigger] columns[k]).len() > 0 && columns[k] != "cik"@,
        forall|j: int, k: int|
            0 <= j < k < columns.len() ==> #[trigger] columns[j] != #[trigger] columns[k],
    ensures
        column_error(columns, i) is None,
    decreases columns.len() - i,
{
    if i < columns.len() {
        lemma_no_column_error(columns, i + 1);
        if columns.take(i).contains(columns[i]) {
            let j = choose|j: int| 0 <= j < i && columns.take(i)[j] == columns[i];
            assert(columns[j] == columns[i]);
        }
    }
}

pub open spec fn opt_texts(v: Option<Vec<String>>) -> Option<Seq<Seq<char>>> {
    match v {
        Some(v) => Some(texts(v@)),
        None => None,
    }
}

fn default_columns() -> (out: Vec<String>)
    ensures
        texts(out@) == Seq::new(16, |i: int| DEFAULT_COLUMNS@[i]@),
{
    let mut out: Vec<String> = Vec::new();
    let mut i: usize = 0;
    while i < 16
        invariant
            i <= 16,
            texts(out@) == Seq::new(i as nat, |j: int| DEFAULT_COLUMNS@[j]@),
        decreases 16 - i,
    {
        let ghost earlier = out@;
        out.push(DEFAULT_COLUMNS[i].to_owned());
        assert(texts(out@) =~= texts(earlier).push(DEFAULT_COLUMNS@[i as int]@));
        assert(texts(out@) =~= Seq::new((i + 1) as nat, |j: int| DEFAULT_COLUMNS@[j]@));
        i += 1;
    }
    out
}

/// The columns that are written.
pub fn resolve_columns(columns: Option<Vec<String>>) -> (r: Result<Vec<ColumnSpec>, ConfigError>)
    ensures
        match r {
            Ok(specs) => chosen_columns(opt_texts(columns)) == Ok::<
                Seq<(Seq<char>, ColumnKind)>,
                ConfigErrorModel,
            >(column_models(specs@)),
            Err(e) => chosen_columns(opt_texts(columns)) == Err::<
                Seq<(Seq<char>, ColumnKind)>,
                ConfigErrorModel,
            >(e@),
        },
{
    let ghost whole = chosen_columns(opt_texts(columns));
    let asked = match columns {
        Some(c) => c,
        None => default_columns(),
    };
    let ghost names = texts(asked@);
    if asked.len() == 0 {
        return Err(ConfigError::NoColumns);
    }
    let mut seen = StringHashSet::new();
    let mut specs: Vec<ColumnSpec> = Vec::new();
    assert(column_models(specs@) =~= kinds_of(names.take(0)));
    let mut i: usize = 0;
    while i < asked.len()
        invariant
            i <= asked@.len(),
            names == texts(asked@),
            whole == chosen_columns(opt_texts(columns)),
            whole == (match column_error(names, 0) {
                Some(e) => Err::<Seq<(Seq<char>, ColumnKind)>, ConfigErrorModel>(e),
                None => Ok::<Seq<(Seq<char>, ColumnKind)>, ConfigErrorModel>(kinds_of(names)),
            }),
            column_error(names, 0) == column_error(names, i as int),
            column_models(specs@) == kinds_of(names.take(i as int)),
            forall|c: Seq<char>| seen@.contains(c) <==> names.take(i as int).contains(c),
        decreases asked@.len() - i,
    {
        let column = &asked[i];
        assert(names[i as int] == column@);
        if column.as_str().is_empty() {
            return Err(ConfigError::EmptyColumn);
        }
        if same_str(column.as_str(), "cik") {
            return Err(ConfigError::CikColumn);
        }
        if seen.contains(column.as_str()) {
            return Err(ConfigError::DuplicateColumn(column.clone()));
        }
        let ghost known = seen@;
        seen.insert(column.clone());
        let ghost earlier = specs@;
        specs.push(ColumnSpec { name: column.clone(), kind: column_kind(column.as_str()) });
        proof {
            assert(names.take(i + 1) =~= names.take(i as int).push(column@));
            assert(column_models(specs@) =~= column_models(earlier).push(
                (column@, kind_of(column@)),
            ));
            assert(kinds_of(names.take(i + 1)) =~= kinds_of(names.take(i as int)).push(
                (column@, kind_of(column@)),
            ));
            assert forall|c: Seq<char>| seen@.contains(c) <==> names.take(i + 1).contains(c) by {
                let before = names.take(i as int);
                let after = names.take(i + 1);
                if before.contains(c) {
                    let j = choose|j: int| 0 <= j < before.len() && before[j] == c;
                    assert(after[j] == c);
                }
                if c == column@ {
                    assert(after[i as int] == c);
                }
                if after.contains(c) && c != column@ {
                    let j = choose|j: int| 0 <= j < after.len() && after[j] == c;
                    assert(before[j] == c);
                }
            }
        }
        i += 1;
    }
    assert(names.take(i as int) =~= names);
    Ok(specs)
}

/// The number of threads: one unless told otherwise, and never none.
pub fn resolve_threads(threads: Option<usize>) -> (r: Result<usize, ConfigError>)
    ensures
        match threads {
            None => r matches Ok(1usize),
            Some(n) => if n == 0 {
                r matches Err(ConfigError::NoThreads)
            } else {
                r matches Ok(m) && m == n
            },
        },
{
    match threads {
        None => Ok(1),
        Some(n) => if n == 0 {
            Err(ConfigError::NoThreads)
        } else {
            Ok(n)
        },
    }
}

/// The names of the columns.
pub fn column_names(columns: &Vec<ColumnSpec>) -> (names: Vec<String>)
    ensures
        texts(names@) == columns@.map_values(|c: ColumnSpec| c.name@),
{
    let ghost all = columns@.map_values(|c: ColumnSpec| c.name@);
    let mut names: Vec<String> = Vec::new();
    assert(texts(names@) =~= all.take(0));
    let mut i: usize = 0;
    while i < columns.len()
        invariant
            i <= columns@.len(),
            all == columns@.map_values(|c: ColumnSpec| c.name@),
            texts(names@) == all.take(i as int),
        decreases columns@.len() - i,
    {
        let ghost earlier = names@;
        names.push(columns[i].name.clone());
        assert(texts(names@) =~= texts(earlier).push(columns@[i as int].name@));
        assert(texts(names@) =~= all.take(i + 1));
        i += 1;
    }
    assert(all.take(i as int) =~= all);
    names
}

// ---------------------------------------------------------------------------
// Rows
// ---------------------------------------------------------------------------

/// The values of a column.
#[derive(Debug)]
pub enum ColumnBuffer {
    Utf8(Vec<String>),
    UInt64(Vec<u64>),
    Boolean(Vec<bool>),
}

pub enum ColumnModel {
    Utf8(Seq<Seq<char>>),
    UInt64(Seq<u64>),
    Boolean(Seq<bool>),
}

impl View for ColumnBuffer {
    type V = ColumnModel;

    open spec fn view(&self) -> ColumnModel {
        match self {
            ColumnBuffer::Utf8(v) => ColumnModel::Utf8(texts(v@)),
            ColumnBuffer::UInt64(v) => ColumnModel::UInt64(v@),
            ColumnBuffer::Boolean(v) => ColumnModel::Boolean(v@),
        }
    }
}

pub open spec fn empty_column(kind: ColumnKind) -> ColumnModel {
    match kind {
        ColumnKind::Utf8 => ColumnModel::Utf8(Seq::empty()),
        ColumnKind::UInt64 => ColumnModel::UInt64(Seq::empty()),
        ColumnKind::Boolean => ColumnModel::Boolean(Seq::empty()),
    }
}

/// A column with the same kind of values, and none of them.
pub open spec fn emptied_column(c: ColumnModel) -> ColumnModel {
    match c {
        ColumnModel::Utf8(_) => ColumnModel::Utf8(Seq::empty()),
        ColumnModel::UInt64(_) => ColumnModel::UInt64(Seq::empty()),
        ColumnModel::Boolean(_) => ColumnModel::Boolean(Seq::empty()),
    }
}

/// A column with one more value, as what its values are.
pub open spec fn with_json(c: ColumnModel, value: JsonModel) -> ColumnModel {
    match c {
        ColumnModel::Utf8(s) => ColumnModel::Utf8(s.push(value_text(value))),
        ColumnModel::UInt64(s) => ColumnModel::UInt64(s.push(value_u64(value) as u64)),
        ColumnModel::Boolean(s) => ColumnModel::Boolean(s.push(value_bool(value))),
    }
}

/// A column with the first `n` of the given values.
pub open spec fn with_jsons(c: ColumnModel, values: Seq<JsonModel>, n: nat) -> ColumnModel
    decreases n,
{
    if n == 0 || n > values.len() {
        c
    } else {
        with_json(with_jsons(c, values, (n - 1) as nat), values[n - 1])
    }
}

pub open spec fn column_len(c: ColumnModel) -> nat {
    match c {
        ColumnModel::Utf8(s) => s.len(),
        ColumnModel::UInt64(s) => s.len(),
        ColumnModel::Boolean(s) => s.len(),
    }
}

impl ColumnBuffer {
    pub fn new(kind: ColumnKind) -> (c: Self)
        ensures
            c@ == empty_column(kind),
    {
        match kind {
            ColumnKind::Utf8 => {
                let v: Vec<String> = Vec::new();
                assert(texts(v@) =~= Seq::<Seq<char>>::empty());
                ColumnBuffer::Utf8(v)
            },
            ColumnKind::UInt64 => ColumnBuffer::UInt64(Vec::new()),
            ColumnKind::Boolean => ColumnBuffer::Boolean(Vec::new()),
        }
    }

    /// The column with one more value.
    pub fn push(self, value: &JsonValue) -> (c: Self)
        ensures
            c@ == with_json(self@, value.model()),
    {
        match self {
            ColumnBuffer::Utf8(mut v) => {
                let ghost earlier = v@;
                v.push(parquet_value(value));
                assert(texts(v@) =~= texts(earlier).push(value_text(value.model())));
                ColumnBuffer::Utf8(v)
            },
            ColumnBuffer::UInt64(mut v) => {
                v.push(metadata_value_u64(value));
                ColumnBuffer::UInt64(v)
            },
            ColumnBuffer::Boolean(mut v) => {
                v.push(metadata_value_bool(value));
                ColumnBuffer::Boolean(v)
            },
        }
    }

    /// What the values of the column are.
    pub fn emptied(&self) -> (c: Self)
        ensures
            c@ == emptied_column(self@),
    {
        match self {
            ColumnBuffer::Utf8(_) => ColumnBuffer::new(ColumnKind::Utf8),
            ColumnBuffer::UInt64(_) => ColumnBuffer::new(ColumnKind::UInt64),
            ColumnBuffer::Boolean(_) => ColumnBuffer::new(ColumnKind::Boolean),
        }
    }
}

/// Rows that wait to be written: the companies, then the columns that were chosen.
#[derive(Debug)]
pub struct SubmissionBatchBuffer {
    pub ciks: Vec<u64>,
    pub columns: Vec<ColumnBuffer>,
    /// From how many files the rows are.
    pub files: usize,
    /// How many bytes these files had.
    pub json_bytes: usize,
}

#[verifier::ext_equal]
pub struct BufferModel {
    pub ciks: Seq<u64>,
    pub columns: Seq<ColumnModel>,
    pub files: nat,
    pub json_bytes: nat,
}

pub open spec fn buffer_columns(v: Seq<ColumnBuffer>) -> Seq<ColumnModel> {
    v.map_values(|c: ColumnBuffer| c@)
}

impl View for SubmissionBatchBuffer {
    type V = BufferModel;

    open spec fn view(&self) -> BufferModel {
        BufferModel {
            ciks: self.ciks@,
            columns: buffer_columns(self.columns@),
            files: self.files as nat,
            json_bytes: self.json_bytes as nat,
        }
    }
}

pub open spec fn empty_buffer(columns: Seq<(Seq<char>, ColumnKind)>) -> BufferModel {
    BufferModel {
        ciks: Seq::empty(),
        columns: columns.map_values(|c: (Seq<char>, ColumnKind)| empty_column(c.1)),
        files: 0,
        json_bytes: 0,
    }
}

pub open spec fn emptied_buffer(b: BufferModel) -> BufferModel {
    BufferModel {
        ciks: Seq::empty(),
        columns: b.columns.map_values(|c: ColumnModel| emptied_column(c)),
        files: 0,
        json_bytes: 0,
    }
}

/// The values of the columns from the `i`-th on.
pub open spec fn column_values_from(
    filings: JsonModel,
    columns: Seq<(Seq<char>, ColumnKind)>,
    i: int,
) -> Result<Seq<Seq<JsonModel>>, ErrorModel>
    decreases columns.len() - i,
{
    if i >= columns.len() {
        Ok(Seq::empty())
    } else {
        match field_values(filings, columns[i].0) {
            Err(e) => Err(e),
            Ok(values) => match column_values_from(filings, columns, i + 1) {
                Err(e) => Err(e),
                Ok(rest) => Ok(seq![values] + rest),
            },
        }
    }
}

pub open spec fn all_reach(columns: Seq<Seq<JsonModel>>, n: nat) -> bool {
    forall|i: int| 0 <= i < columns.len() ==> (#[trigger] columns[i]).len() >= n
}

/// The rows of a file: how many there are, and the values of each column.
pub open spec fn file_rows(
    filename: Seq<char>,
    data: Option<JsonModel>,
    columns: Seq<(Seq<char>, ColumnKind)>,
) -> Result<(nat, nat, Seq<Seq<JsonModel>>), ErrorModel> {
    match filename_cik(filename) {
        Err(e) => Err(e),
        Ok(cik) => match data {
            None => Err(ErrorModel::InvalidJson),
            Some(data) => match filings_of(filename, data) {
                Err(e) => Err(e),
                Ok(filings) => match field_values(filings, "accessionNumber"@) {
                    Err(e) => Err(e),
                    Ok(accessions) => match column_values_from(filings, columns, 0) {
                        Err(e) => Err(e),
                        Ok(values) => if all_reach(values, accessions.len()) {
                            Ok((cik, accessions.len(), values))
                        } else {
                            Err(ErrorModel::MismatchedLengths)
                        },
                    },
                },
            },
        },
    }
}

/// A buffer with the rows of a file.
pub open spec fn with_rows(
    b: BufferModel,
    cik: nat,
    n: nat,
    values: Seq<Seq<JsonModel>>,
    json_bytes: nat,
) -> BufferModel {
    BufferModel {
        ciks: b.ciks + Seq::new(n, |i: int| cik as u64),
        columns: Seq::new(b.columns.len(), |k: int| with_jsons(b.columns[k], values[k], n)),
        files: capped(b.files as int + 1),
        json_bytes: capped(b.json_bytes as int + json_bytes),
    }
}

/// Buffers with the same columns as those that were chosen.
pub open spec fn fits_columns(b: BufferModel, columns: Seq<(Seq<char>, ColumnKind)>) -> bool {
    b.columns.len() == columns.len()
}

/// The values of all columns of the given filings.
fn collect_columns<'a>(filings: &'a JsonValue, columns: &Vec<ColumnSpec>) -> (r: Result<
    Vec<&'a Vec<JsonValue>>,
    SubmissionsError,
>)
    ensures
        match r {
            Ok(v) => column_values_from(filings.model(), column_models(columns@), 0) == Ok::<
                Seq<Seq<JsonModel>>,
                ErrorModel,
            >(v@.map_values(|x: &Vec<JsonValue>| value_models(x@))),
            Err(e) => column_values_from(filings.model(), column_models(columns@), 0) == Err::<
                Seq<Seq<JsonModel>>,
                ErrorModel,
            >(e@),
        },
{
    let ghost f = filings.model();
    let ghost specs = column_models(columns@);
    let ghost whole = column_values_from(f, specs, 0);
    let mut out: Vec<&'a Vec<JsonValue>> = Vec::new();
    let mut i: usize = 0;
    proof {
        if let Ok(rest) = whole {
            assert(out@.map_values(|x: &Vec<JsonValue>| value_models(x@)) + rest =~= rest);
        }
    }
    while i < columns.len()
        invariant
            i <= columns@.len(),
            f == filings.model(),
            specs == column_models(columns@),
            whole == column_values_from(f, specs, 0),
            match column_values_from(f, specs, i as int) {
                Ok(rest) => whole == Ok::<Seq<Seq<JsonModel>>, ErrorModel>(
                    out@.map_values(|x: &Vec<JsonValue>| value_models(x@)) + rest,
                ),
                Err(e) => whole == Err::<Seq<Seq<JsonModel>>, ErrorModel>(e),
            },
        decreases columns@.len() - i,
    {
        assert(specs[i as int].0 == columns@[i as int].name@);
        match field_array(filings, columns[i].name.as_str()) {
            Ok(values) => {
                let ghost earlier = out@;
                out.push(values);
                proof {
                    let before = earlier.map_values(|x: &Vec<JsonValue>| value_models(x@));
                    let after = out@.map_values(|x: &Vec<JsonValue>| value_models(x@));
                    assert(after =~= before.push(value_models(values@)));
                    if let Ok(rest) = column_values_from(f, specs, i + 1) {
                        assert(before + (seq![value_models(values@)] + rest) =~= after + rest);
                    }
                }
            },
            Err(e) => {
                return Err(e);
            },
        }
        i += 1;
    }
    assert(out@.map_values(|x: &Vec<JsonValue>| value_models(x@)) + Seq::<Seq<JsonModel>>::empty()
        =~= out@.map_values(|x: &Vec<JsonValue>| value_models(x@)));
    Ok(out)
}

fn all_long_enough(arrays: &Vec<&Vec<JsonValue>>, rows: usize) -> (r: bool)
    ensures
        r == all_reach(
            arrays@.map_values(|x: &Vec<JsonValue>| value_models(x@)),
            rows as nat,
        ),
{
    let ghost values = arrays@.map_values(|x: &Vec<JsonValue>| value_models(x@));
    let mut i: usize = 0;
    while i < arrays.len()
        invariant
            i <= arrays@.len(),
            values == arrays@.map_values(|x: &Vec<JsonValue>| value_models(x@)),
            forall|k: int| 0 <= k < i ==> (#[trigger] values[k]).len() >= rows,
        decreases arrays@.len() - i,
    {
        assert(values[i as int] == value_models(arrays@[i as int]@));
        if arrays[i].len() < rows {
            return false;
        }
        i += 1;
    }
    true
}

fn push_all(column: ColumnBuffer, values: &Vec<JsonValue>, n: usize) -> (out: ColumnBuffer)
    requires
        n <= values@.len(),
    ensures
        out@ == with_jsons(column@, value_models(values@), n as nat),
{
    let ghost models = value_models(values@);
    let ghost start = column@;
    let mut out = column;
    let mut i: usize = 0;
    while i < n
        invariant
            i <= n <= values@.len(),
            models == value_models(values@),
            out@ == with_jsons(start, models, i as nat),
        decreases n - i,
    {
        assert(models[i as int] == values@[i as int].model());
        out = out.push(&values[i]);
        i += 1;
    }
    out
}

impl SubmissionBatchBuffer {
    pub fn new(columns: &Vec<ColumnSpec>) -> (b: Self)
        ensures
            b@ == empty_buffer(column_models(columns@)),
    {
        let ghost specs = column_models(columns@);
        let mut buffers: Vec<ColumnBuffer> = Vec::new();
        let mut i: usize = 0;
        while i < columns.len()
            invariant
                i <= columns@.len(),
                buffers@.len() == i,
                forall|k: int|
                    0 <= k < i ==> (#[trigger] buffers@[k])@ == empty_column(columns@[k].kind),
            decreases columns@.len() - i,
        {
            buffers.push(ColumnBuffer::new(columns[i].kind));
            i += 1;
        }
        let b = SubmissionBatchBuffer {
            ciks: Vec::new(),
            columns: buffers,
            files: 0,
            json_bytes: 0,
        };
        assert(b@ =~= empty_buffer(specs));
        b
    }

    /// How many rows wait.
    pub fn len(&self) -> (n: usize)
        ensures
            n == self@.ciks.len(),
    {
        self.ciks.len()
    }

    pub fn is_empty(&self) -> (r: bool)
        ensures
            r == (self@.ciks.len() == 0),
    {
        self.ciks.len() == 0
    }

    /// Whether there are enough rows for a batch.
    pub fn is_full(&self) -> (r: bool)
        ensures
            r == (self@.ciks.len() >= BATCH_TARGET_ROWS),
    {
        self.ciks.len() >= BATCH_TARGET_ROWS
    }

    /// Hands out what waits, and begins anew.
    pub fn take(&mut self) -> (b: Self)
        ensures
            b@ == old(self)@,
            final(self)@ == emptied_buffer(old(self)@),
    {
        let mut fresh: Vec<ColumnBuffer> = Vec::new();
        let mut i: usize = 0;
        while i < self.columns.len()
            invariant
                i <= self.columns@.len(),
                self@ == old(self)@,
                fresh@.len() == i,
                forall|k: int|
                    0 <= k < i ==> (#[trigger] fresh@[k])@ == emptied_column(self.columns@[k]@),
            decreases self.columns@.len() - i,
        {
            fresh.push(self.columns[i].emptied());
            i += 1;
        }
        let mut ciks: Vec<u64> = Vec::new();
        std::mem::swap(&mut ciks, &mut self.ciks);
        std::mem::swap(&mut fresh, &mut self.columns);
        let b = SubmissionBatchBuffer {
            ciks,
            columns: fresh,
            files: self.files,
            json_bytes: self.json_bytes,
        };
        self.files = 0;
        self.json_bytes = 0;
        assert(self@ =~= emptied_buffer(old(self)@));
        b
    }

    /// Takes in the rows of a file with the given content, and says how many there are. Of a file
    /// that cannot be used, nothing is taken.
    pub fn append_value(
        &mut self,
        filename: &str,
        data: &JsonValue,
        json_bytes: usize,
        columns: &Vec<ColumnSpec>,
    ) -> (r: Result<usize, SubmissionsError>)
        requires
            fits_columns(old(self)@, column_models(columns@)),
        ensures
            match r {
                Ok(n) => file_rows(
                    filename@,
                    Some(data.model()),
                    column_models(columns@),
                ) matches Ok((cik, rows, values)) && n == rows && final(self)@ == with_rows(
                    old(self)@,
                    cik,
                    rows,
                    values,
                    json_bytes as nat,
                ),
                Err(e) => file_rows(filename@, Some(data.model()), column_models(columns@))
                    == Err::<(nat, nat, Seq<Seq<JsonModel>>), ErrorModel>(e@) && final(self)@
                    == old(self)@,
            },
    {
        let ghost before = self@;
        let cik = match cik_from_filename(filename) {
            Ok(n) => n,
            Err(e) => {
                return Err(e);
            },
        };
        let filings = match filings_data(filename, data) {
            Ok(v) => v,
            Err(e) => {
                return Err(e);
            },
        };
        let rows = match field_array(filings, "accessionNumber") {
            Ok(v) => v.len(),
            Err(e) => {
                return Err(e);
            },
        };
        let arrays = match collect_columns(filings, columns) {
            Ok(v) => v,
            Err(e) => {
                return Err(e);
            },
        };
        let ghost values = arrays@.map_values(|x: &Vec<JsonValue>| value_models(x@));
        proof {
            lemma_column_count(filings.model(), column_models(columns@), 0);
            assert(values.len() == before.columns.len());
        }
        if !all_long_enough(&arrays, rows) {
            return Err(SubmissionsError::MismatchedLengths);
        }
        assert(all_reach(values, rows as nat));
        let mut k: usize = 0;
        while k < rows
            invariant
                k <= rows,
                self@.ciks == before.ciks + Seq::new(k as nat, |j: int| cik),
                self@.columns == before.columns,
                self@.files == before.files,
                self@.json_bytes == before.json_bytes,
            decreases rows - k,
        {
            self.ciks.push(cik);
            assert(self@.ciks =~= before.ciks + Seq::new((k + 1) as nat, |j: int| cik));
            k += 1;
        }
        let mut waiting: Vec<ColumnBuffer> = Vec::new();
        std::mem::swap(&mut waiting, &mut self.columns);
        let mut rest = turned_round(waiting);
        let ghost total = before.columns.len();
        let mut filled: Vec<ColumnBuffer> = Vec::new();
        while rest.len() > 0
            invariant
                rest@.len() + filled@.len() == total == before.columns.len() == arrays@.len(),
                values == arrays@.map_values(|x: &Vec<JsonValue>| value_models(x@)),
                all_reach(values, rows as nat),
                forall|j: int|
                    0 <= j < rest@.len() ==> (#[trigger] rest@[j])@ == before.columns[total - 1
                        - j],
                forall|j: int|
                    0 <= j < filled@.len() ==> (#[trigger] filled@[j])@ == with_jsons(
                        before.columns[j],
                        values[j],
                        rows as nat,
                    ),
            decreases rest@.len(),
        {
            let n = filled.len();
            match rest.pop() {
                Some(column) => {
                    assert(column@ == before.columns[n as int]);
                    assert(values[n as int] == value_models(arrays@[n as int]@));
                    filled.push(push_all(column, arrays[n], rows));
                },
                None => {},
            }
        }
        self.columns = filled;
        self.files = add_capped(self.files, 1);
        self.json_bytes = add_capped(self.json_bytes, json_bytes);
        assert(self@ =~= with_rows(
            before,
            cik as nat,
            rows as nat,
            values,
            json_bytes as nat,
        ));
        Ok(rows)
    }
}

pub proof fn lemma_column_count(filings: JsonModel, columns: Seq<(Seq<char>, ColumnKind)>, i: int)
    requires
        0 <= i <= columns.len(),
    ensures
        column_values_from(filings, columns, i) matches Ok(v) ==> v.len() == columns.len() - i,
    decreases columns.len() - i,
{
    if i < columns.len() {
        lemma_column_count(filings, columns, i + 1);
    }
}

/// Takes in the rows of a file, and says how many there are.
pub fn append_submission_bytes(
    filename: &str,
    bytes: &[u8],
    columns: &Vec<ColumnSpec>,
    buffer: &mut SubmissionBatchBuffer,
) -> (r: Result<usize, SubmissionsError>)
    requires
        fits_columns(old(buffer)@, column_models(columns@)),
    ensures
        match r {
            Ok(n) => file_rows(
                filename@,
                json_decoded(bytes@),
                column_models(columns@),
            ) matches Ok((cik, rows, values)) && n == rows && final(buffer)@ == with_rows(
                old(buffer)@,
                cik,
                rows,
                values,
                bytes@.len(),
            ),
            Err(e) => file_rows(filename@, json_decoded(bytes@), column_models(columns@)) == Err::<
                (nat, nat, Seq<Seq<JsonModel>>),
                ErrorModel,
            >(e@) && final(buffer)@ == old(buffer)@,
        },
{
    match cik_from_filename(filename) {
        Ok(_) => {},
        Err(e) => {
            return Err(e);
        },
    }
    match parse_json(bytes) {
        Ok(data) => buffer.append_value(filename, &data, bytes.len(), columns),
        Err(e) => Err(SubmissionsError::InvalidJson(e)),
    }
}

// ---------------------------------------------------------------------------
// Tables
// ---------------------------------------------------------------------------

/// Named columns, in their order.
pub open spec fn named_columns(v: Seq<(String, ColumnBuffer)>) -> Seq<(Seq<char>, ColumnModel)> {
    v.map_values(|c: (String, ColumnBuffer)| (c.0@, c.1@))
}

/// The columns of a table: that of the companies, and those that were chosen.
pub open spec fn table_of(b: BufferModel, columns: Seq<(Seq<char>, ColumnKind)>) -> Seq<
    (Seq<char>, ColumnModel),
> {
    seq![("cik"@, ColumnModel::UInt64(b.ciks))] + Seq::new(
        columns.len(),
        |k: int| (columns[k].0, b.columns[k]),
    )
}

/// Whether all columns of a table are equally long.
pub open spec fn equally_long(table: Seq<(Seq<char>, ColumnModel)>) -> bool {
    forall|i: int|
        0 <= i < table.len() ==> column_len((#[trigger] table[i]).1) == column_len(table[0].1)
}

impl SubmissionBatchBuffer {
    /// The rows as a table.
    pub fn into_columns(self, columns: &Vec<ColumnSpec>) -> (table: Vec<(String, ColumnBuffer)>)
        requires
            self@.columns.len() == columns@.len(),
        ensures
            named_columns(table@) == table_of(self@, column_models(columns@)),
    {
        let ghost model = self@;
        let ghost chosen = column_models(columns@);
        let ghost whole = table_of(model, chosen);
        let SubmissionBatchBuffer { ciks, columns: mut values, files: _, json_bytes: _ } = self;
        let mut table: Vec<(String, ColumnBuffer)> = Vec::new();
        table.push(("cik".to_owned(), ColumnBuffer::UInt64(ciks)));
        assert(named_columns(table@) =~= whole.take(1));
        let mut k: usize = 0;
        while k < columns.len()
            invariant
                k <= columns@.len(),
                values@.len() == columns@.len(),
                model.columns.len() == columns@.len(),
                chosen == column_models(columns@),
                whole == table_of(model, chosen),
                forall|j: int|
                    k <= j < columns@.len() ==> (#[trigger] values@[j])@ == model.columns[j],
                named_columns(table@) == whole.take(k + 1),
            decreases columns@.len() - k,
        {
            let ghost earlier = table@;
            assert(values@[k as int]@ == model.columns[k as int]);
            let mut column = ColumnBuffer::new(ColumnKind::Utf8);
            std::mem::swap(&mut column, &mut values[k]);
            assert(column@ == model.columns[k as int]);
            table.push((columns[k].name.clone(), column));
            assert(named_columns(table@) =~= named_columns(earlier).push(whole[k + 1]));
            assert(named_columns(table@) =~= whole.take(k + 2));
            k += 1;
        }
        assert(whole.take(k + 1) =~= whole);
        table
    }
}

/// A buffer all of whose columns have a value for every row.
pub open spec fn rectangular(b: BufferModel) -> bool {
    forall|k: int| 0 <= k < b.columns.len() ==> column_len(#[trigger] b.columns[k]) == b.ciks.len()
}

proof fn lemma_with_jsons_len(c: ColumnModel, values: Seq<JsonModel>, n: nat)
    requires
        n <= values.len(),
    ensures
        column_len(with_jsons(c, values, n)) == column_len(c) + n,
    decreases n,
{
    if n > 0 {
        lemma_with_jsons_len(c, values, (n - 1) as nat);
    }
}

/// The columns of a buffer stay equally long, whatever files are taken in.
pub proof fn law_buffers_stay_rectangular(
    b: BufferModel,
    filename: Seq<char>,
    data: Option<JsonModel>,
    columns: Seq<(Seq<char>, ColumnKind)>,
    json_bytes: nat,
)
    requires
        rectangular(b),
        fits_columns(b, columns),
    ensures
        file_rows(filename, data, columns) matches Ok((cik, rows, values)) ==> rectangular(
            with_rows(b, cik, rows, values, json_bytes),
        ) && fits_columns(with_rows(b, cik, rows, values, json_bytes), columns),
        rectangular(emptied_buffer(b)),
        fits_columns(emptied_buffer(b), columns),
{
    if let Ok((cik, rows, values)) = file_rows(filename, data, columns) {
        let filings = filings_of(filename, data->0)->Ok_0;
        lemma_column_count(filings, columns, 0);
        let after = with_rows(b, cik, rows, values, json_bytes);
        assert forall|k: int| 0 <= k < after.columns.len() implies column_len(
            #[trigger] after.columns[k],
        ) == after.ciks.len() by {
            assert(values[k].len() >= rows);
            assert(column_len(b.columns[k]) == b.ciks.len());
            lemma_with_jsons_len(b.columns[k], values[k], rows);
        }
    }
}

/// The columns of the table are equally long where the buffer has a value for every row in each
/// of its columns.
pub proof fn law_tables_are_equally_long(b: BufferModel, columns: Seq<(Seq<char>, ColumnKind)>)
    requires
        rectangular(b),
        fits_columns(b, columns),
    ensures
        equally_long(table_of(b, columns)),
        table_of(b, columns).len() == columns.len() + 1,
{
    let table = table_of(b, columns);
    assert forall|i: int| 0 <= i < table.len() implies column_len((#[trigger] table[i]).1)
        == column_len(table[0].1) by {
        if i > 0 {
            assert(table[i] == (columns[i - 1].0, b.columns[i - 1]));
            assert(column_len(b.columns[i - 1]) == b.ciks.len());
        }
    }
}

/// A new buffer has equally long columns.
pub proof fn law_new_buffers_are_rectangular(columns: Seq<(Seq<char>, ColumnKind)>)
    ensures
        rectangular(empty_buffer(columns)),
        fits_columns(empty_buffer(columns), columns),
{
}

// ---------------------------------------------------------------------------
// The run through an archive
// ---------------------------------------------------------------------------

/// A run through the files of an archive, one after the other.
pub struct MetadataRun {
    columns: Vec<ColumnSpec>,
    buffer: SubmissionBatchBuffer,
    stats: ConstructSubmissionsMetadataStats,
}

pub struct RunModel {
    pub columns: Seq<(Seq<char>, ColumnKind)>,
    pub buffer: BufferModel,
    pub stats: ConstructSubmissionsMetadataStats,
}

/// A run after the rows of a file were taken in: a full buffer is handed out.
pub open spec fn run_after(
    run: RunModel,
    cik: nat,
    rows: nat,
    values: Seq<Seq<JsonModel>>,
    json_bytes: nat,
) -> (RunModel, Option<BufferModel>) {
    let filled = with_rows(run.buffer, cik, rows, values, json_bytes);
    let counted = ConstructSubmissionsMetadataStats {
        files_processed: capped(run.stats.files_processed + 1) as usize,
        filings_written: capped(run.stats.filings_written + rows) as usize,
        ..run.stats
    };
    if filled.ciks.len() >= BATCH_TARGET_ROWS {
        (
            RunModel {
                buffer: emptied_buffer(filled),
                stats: ConstructSubmissionsMetadataStats {
                    batches_written: capped(run.stats.batches_written + 1) as usize,
                    ..counted
                },
                ..run
            },
            Some(filled),
        )
    } else {
        (RunModel { buffer: filled, stats: counted, ..run }, None)
    }
}

pub open spec fn opt_buffer(b: Option<SubmissionBatchBuffer>) -> Option<BufferModel> {
    match b {
        Some(b) => Some(b@),
        None => None,
    }
}

impl View for MetadataRun {
    type V = RunModel;

    closed spec fn view(&self) -> RunModel {
        RunModel {
            columns: column_models(self.columns@),
            buffer: self.buffer@,
            stats: self.stats,
        }
    }
}

impl MetadataRun {
    pub open spec fn wf(self) -> bool {
        fits_columns(self@.buffer, self@.columns) && rectangular(self@.buffer)
    }

    pub fn new(columns: Vec<ColumnSpec>) -> (run: Self)
        ensures
            run.wf(),
            run@.columns == column_models(columns@),
            run@.buffer == empty_buffer(column_models(columns@)),
            run@.stats == (ConstructSubmissionsMetadataStats {
                files_processed: 0,
                files_skipped: 0,
                filings_written: 0,
                batches_written: 0,
            }),
    {
        let buffer = SubmissionBatchBuffer::new(&columns);
        proof {
            law_new_buffers_are_rectangular(column_models(columns@));
        }
        MetadataRun {
            columns,
            buffer,
            stats: ConstructSubmissionsMetadataStats {
                files_processed: 0,
                files_skipped: 0,
                filings_written: 0,
                batches_written: 0,
            },
        }
    }

    /// What became of the files so far.
    pub fn stats(&self) -> (s: ConstructSubmissionsMetadataStats)
        ensures
            s == self@.stats,
    {
        self.stats
    }

    /// Takes in a file. A file that is not that of a company is passed over; one that cannot be
    /// used ends the run. Where there are rows enough, they are handed out as a batch.
    pub fn add_file(&mut self, filename: &str, bytes: &[u8]) -> (r: Result<
        Option<SubmissionBatchBuffer>,
        SubmissionsError,
    >)
        requires
            old(self).wf(),
        ensures
            final(self).wf(),
            if !is_cik_name(filename@) {
                r matches Ok(None) && final(self)@ == old(self)@
            } else {
                match file_rows(filename@, json_decoded(bytes@), old(self)@.columns) {
                    Ok((cik, rows, values)) => r matches Ok(batch) && (
                        final(self)@,
                        opt_buffer(batch),
                    ) == run_after(old(self)@, cik, rows, values, bytes@.len()),
                    Err(e) => r matches Err(x) && x@ == e && final(self)@ == old(self)@,
                }
            },
    {
        if !is_cik_filename(filename) {
            return Ok(None);
        }
        let ghost before = self@;
        proof {
            law_buffers_stay_rectangular(
                before.buffer,
                filename@,
                json_decoded(bytes@),
                before.columns,
                bytes@.len(),
            );
        }
        let rows = match append_submission_bytes(filename, bytes, &self.columns, &mut self.buffer) {
            Ok(n) => n,
            Err(e) => {
                return Err(e);
            },
        };
        self.stats.files_processed = add_capped(self.stats.files_processed, 1);
        self.stats.filings_written = add_capped(self.stats.filings_written, rows);
        if self.buffer.is_full() {
            self.stats.batches_written = add_capped(self.stats.batches_written, 1);
            let batch = self.buffer.take();
            return Ok(Some(batch));
        }
        Ok(None)
    }

    /// The rows that are left, if there are any, as the last batch.
    pub fn finish(&mut self) -> (batch: Option<SubmissionBatchBuffer>)
        requires
            old(self).wf(),
        ensures
            final(self).wf(),
            if old(self)@.buffer.ciks.len() == 0 {
                batch is None && final(self)@ == old(self)@
            } else {
                &&& opt_buffer(batch) == Some(old(self)@.buffer)
                &&& final(self)@ == (RunModel {
                    buffer: emptied_buffer(old(self)@.buffer),
                    stats: ConstructSubmissionsMetadataStats {
                        batches_written: capped(old(self)@.stats.batches_written + 1) as usize,
                        ..old(self)@.stats
                    },
                    ..old(self)@
                })
            },
    {
        if self.buffer.is_empty() {
            return None;
        }
        self.stats.batches_written = add_capped(self.stats.batches_written, 1);
        Some(self.buffer.take())
    }
}

/// Every batch that is handed out has equally long columns.
pub proof fn law_batches_are_rectangular(
    run: RunModel,
    filename: Seq<char>,
    data: Option<JsonModel>,
    json_bytes: nat,
)
    requires
        fits_columns(run.buffer, run.columns),
        rectangular(run.buffer),
    ensures
        file_rows(filename, data, run.columns) matches Ok((cik, rows, values)) ==> (run_after(
            run,
            cik,
            rows,
            values,
            json_bytes,
        ).1 matches Some(batch) ==> rectangular(batch) && batch.ciks.len() >= BATCH_TARGET_ROWS),
{
    law_buffers_stay_rectangular(run.buffer, filename, data, run.columns, json_bytes);
}

/// How many rows are handed out.
pub open spec fn rows_out(batch: Option<BufferModel>) -> nat {
    match batch {
        Some(b) => b.ciks.len(),
        None => 0,
    }
}

/// The rows of a file are handed out or wait, as do those that waited before.
pub proof fn law_no_row_is_lost(
    run: RunModel,
    cik: nat,
    rows: nat,
    values: Seq<Seq<JsonModel>>,
    json_bytes: nat,
)
    ensures
        ({
            let (after, batch) = run_after(run, cik, rows, values, json_bytes);
            rows_out(batch) + after.buffer.ciks.len() == run.buffer.ciks.len() + rows
        }),
{
}

// ---------------------------------------------------------------------------
// Workers
// ---------------------------------------------------------------------------

/// The names of files of companies, in their order.
pub open spec fn cik_names(names: Seq<Seq<char>>) -> Seq<Seq<char>>
    decreases names.len(),
{
    if names.len() == 0 {
        Seq::empty()
    } else {
        let earlier = cik_names(names.drop_last());
        if is_cik_name(names.last()) {
            earlier.push(names.last())
        } else {
            earlier
        }
    }
}

/// The names of files of companies.
pub fn keep_cik_filenames(names: &Vec<String>) -> (out: Vec<String>)
    ensures
        texts(out@) == cik_names(texts(names@)),
{
    let ghost all = texts(names@);
    let mut out: Vec<String> = Vec::new();
    assert(texts(out@) =~= cik_names(all.take(0)));
    let mut i: usize = 0;
    while i < names.len()
        invariant
            i <= names@.len(),
            all == texts(names@),
            texts(out@) == cik_names(all.take(i as int)),
        decreases names@.len() - i,
    {
        let ghost earlier = out@;
        assert(all.take(i + 1).drop_last() =~= all.take(i as int));
        assert(all.take(i + 1).last() == names@[i as int]@);
        if is_cik_filename(names[i].as_str()) {
            out.push(names[i].clone());
            assert(texts(out@) =~= texts(earlier).push(names@[i as int]@));
        }
        i += 1;
    }
    assert(all.take(i as int) =~= all);
    out
}

/// How many batches a number of files makes.
pub open spec fn batch_count(files: nat) -> nat {
    (files + 99) / 100
}

/// The files of batch `k`.
pub open spec fn file_batch(files: Seq<Seq<char>>, k: int) -> Seq<Seq<char>> {
    files.subrange(
        100 * k,
        if 100 * k + 100 <= files.len() {
            100 * k + 100
        } else {
            files.len() as int
        },
    )
}

/// The batches of each worker after the first `k` were dealt out in turn.
pub open spec fn dealt(files: Seq<Seq<char>>, threads: nat, k: nat) -> Seq<Seq<Seq<Seq<char>>>>
    decreases k,
{
    if k == 0 {
        Seq::new(threads, |w: int| Seq::empty())
    } else {
        let earlier = dealt(files, threads, (k - 1) as nat);
        let w = (k - 1) % threads as int;
        earlier.update(w, earlier[w].push(file_batch(files, k - 1)))
    }
}

pub open spec fn worker_models(v: Seq<Vec<Vec<String>>>) -> Seq<Seq<Seq<Seq<char>>>> {
    v.map_values(|w: Vec<Vec<String>>| w@.map_values(|b: Vec<String>| texts(b@)))
}

proof fn lemma_dealt(files: Seq<Seq<char>>, threads: nat, k: nat, j: int)
    requires
        threads > 0,
        0 <= j < k,
    ensures
        dealt(files, threads, k).len() == threads,
        0 <= j % threads as int,
        (j % threads as int) < threads,
        dealt(files, threads, k)[j % threads as int].contains(file_batch(files, j)),
    decreases k,
{
    let t = threads as int;
    vstd::arithmetic::div_mod::lemma_mod_bound(j, t);
    vstd::arithmetic::div_mod::lemma_mod_bound(k - 1, t);
    lemma_dealt_len(files, threads, (k - 1) as nat);
    let earlier = dealt(files, threads, (k - 1) as nat);
    let all = dealt(files, threads, k);
    let w = (k - 1) % t;
    if j == k - 1 {
        assert(all[w][earlier[w].len() as int] == file_batch(files, j));
    } else {
        lemma_dealt(files, threads, (k - 1) as nat, j);
        let v = j % t;
        let i = choose|i: int| 0 <= i < earlier[v].len() && earlier[v][i] == file_batch(files, j);
        if v == w {
            assert(all[v] == earlier[v].push(file_batch(files, k - 1)));
            assert(all[v][i] == earlier[v][i]);
        } else {
            assert(all[v] == earlier[v]);
        }
    }
}

pub proof fn lemma_dealt_len(files: Seq<Seq<char>>, threads: nat, k: nat)
    requires
        threads > 0,
    ensures
        dealt(files, threads, k).len() == threads,
    decreases k,
{
    if k > 0 {
        lemma_dealt_len(files, threads, (k - 1) as nat);
    }
}

/// How many files the workers have in all.
pub open spec fn files_in(batches: Seq<Seq<Seq<char>>>) -> nat
    decreases batches.len(),
{
    if batches.len() == 0 {
        0
    } else {
        files_in(batches.drop_last()) + batches.last().len()
    }
}

pub open spec fn files_dealt(workers: Seq<Seq<Seq<Seq<char>>>>) -> nat
    decreases workers.len(),
{
    if workers.len() == 0 {
        0
    } else {
        files_dealt(workers.drop_last()) + files_in(workers.last())
    }
}

proof fn lemma_files_dealt_update(
    workers: Seq<Seq<Seq<Seq<char>>>>,
    w: int,
    batch: Seq<Seq<char>>,
)
    requires
        0 <= w < workers.len(),
    ensures
        files_dealt(workers.update(w, workers[w].push(batch))) == files_dealt(workers)
            + batch.len(),
    decreases workers.len(),
{
    let after = workers.update(w, workers[w].push(batch));
    if w == workers.len() - 1 {
        assert(after.drop_last() =~= workers.drop_last());
        assert(workers[w].push(batch).drop_last() =~= workers[w]);
    } else {
        lemma_files_dealt_update(workers.drop_last(), w, batch);
        assert(after.drop_last() =~= workers.drop_last().update(w, workers[w].push(batch)));
    }
}

proof fn lemma_none_dealt(n: nat)
    ensures
        files_dealt(Seq::new(n, |w: int| Seq::<Seq<Seq<char>>>::empty())) == 0,
    decreases n,
{
    let s = Seq::new(n, |w: int| Seq::<Seq<Seq<char>>>::empty());
    if n > 0 {
        lemma_none_dealt((n - 1) as nat);
        assert(s.drop_last() =~= Seq::new(
            (n - 1) as nat,
            |w: int| Seq::<Seq<Seq<char>>>::empty(),
        ));
    }
}

proof fn lemma_files_dealt(files: Seq<Seq<char>>, threads: nat, k: nat)
    requires
        threads > 0,
        k <= batch_count(files.len()),
    ensures
        files_dealt(dealt(files, threads, k)) == (if 100 * k <= files.len() {
            100 * k
        } else {
            files.len()
        }),
    decreases k,
{
    if k == 0 {
        lemma_none_dealt(threads);
    } else {
        lemma_files_dealt(files, threads, (k - 1) as nat);
        lemma_dealt_len(files, threads, (k - 1) as nat);
        vstd::arithmetic::div_mod::lemma_mod_bound(k - 1, threads as int);
        lemma_files_dealt_update(
            dealt(files, threads, (k - 1) as nat),
            (k - 1) % threads as int,
            file_batch(files, k - 1),
        );
    }
}

/// Every file is given to a worker, in a batch of a hundred at most, and no more files are given
/// out than there are.
pub proof fn law_every_file_is_given_out(files: Seq<Seq<char>>, threads: nat, i: int)
    requires
        threads > 0,
        0 <= i < files.len(),
    ensures
        ({
            let workers = dealt(files, threads, batch_count(files.len()));
            let batch = file_batch(files, i / 100);
            &&& workers.len() == threads
            &&& batch.len() <= 100
            &&& batch[i % 100] == files[i]
            &&& workers[(i / 100) % threads as int].contains(batch)
            &&& files_dealt(workers) == files.len()
        }),
{
    let n = batch_count(files.len());
    lemma_dealt(files, threads, n, i / 100);
    lemma_files_dealt(files, threads, n);
}

fn copy_range(names: &Vec<String>, start: usize, end: usize) -> (out: Vec<String>)
    requires
        start <= end <= names@.len(),
    ensures
        texts(out@) == texts(names@).subrange(start as int, end as int),
{
    let mut out: Vec<String> = Vec::new();
    let mut i: usize = start;
    while i < end
        invariant
            start <= i <= end <= names@.len(),
            texts(out@) == texts(names@).subrange(start as int, i as int),
        decreases end - i,
    {
        let ghost earlier = out@;
        out.push(names[i].clone());
        assert(texts(out@) =~= texts(earlier).push(names@[i as int]@));
        assert(texts(out@) =~= texts(names@).subrange(start as int, i + 1));
        i += 1;
    }
    assert(texts(out@) =~= texts(names@).subrange(start as int, end as int));
    out
}

/// Deals the files out to the workers, in batches, in turn.
pub fn distribute_filename_batches(filenames: &Vec<String>, threads: usize) -> (workers: Vec<
    Vec<Vec<String>>,
>)
    requires
        threads > 0,
    ensures
        worker_models(workers@) == dealt(
            texts(filenames@),
            threads as nat,
            batch_count(filenames@.len()),
        ),
{
    let ghost files = texts(filenames@);
    let mut workers: Vec<Vec<Vec<String>>> = Vec::new();
    let mut w: usize = 0;
    while w < threads
        invariant
            w <= threads,
            workers@.len() == w,
            forall|j: int| 0 <= j < w ==> (#[trigger] workers@[j])@.len() == 0,
        decreases threads - w,
    {
        workers.push(Vec::new());
        w += 1;
    }
    assert forall|j: int| 0 <= j < threads implies worker_models(workers@)[j] =~= Seq::<
        Seq<Seq<char>>,
    >::empty() by {
        assert(workers@[j]@.len() == 0);
    }
    assert(worker_models(workers@) =~= dealt(files, threads as nat, 0));
    let mut start: usize = 0;
    let ghost mut k: nat = 0;
    let mut turn: usize = 0;
    while start < filenames.len()
        invariant
            threads > 0,
            files == texts(filenames@),
            start == (if 100 * k <= filenames@.len() {
                100 * k
            } else {
                filenames@.len()
            }),
            k <= batch_count(filenames@.len()),
            turn == k % threads as nat,
            turn < threads,
            workers@.len() == threads,
            worker_models(workers@) == dealt(files, threads as nat, k),
        decreases filenames@.len() - start,
    {
        let end: usize = if filenames.len() - start > WORKER_FILE_BATCH_SIZE {
            start + WORKER_FILE_BATCH_SIZE
        } else {
            filenames.len()
        };
        let batch = copy_range(filenames, start, end);
        assert(texts(batch@) == file_batch(files, k as int));
        let ghost before = workers@;
        let ghost b = texts(batch@);
        workers[turn].push(batch);
        proof {
            let models = worker_models(before);
            assert(workers@[turn as int]@.map_values(|b: Vec<String>| texts(b@))
                =~= models[turn as int].push(b));
            assert(worker_models(workers@) =~= models.update(
                turn as int,
                models[turn as int].push(b),
            ));
            vstd::arithmetic::div_mod::lemma_mod_bound(k as int, threads as int);
            lemma_next_turn(k, threads as nat);
            k = k + 1;
        }
        if turn + 1 == threads {
            turn = 0;
        } else {
            turn = turn + 1;
        }
        start = end;
    }
    assert(k == batch_count(filenames@.len()));
    workers
}

proof fn lemma_next_turn(k: nat, threads: nat)
    requires
        threads > 0,
    ensures
        (k + 1) % threads == (if k % threads + 1 == threads {
            0
        } else {
            k % threads + 1
        }),
{
    let q = (k / threads) as int;
    let r = (k % threads) as int;
    let t = threads as int;
    vstd::arithmetic::div_mod::lemma_fundamental_div_mod(k as int, t);
    vstd::arithmetic::div_mod::lemma_mod_bound(k as int, t);
    if r + 1 == t {
        assert(k + 1 == t * (q + 1)) by (nonlinear_arith)
            requires
                k == t * q + r,
                r + 1 == t,
        ;
        vstd::arithmetic::div_mod::lemma_mod_multiples_basic(q + 1, t);
        assert((q + 1) * t == t * (q + 1)) by (nonlinear_arith);
    } else {
        vstd::arithmetic::div_mod::lemma_fundamental_div_mod_converse(k as int + 1, t, q, r + 1);
    }
}

// ---------------------------------------------------------------------------
// Collecting
// ---------------------------------------------------------------------------

/// What is done with what a worker sends.
#[derive(Debug, Clone, Copy, PartialEq, Eq, Structural)]
pub enum CollectorAction {
    /// The batch is written.
    Write,
    /// The batch is dropped: an earlier error ends the run.
    Drop,
    /// The workers are told to stop, and the error is kept: it is the first.
    KeepError,
    /// The workers are told to stop, and the error is dropped: there is an earlier one.
    DropError,
}

/// Collects what the workers send.
#[derive(Debug, Clone, Copy)]
pub struct BatchCollector {
    pub failed: bool,
    pub stats: ConstructSubmissionsMetadataStats,
}

impl BatchCollector {
    pub fn new() -> (c: Self)
        ensures
            !c.failed,
            c.stats == (ConstructSubmissionsMetadataStats {
                files_processed: 0,
                files_skipped: 0,
                filings_written: 0,
                batches_written: 0,
            }),
    {
        BatchCollector {
            failed: false,
            stats: ConstructSubmissionsMetadataStats {
                files_processed: 0,
                files_skipped: 0,
                filings_written: 0,
                batches_written: 0,
            },
        }
    }

    /// What is done with a batch, or with an error. Only the first error is kept, and after it
    /// nothing is written.
    pub fn receive(&mut self, is_batch: bool) -> (action: CollectorAction)
        ensures
            final(self).stats == old(self).stats,
            final(self).failed == (old(self).failed || !is_batch),
            action == (if is_batch {
                if old(self).failed {
                    CollectorAction::Drop
                } else {
                    CollectorAction::Write
                }
            } else if old(self).failed {
                CollectorAction::DropError
            } else {
                CollectorAction::KeepError
            }),
    {
        if is_batch {
            if self.failed {
                CollectorAction::Drop
            } else {
                CollectorAction::Write
            }
        } else if self.failed {
            CollectorAction::DropError
        } else {
            self.failed = true;
            CollectorAction::KeepError
        }
    }

    /// Counts a batch that was written.
    pub fn written(&mut self, files: usize, rows: usize)
        ensures
            final(self).failed == old(self).failed,
            final(self).stats == (ConstructSubmissionsMetadataStats {
                files_processed: capped(old(self).stats.files_processed + files) as usize,
                filings_written: capped(old(self).stats.filings_written + rows) as usize,
                batches_written: capped(old(self).stats.batches_written + 1) as usize,
                ..old(self).stats
            }),
    {
        self.stats.files_processed = add_capped(self.stats.files_processed, files);
        self.stats.filings_written = add_capped(self.stats.filings_written, rows);
        self.stats.batches_written = add_capped(self.stats.batches_written, 1);
    }

    /// Notes that a batch could not be written.
    pub fn write_failed(&mut self)
        ensures
            final(self).failed,
            final(self).stats == old(self).stats,
    {
        self.failed = true;
    }
}

} // verus!
