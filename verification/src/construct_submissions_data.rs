//! The filings of all companies as rows: company, accession number, date and form.
use vstd::prelude::*;

use crate::json::{
    json_decoded, parquet_value, parse_json, value_models, value_text, JsonModel, JsonValue,
};
use crate::construct_submissions_metadata::{
    column_len, equally_long, named_columns, ColumnBuffer, ColumnModel,
};
use crate::submissions::{
    add_capped, capped, cik_from_filename, field_array, field_values, filename_cik, filings_data,
    filings_of, is_cik_filename, is_cik_name, ErrorModel, SubmissionsError,
};
use crate::text::texts;

verus! {

/// What became of the files of an archive.
#[derive(Debug, Clone, Copy, PartialEq, Eq, Structural)]
pub struct ConstructSubmissionsDataStats {
    pub files_processed: usize,
    pub files_skipped: usize,
    pub filings_written: usize,
}

/// The rows of a file, column by column.
#[derive(Debug)]
pub struct SubmissionRecords {
    pub ciks: Vec<u64>,
    pub accession_numbers: Vec<String>,
    pub filing_dates: Vec<String>,
    pub forms: Vec<String>,
}

#[verifier::ext_equal]
pub struct RecordsModel {
    pub ciks: Seq<u64>,
    pub accession_numbers: Seq<Seq<char>>,
    pub filing_dates: Seq<Seq<char>>,
    pub forms: Seq<Seq<char>>,
}

impl View for SubmissionRecords {
    type V = RecordsModel;

    open spec fn view(&self) -> RecordsModel {
        RecordsModel {
            ciks: self.ciks@,
            accession_numbers: texts(self.accession_numbers@),
            filing_dates: texts(self.filing_dates@),
            forms: texts(self.forms@),
        }
    }
}

/// The first `n` values as text.
pub open spec fn first_texts(values: Seq<JsonModel>, n: nat) -> Seq<Seq<char>> {
    Seq::new(n, |i: int| value_text(values[i]))
}

/// The rows of the filings of a company: as many as there are accession numbers.
pub open spec fn filing_records(cik: nat, filings: JsonModel) -> Result<RecordsModel, ErrorModel> {
    match (
        field_values(filings, "accessionNumber"@),
        field_values(filings, "filingDate"@),
        field_values(filings, "form"@),
    ) {
        (Err(e), _, _) => Err(e),
        (_, Err(e), _) => Err(e),
        (_, _, Err(e)) => Err(e),
        (Ok(accessions), Ok(dates), Ok(forms)) => if dates.len() < accessions.len() || forms.len()
            < accessions.len() {
            Err(ErrorModel::MismatchedLengths)
        } else {
            let n = accessions.len();
            Ok(
                RecordsModel {
                    ciks: Seq::new(n, |i: int| cik as u64),
                    accession_numbers: first_texts(accessions, n),
                    filing_dates: first_texts(dates, n),
                    forms: first_texts(forms, n),
                },
            )
        },
    }
}

/// The rows of a file with the given content; `None` stands for one that is no JSON.
pub open spec fn file_records(filename: Seq<char>, data: Option<JsonModel>) -> Result<
    RecordsModel,
    ErrorModel,
> {
    match filename_cik(filename) {
        Err(e) => Err(e),
        Ok(cik) => match data {
            None => Err(ErrorModel::InvalidJson),
            Some(data) => match filings_of(filename, data) {
                Err(e) => Err(e),
                Ok(filings) => filing_records(cik, filings),
            },
        },
    }
}

fn texts_of(values: &Vec<JsonValue>, n: usize) -> (out: Vec<String>)
    requires
        n <= values@.len(),
    ensures
        texts(out@) == first_texts(value_models(values@), n as nat),
{
    let ghost models = value_models(values@);
    let mut out: Vec<String> = Vec::new();
    assert(texts(out@) =~= first_texts(models, 0));
    let mut i: usize = 0;
    while i < n
        invariant
            i <= n <= values@.len(),
            models == value_models(values@),
            texts(out@) == first_texts(models, i as nat),
        decreases n - i,
    {
        let ghost earlier = out@;
        assert(models[i as int] == values@[i as int].model());
        out.push(parquet_value(&values[i]));
        assert(texts(out@) =~= texts(earlier).push(value_text(models[i as int])));
        assert(texts(out@) =~= first_texts(models, (i + 1) as nat));
        i += 1;
    }
    out
}

fn repeated(cik: u64, n: usize) -> (out: Vec<u64>)
    ensures
        out@ == Seq::new(n as nat, |i: int| cik),
{
    let mut out: Vec<u64> = Vec::new();
    let mut i: usize = 0;
    while i < n
        invariant
            i <= n,
            out@ == Seq::new(i as nat, |j: int| cik),
        decreases n - i,
    {
        out.push(cik);
        assert(out@ =~= Seq::new((i + 1) as nat, |j: int| cik));
        i += 1;
    }
    out
}

fn records_of_filings(cik: u64, filings: &JsonValue) -> (r: Result<
    SubmissionRecords,
    SubmissionsError,
>)
    ensures
        match r {
            Ok(records) => filing_records(cik as nat, filings.model()) == Ok::<
                RecordsModel,
                ErrorModel,
            >(records@),
            Err(e) => filing_records(cik as nat, filings.model()) == Err::<
                RecordsModel,
                ErrorModel,
            >(e@),
        },
{
    let accessions = match field_array(filings, "accessionNumber") {
        Ok(v) => v,
        Err(e) => {
            return Err(e);
        },
    };
    let dates = match field_array(filings, "filingDate") {
        Ok(v) => v,
        Err(e) => {
            return Err(e);
        },
    };
    let forms = match field_array(filings, "form") {
        Ok(v) => v,
        Err(e) => {
            return Err(e);
        },
    };
    if dates.len() < accessions.len() || forms.len() < accessions.len() {
        return Err(SubmissionsError::MismatchedLengths);
    }
    let n = accessions.len();
    let records = SubmissionRecords {
        ciks: repeated(cik, n),
        accession_numbers: texts_of(accessions, n),
        filing_dates: texts_of(dates, n),
        forms: texts_of(forms, n),
    };
    assert(records@.ciks =~= Seq::new(n as nat, |i: int| cik as nat as u64));
    Ok(records)
}

/// The rows of a file with the given content.
pub fn records_of_value(filename: &str, data: &JsonValue) -> (r: Result<
    SubmissionRecords,
    SubmissionsError,
>)
    ensures
        match r {
            Ok(records) => file_records(filename@, Some(data.model())) == Ok::<
                RecordsModel,
                ErrorModel,
            >(records@),
            Err(e) => file_records(filename@, Some(data.model())) == Err::<
                RecordsModel,
                ErrorModel,
            >(e@),
        },
{
    let cik = match cik_from_filename(filename) {
        Ok(n) => n,
        Err(e) => {
            return Err(e);
        },
    };
    match filings_data(filename, data) {
        Ok(filings) => records_of_filings(cik, filings),
        Err(e) => Err(e),
    }
}

/// The rows of a file.
pub fn process_submission_file(filename: &str, bytes: &[u8]) -> (r: Result<
    SubmissionRecords,
    SubmissionsError,
>)
    ensures
        match r {
            Ok(records) => file_records(filename@, json_decoded(bytes@)) == Ok::<
                RecordsModel,
                ErrorModel,
            >(records@),
            Err(e) => file_records(filename@, json_decoded(bytes@)) == Err::<
                RecordsModel,
                ErrorModel,
            >(e@),
        },
{
    match cik_from_filename(filename) {
        Ok(_) => {},
        Err(e) => {
            return Err(e);
        },
    }
    match parse_json(bytes) {
        Ok(data) => records_of_value(filename, &data),
        Err(e) => Err(SubmissionsError::InvalidJson(e)),
    }
}

/// Every column of the rows of a file has a value for every row.
pub proof fn law_columns_are_equally_long(filename: Seq<char>, data: Option<JsonModel>)
    ensures
        file_records(filename, data) matches Ok(r) ==> {
            &&& r.ciks.len() == r.accession_numbers.len()
            &&& r.filing_dates.len() == r.accession_numbers.len()
            &&& r.forms.len() == r.accession_numbers.len()
            &&& equally_long(records_table(r))
        },
{
}

// ---------------------------------------------------------------------------
// The run through an archive
// ---------------------------------------------------------------------------

/// What an entry of an archive holds.
pub enum ArchiveEntry<'a> {
    /// The entry cannot be found or opened.
    Unreadable,
    /// The entry is there, but its content cannot be read.
    Broken(&'a str),
    File(&'a str, &'a [u8]),
}

/// What an entry of an archive is, as far as the run goes.
pub enum EntryModel {
    Unreadable,
    Broken(Seq<char>),
    File(Seq<char>, Option<JsonModel>),
}

impl<'a> ArchiveEntry<'a> {
    pub open spec fn model(self) -> EntryModel {
        match self {
            ArchiveEntry::Unreadable => EntryModel::Unreadable,
            ArchiveEntry::Broken(name) => EntryModel::Broken(name@),
            ArchiveEntry::File(name, bytes) => EntryModel::File(name@, json_decoded(bytes@)),
        }
    }
}

/// What is done with an entry.
#[derive(Debug)]
pub enum EntryAction {
    /// It is no file of a company.
    Ignore,
    /// It cannot be used; the reason, where its content gives one.
    Skip(Option<SubmissionsError>),
    /// Its rows are to be written.
    Write(SubmissionRecords),
}

/// What an entry gives: nothing, the rows to write, or that it is skipped, with the reason that
/// its content gives.
pub open spec fn entry_rows(entry: EntryModel) -> Result<Option<RecordsModel>, Option<ErrorModel>> {
    match entry {
        EntryModel::Unreadable => Err(None),
        EntryModel::Broken(name) => if is_cik_name(name) {
            Err(None)
        } else {
            Ok(None)
        },
        EntryModel::File(name, data) => if is_cik_name(name) {
            match file_records(name, data) {
                Ok(r) => Ok(Some(r)),
                Err(e) => Err(Some(e)),
            }
        } else {
            Ok(None)
        },
    }
}

impl View for EntryAction {
    type V = Result<Option<RecordsModel>, Option<ErrorModel>>;

    open spec fn view(&self) -> Result<Option<RecordsModel>, Option<ErrorModel>> {
        match self {
            EntryAction::Ignore => Ok(None),
            EntryAction::Skip(None) => Err(None),
            EntryAction::Skip(Some(e)) => Err(Some(e@)),
            EntryAction::Write(records) => Ok(Some(records@)),
        }
    }
}

/// The counts after an entry that gave the rows.
pub open spec fn counted(
    s: ConstructSubmissionsDataStats,
    rows: Result<Option<RecordsModel>, Option<ErrorModel>>,
) -> ConstructSubmissionsDataStats {
    match rows {
        Ok(None) => s,
        Err(_) => ConstructSubmissionsDataStats {
            files_skipped: capped(s.files_skipped + 1) as usize,
            ..s
        },
        Ok(Some(r)) => ConstructSubmissionsDataStats {
            files_processed: capped(s.files_processed + 1) as usize,
            filings_written: capped(s.filings_written + r.accession_numbers.len()) as usize,
            ..s
        },
    }
}

/// What is done with an entry of an archive: an entry that cannot be read is skipped, one that is
/// no file of a company is ignored, one that cannot be used is skipped, and of any other the rows
/// are written.
pub fn entry_action(entry: &ArchiveEntry) -> (action: EntryAction)
    ensures
        action@ == entry_rows(entry.model()),
{
    match entry {
        ArchiveEntry::Unreadable => EntryAction::Skip(None),
        ArchiveEntry::Broken(name) => if is_cik_filename(name) {
            EntryAction::Skip(None)
        } else {
            EntryAction::Ignore
        },
        ArchiveEntry::File(name, bytes) => if is_cik_filename(name) {
            match process_submission_file(name, bytes) {
                Ok(records) => EntryAction::Write(records),
                Err(e) => EntryAction::Skip(Some(e)),
            }
        } else {
            EntryAction::Ignore
        },
    }
}

/// The rows as a table.
pub open spec fn records_table(r: RecordsModel) -> Seq<(Seq<char>, ColumnModel)> {
    seq![
        ("cik"@, ColumnModel::UInt64(r.ciks)),
        ("accessionNumber"@, ColumnModel::Utf8(r.accession_numbers)),
        ("filingDate"@, ColumnModel::Utf8(r.filing_dates)),
        ("form"@, ColumnModel::Utf8(r.forms)),
    ]
}

impl SubmissionRecords {
    /// The rows as a table.
    pub fn into_columns(self) -> (table: Vec<(String, ColumnBuffer)>)
        ensures
            named_columns(table@) == records_table(self@),
    {
        let SubmissionRecords { ciks, accession_numbers, filing_dates, forms } = self;
        let mut table: Vec<(String, ColumnBuffer)> = Vec::new();
        table.push(("cik".to_owned(), ColumnBuffer::UInt64(ciks)));
        table.push(("accessionNumber".to_owned(), ColumnBuffer::Utf8(accession_numbers)));
        table.push(("filingDate".to_owned(), ColumnBuffer::Utf8(filing_dates)));
        table.push(("form".to_owned(), ColumnBuffer::Utf8(forms)));
        assert(named_columns(table@) =~= records_table(self@));
        table
    }

    /// How many rows there are.
    pub fn len(&self) -> (n: usize)
        ensures
            n == self@.accession_numbers.len(),
    {
        self.accession_numbers.len()
    }

    pub fn is_empty(&self) -> (r: bool)
        ensures
            r == (self@.accession_numbers.len() == 0),
    {
        self.accession_numbers.len() == 0
    }
}

impl ConstructSubmissionsDataStats {
    pub fn new() -> (s: Self)
        ensures
            s.files_processed == 0,
            s.files_skipped == 0,
            s.filings_written == 0,
    {
        ConstructSubmissionsDataStats { files_processed: 0, files_skipped: 0, filings_written: 0 }
    }

    /// Counts an entry, once its rows are written.
    pub fn count(&mut self, action: &EntryAction)
        ensures
            *final(self) == counted(*old(self), action@),
    {
        match action {
            EntryAction::Ignore => {},
            EntryAction::Skip(_) => {
                self.files_skipped = add_capped(self.files_skipped, 1);
            },
            EntryAction::Write(records) => {
                self.files_processed = add_capped(self.files_processed, 1);
                self.filings_written = add_capped(self.filings_written, records.len());
            },
        }
    }
}

// ---------------------------------------------------------------------------
// The whole run
// ---------------------------------------------------------------------------

/// The rows of the given files, one file behind the other.
pub open spec fn all_records(files: Seq<RecordsModel>) -> RecordsModel {
    RecordsModel {
        ciks: files.map_values(|r: RecordsModel| r.ciks).flatten(),
        accession_numbers: files.map_values(|r: RecordsModel| r.accession_numbers).flatten(),
        filing_dates: files.map_values(|r: RecordsModel| r.filing_dates).flatten(),
        forms: files.map_values(|r: RecordsModel| r.forms).flatten(),
    }
}

/// The rows of those entries that can be used, in the order of the entries.
pub open spec fn usable_files(entries: Seq<EntryModel>) -> Seq<RecordsModel>
    decreases entries.len(),
{
    if entries.len() == 0 {
        Seq::empty()
    } else {
        let earlier = usable_files(entries.drop_last());
        match entry_rows(entries.last()) {
            Ok(Some(r)) => earlier.push(r),
            _ => earlier,
        }
    }
}

/// The entries that are skipped, in their order.
pub open spec fn skipped_entries(entries: Seq<EntryModel>) -> Seq<EntryModel> {
    entries.filter(|e: EntryModel| entry_rows(e) is Err)
}

/// A run: the rows that were written, and the counts.
pub struct DataRunModel {
    pub rows: RecordsModel,
    pub stats: ConstructSubmissionsDataStats,
}

/// A run through the given entries, one after the other.
pub open spec fn run_through(entries: Seq<EntryModel>) -> DataRunModel
    decreases entries.len(),
{
    if entries.len() == 0 {
        DataRunModel {
            rows: RecordsModel {
                ciks: Seq::empty(),
                accession_numbers: Seq::empty(),
                filing_dates: Seq::empty(),
                forms: Seq::empty(),
            },
            stats: ConstructSubmissionsDataStats {
                files_processed: 0,
                files_skipped: 0,
                filings_written: 0,
            },
        }
    } else {
        let before = run_through(entries.drop_last());
        let rows = entry_rows(entries.last());
        DataRunModel {
            rows: match rows {
                Ok(Some(r)) => RecordsModel {
                    ciks: before.rows.ciks + r.ciks,
                    accession_numbers: before.rows.accession_numbers + r.accession_numbers,
                    filing_dates: before.rows.filing_dates + r.filing_dates,
                    forms: before.rows.forms + r.forms,
                },
                _ => before.rows,
            },
            stats: counted(before.stats, rows),
        }
    }
}

proof fn lemma_records_push(files: Seq<RecordsModel>, r: RecordsModel)
    ensures
        ({
            let before = all_records(files);
            all_records(files.push(r)) == RecordsModel {
                ciks: before.ciks + r.ciks,
                accession_numbers: before.accession_numbers + r.accession_numbers,
                filing_dates: before.filing_dates + r.filing_dates,
                forms: before.forms + r.forms,
            }
        }),
{
    let ciks = |r: RecordsModel| r.ciks;
    let accession_numbers = |r: RecordsModel| r.accession_numbers;
    let filing_dates = |r: RecordsModel| r.filing_dates;
    let forms = |r: RecordsModel| r.forms;
    let more = files.push(r);
    assert(more.map_values(ciks) =~= files.map_values(ciks).push(r.ciks));
    assert(more.map_values(accession_numbers) =~= files.map_values(accession_numbers).push(
        r.accession_numbers,
    ));
    assert(more.map_values(filing_dates) =~= files.map_values(filing_dates).push(r.filing_dates));
    assert(more.map_values(forms) =~= files.map_values(forms).push(r.forms));
    files.map_values(ciks).lemma_flatten_push(r.ciks);
    files.map_values(accession_numbers).lemma_flatten_push(r.accession_numbers);
    files.map_values(filing_dates).lemma_flatten_push(r.filing_dates);
    files.map_values(forms).lemma_flatten_push(r.forms);
}

/// A run writes the rows of the files that can be used, one file behind the other in the order of
/// the entries, in columns of one length. It counts those files, the entries that it skips, and the
/// rows.
pub proof fn law_run_writes_usable_files(entries: Seq<EntryModel>)
    ensures
        ({
            let run = run_through(entries);
            let files = usable_files(entries);
            &&& run.rows == all_records(files)
            &&& run.stats.files_processed == capped(files.len() as int)
            &&& run.stats.files_skipped == capped(skipped_entries(entries).len() as int)
            &&& run.stats.filings_written == capped(run.rows.accession_numbers.len() as int)
            &&& equally_long(records_table(run.rows))
        }),
    decreases entries.len(),
{
    reveal(Seq::filter);
    if entries.len() == 0 {
        assert(all_records(usable_files(entries)) =~= run_through(entries).rows);
    } else {
        let earlier = entries.drop_last();
        law_run_writes_usable_files(earlier);
        let before = run_through(earlier).rows;
        assert(column_len(records_table(before)[1].1) == column_len(records_table(before)[0].1));
        assert(column_len(records_table(before)[2].1) == column_len(records_table(before)[0].1));
        assert(column_len(records_table(before)[3].1) == column_len(records_table(before)[0].1));
        if let EntryModel::File(name, data) = entries.last() {
            law_columns_are_equally_long(name, data);
        }
        if let Ok(Some(r)) = entry_rows(entries.last()) {
            lemma_records_push(usable_files(earlier), r);
        }
    }
}

} // verus!
