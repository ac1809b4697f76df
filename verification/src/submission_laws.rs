//! What the files of companies say, told from their names and their values.
use vstd::arithmetic::power2::pow2;
use vstd::prelude::*;

use crate::construct_submissions_data::{
    entry_rows, file_records, records_table, usable_files, EntryModel, RecordsModel,
};
use crate::construct_submissions_metadata::{
    chosen_columns, cik_names, column_error, column_values_from, file_rows, fits_columns, kind_of,
    run_after, table_of, BufferModel, ColumnKind, ColumnModel, ConfigErrorModel, RunModel,
    BATCH_TARGET_ROWS,
};
use crate::json::{
    double_to_u64, member, member_from, value_bool, value_text, value_u64, JsonModel, NumberModel,
};
use crate::page_laws::{lemma_parse_unsigned, writes_number};
use crate::submissions::{capped, field_values, filename_cik, filings_of, ErrorModel};
use crate::text::{before, find, head, lemma_before, strip_prefix};
use crate::text_laws::{law_find_is_first, stands_in};

verus! {

// ---------------------------------------------------------------------------
// Names
// ---------------------------------------------------------------------------

/// Whether a text is the part of a file name before its first dot or hyphen.
pub open spec fn is_stem(stem: Seq<char>, filename: Seq<char>) -> bool {
    &&& stem.is_prefix_of(filename)
    &&& !stem.contains('.')
    &&& !stem.contains('-')
    &&& stem.len() < filename.len() ==> filename[stem.len() as int] == '.' || filename[stem.len()
        as int] == '-'
}

/// Whether a stem is a number behind `CIK`.
pub open spec fn is_cik_stem(stem: Seq<char>, digits: Seq<char>) -> bool {
    stem == "CIK"@ + digits
}

/// Whether a number, or an error, is what the name of a file says of its company.
pub open spec fn is_cik_of(r: Result<nat, ErrorModel>, stem: Seq<char>) -> bool {
    match r {
        Ok(n) => exists|digits: Seq<char>|
            #[trigger] is_cik_stem(stem, digits) && writes_number(digits, n) && n <= u64::MAX,
        Err(ErrorModel::NotCikFile) => forall|digits: Seq<char>|
            !#[trigger] is_cik_stem(stem, digits),
        Err(ErrorModel::InvalidCik) => exists|digits: Seq<char>|
            #[trigger] is_cik_stem(stem, digits) && writes_no_word(digits),
        Err(_) => false,
    }
}

/// Whether a text writes no number that a machine word holds.
pub open spec fn writes_no_word(digits: Seq<char>) -> bool {
    forall|n: nat| n <= u64::MAX ==> !#[trigger] writes_number(digits, n)
}

proof fn lemma_stem(filename: Seq<char>)
    ensures
        is_stem(head(head(filename, '.'), '-'), filename),
{
    let front = head(filename, '.');
    let stem = head(front, '-');
    lemma_before(filename, '.');
    lemma_before(front, '-');
    assert(stem =~= filename.subrange(0, stem.len() as int));
    if stem.contains('.') {
        let i = choose|i: int| 0 <= i < stem.len() && stem[i] == '.';
        assert(filename[i] == '.');
    }
    if stem.contains('-') {
        let i = choose|i: int| 0 <= i < stem.len() && stem[i] == '-';
        assert(front[i] == '-');
    }
    if stem.len() < front.len() {
        assert(front[stem.len() as int] == '-');
    }
}

/// The number of a company is what stands in the name of its file behind `CIK`, up to the first dot
/// or hyphen.
pub proof fn law_name_gives_cik(filename: Seq<char>)
    ensures
        exists|stem: Seq<char>|
            #[trigger] is_stem(stem, filename) && is_cik_of(filename_cik(filename), stem),
{
    let stem = head(head(filename, '.'), '-');
    lemma_stem(filename);
    let word = "CIK"@;
    if word.is_prefix_of(stem) {
        let digits = stem.skip(word.len() as int);
        assert(stem =~= word + digits);
        assert(is_cik_stem(stem, digits));
        lemma_parse_unsigned(digits, u64::MAX as nat);
        assert(strip_prefix(stem, word) == Some(digits));
        if filename_cik(filename) is Ok {
            assert(writes_number(digits, filename_cik(filename)->Ok_0));
        } else {
            assert(writes_no_word(digits));
        }
    } else {
        assert forall|digits: Seq<char>| !#[trigger] is_cik_stem(stem, digits) by {
            if is_cik_stem(stem, digits) {
                assert(stem.subrange(0, word.len() as int) =~= word);
            }
        }
    }
    assert(is_cik_of(filename_cik(filename), stem));
}

// ---------------------------------------------------------------------------
// Values
// ---------------------------------------------------------------------------

/// Whether a value is the first member of an object with the given key; there is none in what is no
/// object.
pub open spec fn is_member(v: Option<JsonModel>, object: JsonModel, key: Seq<char>) -> bool {
    match (object, v) {
        (JsonModel::Object(members, _), Some(v)) => exists|i: int|
            0 <= i < members.len() && #[trigger] members[i] == (key, v) && forall|j: int|
                0 <= j < i ==> (#[trigger] members[j]).0 != key,
        (JsonModel::Object(members, _), None) => forall|j: int|
            0 <= j < members.len() ==> (#[trigger] members[j]).0 != key,
        (_, v) => v is None,
    }
}

proof fn lemma_member(object: JsonModel, key: Seq<char>, i: int)
    requires
        object is Object,
        0 <= i <= object->Object_0.len(),
        forall|j: int| 0 <= j < i ==> (#[trigger] object->Object_0[j]).0 != key,
    ensures
        is_member(member_from(object->Object_0, key, i), object, key),
    decreases object->Object_0.len() - i,
{
    let members = object->Object_0;
    if i < members.len() {
        if members[i].0 == key {
            assert(members[i] == (key, member_from(members, key, i)->0));
        } else {
            lemma_member(object, key, i + 1);
        }
    }
}

/// Looking up a key finds the first member with it.
pub proof fn law_member_is_first(object: JsonModel, key: Seq<char>)
    ensures
        is_member(member(object, key), object, key),
{
    if object is Object {
        lemma_member(object, key, 0);
    }
}

/// Whether the values are those of an array under a key.
pub open spec fn are_values(values: Seq<JsonModel>, filings: JsonModel, field: Seq<char>) -> bool {
    exists|v: JsonModel|
        #[trigger] is_member(Some(v), filings, field) && (v matches JsonModel::Array(all, _) && all
            == values)
}

/// Whether no array stands under a key.
pub open spec fn has_no_values(filings: JsonModel, field: Seq<char>) -> bool {
    is_member(None, filings, field) || exists|v: JsonModel|
        #[trigger] is_member(Some(v), filings, field) && !(v is Array)
}

/// The values of a field are those of the array under it.
pub proof fn law_fields_are_arrays(filings: JsonModel, field: Seq<char>)
    ensures
        match field_values(filings, field) {
            Ok(values) => are_values(values, filings, field),
            Err(e) => has_no_values(filings, field) && e == ErrorModel::MissingField(field),
        },
{
    law_member_is_first(filings, field);
    if let Some(v) = member(filings, field) {
        assert(is_member(Some(v), filings, field));
    }
}

/// Whether the filings of a file are found: at its top where its name says that it holds older
/// ones, else under `filings` and `recent`.
pub open spec fn are_filings(filings: JsonModel, filename: Seq<char>, data: JsonModel) -> bool {
    if exists|k: int| #[trigger] stands_in("submissions"@, filename, k) {
        filings == data
    } else {
        exists|all: JsonModel|
            #[trigger] is_member(Some(all), data, "filings"@) && is_member(
                Some(filings),
                all,
                "recent"@,
            )
    }
}

/// A file of older filings holds them at its top, that of a company under `filings` and `recent`.
pub proof fn law_filings_are_found(filename: Seq<char>, data: JsonModel)
    ensures
        filings_of(filename, data) matches Ok(filings) ==> are_filings(filings, filename, data),
        filings_of(filename, data) is Err ==> !(exists|k: int| #[trigger]
            stands_in("submissions"@, filename, k)) && (is_member(None, data, "filings"@)
            || exists|all: JsonModel|
            #[trigger] is_member(Some(all), data, "filings"@) && is_member(None, all, "recent"@)),
{
    law_find_is_first(filename, "submissions"@);
    law_member_is_first(data, "filings"@);
    if let Some(n) = find(filename, "submissions"@) {
        assert(stands_in("submissions"@, filename, n as int));
    } else if let Some(all) = member(data, "filings"@) {
        law_member_is_first(all, "recent"@);
        assert(is_member(Some(all), data, "filings"@));
        if member(all, "recent"@) is Some {
            let filings = filings_of(filename, data)->Ok_0;
            assert(is_member(Some(filings), all, "recent"@));
        }
    }
}

/// Whether the rows are those of the given values: the `i`-th row has the company's number and the
/// `i`-th values of each field.
pub open spec fn are_rows_of(
    r: RecordsModel,
    cik: nat,
    accessions: Seq<JsonModel>,
    dates: Seq<JsonModel>,
    forms: Seq<JsonModel>,
) -> bool {
    let n = accessions.len();
    &&& n <= dates.len()
    &&& n <= forms.len()
    &&& r.ciks.len() == n
    &&& r.accession_numbers.len() == n
    &&& r.filing_dates.len() == n
    &&& r.forms.len() == n
    &&& forall|i: int| 0 <= i < n ==> #[trigger] r.ciks[i] == cik
    &&& forall|i: int| 0 <= i < n ==> #[trigger] r.accession_numbers[i] == value_text(accessions[i])
    &&& forall|i: int| 0 <= i < n ==> #[trigger] r.filing_dates[i] == value_text(dates[i])
    &&& forall|i: int| 0 <= i < n ==> #[trigger] r.forms[i] == value_text(forms[i])
}

/// The rows of a file pair the accession numbers, the dates and the forms that stand at the same
/// places, with the number of its company.
pub proof fn law_rows_pair_values(filename: Seq<char>, data: JsonModel)
    ensures
        file_records(filename, Some(data)) matches Ok(r) ==> filename_cik(filename) matches Ok(
            cik,
        ) && exists|
            filings: JsonModel,
            accessions: Seq<JsonModel>,
            dates: Seq<JsonModel>,
            forms: Seq<JsonModel>,
        |
            #![trigger are_filings(filings, filename, data),
                are_rows_of(r, cik, accessions, dates, forms)]
            are_filings(filings, filename, data) && are_values(
                accessions,
                filings,
                "accessionNumber"@,
            ) && are_values(dates, filings, "filingDate"@) && are_values(forms, filings, "form"@)
                && are_rows_of(r, cik, accessions, dates, forms),
{
    law_filings_are_found(filename, data);
    law_name_gives_cik(filename);
    if let Ok(r) = file_records(filename, Some(data)) {
        let cik = filename_cik(filename)->Ok_0;
        let filings = filings_of(filename, data)->Ok_0;
        law_fields_are_arrays(filings, "accessionNumber"@);
        law_fields_are_arrays(filings, "filingDate"@);
        law_fields_are_arrays(filings, "form"@);
        let accessions = field_values(filings, "accessionNumber"@)->Ok_0;
        let dates = field_values(filings, "filingDate"@)->Ok_0;
        let forms = field_values(filings, "form"@)->Ok_0;
        let rows = file_records(filename, Some(data))->Ok_0;
        assert(are_filings(filings, filename, data));
        assert(are_rows_of(rows, cik, accessions, dates, forms));
    }
}

/// Whether a number is the integer part of a fraction with a power of two below.
pub open spec fn is_integer_part(n: nat, above: nat, shift: nat) -> bool {
    n * pow2(shift) <= above && above < (n + 1) * pow2(shift)
}

/// A positive double is read as its integer part: its significand times a power of two, which is
/// never rounded up.
pub proof fn law_doubles_are_cut(bits: u64)
    requires
        bits < 0x8000_0000_0000_0000,
        1023 <= bits as nat / 0x10_0000_0000_0000 < 1075,
    ensures
        is_integer_part(
            double_to_u64(bits),
            (0x10_0000_0000_0000 + bits as nat % 0x10_0000_0000_0000) as nat,
            (1075 - bits as nat / 0x10_0000_0000_0000) as nat,
        ),
{
    let exponent = bits as nat / 0x10_0000_0000_0000;
    let above = (0x10_0000_0000_0000 + bits as nat % 0x10_0000_0000_0000) as nat;
    let k = (1075 - exponent) as nat;
    let p = pow2(k);
    vstd::arithmetic::power2::lemma_pow2_pos(k);
    assert(exponent % 2048 == exponent);
    let n = double_to_u64(bits);
    assert(n == above / p);
    assert(n * p <= above && above < (n + 1) * p) by (nonlinear_arith)
        requires
            p > 0,
            n == above / p,
    ;
}

/// A number that is written without a fraction is read as it is, and a text as the number that it
/// writes.
pub proof fn law_numbers_are_read(s: Seq<char>, n: nat)
    requires
        n <= u64::MAX,
        writes_number(s, n),
    ensures
        value_u64(JsonModel::Text(s)) == n,
{
    lemma_parse_unsigned(s, u64::MAX as nat);
}

// ---------------------------------------------------------------------------
// Columns
// ---------------------------------------------------------------------------

/// Whether a column cannot be written, and why: it has no name, it is the company's, or it came
/// before.
pub open spec fn is_bad_column(columns: Seq<Seq<char>>, i: int, e: ConfigErrorModel) -> bool {
    let c = columns[i];
    match e {
        ConfigErrorModel::EmptyColumn => c.len() == 0,
        ConfigErrorModel::CikColumn => c == "cik"@,
        ConfigErrorModel::DuplicateColumn(d) => d == c && c.len() > 0 && c != "cik"@ && exists|
            j: int,
        |
            0 <= j < i && #[trigger] columns[j] == c,
        _ => false,
    }
}

/// Whether a column can be written.
pub open spec fn is_good_column(columns: Seq<Seq<char>>, i: int) -> bool {
    &&& columns[i].len() > 0
    &&& columns[i] != "cik"@
    &&& forall|j: int| 0 <= j < i ==> #[trigger] columns[j] != columns[i]
}

/// Whether an error is that of the first column that cannot be written.
pub open spec fn is_first_error(e: Option<ConfigErrorModel>, columns: Seq<Seq<char>>) -> bool {
    match e {
        Some(e) => exists|i: int|
            0 <= i < columns.len() && #[trigger] is_bad_column(columns, i, e) && forall|j: int|
                0 <= j < i ==> #[trigger] is_good_column(columns, j),
        None => forall|j: int| 0 <= j < columns.len() ==> #[trigger] is_good_column(columns, j),
    }
}

proof fn lemma_first_error(columns: Seq<Seq<char>>, i: int)
    requires
        0 <= i <= columns.len(),
        forall|j: int| 0 <= j < i ==> #[trigger] is_good_column(columns, j),
    ensures
        is_first_error(column_error(columns, i), columns),
    decreases columns.len() - i,
{
    if i < columns.len() {
        let part = columns.take(i);
        if columns[i].len() == 0 || columns[i] == "cik"@ || part.contains(columns[i]) {
            let e = column_error(columns, i)->0;
            if columns[i].len() > 0 && columns[i] != "cik"@ {
                let j = choose|j: int| 0 <= j < part.len() && part[j] == columns[i];
                assert(columns[j] == columns[i]);
            }
            reveal_strlit("cik");
            assert(is_bad_column(columns, i, e));
        } else {
            assert(is_good_column(columns, i)) by {
                assert forall|j: int| 0 <= j < i implies #[trigger] columns[j] != columns[i] by {
                    assert(part[j] == columns[j]);
                }
            }
            lemma_first_error(columns, i + 1);
        }
    }
}

/// Columns are refused for the first of them that has no name, is the company's or came before, and
/// for no other reason. Those that are accepted are written in their order.
pub proof fn law_first_bad_column_is_refused(columns: Seq<Seq<char>>)
    ensures
        match chosen_columns(Some(columns)) {
            Ok(chosen) => columns.len() > 0 && is_first_error(None, columns) && chosen.len()
                == columns.len() && forall|i: int|
                0 <= i < columns.len() ==> #[trigger] chosen[i] == (
                    columns[i],
                    kind_of(columns[i]),
                ),
            Err(e) => if columns.len() == 0 {
                e == ConfigErrorModel::NoColumns
            } else {
                is_first_error(Some(e), columns)
            },
        },
{
    lemma_first_error(columns, 0);
}

/// Whether the values of the columns are those of the fields of the same names.
pub open spec fn are_columns_of(
    values: Seq<Seq<JsonModel>>,
    filings: JsonModel,
    columns: Seq<(Seq<char>, ColumnKind)>,
) -> bool {
    &&& values.len() == columns.len()
    &&& forall|k: int|
        0 <= k < columns.len() ==> are_values(#[trigger] values[k], filings, columns[k].0)
}

proof fn lemma_columns_of(filings: JsonModel, columns: Seq<(Seq<char>, ColumnKind)>, i: int)
    requires
        0 <= i <= columns.len(),
    ensures
        column_values_from(filings, columns, i) matches Ok(values) ==> are_columns_of(
            values,
            filings,
            columns.skip(i),
        ),
    decreases columns.len() - i,
{
    if i < columns.len() {
        lemma_columns_of(filings, columns, i + 1);
        law_fields_are_arrays(filings, columns[i].0);
        if let Ok(all) = column_values_from(filings, columns, i) {
            let rest = column_values_from(filings, columns, i + 1)->Ok_0;
            let own = field_values(filings, columns[i].0)->Ok_0;
            let part = columns.skip(i);
            assert(all =~= seq![own] + rest);
            assert forall|k: int| 0 <= k < part.len() implies are_values(
                #[trigger] all[k],
                filings,
                part[k].0,
            ) by {
                if k > 0 {
                    assert(all[k] == rest[k - 1]);
                    assert(columns.skip(i + 1)[k - 1] == part[k]);
                }
            }
        }
    } else {
        assert(columns.skip(i) =~= Seq::empty());
    }
}

/// The columns of a file are the fields of the same names; each reaches as far as the accession
/// numbers, which say how many rows there are.
pub proof fn law_columns_are_fields(
    filename: Seq<char>,
    data: JsonModel,
    columns: Seq<(Seq<char>, ColumnKind)>,
)
    ensures
        file_rows(filename, Some(data), columns) matches Ok((cik, n, values)) ==> filename_cik(
            filename,
        ) == Ok::<nat, ErrorModel>(cik) && exists|filings: JsonModel, accessions: Seq<JsonModel>|
            #![trigger are_filings(filings, filename, data),
                are_values(accessions, filings, "accessionNumber"@)]
            are_filings(filings, filename, data) && are_values(
                accessions,
                filings,
                "accessionNumber"@,
            ) && accessions.len() == n && are_columns_of(values, filings, columns) && forall|
                k: int,
            |
                0 <= k < columns.len() ==> (#[trigger] values[k]).len() >= n,
{
    law_filings_are_found(filename, data);
    if let Ok((cik, n, values)) = file_rows(filename, Some(data), columns) {
        let filings = filings_of(filename, data)->Ok_0;
        law_fields_are_arrays(filings, "accessionNumber"@);
        lemma_columns_of(filings, columns, 0);
        assert(columns.skip(0) =~= columns);
        let accessions = field_values(filings, "accessionNumber"@)->Ok_0;
        assert(are_filings(filings, filename, data));
        assert(are_values(accessions, filings, "accessionNumber"@));
    }
}

// ---------------------------------------------------------------------------
// Archives
// ---------------------------------------------------------------------------

/// A text is taken as it is, nothing stands for null, and what is neither as JSON writes it.
pub proof fn law_values_are_written(value: JsonModel)
    ensures
        match value {
            JsonModel::Null => value_text(value).len() == 0,
            JsonModel::Bool(b) => value_text(value) == (if b {
                "true"@
            } else {
                "false"@
            }),
            JsonModel::Text(s) => value_text(value) == s,
            JsonModel::Number(n) => value_text(value) == n.text,
            JsonModel::Array(_, text) => value_text(value) == text,
            JsonModel::Object(_, text) => value_text(value) == text,
        },
{
}

/// Whether an entry of an archive is a file of a company with the given rows.
pub open spec fn gives_rows(entry: EntryModel, r: RecordsModel) -> bool {
    entry matches EntryModel::File(name, data) && "CIK"@.is_prefix_of(name) && file_records(
        name,
        data,
    ) == Ok::<RecordsModel, ErrorModel>(r)
}

/// Whether the files are those of the entries that give rows, in order.
pub open spec fn are_files_of(
    files: Seq<RecordsModel>,
    at: Seq<int>,
    entries: Seq<EntryModel>,
) -> bool {
    &&& files.len() == at.len()
    &&& forall|i: int, j: int| 0 <= i < j < at.len() ==> #[trigger] at[i] < #[trigger] at[j]
    &&& forall|k: int|
        0 <= k < at.len() ==> 0 <= #[trigger] at[k] < entries.len() && gives_rows(
            entries[at[k]],
            files[k],
        )
    &&& forall|i: int, r: RecordsModel|
        0 <= i < entries.len() && #[trigger] gives_rows(entries[i], r) ==> at.contains(i)
}

proof fn lemma_files(entries: Seq<EntryModel>) -> (at: Seq<int>)
    ensures
        are_files_of(usable_files(entries), at, entries),
    decreases entries.len(),
{
    if entries.len() == 0 {
        Seq::empty()
    } else {
        let part = entries.drop_last();
        let m = entries.len() - 1;
        let before = lemma_files(part);
        let old = usable_files(part);
        let new = usable_files(entries);
        let grows = entry_rows(entries[m]) matches Ok(Some(_));
        let at = if grows {
            before.push(m)
        } else {
            before
        };
        assert forall|r: RecordsModel| #[trigger] gives_rows(entries[m], r) <==> entry_rows(
            entries[m],
        ) == Ok::<Option<RecordsModel>, Option<ErrorModel>>(Some(r)) by {}
        assert forall|k: int| 0 <= k < at.len() implies 0 <= #[trigger] at[k] < entries.len()
            && gives_rows(entries[at[k]], new[k]) by {
            if k < before.len() {
                assert(at[k] == before[k]);
                assert(new[k] == old[k]);
                assert(part[before[k]] == entries[at[k]]);
            } else {
                assert(entry_rows(entries[m]) == Ok::<Option<RecordsModel>, Option<ErrorModel>>(
                    Some(new[k]),
                ));
            }
        }
        assert forall|i: int, r: RecordsModel| 0 <= i < entries.len() && #[trigger] gives_rows(
            entries[i],
            r,
        ) implies at.contains(i) by {
            if i < m {
                assert(part[i] == entries[i]);
                assert(gives_rows(part[i], r));
                let k = choose|k: int| 0 <= k < before.len() && before[k] == i;
                assert(at[k] == i);
            } else {
                assert(at[before.len() as int] == m);
            }
        }
        assert forall|i: int, j: int| 0 <= i < j < at.len() implies #[trigger] at[i]
            < #[trigger] at[j] by {
            assert(at[i] == before[i]);
            if j < before.len() {
                assert(at[j] == before[j]);
            }
        }
        at
    }
}

/// Of the entries of an archive all files of companies are used that can be read, in their order,
/// and no others.
pub proof fn law_usable_files_are_used(entries: Seq<EntryModel>)
    ensures
        exists|at: Seq<int>| #[trigger] are_files_of(usable_files(entries), at, entries),
{
    let at = lemma_files(entries);
}

/// A batch goes out as soon as it has enough rows, and not before; it then holds all the rows that
/// waited and those of the last file. Fewer rows than make a batch ever wait.
pub proof fn law_full_batches_go_out(
    run: RunModel,
    cik: nat,
    rows: nat,
    values: Seq<Seq<JsonModel>>,
    json_bytes: nat,
)
    requires
        run.buffer.ciks.len() < BATCH_TARGET_ROWS,
    ensures
        ({
            let (after, batch) = run_after(run, cik, rows, values, json_bytes);
            let all = run.buffer.ciks + Seq::new(rows, |i: int| cik as u64);
            &&& batch is Some <==> all.len() >= BATCH_TARGET_ROWS
            &&& after.buffer.ciks.len() < BATCH_TARGET_ROWS
            &&& match batch {
                Some(b) => b.ciks == all && after.buffer.ciks.len() == 0 && after.buffer.files == 0
                    && after.buffer.json_bytes == 0 && b.files == capped(
                    run.buffer.files as int + 1,
                ),
                None => after.buffer.ciks == all && after.buffer.files == capped(
                    run.buffer.files as int + 1,
                ),
            }
        }),
{
}

/// Whether `at` names, in order, the names of companies' files.
pub open spec fn names_companies(at: Seq<int>, names: Seq<Seq<char>>) -> bool {
    &&& forall|i: int, j: int| 0 <= i < j < at.len() ==> #[trigger] at[i] < #[trigger] at[j]
    &&& forall|i: int|
        0 <= i < names.len() ==> (#[trigger] at.contains(i) <==> "CIK"@.is_prefix_of(names[i]))
    &&& forall|k: int| 0 <= k < at.len() ==> 0 <= #[trigger] at[k] < names.len()
}

proof fn lemma_cik_names(names: Seq<Seq<char>>) -> (at: Seq<int>)
    ensures
        names_companies(at, names),
        cik_names(names).len() == at.len(),
        forall|k: int| 0 <= k < at.len() ==> #[trigger] cik_names(names)[k] == names[at[k]],
    decreases names.len(),
{
    if names.len() == 0 {
        Seq::empty()
    } else {
        let part = names.drop_last();
        let m = names.len() - 1;
        let before = lemma_cik_names(part);
        let grows = "CIK"@.is_prefix_of(names[m]);
        let at = if grows {
            before.push(m)
        } else {
            before
        };
        let old = cik_names(part);
        let new = cik_names(names);
        assert(names.last() == names[m]);
        assert forall|i: int| 0 <= i < names.len() implies (#[trigger] at.contains(i)
            <==> "CIK"@.is_prefix_of(names[i])) by {
            if i < m {
                assert(before.contains(i) <==> "CIK"@.is_prefix_of(part[i]));
                if before.contains(i) {
                    let k = choose|k: int| 0 <= k < before.len() && before[k] == i;
                    assert(at[k] == i);
                }
                if at.contains(i) {
                    let k = choose|k: int| 0 <= k < at.len() && at[k] == i;
                    assert(before[k] == i);
                }
            } else {
                if at.contains(i) {
                    let k = choose|k: int| 0 <= k < at.len() && at[k] == i;
                    if k < before.len() {
                        assert(before[k] < m);
                    }
                }
                if grows {
                    assert(at[before.len() as int] == m);
                }
            }
        }
        assert forall|i: int, j: int| 0 <= i < j < at.len() implies #[trigger] at[i]
            < #[trigger] at[j] by {
            assert(at[i] == before[i]);
            if j < before.len() {
                assert(at[j] == before[j]);
            }
        }
        assert forall|k: int| 0 <= k < at.len() implies #[trigger] new[k] == names[at[k]] by {
            if k < before.len() {
                assert(new[k] == old[k]);
                assert(old[k] == part[before[k]]);
            }
        }
        at
    }
}

/// The files of companies are those whose names begin with `CIK`, in their order.
pub proof fn law_company_files_are_named(names: Seq<Seq<char>>)
    ensures
        exists|at: Seq<int>|
            #[trigger] names_companies(at, names) && cik_names(names).len() == at.len() && forall|
                k: int,
            |
                0 <= k < at.len() ==> #[trigger] cik_names(names)[k] == names[at[k]],
{
    let at = lemma_cik_names(names);
}

/// A double that is too large for a machine word is read as the largest, one below one as zero, and
/// one that is a whole number as that.
pub proof fn law_doubles_are_bounded(bits: u64)
    ensures
        ({
            let exponent = bits as nat / 0x10_0000_0000_0000;
            let significand = (0x10_0000_0000_0000 + bits as nat % 0x10_0000_0000_0000) as nat;
            &&& exponent < 1023 ==> double_to_u64(bits) == 0
            &&& exponent >= 2048 ==> double_to_u64(bits) == 0
            &&& 1087 <= exponent < 2047 ==> double_to_u64(bits) == u64::MAX
            &&& 1075 <= exponent < 1087 ==> double_to_u64(bits) == significand * pow2(
                (exponent - 1075) as nat,
            )
        }),
{
    let exponent = bits as nat / 0x10_0000_0000_0000;
    if exponent < 2048 {
        assert(exponent % 2048 == exponent);
    }
}

/// A whole number is read as it is, and one below zero that is no double as zero.
pub proof fn law_whole_numbers_are_read(n: NumberModel)
    ensures
        n.unsigned matches Some(u) ==> value_u64(JsonModel::Number(n)) == u,
        n.unsigned is None && (n.signed matches Some(i) && i >= 0) ==> value_u64(
            JsonModel::Number(n),
        ) == n.signed->0,
        n.unsigned is None && n.double_bits is None && (n.signed matches Some(i) && i < 0)
            ==> value_u64(JsonModel::Number(n)) == 0,
        n.signed matches Some(i) ==> (value_bool(JsonModel::Number(n)) <==> i != 0),
        n.signed is None && n.unsigned is Some ==> (value_bool(JsonModel::Number(n)) <==> n.unsigned
            != Some(0u64)),
{
}

/// Of texts, only those that say so are true; what is neither a text, a number nor a truth value
/// is not.
pub proof fn law_texts_say_yes(s: Seq<char>, b: bool)
    ensures
        value_bool(JsonModel::Text(s)) <==> s == "1"@ || s == "true"@ || s == "TRUE"@ || s
            == "True"@,
        value_bool(JsonModel::Bool(b)) == b,
        !value_bool(JsonModel::Null),
{
}

/// A table of filings has their companies, accession numbers, dates and forms under these names.
pub proof fn law_records_are_named(r: RecordsModel)
    ensures
        records_table(r).len() == 4,
        records_table(r).contains(("cik"@, ColumnModel::UInt64(r.ciks))),
        records_table(r).contains(("accessionNumber"@, ColumnModel::Utf8(r.accession_numbers))),
        records_table(r).contains(("filingDate"@, ColumnModel::Utf8(r.filing_dates))),
        records_table(r).contains(("form"@, ColumnModel::Utf8(r.forms))),
{
    let t = records_table(r);
    assert(t[0] == ("cik"@, ColumnModel::UInt64(r.ciks)));
    assert(t[1] == ("accessionNumber"@, ColumnModel::Utf8(r.accession_numbers)));
    assert(t[2] == ("filingDate"@, ColumnModel::Utf8(r.filing_dates)));
    assert(t[3] == ("form"@, ColumnModel::Utf8(r.forms)));
}

/// A batch as a table has the companies first, and then the columns under the names that were
/// chosen, in their order.
pub proof fn law_batches_are_named(b: BufferModel, columns: Seq<(Seq<char>, ColumnKind)>)
    requires
        fits_columns(b, columns),
    ensures
        table_of(b, columns).len() == columns.len() + 1,
        table_of(b, columns)[0] == ("cik"@, ColumnModel::UInt64(b.ciks)),
        forall|k: int|
            0 <= k < columns.len() ==> table_of(b, columns)[k + 1] == (
                #[trigger] columns[k].0,
                b.columns[k],
            ),
{
}

} // verus!
