//! What a run through an archive writes, with one worker and with several.
use vstd::prelude::*;
use vstd::seq_lib::{lemma_flatten_concat, lemma_multiset_commutative};

use crate::construct_submissions_metadata::{
    batch_count, cik_names, column_len, dealt, emptied_buffer, empty_buffer, file_batch, file_rows,
    lemma_column_count, lemma_dealt_len, rectangular, run_after, with_jsons, with_rows,
    BufferModel, ColumnKind, ColumnModel, ConstructSubmissionsMetadataStats, RunModel,
};
use crate::json::{value_bool, value_text, value_u64, JsonModel};
use crate::submissions::{capped, filings_of, is_cik_name, ErrorModel};

verus! {

// ---------------------------------------------------------------------------
// Rows
// ---------------------------------------------------------------------------

pub enum CellModel {
    Utf8(Seq<char>),
    UInt64(u64),
    Boolean(bool),
}

/// A row: the number of the company, and a cell for each column.
pub struct RowModel {
    pub cik: u64,
    pub cells: Seq<CellModel>,
}

/// The cell of a column in the row `i`.
pub open spec fn cell_at(c: ColumnModel, i: int) -> CellModel {
    match c {
        ColumnModel::Utf8(s) => CellModel::Utf8(s[i]),
        ColumnModel::UInt64(s) => CellModel::UInt64(s[i]),
        ColumnModel::Boolean(s) => CellModel::Boolean(s[i]),
    }
}

/// The cell that a value makes in a column of the given kind.
pub open spec fn cell_of(kind: ColumnKind, value: JsonModel) -> CellModel {
    match kind {
        ColumnKind::Utf8 => CellModel::Utf8(value_text(value)),
        ColumnKind::UInt64 => CellModel::UInt64(value_u64(value) as u64),
        ColumnKind::Boolean => CellModel::Boolean(value_bool(value)),
    }
}

pub open spec fn row_at(b: BufferModel, i: int) -> RowModel {
    RowModel { cik: b.ciks[i], cells: Seq::new(b.columns.len(), |k: int| cell_at(b.columns[k], i)) }
}

/// The rows in a buffer.
pub open spec fn rows_of(b: BufferModel) -> Seq<RowModel> {
    Seq::new(b.ciks.len(), |i: int| row_at(b, i))
}

/// What an archive holds under a name: what the file says, and how many bytes it takes.
pub struct FileModel {
    pub data: Option<JsonModel>,
    pub json_bytes: nat,
}

/// The rows that the values of a file make.
pub open spec fn value_rows(
    cik: nat,
    n: nat,
    values: Seq<Seq<JsonModel>>,
    columns: Seq<(Seq<char>, ColumnKind)>,
) -> Seq<RowModel> {
    Seq::new(
        n,
        |i: int|
            RowModel {
                cik: cik as u64,
                cells: Seq::new(columns.len(), |k: int| cell_of(columns[k].1, values[k][i])),
            },
    )
}

/// The rows of the file of the given name.
pub open spec fn rows_in_file(
    name: Seq<char>,
    contents: Map<Seq<char>, FileModel>,
    columns: Seq<(Seq<char>, ColumnKind)>,
) -> Seq<RowModel> {
    match file_rows(name, contents[name].data, columns) {
        Ok((cik, n, values)) => value_rows(cik, n, values, columns),
        Err(_) => Seq::empty(),
    }
}

/// The rows of the given files, file by file.
pub open spec fn rows_in_files(
    names: Seq<Seq<char>>,
    contents: Map<Seq<char>, FileModel>,
    columns: Seq<(Seq<char>, ColumnKind)>,
) -> Seq<RowModel> {
    names.map_values(|name: Seq<char>| rows_in_file(name, contents, columns)).flatten()
}

/// Whether a column holds values of a kind.
pub open spec fn column_is(c: ColumnModel, kind: ColumnKind) -> bool {
    match kind {
        ColumnKind::Utf8 => c is Utf8,
        ColumnKind::UInt64 => c is UInt64,
        ColumnKind::Boolean => c is Boolean,
    }
}

/// Whether a buffer has the columns that were chosen, all of them equally long.
pub open spec fn has_columns(b: BufferModel, columns: Seq<(Seq<char>, ColumnKind)>) -> bool {
    &&& rectangular(b)
    &&& b.columns.len() == columns.len()
    &&& forall|k: int|
        0 <= k < columns.len() ==> column_is(#[trigger] b.columns[k], columns[k].1)
}

proof fn lemma_cells(c: ColumnModel, kind: ColumnKind, values: Seq<JsonModel>, n: nat)
    requires
        n <= values.len(),
        column_is(c, kind),
    ensures
        column_is(with_jsons(c, values, n), kind),
        column_len(with_jsons(c, values, n)) == column_len(c) + n,
        forall|i: int|
            0 <= i < column_len(c) ==> #[trigger] cell_at(with_jsons(c, values, n), i) == cell_at(
                c,
                i,
            ),
        forall|i: int|
            column_len(c) <= i < column_len(c) + n ==> #[trigger] cell_at(
                with_jsons(c, values, n),
                i,
            ) == cell_of(kind, values[i - column_len(c)]),
    decreases n,
{
    if n > 0 {
        lemma_cells(c, kind, values, (n - 1) as nat);
        let before = with_jsons(c, values, (n - 1) as nat);
        let after = with_jsons(c, values, n);
        assert forall|i: int| 0 <= i < column_len(before) implies #[trigger] cell_at(after, i)
            == cell_at(before, i) by {}
    }
}

/// The rows of a file come behind those that a buffer holds.
proof fn lemma_rows_are_added(
    b: BufferModel,
    name: Seq<char>,
    file: FileModel,
    columns: Seq<(Seq<char>, ColumnKind)>,
)
    requires
        has_columns(b, columns),
    ensures
        file_rows(name, file.data, columns) matches Ok((cik, n, values)) ==> {
            let after = with_rows(b, cik, n, values, file.json_bytes);
            &&& has_columns(after, columns)
            &&& rows_of(after) == rows_of(b) + value_rows(cik, n, values, columns)
        },
{
    if let Ok((cik, n, values)) = file_rows(name, file.data, columns) {
        lemma_column_count(filings_of(name, file.data->0)->Ok_0, columns, 0);
        let after = with_rows(b, cik, n, values, file.json_bytes);
        let len = b.ciks.len();
        assert forall|k: int| 0 <= k < columns.len() implies {
            &&& column_is(#[trigger] after.columns[k], columns[k].1)
            &&& column_len(after.columns[k]) == after.ciks.len()
            &&& forall|i: int|
                0 <= i < len ==> #[trigger] cell_at(after.columns[k], i) == cell_at(
                    b.columns[k],
                    i,
                )
            &&& forall|i: int|
                len <= i < len + n ==> #[trigger] cell_at(after.columns[k], i) == cell_of(
                    columns[k].1,
                    values[k][i - len],
                )
        } by {
            assert(values[k].len() >= n);
            assert(column_is(b.columns[k], columns[k].1));
            assert(column_len(b.columns[k]) == len);
            lemma_cells(b.columns[k], columns[k].1, values[k], n);
        }
        let more = value_rows(cik, n, values, columns);
        assert forall|i: int| 0 <= i < len + n implies rows_of(after)[i] == (rows_of(b)
            + more)[i] by {
            assert(rows_of(after)[i] == row_at(after, i));
            if i < len {
                assert(row_at(after, i).cells =~= row_at(b, i).cells);
                assert((rows_of(b) + more)[i] == row_at(b, i));
            } else {
                assert((rows_of(b) + more)[i] == more[i - len]);
                assert(row_at(after, i).cells =~= more[i - len].cells);
            }
        }
        assert(rows_of(after) =~= rows_of(b) + more);
    }
}

proof fn lemma_emptied(b: BufferModel, columns: Seq<(Seq<char>, ColumnKind)>)
    requires
        has_columns(b, columns),
    ensures
        has_columns(emptied_buffer(b), columns),
        rows_of(emptied_buffer(b)) == Seq::<RowModel>::empty(),
{
    assert forall|k: int| 0 <= k < columns.len() implies column_is(
        #[trigger] emptied_buffer(b).columns[k],
        columns[k].1,
    ) by {
        assert(column_is(b.columns[k], columns[k].1));
    }
    assert(rows_of(emptied_buffer(b)) =~= Seq::<RowModel>::empty());
}

proof fn lemma_rows_in_files_add(
    a: Seq<Seq<char>>,
    b: Seq<Seq<char>>,
    contents: Map<Seq<char>, FileModel>,
    columns: Seq<(Seq<char>, ColumnKind)>,
)
    ensures
        rows_in_files(a + b, contents, columns) == rows_in_files(a, contents, columns)
            + rows_in_files(b, contents, columns),
{
    let f = |name: Seq<char>| rows_in_file(name, contents, columns);
    assert((a + b).map_values(f) =~= a.map_values(f) + b.map_values(f));
    lemma_flatten_concat(a.map_values(f), b.map_values(f));
}

proof fn lemma_rows_in_files_push(
    a: Seq<Seq<char>>,
    name: Seq<char>,
    contents: Map<Seq<char>, FileModel>,
    columns: Seq<(Seq<char>, ColumnKind)>,
)
    ensures
        rows_in_files(a.push(name), contents, columns) == rows_in_files(a, contents, columns)
            + rows_in_file(name, contents, columns),
        rows_in_files(Seq::empty(), contents, columns) == Seq::<RowModel>::empty(),
{
    let f = |name: Seq<char>| rows_in_file(name, contents, columns);
    assert(a.push(name).map_values(f) =~= a.map_values(f).push(f(name)));
    a.map_values(f).lemma_flatten_push(f(name));
    assert(Seq::<Seq<char>>::empty().map_values(f) =~= Seq::<Seq<RowModel>>::empty());
    assert(Seq::<Seq<RowModel>>::empty().flatten() =~= Seq::<RowModel>::empty());
}

// ---------------------------------------------------------------------------
// One run
// ---------------------------------------------------------------------------

/// A run with what it has handed out: the batches, the files whose rows are in each of them, and
/// the files whose rows wait.
pub struct RunOutput {
    pub run: RunModel,
    pub batches: Seq<BufferModel>,
    pub groups: Seq<Seq<Seq<char>>>,
    pub waiting: Seq<Seq<char>>,
}

pub open spec fn no_stats() -> ConstructSubmissionsMetadataStats {
    ConstructSubmissionsMetadataStats {
        files_processed: 0,
        files_skipped: 0,
        filings_written: 0,
        batches_written: 0,
    }
}

/// A run before its first file.
pub open spec fn new_output(columns: Seq<(Seq<char>, ColumnKind)>) -> RunOutput {
    RunOutput {
        run: RunModel { columns, buffer: empty_buffer(columns), stats: no_stats() },
        batches: Seq::empty(),
        groups: Seq::empty(),
        waiting: Seq::empty(),
    }
}

/// A run after one more file; a file that is not that of a company is passed over.
pub open spec fn output_after(out: RunOutput, name: Seq<char>, file: FileModel) -> Result<
    RunOutput,
    ErrorModel,
> {
    if !is_cik_name(name) {
        Ok(out)
    } else {
        match file_rows(name, file.data, out.run.columns) {
            Err(e) => Err(e),
            Ok((cik, n, values)) => {
                let (run, batch) = run_after(out.run, cik, n, values, file.json_bytes);
                Ok(
                    match batch {
                        Some(b) => RunOutput {
                            run,
                            batches: out.batches.push(b),
                            groups: out.groups.push(out.waiting.push(name)),
                            waiting: Seq::empty(),
                        },
                        None => RunOutput { run, waiting: out.waiting.push(name), ..out },
                    },
                )
            },
        }
    }
}

/// A run through the given files, up to the first that cannot be used.
pub open spec fn run_over(
    names: Seq<Seq<char>>,
    contents: Map<Seq<char>, FileModel>,
    columns: Seq<(Seq<char>, ColumnKind)>,
) -> Result<RunOutput, ErrorModel>
    decreases names.len(),
{
    if names.len() == 0 {
        Ok(new_output(columns))
    } else {
        match run_over(names.drop_last(), contents, columns) {
            Err(e) => Err(e),
            Ok(out) => output_after(out, names.last(), contents[names.last()]),
        }
    }
}

/// A run at its end: the rows that wait, if there are any, are the last batch.
pub open spec fn ended_output(out: RunOutput) -> RunOutput {
    if out.run.buffer.ciks.len() == 0 {
        out
    } else {
        RunOutput {
            run: RunModel {
                buffer: emptied_buffer(out.run.buffer),
                stats: ConstructSubmissionsMetadataStats {
                    batches_written: capped(out.run.stats.batches_written + 1) as usize,
                    ..out.run.stats
                },
                ..out.run
            },
            batches: out.batches.push(out.run.buffer),
            groups: out.groups.push(out.waiting),
            waiting: Seq::empty(),
        }
    }
}

/// The rows of the given batches, batch by batch.
pub open spec fn rows_in_batches(batches: Seq<BufferModel>) -> Seq<RowModel> {
    batches.map_values(|b: BufferModel| rows_of(b)).flatten()
}

/// Whether a batch holds the rows of the given files, at least one, and counts the files.
pub open spec fn holds_files(
    batch: BufferModel,
    files: Seq<Seq<char>>,
    contents: Map<Seq<char>, FileModel>,
    columns: Seq<(Seq<char>, ColumnKind)>,
) -> bool {
    &&& rows_of(batch) == rows_in_files(files, contents, columns)
    &&& batch.ciks.len() > 0
    &&& batch.files == capped(files.len() as int)
}

/// Whether each batch holds the rows of its files, at least one, and counts the files.
pub open spec fn is_grouped(
    batches: Seq<BufferModel>,
    groups: Seq<Seq<Seq<char>>>,
    contents: Map<Seq<char>, FileModel>,
    columns: Seq<(Seq<char>, ColumnKind)>,
) -> bool {
    &&& batches.len() == groups.len()
    &&& forall|i: int|
        0 <= i < batches.len() ==> holds_files(
            #[trigger] batches[i],
            groups[i],
            contents,
            columns,
        )
}

/// What holds of a run through the given files of companies.
pub open spec fn is_output_of(
    out: RunOutput,
    files: Seq<Seq<char>>,
    contents: Map<Seq<char>, FileModel>,
    columns: Seq<(Seq<char>, ColumnKind)>,
) -> bool {
    &&& out.run.columns == columns
    &&& has_columns(out.run.buffer, columns)
    &&& is_grouped(out.batches, out.groups, contents, columns)
    &&& rows_of(out.run.buffer) == rows_in_files(out.waiting, contents, columns)
    &&& out.run.buffer.files == capped(out.waiting.len() as int)
    &&& out.groups.flatten() + out.waiting == files
    &&& out.run.stats.files_skipped == 0
    &&& out.run.stats.batches_written == capped(out.batches.len() as int)
    &&& out.run.stats.files_processed == capped(files.len() as int)
    &&& out.run.stats.filings_written == capped(
        rows_in_files(files, contents, columns).len() as int,
    )
}

proof fn lemma_new_output(
    contents: Map<Seq<char>, FileModel>,
    columns: Seq<(Seq<char>, ColumnKind)>,
)
    ensures
        is_output_of(new_output(columns), Seq::empty(), contents, columns),
{
    let out = new_output(columns);
    lemma_rows_in_files_push(Seq::empty(), Seq::empty(), contents, columns);
    assert(rows_of(out.run.buffer) =~= Seq::<RowModel>::empty());
    assert(out.groups.flatten() =~= Seq::<Seq<char>>::empty());
    assert(out.groups.flatten() + out.waiting =~= Seq::<Seq<char>>::empty());
}

proof fn lemma_output_after(
    out: RunOutput,
    files: Seq<Seq<char>>,
    name: Seq<char>,
    contents: Map<Seq<char>, FileModel>,
    columns: Seq<(Seq<char>, ColumnKind)>,
)
    requires
        is_output_of(out, files, contents, columns),
        is_cik_name(name),
    ensures
        output_after(out, name, contents[name]) matches Ok(next) ==> is_output_of(
            next,
            files.push(name),
            contents,
            columns,
        ),
        output_after(out, name, contents[name]) is Ok <==> file_rows(
            name,
            contents[name].data,
            columns,
        ) is Ok,
{
    if let Ok((cik, n, values)) = file_rows(name, contents[name].data, columns) {
        let next = output_after(out, name, contents[name])->Ok_0;
        let filled = with_rows(out.run.buffer, cik, n, values, contents[name].json_bytes);
        lemma_rows_are_added(out.run.buffer, name, contents[name], columns);
        lemma_rows_in_files_push(files, name, contents, columns);
        lemma_rows_in_files_push(out.waiting, name, contents, columns);
        let now = out.waiting.push(name);
        assert(rows_of(filled) == rows_in_files(now, contents, columns));
        assert(out.groups.flatten() + now =~= files.push(name));
        if let Some(b) = run_after(out.run, cik, n, values, contents[name].json_bytes).1 {
            lemma_emptied(filled, columns);
            out.groups.lemma_flatten_push(now);
            assert(next.groups.flatten() + next.waiting =~= files.push(name));
            assert forall|i: int| 0 <= i < next.batches.len() implies holds_files(
                #[trigger] next.batches[i],
                next.groups[i],
                contents,
                columns,
            ) by {
                if i < out.batches.len() {
                    assert(next.batches[i] == out.batches[i]);
                    assert(next.groups[i] == out.groups[i]);
                }
            }
        }
    }
}

/// Whether every one of the given files can be used.
pub open spec fn all_usable(
    files: Seq<Seq<char>>,
    contents: Map<Seq<char>, FileModel>,
    columns: Seq<(Seq<char>, ColumnKind)>,
) -> bool {
    forall|i: int|
        0 <= i < files.len() ==> file_rows(
            #[trigger] files[i],
            contents[files[i]].data,
            columns,
        ) is Ok
}

/// A run succeeds if and only if every file of a company can be used. Then its batches are made of
/// whole files, in the order of the files: together with the rows that wait they hold the rows of
/// all files of companies, and the counts say how many files and rows those are.
pub proof fn law_runs_keep_files_whole(
    names: Seq<Seq<char>>,
    contents: Map<Seq<char>, FileModel>,
    columns: Seq<(Seq<char>, ColumnKind)>,
)
    ensures
        run_over(names, contents, columns) is Ok <==> all_usable(
            cik_names(names),
            contents,
            columns,
        ),
        run_over(names, contents, columns) matches Ok(out) ==> is_output_of(
            out,
            cik_names(names),
            contents,
            columns,
        ),
    decreases names.len(),
{
    if names.len() == 0 {
        lemma_new_output(contents, columns);
    } else {
        let earlier = names.drop_last();
        let name = names.last();
        law_runs_keep_files_whole(earlier, contents, columns);
        let files = cik_names(earlier);
        let all = cik_names(names);
        if is_cik_name(name) {
            assert(all == files.push(name));
            if let Ok(out) = run_over(earlier, contents, columns) {
                lemma_output_after(out, files, name, contents, columns);
                if file_rows(name, contents[name].data, columns) is Ok {
                    assert forall|i: int| 0 <= i < all.len() implies file_rows(
                        #[trigger] all[i],
                        contents[all[i]].data,
                        columns,
                    ) is Ok by {
                        if i < files.len() {
                            assert(all[i] == files[i]);
                        }
                    }
                } else {
                    assert(all[files.len() as int] == name);
                }
            } else {
                let i = choose|i: int|
                    0 <= i < files.len() && !(file_rows(
                        #[trigger] files[i],
                        contents[files[i]].data,
                        columns,
                    ) is Ok);
                assert(all[i] == files[i]);
            }
        }
    }
}

proof fn lemma_ended(
    out: RunOutput,
    files: Seq<Seq<char>>,
    contents: Map<Seq<char>, FileModel>,
    columns: Seq<(Seq<char>, ColumnKind)>,
)
    requires
        is_output_of(out, files, contents, columns),
    ensures
        is_output_of(ended_output(out), files, contents, columns),
        rows_in_files(ended_output(out).waiting, contents, columns) == Seq::<RowModel>::empty(),
{
    let end = ended_output(out);
    lemma_rows_in_files_push(Seq::empty(), Seq::empty(), contents, columns);
    if out.run.buffer.ciks.len() == 0 {
        assert(rows_of(out.run.buffer) =~= Seq::<RowModel>::empty());
    } else {
        lemma_emptied(out.run.buffer, columns);
        out.groups.lemma_flatten_push(out.waiting);
        assert(end.groups.flatten() + end.waiting =~= files);
        assert forall|i: int| 0 <= i < end.batches.len() implies holds_files(
            #[trigger] end.batches[i],
            end.groups[i],
            contents,
            columns,
        ) by {
            if i < out.batches.len() {
                assert(end.batches[i] == out.batches[i]);
                assert(end.groups[i] == out.groups[i]);
            }
        }
    }
}

proof fn lemma_grouped_rows(
    batches: Seq<BufferModel>,
    groups: Seq<Seq<Seq<char>>>,
    contents: Map<Seq<char>, FileModel>,
    columns: Seq<(Seq<char>, ColumnKind)>,
)
    requires
        is_grouped(batches, groups, contents, columns),
    ensures
        rows_in_batches(batches) == rows_in_files(groups.flatten(), contents, columns),
        rows_in_batches(batches).len() == 0 <==> batches.len() == 0,
    decreases batches.len(),
{
    let f = |b: BufferModel| rows_of(b);
    if batches.len() == 0 {
        lemma_rows_in_files_push(Seq::empty(), Seq::empty(), contents, columns);
        assert(batches.map_values(f) =~= Seq::<Seq<RowModel>>::empty());
        assert(rows_in_batches(batches) =~= Seq::<RowModel>::empty());
        assert(groups.flatten() =~= Seq::<Seq<char>>::empty());
    } else {
        let b = batches.drop_last();
        let g = groups.drop_last();
        assert forall|i: int| 0 <= i < b.len() implies holds_files(
            #[trigger] b[i],
            g[i],
            contents,
            columns,
        ) by {
            assert(b[i] == batches[i] && g[i] == groups[i]);
        }
        lemma_grouped_rows(b, g, contents, columns);
        assert(holds_files(
            batches[batches.len() - 1],
            groups[batches.len() - 1],
            contents,
            columns,
        ));
        b.map_values(f).lemma_flatten_push(f(batches.last()));
        assert(batches.map_values(f) =~= b.map_values(f).push(f(batches.last())));
        g.lemma_flatten_push(groups.last());
        assert(g.push(groups.last()) =~= groups);
        lemma_rows_in_files_add(g.flatten(), groups.last(), contents, columns);
    }
}

/// A run that ends well has written the rows of all files of companies, file by file, in the order
/// of the files. It counts those rows and files, and batches if and only if there are rows.
pub proof fn law_run_writes_all_rows(
    names: Seq<Seq<char>>,
    contents: Map<Seq<char>, FileModel>,
    columns: Seq<(Seq<char>, ColumnKind)>,
)
    ensures
        run_over(names, contents, columns) matches Ok(out) ==> {
            let rows = rows_in_files(cik_names(names), contents, columns);
            let stats = ended_output(out).run.stats;
            &&& rows_in_batches(ended_output(out).batches) == rows
            &&& stats.filings_written == capped(rows.len() as int)
            &&& stats.files_processed == capped(cik_names(names).len() as int)
            &&& stats.files_skipped == 0
            &&& stats.batches_written == 0 <==> stats.filings_written == 0
        },
{
    law_runs_keep_files_whole(names, contents, columns);
    if let Ok(out) = run_over(names, contents, columns) {
        let end = ended_output(out);
        lemma_ended(out, cik_names(names), contents, columns);
        lemma_grouped_rows(end.batches, end.groups, contents, columns);
        lemma_rows_in_files_add(end.groups.flatten(), end.waiting, contents, columns);
        assert(rows_in_files(end.groups.flatten(), contents, columns) + Seq::<RowModel>::empty()
            =~= rows_in_files(end.groups.flatten(), contents, columns));
    }
}

// ---------------------------------------------------------------------------
// Several workers
// ---------------------------------------------------------------------------

/// The files that the workers are given, worker by worker.
pub open spec fn files_given(workers: Seq<Seq<Seq<Seq<char>>>>) -> Seq<Seq<char>>
    decreases workers.len(),
{
    if workers.len() == 0 {
        Seq::empty()
    } else {
        files_given(workers.drop_last()) + workers.last().flatten()
    }
}

/// The run of a worker through its files, with its end.
pub open spec fn worker_output(
    batches: Seq<Seq<Seq<char>>>,
    contents: Map<Seq<char>, FileModel>,
    columns: Seq<(Seq<char>, ColumnKind)>,
) -> RunOutput {
    ended_output(run_over(batches.flatten(), contents, columns)->Ok_0)
}

/// Whether each worker gets through its files.
pub open spec fn workers_succeed(
    workers: Seq<Seq<Seq<Seq<char>>>>,
    contents: Map<Seq<char>, FileModel>,
    columns: Seq<(Seq<char>, ColumnKind)>,
) -> bool {
    forall|w: int|
        0 <= w < workers.len() ==> run_over(
            (#[trigger] workers[w]).flatten(),
            contents,
            columns,
        ) is Ok
}

/// The batches that the workers send, worker by worker.
pub open spec fn batches_sent(
    workers: Seq<Seq<Seq<Seq<char>>>>,
    contents: Map<Seq<char>, FileModel>,
    columns: Seq<(Seq<char>, ColumnKind)>,
) -> Seq<BufferModel>
    decreases workers.len(),
{
    if workers.len() == 0 {
        Seq::empty()
    } else {
        batches_sent(workers.drop_last(), contents, columns) + worker_output(
            workers.last(),
            contents,
            columns,
        ).batches
    }
}

/// The counts of a collector that has written the given batches.
pub open spec fn stats_collected(batches: Seq<BufferModel>) -> ConstructSubmissionsMetadataStats
    decreases batches.len(),
{
    if batches.len() == 0 {
        no_stats()
    } else {
        let before = stats_collected(batches.drop_last());
        ConstructSubmissionsMetadataStats {
            files_processed: capped(before.files_processed + batches.last().files) as usize,
            filings_written: capped(before.filings_written + batches.last().ciks.len()) as usize,
            batches_written: capped(before.batches_written + 1) as usize,
            ..before
        }
    }
}

proof fn lemma_given_update(workers: Seq<Seq<Seq<Seq<char>>>>, w: int, batch: Seq<Seq<char>>)
    requires
        0 <= w < workers.len(),
    ensures
        files_given(workers.update(w, workers[w].push(batch))).to_multiset() == files_given(
            workers,
        ).to_multiset().add(batch.to_multiset()),
    decreases workers.len(),
{
    broadcast use vstd::multiset::group_multiset_axioms;

    let after = workers.update(w, workers[w].push(batch));
    let front = files_given(workers.drop_last());
    let back = workers.last().flatten();
    lemma_multiset_commutative(front, back);
    if w == workers.len() - 1 {
        assert(after.drop_last() =~= workers.drop_last());
        workers[w].lemma_flatten_push(batch);
        lemma_multiset_commutative(front, back + batch);
        lemma_multiset_commutative(back, batch);
        assert(files_given(after) == front + (back + batch));
    } else {
        lemma_given_update(workers.drop_last(), w, batch);
        assert(after.drop_last() =~= workers.drop_last().update(w, workers[w].push(batch)));
        assert(after.last() == workers.last());
        lemma_multiset_commutative(files_given(after.drop_last()), back);
    }
    assert(files_given(after).to_multiset() =~= files_given(workers).to_multiset().add(
        batch.to_multiset(),
    ));
}

proof fn lemma_none_given(n: nat)
    ensures
        files_given(Seq::new(n, |w: int| Seq::<Seq<Seq<char>>>::empty())) == Seq::<
            Seq<char>,
        >::empty(),
    decreases n,
{
    let none = Seq::new(n, |w: int| Seq::<Seq<Seq<char>>>::empty());
    if n > 0 {
        lemma_none_given((n - 1) as nat);
        assert(none.drop_last() =~= Seq::new(
            (n - 1) as nat,
            |w: int| Seq::<Seq<Seq<char>>>::empty(),
        ));
        assert(none.last().flatten() =~= Seq::<Seq<char>>::empty());
        assert(files_given(none) =~= Seq::<Seq<char>>::empty());
    }
}

proof fn lemma_given(files: Seq<Seq<char>>, threads: nat, k: nat)
    requires
        threads > 0,
        k <= batch_count(files.len()),
    ensures
        files_given(dealt(files, threads, k)).to_multiset() == files.take(
            if 100 * k <= files.len() {
                100 * k as int
            } else {
                files.len() as int
            },
        ).to_multiset(),
    decreases k,
{
    let end: int = if 100 * k <= files.len() {
        100 * k as int
    } else {
        files.len() as int
    };
    if k == 0 {
        lemma_none_given(threads);
        assert(dealt(files, threads, 0) =~= Seq::new(
            threads,
            |w: int| Seq::<Seq<Seq<char>>>::empty(),
        ));
        assert(files.take(0) =~= Seq::<Seq<char>>::empty());
    } else {
        let start = 100 * (k - 1);
        lemma_given(files, threads, (k - 1) as nat);
        lemma_dealt_len(files, threads, (k - 1) as nat);
        vstd::arithmetic::div_mod::lemma_mod_bound(k - 1, threads as int);
        let batch = file_batch(files, k - 1);
        lemma_given_update(
            dealt(files, threads, (k - 1) as nat),
            (k - 1) % threads as int,
            batch,
        );
        lemma_multiset_commutative(files.take(start), batch);
        assert(files.take(start) + batch =~= files.take(end));
    }
}

/// The workers are given every file once.
pub proof fn law_each_file_is_given_once(files: Seq<Seq<char>>, threads: nat)
    requires
        threads > 0,
    ensures
        files_given(dealt(files, threads, batch_count(files.len()))).to_multiset()
            == files.to_multiset(),
{
    lemma_given(files, threads, batch_count(files.len()));
    assert(files.take(files.len() as int) =~= files);
}

proof fn lemma_file_of_worker(workers: Seq<Seq<Seq<Seq<char>>>>, w: int, i: int)
    requires
        0 <= w < workers.len(),
        0 <= i < workers[w].flatten().len(),
    ensures
        files_given(workers).contains(workers[w].flatten()[i]),
    decreases workers.len(),
{
    let front = files_given(workers.drop_last());
    let back = workers.last().flatten();
    let all = files_given(workers);
    if w == workers.len() - 1 {
        assert(all[front.len() + i] == back[i]);
    } else {
        lemma_file_of_worker(workers.drop_last(), w, i);
        let name = workers[w].flatten()[i];
        let j = choose|j: int| 0 <= j < front.len() && front[j] == name;
        assert(all[j] == name);
    }
}

proof fn lemma_worker_of_file(workers: Seq<Seq<Seq<Seq<char>>>>, name: Seq<char>)
    requires
        files_given(workers).contains(name),
    ensures
        exists|w: int|
            0 <= w < workers.len() && (#[trigger] workers[w]).flatten().contains(name),
    decreases workers.len(),
{
    let front = files_given(workers.drop_last());
    let back = workers.last().flatten();
    let all = files_given(workers);
    let j = choose|j: int| 0 <= j < all.len() && all[j] == name;
    if j < front.len() {
        assert(front[j] == name);
        lemma_worker_of_file(workers.drop_last(), name);
        let w = choose|w: int|
            0 <= w < workers.len() - 1 && (#[trigger] workers.drop_last()[w]).flatten().contains(
                name,
            );
        assert(workers[w] == workers.drop_last()[w]);
    } else {
        assert(back[j - front.len()] == name);
        assert(workers[workers.len() - 1].flatten().contains(name));
    }
}

proof fn lemma_cik_names(names: Seq<Seq<char>>)
    ensures
        forall|i: int|
            0 <= i < cik_names(names).len() ==> is_cik_name(#[trigger] cik_names(names)[i]),
        (forall|i: int| 0 <= i < names.len() ==> is_cik_name(#[trigger] names[i])) ==> cik_names(
            names,
        ) == names,
    decreases names.len(),
{
    if names.len() > 0 {
        lemma_cik_names(names.drop_last());
        let earlier = cik_names(names.drop_last());
        assert forall|i: int| 0 <= i < cik_names(names).len() implies is_cik_name(
            #[trigger] cik_names(names)[i],
        ) by {
            if i < earlier.len() {
                assert(cik_names(names)[i] == earlier[i]);
            }
        }
        if forall|i: int| 0 <= i < names.len() ==> is_cik_name(#[trigger] names[i]) {
            assert forall|i: int| 0 <= i < names.len() - 1 implies is_cik_name(
                #[trigger] names.drop_last()[i],
            ) by {
                assert(names.drop_last()[i] == names[i]);
            }
            assert(is_cik_name(names[names.len() - 1]));
            assert(cik_names(names) =~= names);
        }
    } else {
        assert(cik_names(names) =~= names);
    }
}

/// All that the workers are given are files of companies.
proof fn lemma_workers_have_cik_files(
    names: Seq<Seq<char>>,
    workers: Seq<Seq<Seq<Seq<char>>>>,
    w: int,
)
    requires
        files_given(workers).to_multiset() == cik_names(names).to_multiset(),
        0 <= w < workers.len(),
    ensures
        cik_names(workers[w].flatten()) == workers[w].flatten(),
        forall|i: int|
            0 <= i < workers[w].flatten().len() ==> cik_names(names).contains(
                #[trigger] workers[w].flatten()[i],
            ),
{
    broadcast use vstd::seq_lib::to_multiset_contains;

    let own = workers[w].flatten();
    let files = cik_names(names);
    lemma_cik_names(names);
    lemma_cik_names(own);
    assert forall|i: int| 0 <= i < own.len() implies files.contains(#[trigger] own[i])
        && is_cik_name(own[i]) by {
        lemma_file_of_worker(workers, w, i);
        assert(files_given(workers).to_multiset().count(own[i]) > 0);
        assert(files.to_multiset().count(own[i]) > 0);
        let j = choose|j: int| 0 <= j < files.len() && files[j] == own[i];
        assert(is_cik_name(files[j]));
    }
}

/// Several workers get through an archive if and only if one does: a file that cannot be used ends
/// the run in both cases.
pub proof fn law_workers_fail_as_one(
    names: Seq<Seq<char>>,
    threads: nat,
    contents: Map<Seq<char>, FileModel>,
    columns: Seq<(Seq<char>, ColumnKind)>,
)
    requires
        threads > 0,
    ensures
        run_over(names, contents, columns) is Ok <==> workers_succeed(
            dealt(cik_names(names), threads, batch_count(cik_names(names).len())),
            contents,
            columns,
        ),
{
    broadcast use vstd::seq_lib::to_multiset_contains;

    let files = cik_names(names);
    let workers = dealt(files, threads, batch_count(files.len()));
    law_each_file_is_given_once(files, threads);
    law_runs_keep_files_whole(names, contents, columns);
    assert forall|w: int| 0 <= w < workers.len() implies (run_over(
        (#[trigger] workers[w]).flatten(),
        contents,
        columns,
    ) is Ok <==> all_usable(workers[w].flatten(), contents, columns)) by {
        lemma_workers_have_cik_files(names, workers, w);
        law_runs_keep_files_whole(workers[w].flatten(), contents, columns);
    }
    if all_usable(files, contents, columns) {
        assert forall|w: int| 0 <= w < workers.len() implies run_over(
            (#[trigger] workers[w]).flatten(),
            contents,
            columns,
        ) is Ok by {
            let own = workers[w].flatten();
            lemma_workers_have_cik_files(names, workers, w);
            assert forall|i: int| 0 <= i < own.len() implies file_rows(
                #[trigger] own[i],
                contents[own[i]].data,
                columns,
            ) is Ok by {
                let j = choose|j: int| 0 <= j < files.len() && files[j] == own[i];
                assert(file_rows(files[j], contents[files[j]].data, columns) is Ok);
            }
        }
    }
    if workers_succeed(workers, contents, columns) {
        assert forall|i: int| 0 <= i < files.len() implies file_rows(
            #[trigger] files[i],
            contents[files[i]].data,
            columns,
        ) is Ok by {
            assert(files.to_multiset().count(files[i]) > 0);
            assert(files_given(workers).to_multiset().count(files[i]) > 0);
            lemma_worker_of_file(workers, files[i]);
            let w = choose|w: int|
                0 <= w < workers.len() && (#[trigger] workers[w]).flatten().contains(files[i]);
            let own = workers[w].flatten();
            let j = choose|j: int| 0 <= j < own.len() && own[j] == files[i];
            assert(all_usable(own, contents, columns));
            assert(file_rows(own[j], contents[own[j]].data, columns) is Ok);
        }
    }
}

proof fn lemma_flatten_remove(groups: Seq<Seq<Seq<char>>>, i: int)
    requires
        0 <= i < groups.len(),
    ensures
        groups.flatten().to_multiset() == groups.remove(i).flatten().to_multiset().add(
            groups[i].to_multiset(),
        ),
{
    broadcast use vstd::multiset::group_multiset_axioms;

    let front = groups.take(i);
    let back = groups.skip(i + 1);
    assert(groups =~= front.push(groups[i]) + back);
    assert(groups.remove(i) =~= front + back);
    lemma_flatten_concat(front.push(groups[i]), back);
    lemma_flatten_concat(front, back);
    front.lemma_flatten_push(groups[i]);
    lemma_multiset_commutative(front.flatten() + groups[i], back.flatten());
    lemma_multiset_commutative(front.flatten(), groups[i]);
    lemma_multiset_commutative(front.flatten(), back.flatten());
    assert(groups.flatten().to_multiset() =~= groups.remove(i).flatten().to_multiset().add(
        groups[i].to_multiset(),
    ));
}

/// Batches in another order hold the rows of the same files, in another order.
proof fn lemma_regroup(
    written: Seq<BufferModel>,
    batches: Seq<BufferModel>,
    groups: Seq<Seq<Seq<char>>>,
    contents: Map<Seq<char>, FileModel>,
    columns: Seq<(Seq<char>, ColumnKind)>,
) -> (regrouped: Seq<Seq<Seq<char>>>)
    requires
        written.to_multiset() == batches.to_multiset(),
        is_grouped(batches, groups, contents, columns),
    ensures
        is_grouped(written, regrouped, contents, columns),
        regrouped.flatten().to_multiset() == groups.flatten().to_multiset(),
    decreases written.len(),
{
    broadcast use vstd::seq_lib::group_to_multiset_ensures;
    broadcast use vstd::multiset::group_multiset_axioms;

    assert(written.len() == written.to_multiset().len());
    assert(batches.len() == batches.to_multiset().len());
    if written.len() == 0 {
        assert(groups =~= Seq::<Seq<Seq<char>>>::empty());
        groups
    } else {
        let last = written.last();
        assert(written.contains(last));
        assert(written.to_multiset().count(last) > 0);
        assert(batches.contains(last));
        let i = choose|i: int| 0 <= i < batches.len() && batches[i] == last;
        let others = batches.remove(i);
        let rest = groups.remove(i);
        assert(written.remove(written.len() - 1) =~= written.drop_last());
        assert(written.drop_last().to_multiset() == others.to_multiset());
        assert forall|j: int| 0 <= j < others.len() implies holds_files(
            #[trigger] others[j],
            rest[j],
            contents,
            columns,
        ) by {
            if j < i {
                assert(others[j] == batches[j] && rest[j] == groups[j]);
            } else {
                assert(others[j] == batches[j + 1] && rest[j] == groups[j + 1]);
            }
        }
        let earlier = lemma_regroup(written.drop_last(), others, rest, contents, columns);
        let regrouped = earlier.push(groups[i]);
        assert forall|j: int| 0 <= j < written.len() implies holds_files(
            #[trigger] written[j],
            regrouped[j],
            contents,
            columns,
        ) by {
            if j < written.len() - 1 {
                assert(written.drop_last()[j] == written[j]);
                assert(regrouped[j] == earlier[j]);
            } else {
                assert(holds_files(batches[i], groups[i], contents, columns));
            }
        }
        earlier.lemma_flatten_push(groups[i]);
        lemma_multiset_commutative(earlier.flatten(), groups[i]);
        lemma_flatten_remove(groups, i);
        regrouped
    }
}

/// How many rows files have does not depend on their order.
proof fn lemma_row_count(
    a: Seq<Seq<char>>,
    b: Seq<Seq<char>>,
    contents: Map<Seq<char>, FileModel>,
    columns: Seq<(Seq<char>, ColumnKind)>,
)
    requires
        a.to_multiset() == b.to_multiset(),
    ensures
        rows_in_files(a, contents, columns).len() == rows_in_files(b, contents, columns).len(),
    decreases a.len(),
{
    broadcast use vstd::seq_lib::group_to_multiset_ensures;
    broadcast use vstd::multiset::group_multiset_axioms;

    assert(a.len() == a.to_multiset().len());
    assert(b.len() == b.to_multiset().len());
    if a.len() == 0 {
        assert(a =~= b);
    } else {
        let name = a.last();
        let rest = a.drop_last();
        assert(a.contains(name));
        assert(a.to_multiset().count(name) > 0);
        assert(b.contains(name));
        let i = choose|i: int| 0 <= i < b.len() && b[i] == name;
        assert(a.remove(a.len() - 1) =~= rest);
        assert(rest.to_multiset() == b.remove(i).to_multiset());
        lemma_row_count(rest, b.remove(i), contents, columns);
        lemma_rows_in_files_push(rest, name, contents, columns);
        assert(rest.push(name) =~= a);
        let front = b.take(i);
        let back = b.skip(i + 1);
        assert(b =~= front.push(name) + back);
        assert(b.remove(i) =~= front + back);
        lemma_rows_in_files_add(front.push(name), back, contents, columns);
        lemma_rows_in_files_add(front, back, contents, columns);
        lemma_rows_in_files_push(front, name, contents, columns);
    }
}

proof fn lemma_files_collected(
    batches: Seq<BufferModel>,
    groups: Seq<Seq<Seq<char>>>,
    contents: Map<Seq<char>, FileModel>,
    columns: Seq<(Seq<char>, ColumnKind)>,
)
    requires
        is_grouped(batches, groups, contents, columns),
    ensures
        stats_collected(batches).files_processed == capped(groups.flatten().len() as int),
    decreases batches.len(),
{
    if batches.len() == 0 {
        assert(groups.flatten() =~= Seq::<Seq<char>>::empty());
    } else {
        let b = batches.drop_last();
        let g = groups.drop_last();
        assert forall|i: int| 0 <= i < b.len() implies holds_files(
            #[trigger] b[i],
            g[i],
            contents,
            columns,
        ) by {
            assert(b[i] == batches[i] && g[i] == groups[i]);
        }
        lemma_files_collected(b, g, contents, columns);
        assert(holds_files(
            batches[batches.len() - 1],
            groups[batches.len() - 1],
            contents,
            columns,
        ));
        g.lemma_flatten_push(groups.last());
        assert(g.push(groups.last()) =~= groups);
    }
}

proof fn lemma_stats_collected(batches: Seq<BufferModel>)
    ensures
        stats_collected(batches).files_skipped == 0,
        stats_collected(batches).filings_written == capped(rows_in_batches(batches).len() as int),
    decreases batches.len(),
{
    let f = |b: BufferModel| rows_of(b);
    if batches.len() == 0 {
        assert(batches.map_values(f) =~= Seq::<Seq<RowModel>>::empty());
        assert(rows_in_batches(batches) =~= Seq::<RowModel>::empty());
    } else {
        let earlier = batches.drop_last();
        lemma_stats_collected(earlier);
        earlier.map_values(f).lemma_flatten_push(f(batches.last()));
        assert(batches.map_values(f) =~= earlier.map_values(f).push(f(batches.last())));
    }
}

/// What the workers send: their files and those of the rows that they send are the same.
proof fn lemma_sent(
    workers: Seq<Seq<Seq<Seq<char>>>>,
    contents: Map<Seq<char>, FileModel>,
    columns: Seq<(Seq<char>, ColumnKind)>,
) -> (r: (Seq<Seq<Seq<char>>>, Seq<Seq<char>>))
    requires
        workers_succeed(workers, contents, columns),
        forall|w: int|
            0 <= w < workers.len() ==> cik_names((#[trigger] workers[w]).flatten())
                == workers[w].flatten(),
    ensures
        is_grouped(batches_sent(workers, contents, columns), r.0, contents, columns),
        rows_in_files(r.1, contents, columns) == Seq::<RowModel>::empty(),
        (r.0.flatten() + r.1).to_multiset() == files_given(workers).to_multiset(),
    decreases workers.len(),
{
    broadcast use vstd::multiset::group_multiset_axioms;

    if workers.len() == 0 {
        let none = Seq::<Seq<Seq<char>>>::empty();
        let left = Seq::<Seq<char>>::empty();
        lemma_rows_in_files_push(left, Seq::empty(), contents, columns);
        assert(none.flatten() + left =~= left);
        (none, left)
    } else {
        let others = workers.drop_last();
        assert forall|w: int| 0 <= w < others.len() implies cik_names(
            (#[trigger] others[w]).flatten(),
        ) == others[w].flatten() && run_over(others[w].flatten(), contents, columns) is Ok by {
            assert(others[w] == workers[w]);
        }
        let (groups, left) = lemma_sent(others, contents, columns);
        let last = workers[workers.len() - 1];
        let own = last.flatten();
        law_runs_keep_files_whole(own, contents, columns);
        let out = run_over(own, contents, columns)->Ok_0;
        lemma_ended(out, own, contents, columns);
        let end = ended_output(out);
        let batches = batches_sent(others, contents, columns);
        let all_batches = batches + end.batches;
        let all_groups = groups + end.groups;
        let all_left = left + end.waiting;
        assert(all_batches == batches_sent(workers, contents, columns));
        assert forall|i: int| 0 <= i < all_batches.len() implies holds_files(
            #[trigger] all_batches[i],
            all_groups[i],
            contents,
            columns,
        ) by {
            if i < batches.len() {
                assert(all_batches[i] == batches[i] && all_groups[i] == groups[i]);
            } else {
                let j = i - batches.len();
                assert(all_batches[i] == end.batches[j] && all_groups[i] == end.groups[j]);
            }
        }
        lemma_rows_in_files_add(left, end.waiting, contents, columns);
        assert(Seq::<RowModel>::empty() + Seq::<RowModel>::empty() =~= Seq::<RowModel>::empty());
        lemma_flatten_concat(groups, end.groups);
        lemma_multiset_commutative(all_groups.flatten(), all_left);
        lemma_multiset_commutative(groups.flatten(), end.groups.flatten());
        lemma_multiset_commutative(left, end.waiting);
        lemma_multiset_commutative(groups.flatten(), left);
        lemma_multiset_commutative(end.groups.flatten(), end.waiting);
        lemma_multiset_commutative(files_given(others), own);
        assert((all_groups.flatten() + all_left).to_multiset() =~= files_given(
            workers,
        ).to_multiset());
        (all_groups, all_left)
    }
}

/// In whatever order the batches of the workers are written, what is written is, file by file, the
/// rows of the same files that one run writes: the files may come in another order, but the rows of
/// each stand together and in their order. As many rows are counted as by one run, no more files
/// are, and none is skipped.
pub proof fn law_workers_write_the_same_rows(
    names: Seq<Seq<char>>,
    threads: nat,
    contents: Map<Seq<char>, FileModel>,
    columns: Seq<(Seq<char>, ColumnKind)>,
    written: Seq<BufferModel>,
)
    requires
        threads > 0,
        run_over(names, contents, columns) is Ok,
        written.to_multiset() == batches_sent(
            dealt(cik_names(names), threads, batch_count(cik_names(names).len())),
            contents,
            columns,
        ).to_multiset(),
    ensures
        exists|order: Seq<Seq<char>>|
            order.to_multiset() == cik_names(names).to_multiset() && rows_in_batches(written)
                == #[trigger] rows_in_files(order, contents, columns),
        ({
            let alone = ended_output(run_over(names, contents, columns)->Ok_0);
            &&& rows_in_batches(alone.batches) == rows_in_files(
                cik_names(names),
                contents,
                columns,
            )
            &&& rows_in_batches(written).len() == rows_in_batches(alone.batches).len()
            &&& stats_collected(written).filings_written == alone.run.stats.filings_written
            &&& stats_collected(written).files_processed <= alone.run.stats.files_processed
            &&& stats_collected(written).files_skipped == 0
            &&& alone.run.stats.files_skipped == 0
        }),
{
    broadcast use vstd::multiset::group_multiset_axioms;

    let files = cik_names(names);
    let workers = dealt(files, threads, batch_count(files.len()));
    law_each_file_is_given_once(files, threads);
    law_workers_fail_as_one(names, threads, contents, columns);
    assert forall|w: int| 0 <= w < workers.len() implies cik_names(
        (#[trigger] workers[w]).flatten(),
    ) == workers[w].flatten() by {
        lemma_workers_have_cik_files(names, workers, w);
    }
    let (groups, left) = lemma_sent(workers, contents, columns);
    let batches = batches_sent(workers, contents, columns);
    let regrouped = lemma_regroup(written, batches, groups, contents, columns);
    let order = regrouped.flatten() + left;
    lemma_grouped_rows(written, regrouped, contents, columns);
    lemma_rows_in_files_add(regrouped.flatten(), left, contents, columns);
    assert(rows_in_batches(written) + Seq::<RowModel>::empty() =~= rows_in_batches(written));
    lemma_multiset_commutative(regrouped.flatten(), left);
    lemma_multiset_commutative(groups.flatten(), left);
    assert(order.to_multiset() =~= files.to_multiset());
    assert(rows_in_batches(written) == rows_in_files(order, contents, columns));
    lemma_row_count(order, files, contents, columns);
    law_run_writes_all_rows(names, contents, columns);
    lemma_stats_collected(written);
    lemma_files_collected(written, regrouped, contents, columns);
    vstd::seq_lib::to_multiset_len(order);
    vstd::seq_lib::to_multiset_len(files);
    assert(regrouped.flatten().len() <= files.len());
}

} // verus!
