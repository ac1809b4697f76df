//! A table while a document is read.
use indexmap::IndexMap;
use vstd::prelude::*;

use crate::collections::{entry_value, text_entries, text_pairs, with_entry};
use crate::numeral::{decimal, decimal_string};
use crate::ordered_map::pair_texts;
use crate::text::{
    copy_texts, join, join_strings, opt_text, same_str, texts, trim, trim_str,
};
use crate::xml2tables::maps::{
    cell_pairs, column_values, get_cell, get_values, new_row, new_values, row_entries, row_pairs,
    set_cell, set_values, value_entries, value_pairs,
};
use crate::xml2tables::paths::{at_or_below, is_at_or_below};
use crate::xml2tables::specs::{ResolvedModel, ResolvedTableSpec};
use crate::xml2tables::types::{XmlRow, XmlTable};

verus! {

// ---------------------------------------------------------------------------
// Model
// ---------------------------------------------------------------------------

/// The values that were collected for each column.
pub type Values = Seq<(Seq<char>, Seq<Seq<char>>)>;

/// The cells of a row.
pub type Row = Seq<(Seq<char>, Option<Seq<char>>)>;

/// Where a value goes.
#[derive(Debug, Clone, Copy, PartialEq, Eq, Structural)]
pub enum ValueTarget {
    /// Into the next row.
    Column,
    /// Into all rows that have no value for the column.
    GlobalCarry,
    /// Into all rows of the context that have no value for the column.
    ContextCarry,
}

/// Whether a carried path belongs to the context.
pub open spec fn in_context(context_path: Option<Seq<char>>, path: Seq<char>) -> bool {
    match context_path {
        Some(c) => at_or_below(path, c),
        None => false,
    }
}

/// The columns of the first `n` entries, with no values.
pub open spec fn fresh_columns(s: Seq<(Seq<char>, Seq<char>)>, n: nat) -> Values
    decreases n,
{
    if n == 0 || n > s.len() {
        Seq::empty()
    } else {
        with_entry(fresh_columns(s, (n - 1) as nat), s[n - 1].1, Seq::empty())
    }
}

/// The columns of those of the first `n` entries that belong to the context, or of those that do
/// not, with no values.
pub open spec fn fresh_carry(
    s: Seq<(Seq<char>, Seq<char>)>,
    context_path: Option<Seq<char>>,
    inside: bool,
    n: nat,
) -> Values
    decreases n,
{
    if n == 0 || n > s.len() {
        Seq::empty()
    } else {
        let earlier = fresh_carry(s, context_path, inside, (n - 1) as nat);
        if in_context(context_path, s[n - 1].0) == inside {
            with_entry(earlier, s[n - 1].1, Seq::empty())
        } else {
            earlier
        }
    }
}

/// The first `n` columns with no values.
pub open spec fn without_values(values: Values, n: nat) -> Values
    decreases n,
{
    if n == 0 || n > values.len() {
        Seq::empty()
    } else {
        with_entry(without_values(values, (n - 1) as nat), values[n - 1].0, Seq::empty())
    }
}

/// The values with one more for a column.
pub open spec fn with_value(values: Values, column: Seq<char>, value: Seq<char>) -> Values {
    match entry_value(values, column) {
        Some(v) => with_entry(values, column, v.push(value)),
        None => with_entry(values, column, seq![value]),
    }
}

/// A row with the values of the first `n` columns put in; with `only_if_empty` a cell that has a
/// value keeps it.
pub open spec fn with_values(row: Row, values: Values, n: nat, only_if_empty: bool) -> Row
    decreases n,
{
    if n == 0 || n > values.len() {
        row
    } else {
        let earlier = with_values(row, values, (n - 1) as nat, only_if_empty);
        let (column, v) = values[n - 1];
        if v.len() == 0 || only_if_empty && (entry_value(earlier, column) matches Some(Some(_))) {
            earlier
        } else {
            with_entry(earlier, column, Some(join(v, seq!['|'])))
        }
    }
}

/// A row with the first `n` of the given columns, all without a value.
pub open spec fn blank_row(columns: Seq<Seq<char>>, n: nat) -> Row
    decreases n,
{
    if n == 0 || n > columns.len() {
        Seq::empty()
    } else {
        with_entry(blank_row(columns, (n - 1) as nat), columns[n - 1], None)
    }
}

/// Whether a column says where a row stands rather than what it holds.
pub open spec fn is_meta(spec: ResolvedModel, column: Seq<char>) -> bool {
    column == "_table"@ || spec.row_index_col == Some(column) || spec.context_index_col == Some(
        column,
    )
}

pub open spec fn cell_counts(spec: ResolvedModel, cell: (Seq<char>, Option<Seq<char>>)) -> bool {
    !is_meta(spec, cell.0) && (cell.1 matches Some(v) && trim(v).len() > 0)
}

/// Whether a row holds anything.
pub open spec fn row_counts(spec: ResolvedModel, row: Row) -> bool {
    exists|i: int| 0 <= i < row.len() && cell_counts(spec, #[trigger] row[i])
}

/// A table while a document is read.
pub struct TableModel {
    pub spec: ResolvedModel,
    pub row_values: Values,
    pub global_carry: Values,
    pub context_carry: Values,
    pub rows: Seq<Row>,
    /// The rows of the context that is open.
    pub open_rows: Seq<int>,
    pub row_count: nat,
    pub context_count: nat,
    pub context_id: Option<nat>,
}

pub open spec fn fresh_table(spec: ResolvedModel) -> TableModel {
    TableModel {
        spec,
        row_values: fresh_columns(spec.columns, spec.columns.len()),
        global_carry: fresh_carry(spec.carry, spec.context_path, false, spec.carry.len()),
        context_carry: fresh_carry(spec.carry, spec.context_path, true, spec.carry.len()),
        rows: Seq::empty(),
        open_rows: Seq::empty(),
        row_count: 0,
        context_count: 0,
        context_id: None,
    }
}

/// A table at the beginning of a context.
pub open spec fn context_begun(t: TableModel) -> TableModel {
    TableModel {
        context_count: t.context_count + 1,
        context_id: Some(t.context_count + 1),
        open_rows: Seq::empty(),
        context_carry: without_values(t.context_carry, t.context_carry.len()),
        ..t
    }
}

/// A table with a value taken in.
pub open spec fn value_taken(
    t: TableModel,
    target: ValueTarget,
    column: Seq<char>,
    value: Seq<char>,
) -> TableModel {
    match target {
        ValueTarget::Column => TableModel {
            row_values: with_value(t.row_values, column, value),
            ..t
        },
        ValueTarget::GlobalCarry => TableModel {
            global_carry: with_value(t.global_carry, column, value),
            ..t
        },
        ValueTarget::ContextCarry => TableModel {
            context_carry: with_value(t.context_carry, column, value),
            ..t
        },
    }
}

pub open spec fn opt_number(n: Option<nat>) -> Option<Seq<char>> {
    match n {
        Some(n) => Some(decimal(n)),
        None => None,
    }
}

/// The row that a table makes of what it has collected.
pub open spec fn next_row(t: TableModel) -> Row {
    let blank = blank_row(t.spec.output_columns, t.spec.output_columns.len());
    let own = with_values(blank, t.row_values, t.row_values.len(), false);
    let global = with_values(own, t.global_carry, t.global_carry.len(), true);
    let carried = with_values(global, t.context_carry, t.context_carry.len(), true);
    let counted = match t.spec.row_index_col {
        Some(c) => with_entry(carried, c, Some(decimal(t.row_count + 1))),
        None => carried,
    };
    let placed = match t.spec.context_index_col {
        Some(c) => with_entry(counted, c, opt_number(t.context_id)),
        None => counted,
    };
    with_entry(placed, "_table"@, Some(t.spec.name))
}

/// A table at the end of a row: a row that holds nothing is dropped.
pub open spec fn row_ended(t: TableModel) -> TableModel {
    let row = next_row(t);
    let kept = row_counts(t.spec, row);
    TableModel {
        row_count: if t.spec.row_index_col is Some {
            t.row_count + 1
        } else {
            t.row_count
        },
        rows: if kept {
            t.rows.push(row)
        } else {
            t.rows
        },
        open_rows: if kept && t.spec.context_path is Some {
            t.open_rows.push(t.rows.len() as int)
        } else {
            t.open_rows
        },
        row_values: without_values(t.row_values, t.row_values.len()),
        ..t
    }
}

/// The rows with the given values put into those that the first `n` of `open` name.
pub open spec fn carried_rows(rows: Seq<Row>, open: Seq<int>, values: Values, n: nat) -> Seq<Row>
    decreases n,
{
    if n == 0 || n > open.len() {
        rows
    } else {
        let earlier = carried_rows(rows, open, values, (n - 1) as nat);
        let i = open[n - 1];
        if 0 <= i < earlier.len() {
            earlier.update(i, with_values(earlier[i], values, values.len(), true))
        } else {
            earlier
        }
    }
}

/// A table at the end of a context: its rows get what it carried.
pub open spec fn context_ended(t: TableModel) -> TableModel {
    TableModel {
        rows: carried_rows(t.rows, t.open_rows, t.context_carry, t.open_rows.len()),
        open_rows: Seq::empty(),
        context_carry: without_values(t.context_carry, t.context_carry.len()),
        context_id: None,
        ..t
    }
}

/// A table at the end of the document.
pub open spec fn table_ended(t: TableModel) -> TableModel {
    let rowed = if t.spec.explicit_row_path {
        t
    } else {
        row_ended(t)
    };
    let closed = if rowed.spec.context_path is Some && rowed.open_rows.len() > 0 {
        context_ended(rowed)
    } else {
        rowed
    };
    TableModel {
        rows: closed.rows.map_values(
            |r: Row| with_values(r, closed.global_carry, closed.global_carry.len(), true),
        ),
        ..closed
    }
}

// ---------------------------------------------------------------------------
// Values
// ---------------------------------------------------------------------------

/// Whether a carried path belongs to the context.
pub fn is_context_carry_path(context_path: &Option<String>, path: &str) -> (r: bool)
    ensures
        r == in_context(opt_text(*context_path), path@),
{
    match context_path {
        Some(c) => is_at_or_below(path, c.as_str()),
        None => false,
    }
}

fn no_values() -> (v: Vec<String>)
    ensures
        texts(v@) == Seq::<Seq<char>>::empty(),
{
    let v: Vec<String> = Vec::new();
    assert(texts(v@) =~= Seq::<Seq<char>>::empty());
    v
}

fn column_accumulator(columns: &Vec<(String, String)>) -> (m: IndexMap<String, Vec<String>>)
    ensures
        value_entries(m) == fresh_columns(pair_texts(columns@), columns@.len()),
{
    let ghost models = pair_texts(columns@);
    let mut m = new_values();
    let mut i: usize = 0;
    while i < columns.len()
        invariant
            i <= columns@.len(),
            models == pair_texts(columns@),
            value_entries(m) == fresh_columns(models, i as nat),
        decreases columns@.len() - i,
    {
        assert(models[i as int].1 == columns@[i as int].1@);
        set_values(&mut m, columns[i].1.clone(), no_values());
        i += 1;
    }
    m
}

fn carry_accumulator(
    carry: &Vec<(String, String)>,
    context_path: &Option<String>,
    inside: bool,
) -> (m: IndexMap<String, Vec<String>>)
    ensures
        value_entries(m) == fresh_carry(
            pair_texts(carry@),
            opt_text(*context_path),
            inside,
            carry@.len(),
        ),
{
    let ghost models = pair_texts(carry@);
    let ghost path = opt_text(*context_path);
    let mut m = new_values();
    let mut i: usize = 0;
    while i < carry.len()
        invariant
            i <= carry@.len(),
            models == pair_texts(carry@),
            path == opt_text(*context_path),
            value_entries(m) == fresh_carry(models, path, inside, i as nat),
        decreases carry@.len() - i,
    {
        assert(models[i as int] == (carry@[i as int].0@, carry@[i as int].1@));
        if is_context_carry_path(context_path, carry[i].0.as_str()) == inside {
            set_values(&mut m, carry[i].1.clone(), no_values());
        }
        i += 1;
    }
    m
}

/// The same columns with no values.
pub fn clear_accumulator(accumulator: &IndexMap<String, Vec<String>>) -> (m: IndexMap<
    String,
    Vec<String>,
>)
    ensures
        value_entries(m) == without_values(
            value_entries(*accumulator),
            value_entries(*accumulator).len(),
        ),
{
    let pairs = column_values(accumulator);
    let ghost all = value_entries(*accumulator);
    let mut m = new_values();
    let mut i: usize = 0;
    while i < pairs.len()
        invariant
            i <= pairs@.len(),
            value_pairs(pairs@) == all,
            value_entries(m) == without_values(all, i as nat),
        decreases pairs@.len() - i,
    {
        assert(all[i as int].0 == pairs@[i as int].0@);
        set_values(&mut m, pairs[i].0.clone(), no_values());
        i += 1;
    }
    assert(pairs@.len() == all.len());
    m
}

/// Adds a value for a column.
pub fn push_accumulator_value(
    accumulator: &mut IndexMap<String, Vec<String>>,
    column: &str,
    value: String,
)
    ensures
        value_entries(*final(accumulator)) == with_value(
            value_entries(*old(accumulator)),
            column@,
            value@,
        ),
{
    let mut values = match get_values(accumulator, column) {
        Some(v) => copy_texts(v),
        None => no_values(),
    };
    let ghost earlier = values@;
    let ghost v = value@;
    values.push(value);
    assert(texts(values@) =~= texts(earlier).push(v));
    assert(texts(earlier).len() == 0 ==> texts(values@) =~= seq![v]);
    set_values(accumulator, column.to_owned(), values);
}

/// The values with a bar between them.
pub fn join_values(values: &Vec<String>) -> (out: String)
    ensures
        out@ == join(texts(values@), seq!['|']),
{
    let bar = "|";
    proof {
        reveal_strlit("|");
        assert(bar@ =~= seq!['|']);
    }
    join_strings(values, bar)
}

/// Puts the values that were collected into a row.
pub fn apply_accumulator_to_row(
    row: &mut XmlRow,
    accumulator: &IndexMap<String, Vec<String>>,
    only_if_empty: bool,
)
    ensures
        row_entries(*final(row)) == with_values(
            row_entries(*old(row)),
            value_entries(*accumulator),
            value_entries(*accumulator).len(),
            only_if_empty,
        ),
{
    let pairs = column_values(accumulator);
    let ghost all = value_entries(*accumulator);
    let ghost start = row_entries(*row);
    let mut i: usize = 0;
    while i < pairs.len()
        invariant
            i <= pairs@.len(),
            value_pairs(pairs@) == all,
            row_entries(*row) == with_values(start, all, i as nat, only_if_empty),
        decreases pairs@.len() - i,
    {
        assert(all[i as int] == (pairs@[i as int].0@, texts(pairs@[i as int].1@)));
        let values = &pairs[i].1;
        if values.len() > 0 {
            let taken = only_if_empty && (match get_cell(row, pairs[i].0.as_str()) {
                Some(cell) => cell.is_some(),
                None => false,
            });
            if !taken {
                set_cell(row, pairs[i].0.clone(), Some(join_values(values)));
            }
        }
        i += 1;
    }
    assert(pairs@.len() == all.len());
}

fn same_option(o: &Option<String>, s: &str) -> (r: bool)
    ensures
        r == (opt_text(*o) == Some(s@)),
{
    match o {
        Some(t) => same_str(t.as_str(), s),
        None => false,
    }
}

/// Whether a row holds anything but what says where it stands.
pub fn row_has_non_meta_value(row: &XmlRow, spec: &ResolvedTableSpec) -> (r: bool)
    ensures
        r == row_counts(spec@, row_entries(*row)),
{
    let pairs = row_pairs(row);
    let ghost cells = row_entries(*row);
    let mut i: usize = 0;
    while i < pairs.len()
        invariant
            i <= pairs@.len(),
            cells == row_entries(*row),
            cell_pairs(pairs@) == cells,
            forall|j: int| 0 <= j < i ==> !cell_counts(spec@, #[trigger] cells[j]),
        decreases pairs@.len() - i,
    {
        let ghost cell = cells[i as int];
        assert(cell == (pairs@[i as int].0@, opt_text(pairs@[i as int].1)));
        let column = pairs[i].0.as_str();
        if !same_str(column, "_table") && !same_option(&spec.row_index_col, column)
            && !same_option(&spec.context_index_col, column) {
            match &pairs[i].1 {
                Some(value) => if !trim_str(value.as_str()).as_str().is_empty() {
                    assert(cell_counts(spec@, cells[i as int]));
                    return true;
                },
                None => {},
            }
        }
        assert(!cell_counts(spec@, cells[i as int]));
        i += 1;
    }
    assert(cells.len() == pairs@.len());
    false
}

// ---------------------------------------------------------------------------
// The table
// ---------------------------------------------------------------------------

/// A table while a document is read.
pub struct TableState {
    spec: ResolvedTableSpec,
    row_values: IndexMap<String, Vec<String>>,
    global_carry: IndexMap<String, Vec<String>>,
    context_carry: IndexMap<String, Vec<String>>,
    rows: Vec<XmlRow>,
    open_context_rows: Vec<usize>,
    table_row_index: usize,
    context_index: usize,
    current_context_id: Option<usize>,
}

pub open spec fn row_models(rows: Seq<XmlRow>) -> Seq<Row> {
    rows.map_values(|r: XmlRow| row_entries(r))
}

pub open spec fn index_models(v: Seq<usize>) -> Seq<int> {
    v.map_values(|i: usize| i as int)
}

impl View for TableState {
    type V = TableModel;

    closed spec fn view(&self) -> TableModel {
        TableModel {
            spec: self.spec@,
            row_values: value_entries(self.row_values),
            global_carry: value_entries(self.global_carry),
            context_carry: value_entries(self.context_carry),
            rows: row_models(self.rows@),
            open_rows: index_models(self.open_context_rows@),
            row_count: self.table_row_index as nat,
            context_count: self.context_index as nat,
            context_id: match self.current_context_id {
                Some(n) => Some(n as nat),
                None => None,
            },
        }
    }
}

impl TableState {
    pub fn new(spec: ResolvedTableSpec) -> (state: Self)
        ensures
            state@ == fresh_table(spec@),
    {
        let columns = text_pairs(&spec.columns);
        let carry = text_pairs(&spec.carry);
        assert(columns@.len() == text_entries(spec.columns).len());
        assert(carry@.len() == text_entries(spec.carry).len());
        let row_values = column_accumulator(&columns);
        let global_carry = carry_accumulator(&carry, &spec.context_path, false);
        let context_carry = carry_accumulator(&carry, &spec.context_path, true);
        let state = TableState {
            spec,
            row_values,
            global_carry,
            context_carry,
            rows: Vec::new(),
            open_context_rows: Vec::new(),
            table_row_index: 0,
            context_index: 0,
            current_context_id: None,
        };
        assert(state@.rows =~= Seq::empty());
        assert(state@.open_rows =~= Seq::empty());
        state
    }

    /// How the table is made.
    pub fn table_spec(&self) -> (spec: &ResolvedTableSpec)
        ensures
            spec@ == self@.spec,
    {
        &self.spec
    }

    /// Begins a context.
    pub fn start_context(&mut self)
        requires
            old(self)@.context_count < usize::MAX,
        ensures
            final(self)@ == context_begun(old(self)@),
    {
        self.context_index = self.context_index + 1;
        self.current_context_id = Some(self.context_index);
        self.open_context_rows = Vec::new();
        self.context_carry = clear_accumulator(&self.context_carry);
        assert(self@.open_rows =~= Seq::empty());
    }

    /// Takes in a value.
    pub fn push_value(&mut self, target: ValueTarget, column: &str, value: String)
        ensures
            final(self)@ == value_taken(old(self)@, target, column@, value@),
    {
        match target {
            ValueTarget::Column => push_accumulator_value(&mut self.row_values, column, value),
            ValueTarget::GlobalCarry => push_accumulator_value(
                &mut self.global_carry,
                column,
                value,
            ),
            ValueTarget::ContextCarry => push_accumulator_value(
                &mut self.context_carry,
                column,
                value,
            ),
        }
    }

    /// Ends a row.
    pub fn emit_row(&mut self)
        requires
            old(self)@.row_count < usize::MAX,
        ensures
            final(self)@ == row_ended(old(self)@),
    {
        let ghost before = self@;
        let mut row = new_row();
        let mut i: usize = 0;
        while i < self.spec.output_columns.len()
            invariant
                i <= self.spec.output_columns@.len(),
                self@ == before,
                row_entries(row) == blank_row(texts(self.spec.output_columns@), i as nat),
            decreases self.spec.output_columns@.len() - i,
        {
            assert(texts(self.spec.output_columns@)[i as int]
                == self.spec.output_columns@[i as int]@);
            set_cell(&mut row, self.spec.output_columns[i].clone(), None);
            i += 1;
        }
        assert(texts(self.spec.output_columns@).len() == self.spec.output_columns@.len());
        apply_accumulator_to_row(&mut row, &self.row_values, false);
        apply_accumulator_to_row(&mut row, &self.global_carry, true);
        apply_accumulator_to_row(&mut row, &self.context_carry, true);
        match &self.spec.row_index_col {
            Some(column) => {
                self.table_row_index = self.table_row_index + 1;
                set_cell(
                    &mut row,
                    column.clone(),
                    Some(decimal_string(self.table_row_index as u64)),
                );
            },
            None => {},
        }
        match &self.spec.context_index_col {
            Some(column) => {
                let id = match self.current_context_id {
                    Some(n) => Some(decimal_string(n as u64)),
                    None => None,
                };
                set_cell(&mut row, column.clone(), id);
            },
            None => {},
        }
        set_cell(&mut row, "_table".to_owned(), Some(self.spec.name.clone()));
        assert(row_entries(row) == next_row(before));
        if row_has_non_meta_value(&row, &self.spec) {
            let ghost kept = row_entries(row);
            let ghost rows = self.rows@;
            let ghost open = self.open_context_rows@;
            if self.spec.context_path.is_some() {
                self.open_context_rows.push(self.rows.len());
                assert(index_models(self.open_context_rows@) =~= index_models(open).push(
                    rows.len() as int,
                ));
            }
            self.rows.push(row);
            assert(row_models(self.rows@) =~= row_models(rows).push(kept));
        }
        self.row_values = clear_accumulator(&self.row_values);
    }

    /// Ends a context.
    pub fn finalize_context_carry(&mut self)
        ensures
            final(self)@ == context_ended(old(self)@),
    {
        let ghost before = self@;
        let mut i: usize = 0;
        while i < self.open_context_rows.len()
            invariant
                i <= self.open_context_rows@.len(),
                before == old(self)@,
                self@ == (TableModel {
                    rows: carried_rows(
                        before.rows,
                        before.open_rows,
                        before.context_carry,
                        i as nat,
                    ),
                    ..before
                }),
            decreases self.open_context_rows@.len() - i,
        {
            let row_idx = self.open_context_rows[i];
            assert(before.open_rows[i as int] == row_idx);
            let ghost rows = self.rows@;
            if row_idx < self.rows.len() {
                apply_accumulator_to_row(&mut self.rows[row_idx], &self.context_carry, true);
                assert(row_models(self.rows@) =~= row_models(rows).update(
                    row_idx as int,
                    with_values(
                        row_models(rows)[row_idx as int],
                        before.context_carry,
                        before.context_carry.len(),
                        true,
                    ),
                ));
            }
            i += 1;
        }
        self.open_context_rows = Vec::new();
        self.context_carry = clear_accumulator(&self.context_carry);
        self.current_context_id = None;
        assert(self@.open_rows =~= Seq::empty());
    }

    /// Ends the document.
    pub fn finish(&mut self)
        requires
            old(self)@.row_count < usize::MAX,
        ensures
            final(self)@ == table_ended(old(self)@),
    {
        if !self.spec.explicit_row_path {
            self.emit_row();
        }
        if self.spec.context_path.is_some() && self.open_context_rows.len() > 0 {
            self.finalize_context_carry();
        }
        let ghost closed = self@;
        let ghost ended = closed.rows.map_values(
            |r: Row| with_values(r, closed.global_carry, closed.global_carry.len(), true),
        );
        let mut i: usize = 0;
        while i < self.rows.len()
            invariant
                i <= self.rows@.len() == closed.rows.len(),
                ended == closed.rows.map_values(
                    |r: Row| with_values(r, closed.global_carry, closed.global_carry.len(), true),
                ),
                self@ == (TableModel { rows: self@.rows, ..closed }),
                forall|k: int| 0 <= k < i ==> #[trigger] self@.rows[k] == ended[k],
                forall|k: int|
                    i <= k < closed.rows.len() ==> #[trigger] self@.rows[k] == closed.rows[k],
            decreases self.rows@.len() - i,
        {
            let ghost rows = self.rows@;
            assert(self@.rows[i as int] == closed.rows[i as int]);
            assert(ended[i as int] == with_values(
                row_models(rows)[i as int],
                closed.global_carry,
                closed.global_carry.len(),
                true,
            ));
            apply_accumulator_to_row(&mut self.rows[i], &self.global_carry, true);
            assert(row_models(self.rows@) =~= row_models(rows).update(i as int, ended[i as int]));
            i += 1;
        }
        assert(self@.rows =~= ended);
    }

    /// How many rows there are.
    pub fn row_len(&self) -> (n: usize)
        ensures
            n == self@.rows.len(),
    {
        self.rows.len()
    }

    pub fn into_table(self) -> (table: XmlTable)
        ensures
            table.name@ == self@.spec.name,
            texts(table.columns@) == self@.spec.output_columns,
            row_models(table.rows@) == self@.rows,
    {
        XmlTable { name: self.spec.name, columns: self.spec.output_columns, rows: self.rows }
    }
}

} // verus!
