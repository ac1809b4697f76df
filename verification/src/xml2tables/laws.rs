//! What holds of all tables.
use vstd::prelude::*;

use crate::collections::{
    entry_keys, entry_value, law_with_entry_value, lemma_entry_index, with_entry, with_item,
};
use crate::encoding::utf8_lossy;
use crate::numeral::decimal;
use crate::text::{join, trim};
use crate::xml::EventModel;
use crate::xml2tables::parser::{
    acted, actions_at, attributes_taken, document_tables, element_begun, element_ended,
    filled_tables, new_frame, stack_path, table_actions, tables_from, tag_attributes, taken_at,
    text_taken, with_child, with_text, ActionModel, FrameModel,
};
use crate::xml2tables::paths::attribute_path;
use crate::xml2tables::specs::{
    document_paths, normalized_specs, present_columns, resolved, resolved_specs, with_columns,
    with_optional, NormalizedModel, ResolvedModel,
};
use crate::xml2tables::tables::{
    blank_row, carried_rows, cell_counts, context_ended, fresh_carry, fresh_columns, fresh_table,
    next_row, opt_number, row_counts, row_ended, table_ended, value_taken, with_values,
    without_values, Row, TableModel, ValueTarget, Values,
};
use crate::xml2tables::types::XmlTableSpec;

verus! {

/// Every column that a table can fill is one of its columns, and none is there twice.
pub open spec fn columns_agree(spec: ResolvedModel) -> bool {
    let out = spec.output_columns;
    &&& out.no_duplicates()
    &&& forall|i: int| 0 <= i < spec.columns.len() ==> out.contains((#[trigger] spec.columns[i]).1)
    &&& forall|i: int| 0 <= i < spec.carry.len() ==> out.contains((#[trigger] spec.carry[i]).1)
    &&& (spec.row_index_col matches Some(c) ==> out.contains(c))
    &&& (spec.context_index_col matches Some(c) ==> out.contains(c))
    &&& out.contains("_table"@)
}

pub open spec fn values_within(values: Values, columns: Seq<Seq<char>>) -> bool {
    forall|i: int| 0 <= i < values.len() ==> columns.contains((#[trigger] values[i]).0)
}

pub open spec fn rows_have(rows: Seq<Row>, columns: Seq<Seq<char>>) -> bool {
    forall|i: int| 0 <= i < rows.len() ==> entry_keys(#[trigger] rows[i]) == columns
}

/// Whether every row holds anything.
pub open spec fn rows_count(rows: Seq<Row>, spec: ResolvedModel) -> bool {
    forall|i: int| 0 <= i < rows.len() ==> row_counts(spec, #[trigger] rows[i])
}

/// Whether every row bears the name of its table.
pub open spec fn rows_named(rows: Seq<Row>, spec: ResolvedModel) -> bool {
    forall|i: int|
        0 <= i < rows.len() ==> entry_value(#[trigger] rows[i], "_table"@) == Some(
            Some(spec.name),
        )
}

/// A table all of whose rows hold something, bear its name and have its columns, and that can fill
/// no others.
pub open spec fn table_agrees(t: TableModel) -> bool {
    &&& columns_agree(t.spec)
    &&& values_within(t.row_values, t.spec.output_columns)
    &&& values_within(t.global_carry, t.spec.output_columns)
    &&& values_within(t.context_carry, t.spec.output_columns)
    &&& rows_have(t.rows, t.spec.output_columns)
    &&& rows_count(t.rows, t.spec)
    &&& rows_named(t.rows, t.spec)
}

/// The specifications of tables.
pub open spec fn specs_of(tables: Seq<TableModel>) -> Seq<ResolvedModel> {
    tables.map_values(|t: TableModel| t.spec)
}

/// Whether `at` says, in order, where in `t` the items of `s` stand.
pub open spec fn stands_at<T>(s: Seq<T>, t: Seq<T>, at: Seq<int>) -> bool {
    &&& at.len() == s.len()
    &&& forall|i: int, j: int| 0 <= i < j < at.len() ==> #[trigger] at[i] < #[trigger] at[j]
    &&& forall|i: int|
        0 <= i < at.len() ==> 0 <= #[trigger] at[i] < t.len() && s[i] == t[at[i]]
}

/// Whether `s` is `t` with items left out.
pub open spec fn is_subsequence<T>(s: Seq<T>, t: Seq<T>) -> bool {
    exists|at: Seq<int>| stands_at(s, t, at)
}

pub open spec fn tables_agree(tables: Seq<TableModel>) -> bool {
    forall|k: int| 0 <= k < tables.len() ==> table_agrees(#[trigger] tables[k])
}

// ---------------------------------------------------------------------------
// Columns
// ---------------------------------------------------------------------------

proof fn lemma_with_item(s: Seq<Seq<char>>, item: Seq<char>)
    requires
        s.no_duplicates(),
    ensures
        with_item(s, item).no_duplicates(),
        with_item(s, item).contains(item),
        forall|x: Seq<char>| s.contains(x) ==> #[trigger] with_item(s, item).contains(x),
{
    let t = with_item(s, item);
    if !s.contains(item) {
        assert(t[s.len() as int] == item);
        assert forall|x: Seq<char>| s.contains(x) implies #[trigger] t.contains(x) by {
            let i = choose|i: int| 0 <= i < s.len() && s[i] == x;
            assert(t[i] == x);
        }
    }
}

proof fn lemma_with_columns(columns: Seq<Seq<char>>, s: Seq<(Seq<char>, Seq<char>)>, n: nat)
    requires
        columns.no_duplicates(),
        n <= s.len(),
    ensures
        with_columns(columns, s, n).no_duplicates(),
        forall|i: int| 0 <= i < n ==> with_columns(columns, s, n).contains((#[trigger] s[i]).1),
        forall|x: Seq<char>|
            columns.contains(x) ==> #[trigger] with_columns(columns, s, n).contains(x),
    decreases n,
{
    if n > 0 {
        lemma_with_columns(columns, s, (n - 1) as nat);
        lemma_with_item(with_columns(columns, s, (n - 1) as nat), s[n - 1].1);
    }
}

pub proof fn lemma_resolved_agrees(spec: NormalizedModel, paths: Set<Seq<char>>)
    ensures
        resolved(spec, paths) matches Some(r) ==> columns_agree(r),
{
    let columns = present_columns(spec.columns, paths, spec.columns.len());
    let carry = present_columns(spec.carry, paths, spec.carry.len());
    let empty = Seq::<Seq<char>>::empty();
    lemma_with_columns(empty, columns, columns.len());
    let own = with_columns(empty, columns, columns.len());
    lemma_with_columns(own, carry, carry.len());
    let carried = with_columns(own, carry, carry.len());
    if let Some(c) = spec.row_index_col {
        lemma_with_item(carried, c);
    }
    let counted = with_optional(carried, spec.row_index_col);
    if let Some(c) = spec.context_index_col {
        lemma_with_item(counted, c);
    }
    let placed = with_optional(counted, spec.context_index_col);
    lemma_with_item(placed, "_table"@);
}

pub proof fn lemma_resolved_specs_agree(specs: Seq<NormalizedModel>, paths: Set<Seq<char>>, n: nat)
    ensures
        forall|k: int|
            0 <= k < resolved_specs(specs, paths, n).len() ==> columns_agree(
                #[trigger] resolved_specs(specs, paths, n)[k],
            ),
    decreases n,
{
    if 0 < n <= specs.len() {
        lemma_resolved_specs_agree(specs, paths, (n - 1) as nat);
        lemma_resolved_agrees(specs[n - 1], paths);
        let earlier = resolved_specs(specs, paths, (n - 1) as nat);
        let all = resolved_specs(specs, paths, n);
        assert forall|k: int| 0 <= k < all.len() implies columns_agree(#[trigger] all[k]) by {
            if k < earlier.len() {
                assert(all[k] == earlier[k]);
                assert(columns_agree(earlier[k]));
            }
        }
    }
}

// ---------------------------------------------------------------------------
// Rows and values
// ---------------------------------------------------------------------------

/// Setting a cell in a column that a row has leaves its columns as they are.
proof fn lemma_set_keeps_keys(row: Row, column: Seq<char>, value: Option<Seq<char>>)
    requires
        entry_keys(row).contains(column),
    ensures
        entry_keys(with_entry(row, column, value)) == entry_keys(row),
{
    lemma_entry_index(row, column);
    assert(entry_keys(with_entry(row, column, value)) =~= entry_keys(row));
}

proof fn lemma_blank_row(columns: Seq<Seq<char>>, n: nat)
    requires
        columns.no_duplicates(),
        n <= columns.len(),
    ensures
        entry_keys(blank_row(columns, n)) == columns.take(n as int),
    decreases n,
{
    let row = blank_row(columns, n);
    if n > 0 {
        let earlier = blank_row(columns, (n - 1) as nat);
        lemma_blank_row(columns, (n - 1) as nat);
        lemma_entry_index(earlier, columns[n - 1]);
        if entry_keys(earlier).contains(columns[n - 1]) {
            let i = choose|i: int|
                0 <= i < entry_keys(earlier).len() && entry_keys(earlier)[i] == columns[n - 1];
            assert(columns.take(n - 1)[i] == columns[i]);
        }
        assert(entry_keys(row) =~= entry_keys(earlier).push(columns[n - 1]));
        assert(columns.take(n as int) =~= columns.take(n - 1).push(columns[n - 1]));
    } else {
        assert(entry_keys(row) =~= columns.take(0));
    }
}

proof fn lemma_with_values_keys(row: Row, values: Values, n: nat, only_if_empty: bool)
    requires
        values_within(values, entry_keys(row)),
    ensures
        entry_keys(with_values(row, values, n, only_if_empty)) == entry_keys(row),
    decreases n,
{
    if 0 < n <= values.len() {
        lemma_with_values_keys(row, values, (n - 1) as nat, only_if_empty);
        let earlier = with_values(row, values, (n - 1) as nat, only_if_empty);
        let (column, v) = values[n - 1];
        assert(entry_keys(row).contains(values[n - 1].0));
        lemma_set_keeps_keys(earlier, column, Some(join(v, seq!['|'])));
    }
}

/// A row that holds something still does when empty cells are filled.
proof fn lemma_with_values_counts(spec: ResolvedModel, row: Row, values: Values, n: nat)
    requires
        row_counts(spec, row),
    ensures
        row_counts(spec, with_values(row, values, n, true)),
    decreases n,
{
    if 0 < n <= values.len() {
        lemma_with_values_counts(spec, row, values, (n - 1) as nat);
        let earlier = with_values(row, values, (n - 1) as nat, true);
        let (column, _) = values[n - 1];
        let i = choose|i: int| 0 <= i < earlier.len() && cell_counts(spec, #[trigger] earlier[i]);
        lemma_entry_index(earlier, column);
        let after = with_values(row, values, n, true);
        assert(after[i] == earlier[i]);
        assert(cell_counts(spec, after[i]));
    }
}

/// A cell that has a value keeps it when empty cells are filled.
proof fn lemma_with_values_keeps(row: Row, values: Values, n: nat, column: Seq<char>)
    requires
        entry_value(row, column) matches Some(Some(_)),
    ensures
        entry_value(with_values(row, values, n, true), column) == entry_value(row, column),
    decreases n,
{
    if 0 < n <= values.len() {
        lemma_with_values_keeps(row, values, (n - 1) as nat, column);
        let earlier = with_values(row, values, (n - 1) as nat, true);
        let (other, v) = values[n - 1];
        law_with_entry_value(earlier, other, Some(join(v, seq!['|'])), column);
    }
}

proof fn lemma_set_values_within(
    values: Values,
    columns: Seq<Seq<char>>,
    column: Seq<char>,
    v: Seq<Seq<char>>,
)
    requires
        values_within(values, columns),
        columns.contains(column),
    ensures
        values_within(with_entry(values, column, v), columns),
{
    lemma_entry_index(values, column);
    let t = with_entry(values, column, v);
    assert forall|i: int| 0 <= i < t.len() implies columns.contains((#[trigger] t[i]).0) by {
        if i < values.len() {
            assert(columns.contains(values[i].0));
        }
    }
}

proof fn lemma_without_values_within(values: Values, columns: Seq<Seq<char>>, n: nat)
    requires
        values_within(values, columns),
    ensures
        values_within(without_values(values, n), columns),
    decreases n,
{
    if 0 < n <= values.len() {
        lemma_without_values_within(values, columns, (n - 1) as nat);
        assert(columns.contains(values[n - 1].0));
        lemma_set_values_within(
            without_values(values, (n - 1) as nat),
            columns,
            values[n - 1].0,
            Seq::empty(),
        );
    }
}

proof fn lemma_fresh_columns_within(
    s: Seq<(Seq<char>, Seq<char>)>,
    columns: Seq<Seq<char>>,
    n: nat,
)
    requires
        forall|i: int| 0 <= i < s.len() ==> columns.contains((#[trigger] s[i]).1),
    ensures
        values_within(fresh_columns(s, n), columns),
    decreases n,
{
    if 0 < n <= s.len() {
        lemma_fresh_columns_within(s, columns, (n - 1) as nat);
        lemma_set_values_within(
            fresh_columns(s, (n - 1) as nat),
            columns,
            s[n - 1].1,
            Seq::empty(),
        );
    }
}

proof fn lemma_fresh_carry_within(
    s: Seq<(Seq<char>, Seq<char>)>,
    context_path: Option<Seq<char>>,
    inside: bool,
    columns: Seq<Seq<char>>,
    n: nat,
)
    requires
        forall|i: int| 0 <= i < s.len() ==> columns.contains((#[trigger] s[i]).1),
    ensures
        values_within(fresh_carry(s, context_path, inside, n), columns),
    decreases n,
{
    if 0 < n <= s.len() {
        lemma_fresh_carry_within(s, context_path, inside, columns, (n - 1) as nat);
        lemma_set_values_within(
            fresh_carry(s, context_path, inside, (n - 1) as nat),
            columns,
            s[n - 1].1,
            Seq::empty(),
        );
    }
}

// ---------------------------------------------------------------------------
// Tables
// ---------------------------------------------------------------------------

pub proof fn lemma_fresh_agrees(spec: ResolvedModel)
    requires
        columns_agree(spec),
    ensures
        table_agrees(fresh_table(spec)),
{
    lemma_fresh_columns_within(spec.columns, spec.output_columns, spec.columns.len());
    lemma_fresh_carry_within(
        spec.carry,
        spec.context_path,
        false,
        spec.output_columns,
        spec.carry.len(),
    );
    lemma_fresh_carry_within(
        spec.carry,
        spec.context_path,
        true,
        spec.output_columns,
        spec.carry.len(),
    );
}

pub proof fn lemma_next_row_keys(t: TableModel)
    requires
        table_agrees(t),
    ensures
        entry_keys(next_row(t)) == t.spec.output_columns,
        entry_value(next_row(t), "_table"@) == Some(Some(t.spec.name)),
{
    let out = t.spec.output_columns;
    lemma_blank_row(out, out.len());
    assert(out.take(out.len() as int) =~= out);
    let blank = blank_row(out, out.len());
    let own = with_values(blank, t.row_values, t.row_values.len(), false);
    lemma_with_values_keys(blank, t.row_values, t.row_values.len(), false);
    let global = with_values(own, t.global_carry, t.global_carry.len(), true);
    lemma_with_values_keys(own, t.global_carry, t.global_carry.len(), true);
    let carried = with_values(global, t.context_carry, t.context_carry.len(), true);
    lemma_with_values_keys(global, t.context_carry, t.context_carry.len(), true);
    let counted = match t.spec.row_index_col {
        Some(c) => {
            let v = Some(decimal(t.row_count + 1));
            lemma_set_keeps_keys(carried, c, v);
            with_entry(carried, c, v)
        },
        None => carried,
    };
    let placed = match t.spec.context_index_col {
        Some(c) => {
            let v = opt_number(t.context_id);
            lemma_set_keeps_keys(counted, c, v);
            with_entry(counted, c, v)
        },
        None => counted,
    };
    lemma_set_keeps_keys(placed, "_table"@, Some(t.spec.name));
    law_with_entry_value(placed, "_table"@, Some(t.spec.name), "_table"@);
}

pub proof fn lemma_row_ended_agrees(t: TableModel)
    requires
        table_agrees(t),
    ensures
        table_agrees(row_ended(t)),
{
    lemma_next_row_keys(t);
    lemma_without_values_within(t.row_values, t.spec.output_columns, t.row_values.len());
}

proof fn lemma_carried_rows(
    rows: Seq<Row>,
    open: Seq<int>,
    values: Values,
    n: nat,
    spec: ResolvedModel,
)
    requires
        rows_have(rows, spec.output_columns),
        rows_count(rows, spec),
        rows_named(rows, spec),
        values_within(values, spec.output_columns),
    ensures
        rows_have(carried_rows(rows, open, values, n), spec.output_columns),
        rows_count(carried_rows(rows, open, values, n), spec),
        rows_named(carried_rows(rows, open, values, n), spec),
    decreases n,
{
    if 0 < n <= open.len() {
        lemma_carried_rows(rows, open, values, (n - 1) as nat, spec);
        let earlier = carried_rows(rows, open, values, (n - 1) as nat);
        let i = open[n - 1];
        if 0 <= i < earlier.len() {
            assert(entry_keys(earlier[i]) == spec.output_columns);
            lemma_with_values_keys(earlier[i], values, values.len(), true);
            assert(row_counts(spec, earlier[i]));
            lemma_with_values_counts(spec, earlier[i], values, values.len());
            assert(entry_value(earlier[i], "_table"@) == Some(Some(spec.name)));
            lemma_with_values_keeps(earlier[i], values, values.len(), "_table"@);
        }
    }
}

pub proof fn lemma_context_ended_agrees(t: TableModel)
    requires
        table_agrees(t),
    ensures
        table_agrees(context_ended(t)),
{
    lemma_carried_rows(
        t.rows,
        t.open_rows,
        t.context_carry,
        t.open_rows.len(),
        t.spec,
    );
    lemma_without_values_within(t.context_carry, t.spec.output_columns, t.context_carry.len());
}

proof fn lemma_value_taken_agrees(
    t: TableModel,
    target: ValueTarget,
    column: Seq<char>,
    value: Seq<char>,
)
    requires
        table_agrees(t),
        t.spec.output_columns.contains(column),
    ensures
        table_agrees(value_taken(t, target, column, value)),
{
    let values = match target {
        ValueTarget::Column => t.row_values,
        ValueTarget::GlobalCarry => t.global_carry,
        ValueTarget::ContextCarry => t.context_carry,
    };
    let v = match entry_value(values, column) {
        Some(v) => v.push(value),
        None => seq![value],
    };
    lemma_set_values_within(values, t.spec.output_columns, column, v);
}

proof fn lemma_actions_known(
    list: Seq<(Seq<char>, ActionModel)>,
    path: Seq<char>,
    columns: Seq<Seq<char>>,
)
    requires
        forall|i: int| 0 <= i < list.len() ==> columns.contains((#[trigger] list[i]).1.column),
    ensures
        forall|i: int|
            0 <= i < actions_at(list, path).len() ==> columns.contains(
                (#[trigger] actions_at(list, path)[i]).column,
            ),
    decreases list.len(),
{
    if list.len() > 0 {
        let front = list.drop_last();
        assert forall|i: int| 0 <= i < front.len() implies columns.contains(
            (#[trigger] front[i]).1.column,
        ) by {
            assert(front[i] == list[i]);
        }
        lemma_actions_known(front, path, columns);
        assert(columns.contains(list[list.len() - 1].1.column));
    }
}

proof fn lemma_acted_agrees(t: TableModel, actions: Seq<ActionModel>, n: nat, value: Seq<char>)
    requires
        table_agrees(t),
        forall|i: int|
            0 <= i < actions.len() ==> t.spec.output_columns.contains(
                (#[trigger] actions[i]).column,
            ),
    ensures
        table_agrees(acted(t, actions, n, value)),
        acted(t, actions, n, value).spec == t.spec,
    decreases n,
{
    if 0 < n <= actions.len() {
        lemma_acted_agrees(t, actions, (n - 1) as nat, value);
        let a = actions[n - 1];
        lemma_value_taken_agrees(
            acted(t, actions, (n - 1) as nat, value),
            a.target,
            a.column,
            value,
        );
    }
}

pub proof fn lemma_taken_agrees(t: TableModel, path: Seq<char>, value: Seq<char>)
    requires
        table_agrees(t),
    ensures
        table_agrees(taken_at(t, path, value)),
        taken_at(t, path, value).spec == t.spec,
{
    let list = table_actions(t.spec);
    let out = t.spec.output_columns;
    assert forall|i: int| 0 <= i < list.len() implies out.contains(
        (#[trigger] list[i]).1.column,
    ) by {
        let n = t.spec.columns.len();
        if i < n {
            assert(list[i].1.column == t.spec.columns[i].1);
        } else {
            assert(list[i].1.column == t.spec.carry[i - n].1);
        }
    }
    lemma_actions_known(list, path, out);
    let actions = actions_at(list, path);
    lemma_acted_agrees(t, actions, actions.len(), value);
}

pub proof fn lemma_attributes_agree(
    t: TableModel,
    path: Seq<char>,
    attributes: Seq<(Seq<char>, Seq<char>)>,
    n: nat,
)
    requires
        table_agrees(t),
    ensures
        table_agrees(attributes_taken(t, path, attributes, n)),
        attributes_taken(t, path, attributes, n).spec == t.spec,
    decreases n,
{
    if 0 < n <= attributes.len() {
        lemma_attributes_agree(t, path, attributes, (n - 1) as nat);
        lemma_taken_agrees(
            attributes_taken(t, path, attributes, (n - 1) as nat),
            attribute_path(path, attributes[n - 1].0),
            attributes[n - 1].1,
        );
    }
}

pub proof fn lemma_begun_agrees(t: TableModel, path: Seq<char>)
    requires
        table_agrees(t),
    ensures
        table_agrees(element_begun(t, path)),
{
    lemma_without_values_within(t.context_carry, t.spec.output_columns, t.context_carry.len());
}

pub proof fn lemma_ended_agrees(t: TableModel, path: Seq<char>, frame: FrameModel)
    requires
        table_agrees(t),
    ensures
        table_agrees(element_ended(t, path, frame)),
        element_ended(t, path, frame).spec == t.spec,
{
    let texted = text_taken(t, path, frame.text);
    lemma_taken_agrees(t, path, trim(frame.text));
    lemma_attributes_agree(texted, path, frame.attributes, frame.attributes.len());
    let full = attributes_taken(texted, path, frame.attributes, frame.attributes.len());
    lemma_row_ended_agrees(full);
    let rowed = if t.spec.row_boundary == path {
        row_ended(full)
    } else {
        full
    };
    lemma_context_ended_agrees(rowed);
}

proof fn lemma_table_ended_agrees(t: TableModel)
    requires
        table_agrees(t),
    ensures
        table_agrees(table_ended(t)),
        table_ended(t).spec == t.spec,
{
    let rowed = if t.spec.explicit_row_path {
        t
    } else {
        row_ended(t)
    };
    lemma_row_ended_agrees(t);
    lemma_context_ended_agrees(rowed);
    let closed = if rowed.spec.context_path is Some && rowed.open_rows.len() > 0 {
        context_ended(rowed)
    } else {
        rowed
    };
    let ended = table_ended(t);
    assert forall|i: int| 0 <= i < ended.rows.len() implies entry_keys(#[trigger] ended.rows[i])
        == t.spec.output_columns && row_counts(t.spec, ended.rows[i]) && entry_value(
        ended.rows[i],
        "_table"@,
    ) == Some(Some(t.spec.name)) by {
        assert(entry_value(closed.rows[i], "_table"@) == Some(Some(t.spec.name)));
        lemma_with_values_keeps(
            closed.rows[i],
            closed.global_carry,
            closed.global_carry.len(),
            "_table"@,
        );
        assert(entry_keys(closed.rows[i]) == t.spec.output_columns);
        assert(row_counts(t.spec, closed.rows[i]));
        lemma_with_values_counts(
            t.spec,
            closed.rows[i],
            closed.global_carry,
            closed.global_carry.len(),
        );
        lemma_with_values_keys(
            closed.rows[i],
            closed.global_carry,
            closed.global_carry.len(),
            true,
        );
    }
}

proof fn lemma_tables_agree(
    events: Seq<EventModel>,
    i: int,
    stack: Seq<FrameModel>,
    tables: Seq<TableModel>,
)
    requires
        tables_agree(tables),
    ensures
        tables_from(events, i, stack, tables) matches Ok(ts) ==> tables_agree(ts) && specs_of(ts)
            == specs_of(tables),
    decreases events.len() - i,
{
    if i < events.len() {
        match events[i] {
            EventModel::Start(t) => {
                if let Ok(attributes) = tag_attributes(t) {
                    let inner = with_child(stack).push(
                        new_frame(t, attributes),
                    );
                    let path = stack_path(inner);
                    lemma_all_begun(tables, path);
                    lemma_tables_agree(
                        events,
                        i + 1,
                        inner,
                        tables.map_values(|x: TableModel| element_begun(x, path)),
                    );
                }
            },
            EventModel::Empty(t) => {
                if let Ok(attributes) = tag_attributes(t) {
                    let frame = new_frame(t, attributes);
                    let path = stack_path(
                        with_child(stack).push(frame),
                    );
                    let begun = tables.map_values(|x: TableModel| element_begun(x, path));
                    lemma_all_begun(tables, path);
                    lemma_all_ended(begun, path, frame);
                    let ended = tables.map_values(
                        |x: TableModel| element_ended(element_begun(x, path), path, frame),
                    );
                    assert(ended =~= begun.map_values(
                        |x: TableModel| element_ended(x, path, frame),
                    ));
                    lemma_tables_agree(
                        events,
                        i + 1,
                        with_child(stack),
                        ended,
                    );
                }
            },
            EventModel::Text(r) => {
                if let Ok(s) = r {
                    lemma_tables_agree(
                        events,
                        i + 1,
                        with_text(stack, s),
                        tables,
                    );
                }
                lemma_tables_agree(events, i + 1, stack, tables);
            },
            EventModel::CData(b) => {
                lemma_tables_agree(
                    events,
                    i + 1,
                    with_text(stack, utf8_lossy(b)),
                    tables,
                );
                lemma_tables_agree(events, i + 1, stack, tables);
            },
            EventModel::End(_) => {
                let path = stack_path(stack);
                lemma_all_ended(tables, path, stack.last());
                lemma_tables_agree(
                    events,
                    i + 1,
                    stack.drop_last(),
                    tables.map_values(|x: TableModel| element_ended(x, path, stack.last())),
                );
                lemma_tables_agree(events, i + 1, stack, tables);
            },
            EventModel::Other => {
                lemma_tables_agree(events, i + 1, stack, tables);
            },
            _ => {},
        }
    }
}

proof fn lemma_all_begun(tables: Seq<TableModel>, path: Seq<char>)
    requires
        tables_agree(tables),
    ensures
        tables_agree(tables.map_values(|x: TableModel| element_begun(x, path))),
        specs_of(tables.map_values(|x: TableModel| element_begun(x, path))) == specs_of(tables),
{
    let after = tables.map_values(|x: TableModel| element_begun(x, path));
    assert(specs_of(after) =~= specs_of(tables));
    assert forall|k: int| 0 <= k < after.len() implies table_agrees(#[trigger] after[k]) by {
        assert(table_agrees(tables[k]));
        lemma_begun_agrees(tables[k], path);
    }
}

proof fn lemma_all_ended(tables: Seq<TableModel>, path: Seq<char>, frame: FrameModel)
    requires
        tables_agree(tables),
    ensures
        tables_agree(tables.map_values(|x: TableModel| element_ended(x, path, frame))),
        specs_of(tables.map_values(|x: TableModel| element_ended(x, path, frame))) == specs_of(
            tables,
        ),
{
    let after = tables.map_values(|x: TableModel| element_ended(x, path, frame));
    assert forall|k: int| 0 <= k < after.len() implies table_agrees(#[trigger] after[k])
        && after[k].spec == tables[k].spec by {
        assert(table_agrees(tables[k]));
        lemma_ended_agrees(tables[k], path, frame);
    }
    assert(specs_of(after) =~= specs_of(tables));
}

proof fn lemma_all_finished(tables: Seq<TableModel>)
    requires
        tables_agree(tables),
    ensures
        tables_agree(tables.map_values(|x: TableModel| table_ended(x))),
        specs_of(tables.map_values(|x: TableModel| table_ended(x))) == specs_of(tables),
{
    let after = tables.map_values(|x: TableModel| table_ended(x));
    assert forall|k: int| 0 <= k < after.len() implies table_agrees(#[trigger] after[k])
        && after[k].spec == tables[k].spec by {
        assert(table_agrees(tables[k]));
        lemma_table_ended_agrees(tables[k]);
    }
    assert(specs_of(after) =~= specs_of(tables));
}

proof fn lemma_filled(tables: Seq<TableModel>, n: nat)
    requires
        tables_agree(tables),
    ensures
        tables_agree(filled_tables(tables, n)),
        forall|k: int|
            0 <= k < filled_tables(tables, n).len() ==> (#[trigger] filled_tables(
                tables,
                n,
            )[k]).rows.len() > 0,
    decreases n,
{
    if 0 < n <= tables.len() {
        lemma_filled(tables, (n - 1) as nat);
        assert(table_agrees(tables[n - 1]));
    }
}

proof fn lemma_filled_places(tables: Seq<TableModel>, n: nat) -> (at: Seq<int>)
    requires
        n <= tables.len(),
    ensures
        stands_at(specs_of(filled_tables(tables, n)), specs_of(tables), at),
        forall|i: int| 0 <= i < at.len() ==> #[trigger] at[i] < n,
    decreases n,
{
    if n == 0 {
        Seq::empty()
    } else {
        let earlier = lemma_filled_places(tables, (n - 1) as nat);
        if tables[n - 1].rows.len() > 0 {
            earlier.push(n - 1)
        } else {
            earlier
        }
    }
}

/// Every table of a document has rows and no column twice, and every row of it holds something,
/// bears its name and has just its columns, in their order. The tables are, in their order, those
/// that the mapping makes for the document, with some left out.
pub proof fn law_rows_have_the_columns(
    events: Seq<EventModel>,
    mapping: Seq<(Seq<char>, XmlTableSpec)>,
)
    ensures
        document_tables(events, mapping) matches Ok(tables) ==> {
            &&& forall|k: int|
                0 <= k < tables.len() ==> {
                    &&& (#[trigger] tables[k]).rows.len() > 0
                    &&& tables[k].spec.output_columns.no_duplicates()
                    &&& forall|r: int|
                        0 <= r < tables[k].rows.len() ==> {
                            &&& entry_keys(#[trigger] tables[k].rows[r])
                                == tables[k].spec.output_columns
                            &&& row_counts(tables[k].spec, tables[k].rows[r])
                            &&& entry_value(tables[k].rows[r], "_table"@) == Some(
                                Some(tables[k].spec.name),
                            )
                        }
                }
            &&& document_paths(events) matches Ok(paths) && is_subsequence(
                specs_of(tables),
                resolved_specs(normalized_specs(mapping), paths, mapping.len()),
            )
        },
{
    if let Ok(paths) = document_paths(events) {
        let normal = normalized_specs(mapping);
        let specs = resolved_specs(normal, paths, normal.len());
        lemma_resolved_specs_agree(normal, paths, normal.len());
        let fresh = specs.map_values(|s: ResolvedModel| fresh_table(s));
        assert forall|k: int| 0 <= k < fresh.len() implies table_agrees(#[trigger] fresh[k]) by {
            lemma_fresh_agrees(specs[k]);
        }
        assert(specs_of(fresh) =~= specs);
        lemma_tables_agree(events, 0, Seq::empty(), fresh);
        if let Ok(tables) = tables_from(events, 0, Seq::empty(), fresh) {
            lemma_all_finished(tables);
            let ended = tables.map_values(|t: TableModel| table_ended(t));
            lemma_filled(ended, ended.len());
            let filled = filled_tables(ended, ended.len());
            let at = lemma_filled_places(ended, ended.len());
            assert(stands_at(specs_of(filled), specs, at));
            assert(forall|k: int|
                0 <= k < filled.len() ==> table_agrees(#[trigger] filled[k]));
        }
    }
}

} // verus!
