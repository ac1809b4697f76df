//! What the rows of tables hold, told from the steps of a document.
use vstd::prelude::*;

use crate::collections::{
    entry_index, entry_keys, entry_value, law_with_entry_value, lemma_entry_index, with_entry,
};
use crate::numeral::decimal;
use crate::text::{find, join, trim};
use crate::text_laws::{law_find_is_first, stands_in};
use crate::xml2tables::laws::{
    columns_agree, lemma_attributes_agree, lemma_begun_agrees, lemma_context_ended_agrees,
    lemma_fresh_agrees, lemma_next_row_keys, lemma_row_ended_agrees, lemma_taken_agrees,
    table_agrees,
};
use crate::xml2tables::parser::{
    acted, actions_at, attributes_taken, element_begun, names_attribute, table_actions, taken_at,
    text_taken, ActionModel, FrameModel,
};
use crate::xml2tables::specs::ResolvedModel;
use crate::xml2tables::tables::{
    blank_row, carried_rows, cell_counts, context_ended, fresh_carry, fresh_columns, fresh_table,
    in_context, next_row, opt_number, row_counts, row_ended, table_ended, value_taken, with_value,
    with_values, without_values, Row, TableModel, ValueTarget, Values,
};
use crate::xml2tables::tree_laws::{run, stepped, Step};

verus! {

// ---------------------------------------------------------------------------
// Values
// ---------------------------------------------------------------------------

/// Whether an attribute is marked at the given place of a path.
pub open spec fn marks_attribute(path: Seq<char>, k: int) -> bool {
    0 <= k && k + 1 < path.len() && path[k] == '/' && path[k + 1] == '@'
}

/// Whether a path is written like that of an attribute.
pub open spec fn is_attribute_path(path: Seq<char>) -> bool {
    exists|k: int| #[trigger] marks_attribute(path, k)
}

/// The values that the end of an element brings, with their paths: its text, where it is not
/// blank, and all its attributes.
pub open spec fn values_of(step: Step) -> Seq<(Seq<char>, Seq<char>)> {
    match step {
        Step::Begin(_) => Seq::empty(),
        Step::End(path, text, attributes) => (if trim(text).len() > 0 && !is_attribute_path(path) {
            seq![(path, trim(text))]
        } else {
            Seq::empty()
        }) + Seq::new(
            attributes.len(),
            |i: int| (path + seq!['/', '@'] + attributes[i].0, attributes[i].1),
        ),
    }
}

/// The values that the steps from the `a`-th to before the `b`-th bring.
pub open spec fn found(steps: Seq<Step>, a: int, b: int) -> Seq<(Seq<char>, Seq<char>)>
    decreases b - a,
{
    if b <= a {
        Seq::empty()
    } else {
        found(steps, a, b - 1) + values_of(steps[b - 1])
    }
}

/// Whether a path is that of a context or leads below it.
pub open spec fn lies_in_context(spec: ResolvedModel, path: Seq<char>) -> bool {
    spec.context_path matches Some(top) && (path == top || (top + seq!['/']).is_prefix_of(path))
}

/// Whether a table puts what stands at a path into a column: of the next row, of all rows, or of
/// the rows of the context.
pub open spec fn takes(
    spec: ResolvedModel,
    target: ValueTarget,
    path: Seq<char>,
    column: Seq<char>,
) -> bool {
    match target {
        ValueTarget::Column => spec.columns.contains((path, column)),
        ValueTarget::GlobalCarry => spec.carry.contains((path, column)) && !lies_in_context(
            spec,
            path,
        ),
        ValueTarget::ContextCarry => spec.carry.contains((path, column)) && lies_in_context(
            spec,
            path,
        ),
    }
}

/// Those of the given values that go into a column, in order.
pub open spec fn collected(
    values: Seq<(Seq<char>, Seq<char>)>,
    spec: ResolvedModel,
    target: ValueTarget,
    column: Seq<char>,
) -> Seq<Seq<char>>
    decreases values.len(),
{
    if values.len() == 0 {
        Seq::empty()
    } else {
        let earlier = collected(values.drop_last(), spec, target, column);
        if takes(spec, target, values.last().0, column) {
            earlier.push(values.last().1)
        } else {
            earlier
        }
    }
}

proof fn lemma_collected_on(
    a: Seq<(Seq<char>, Seq<char>)>,
    b: Seq<(Seq<char>, Seq<char>)>,
    spec: ResolvedModel,
    target: ValueTarget,
    column: Seq<char>,
)
    ensures
        collected(a + b, spec, target, column) == collected(a, spec, target, column) + collected(
            b,
            spec,
            target,
            column,
        ),
    decreases b.len(),
{
    if b.len() == 0 {
        assert(a + b =~= a);
        assert(collected(a, spec, target, column) + Seq::empty() =~= collected(
            a,
            spec,
            target,
            column,
        ));
    } else {
        lemma_collected_on(a, b.drop_last(), spec, target, column);
        assert((a + b).drop_last() =~= a + b.drop_last());
        let (x, y) = (
            collected(a, spec, target, column),
            collected(b.drop_last(), spec, target, column),
        );
        assert((x + y).push(b.last().1) =~= x + y.push(b.last().1));
    }
}

/// Whether no two entries have the same key.
pub open spec fn keys_differ<V>(s: Seq<(Seq<char>, V)>) -> bool {
    forall|i: int, j: int| 0 <= i < j < s.len() ==> (#[trigger] s[i]).0 != (#[trigger] s[j]).0
}

pub proof fn lemma_set_keys_differ<V>(s: Seq<(Seq<char>, V)>, key: Seq<char>, value: V)
    requires
        keys_differ(s),
    ensures
        keys_differ(with_entry(s, key, value)),
{
    lemma_entry_index(s, key);
    let t = with_entry(s, key, value);
    assert forall|i: int, j: int| 0 <= i < j < t.len() implies (#[trigger] t[i]).0 != (
    #[trigger] t[j]).0 by {
        if i < s.len() {
            assert(t[i].0 == s[i].0);
        }
        if j < s.len() {
            assert(t[j].0 == s[j].0);
        } else {
            assert(s[i].0 != key);
        }
    }
}

/// What is held for a column.
pub open spec fn held(values: Values, column: Seq<char>) -> Seq<Seq<char>> {
    match entry_value(values, column) {
        Some(v) => v,
        None => Seq::empty(),
    }
}

proof fn lemma_held_more(values: Values, column: Seq<char>, value: Seq<char>, other: Seq<char>)
    ensures
        held(with_value(values, column, value), other) == (if other == column {
            held(values, other).push(value)
        } else {
            held(values, other)
        }),
{
    let v = match entry_value(values, column) {
        Some(v) => v.push(value),
        None => seq![value],
    };
    law_with_entry_value(values, column, v, other);
    assert(Seq::<Seq<char>>::empty().push(value) =~= seq![value]);
}

proof fn lemma_held_none(values: Values, n: nat, column: Seq<char>)
    ensures
        held(without_values(values, n), column) == Seq::<Seq<char>>::empty(),
        keys_differ(without_values(values, n)),
    decreases n,
{
    if 0 < n <= values.len() {
        let earlier = without_values(values, (n - 1) as nat);
        lemma_held_none(values, (n - 1) as nat, column);
        law_with_entry_value(earlier, values[n - 1].0, Seq::<Seq<char>>::empty(), column);
        lemma_set_keys_differ(earlier, values[n - 1].0, Seq::<Seq<char>>::empty());
    }
}

proof fn lemma_held_fresh(s: Seq<(Seq<char>, Seq<char>)>, n: nat, column: Seq<char>)
    ensures
        held(fresh_columns(s, n), column) == Seq::<Seq<char>>::empty(),
        keys_differ(fresh_columns(s, n)),
    decreases n,
{
    if 0 < n <= s.len() {
        let earlier = fresh_columns(s, (n - 1) as nat);
        lemma_held_fresh(s, (n - 1) as nat, column);
        law_with_entry_value(earlier, s[n - 1].1, Seq::<Seq<char>>::empty(), column);
        lemma_set_keys_differ(earlier, s[n - 1].1, Seq::<Seq<char>>::empty());
    }
}

proof fn lemma_held_fresh_carry(
    s: Seq<(Seq<char>, Seq<char>)>,
    context_path: Option<Seq<char>>,
    inside: bool,
    n: nat,
    column: Seq<char>,
)
    ensures
        held(fresh_carry(s, context_path, inside, n), column) == Seq::<Seq<char>>::empty(),
        keys_differ(fresh_carry(s, context_path, inside, n)),
    decreases n,
{
    if 0 < n <= s.len() {
        let earlier = fresh_carry(s, context_path, inside, (n - 1) as nat);
        lemma_held_fresh_carry(s, context_path, inside, (n - 1) as nat, column);
        law_with_entry_value(earlier, s[n - 1].1, Seq::<Seq<char>>::empty(), column);
        lemma_set_keys_differ(earlier, s[n - 1].1, Seq::<Seq<char>>::empty());
    }
}

// ---------------------------------------------------------------------------
// Taking values in
// ---------------------------------------------------------------------------

/// What a table holds for a column.
spec fn kept(t: TableModel, target: ValueTarget, column: Seq<char>) -> Seq<Seq<char>> {
    match target {
        ValueTarget::Column => held(t.row_values, column),
        ValueTarget::GlobalCarry => held(t.global_carry, column),
        ValueTarget::ContextCarry => held(t.context_carry, column),
    }
}

spec fn all_keys_differ(t: TableModel) -> bool {
    keys_differ(t.row_values) && keys_differ(t.global_carry) && keys_differ(t.context_carry)
}

/// Whether a table differs from another in the values it holds alone.
spec fn same_but_values(t: TableModel, s: TableModel) -> bool {
    &&& t.spec == s.spec
    &&& t.rows == s.rows
    &&& t.open_rows == s.open_rows
    &&& t.row_count == s.row_count
    &&& t.context_count == s.context_count
    &&& t.context_id == s.context_id
}

proof fn lemma_value_taken(
    t: TableModel,
    target: ValueTarget,
    column: Seq<char>,
    value: Seq<char>,
)
    requires
        all_keys_differ(t),
    ensures
        all_keys_differ(value_taken(t, target, column, value)),
        same_but_values(value_taken(t, target, column, value), t),
        forall|to: ValueTarget, c: Seq<char>| #[trigger]
            kept(value_taken(t, target, column, value), to, c) == (if to == target && c
                == column {
                kept(t, to, c).push(value)
            } else {
                kept(t, to, c)
            }),
{
    let after = value_taken(t, target, column, value);
    assert forall|to: ValueTarget, c: Seq<char>| #[trigger] kept(after, to, c) == (if to == target
        && c == column {
        kept(t, to, c).push(value)
    } else {
        kept(t, to, c)
    }) by {
        lemma_held_more(t.row_values, column, value, c);
        lemma_held_more(t.global_carry, column, value, c);
        lemma_held_more(t.context_carry, column, value, c);
    }
    let values = match target {
        ValueTarget::Column => t.row_values,
        ValueTarget::GlobalCarry => t.global_carry,
        ValueTarget::ContextCarry => t.context_carry,
    };
    let v = match entry_value(values, column) {
        Some(v) => v.push(value),
        None => seq![value],
    };
    lemma_set_keys_differ(values, column, v);
}

proof fn lemma_actions_on(
    a: Seq<(Seq<char>, ActionModel)>,
    b: Seq<(Seq<char>, ActionModel)>,
    path: Seq<char>,
)
    ensures
        actions_at(a + b, path) == actions_at(a, path) + actions_at(b, path),
    decreases b.len(),
{
    if b.len() == 0 {
        assert(a + b =~= a);
        assert(actions_at(a, path) + Seq::empty() =~= actions_at(a, path));
    } else {
        lemma_actions_on(a, b.drop_last(), path);
        assert((a + b).drop_last() =~= a + b.drop_last());
        let (x, y) = (actions_at(a, path), actions_at(b.drop_last(), path));
        assert((x + y).push(b.last().1) =~= x + y.push(b.last().1));
    }
}

proof fn lemma_one_action(list: Seq<(Seq<char>, ActionModel)>, path: Seq<char>)
    requires
        keys_differ(list),
    ensures
        actions_at(list, path).len() <= 1,
        forall|i: int|
            0 <= i < list.len() && (#[trigger] list[i]).0 == path ==> actions_at(list, path)
                == seq![list[i].1],
        actions_at(list, path).len() == 1 ==> exists|i: int|
            0 <= i < list.len() && (#[trigger] list[i]).0 == path,
    decreases list.len(),
{
    if list.len() > 0 {
        let part = list.drop_last();
        assert forall|i: int, j: int| 0 <= i < j < part.len() implies (#[trigger] part[i]).0 != (
        #[trigger] part[j]).0 by {
            assert(part[i] == list[i] && part[j] == list[j]);
        }
        lemma_one_action(part, path);
        if list.last().0 == path {
            if actions_at(part, path).len() == 1 {
                let i = choose|i: int| 0 <= i < part.len() && (#[trigger] part[i]).0 == path;
                assert(list[i].0 == list[list.len() - 1].0);
            }
            assert(actions_at(list, path) =~= seq![list.last().1]);
        }
        assert forall|i: int| 0 <= i < list.len() && (#[trigger] list[i]).0
            == path implies actions_at(list, path) == seq![list[i].1] by {
            if i < part.len() {
                assert(part[i] == list[i]);
                assert(list[list.len() - 1].0 != path);
            }
        }
        if actions_at(list, path).len() == 1 {
            if list.last().0 == path {
                assert(list[list.len() - 1].0 == path);
            } else {
                let i = choose|i: int| 0 <= i < part.len() && (#[trigger] part[i]).0 == path;
                assert(list[i].0 == path);
            }
        }
    }
}

/// Whether no path is mapped twice.
pub open spec fn paths_differ(spec: ResolvedModel) -> bool {
    keys_differ(spec.columns) && keys_differ(spec.carry)
}

proof fn lemma_taken_at(t: TableModel, path: Seq<char>, value: Seq<char>)
    requires
        all_keys_differ(t),
        paths_differ(t.spec),
    ensures
        all_keys_differ(taken_at(t, path, value)),
        same_but_values(taken_at(t, path, value), t),
        forall|to: ValueTarget, c: Seq<char>| #[trigger]
            kept(taken_at(t, path, value), to, c) == (if takes(t.spec, to, path, c) {
                kept(t, to, c).push(value)
            } else {
                kept(t, to, c)
            }),
{
    let spec = t.spec;
    let own = spec.columns.map_values(
        |e: (Seq<char>, Seq<char>)|
            (e.0, ActionModel { target: ValueTarget::Column, column: e.1 }),
    );
    let carry = table_actions(spec).skip(own.len() as int);
    assert(table_actions(spec) =~= own + carry);
    lemma_actions_on(own, carry, path);
    assert forall|i: int, j: int| 0 <= i < j < own.len() implies (#[trigger] own[i]).0 != (
    #[trigger] own[j]).0 by {
        assert(spec.columns[i].0 != spec.columns[j].0);
    }
    assert forall|i: int, j: int| 0 <= i < j < carry.len() implies (#[trigger] carry[i]).0 != (
    #[trigger] carry[j]).0 by {
        assert(spec.carry[i].0 != spec.carry[j].0);
    }
    lemma_one_action(own, path);
    lemma_one_action(carry, path);
    let a = actions_at(own, path);
    let b = actions_at(carry, path);
    let actions = a + b;
    assert(actions_at(table_actions(spec), path) == actions);
    reveal_with_fuel(acted, 3);
    // What the table's own columns do.
    let middle = acted(t, actions, a.len(), value);
    if a.len() == 1 {
        let i = choose|i: int| 0 <= i < own.len() && (#[trigger] own[i]).0 == path;
        assert(a == seq![own[i].1]);
        assert(actions[0] == own[i].1);
        lemma_value_taken(t, ValueTarget::Column, spec.columns[i].1, value);
        assert(spec.columns[i] == (path, spec.columns[i].1));
        assert forall|c: Seq<char>| spec.columns.contains((path, c)) implies c
            == spec.columns[i].1 by {
            let k = choose|k: int| 0 <= k < spec.columns.len() && spec.columns[k] == (path, c);
            assert(spec.columns[k].0 == spec.columns[i].0);
        }
    } else {
        assert forall|c: Seq<char>| !spec.columns.contains((path, c)) by {
            if spec.columns.contains((path, c)) {
                let k = choose|k: int| 0 <= k < spec.columns.len() && spec.columns[k] == (path, c);
                assert(own[k].0 == path);
            }
        }
    }
    assert forall|to: ValueTarget, c: Seq<char>| #[trigger] kept(middle, to, c) == (if to
        == ValueTarget::Column && takes(spec, to, path, c) {
        kept(t, to, c).push(value)
    } else {
        kept(t, to, c)
    }) by {
        if a.len() == 1 {
            let i = choose|i: int| 0 <= i < own.len() && (#[trigger] own[i]).0 == path;
            assert(spec.columns[i] == (path, spec.columns[i].1));
            assert(spec.columns.contains((path, spec.columns[i].1)));
            assert(middle == value_taken(t, ValueTarget::Column, spec.columns[i].1, value));
        }
    }
    assert(all_keys_differ(middle) && same_but_values(middle, t));
    // What the carried columns do.
    let after = acted(t, actions, actions.len(), value);
    if b.len() == 1 {
        let i = choose|i: int| 0 <= i < carry.len() && (#[trigger] carry[i]).0 == path;
        assert(b == seq![carry[i].1]);
        assert(actions[a.len() as int] == carry[i].1);
        let target = carry[i].1.target;
        lemma_value_taken(middle, target, spec.carry[i].1, value);
        assert(after == value_taken(middle, target, spec.carry[i].1, value));
        assert(spec.carry[i] == (path, spec.carry[i].1));
        assert(spec.carry.contains((path, spec.carry[i].1)));
        assert forall|c: Seq<char>| spec.carry.contains((path, c)) implies c
            == spec.carry[i].1 by {
            let k = choose|k: int| 0 <= k < spec.carry.len() && spec.carry[k] == (path, c);
            assert(spec.carry[k].0 == spec.carry[i].0);
        }
        assert(in_context(spec.context_path, path) == lies_in_context(spec, path));
    } else {
        assert(after == middle);
        assert forall|c: Seq<char>| !spec.carry.contains((path, c)) by {
            if spec.carry.contains((path, c)) {
                let k = choose|k: int| 0 <= k < spec.carry.len() && spec.carry[k] == (path, c);
                assert(carry[k].0 == path);
            }
        }
    }
}

proof fn lemma_attribute_path(path: Seq<char>)
    ensures
        names_attribute(path) <==> is_attribute_path(path),
{
    let mark = seq!['/', '@'];
    law_find_is_first(path, mark);
    if is_attribute_path(path) {
        let k = choose|k: int| #[trigger] marks_attribute(path, k);
        assert(path.subrange(k, k + 2) =~= mark);
        assert(stands_in(mark, path, k));
    }
    if let Some(n) = find(path, mark) {
        let k = n as int;
        assert(path.subrange(k, k + 2)[0] == path[k] && path.subrange(k, k + 2)[1] == path[k + 1]);
        assert(marks_attribute(path, k));
    }
}

/// What a table holds once the first `n` attributes of an element are taken in.
proof fn lemma_attributes_taken(
    t: TableModel,
    path: Seq<char>,
    attributes: Seq<(Seq<char>, Seq<char>)>,
    n: nat,
)
    requires
        all_keys_differ(t),
        paths_differ(t.spec),
        n <= attributes.len(),
    ensures
        ({
            let after = attributes_taken(t, path, attributes, n);
            let values = Seq::new(
                n,
                |i: int| (path + seq!['/', '@'] + attributes[i].0, attributes[i].1),
            );
            &&& all_keys_differ(after)
            &&& same_but_values(after, t)
            &&& forall|to: ValueTarget, c: Seq<char>| #[trigger]
                kept(after, to, c) == kept(t, to, c) + collected(values, t.spec, to, c)
        }),
    decreases n,
{
    let values = Seq::new(n, |i: int| (path + seq!['/', '@'] + attributes[i].0, attributes[i].1));
    let after = attributes_taken(t, path, attributes, n);
    if n == 0 {
        assert forall|to: ValueTarget, c: Seq<char>| #[trigger] kept(after, to, c) == kept(t, to, c)
            + collected(values, t.spec, to, c) by {
            assert(kept(t, to, c) + Seq::empty() =~= kept(t, to, c));
        }
    } else {
        let m = (n - 1) as nat;
        lemma_attributes_taken(t, path, attributes, m);
        let before = attributes_taken(t, path, attributes, m);
        let earlier = Seq::new(
            m,
            |i: int| (path + seq!['/', '@'] + attributes[i].0, attributes[i].1),
        );
        assert(values.drop_last() =~= earlier);
        let p = path + seq!['/', '@'] + attributes[n - 1].0;
        lemma_taken_at(before, p, attributes[n - 1].1);
        assert forall|to: ValueTarget, c: Seq<char>| #[trigger] kept(after, to, c) == kept(t, to, c)
            + collected(values, t.spec, to, c) by {
            assert(kept(before, to, c) == kept(t, to, c) + collected(earlier, t.spec, to, c));
            assert(kept(after, to, c) =~= kept(t, to, c) + collected(values, t.spec, to, c));
        }
    }
}

/// A table with all that the end of an element brings taken in, before its row or its context is
/// ended.
spec fn with_all(t: TableModel, path: Seq<char>, frame: FrameModel) -> TableModel {
    attributes_taken(
        text_taken(t, path, frame.text),
        path,
        frame.attributes,
        frame.attributes.len(),
    )
}

spec fn frame_of(text: Seq<char>, attributes: Seq<(Seq<char>, Seq<char>)>) -> FrameModel {
    FrameModel { tag: Seq::empty(), attributes, text, has_child: false }
}

proof fn lemma_with_all(
    t: TableModel,
    path: Seq<char>,
    text: Seq<char>,
    attributes: Seq<(Seq<char>, Seq<char>)>,
)
    requires
        all_keys_differ(t),
        paths_differ(t.spec),
    ensures
        ({
            let after = with_all(t, path, frame_of(text, attributes));
            &&& all_keys_differ(after)
            &&& same_but_values(after, t)
            &&& forall|to: ValueTarget, c: Seq<char>| #[trigger]
                kept(after, to, c) == kept(t, to, c) + collected(
                    values_of(Step::End(path, text, attributes)),
                    t.spec,
                    to,
                    c,
                )
        }),
{
    lemma_attribute_path(path);
    lemma_taken_at(t, path, trim(text));
    let texted = text_taken(t, path, text);
    lemma_attributes_taken(texted, path, attributes, attributes.len());
    let after = with_all(t, path, frame_of(text, attributes));
    let own = if trim(text).len() > 0 && !is_attribute_path(path) {
        seq![(path, trim(text))]
    } else {
        Seq::empty()
    };
    let others = Seq::new(
        attributes.len(),
        |i: int| (path + seq!['/', '@'] + attributes[i].0, attributes[i].1),
    );
    assert(values_of(Step::End(path, text, attributes)) =~= own + others);
    assert forall|to: ValueTarget, c: Seq<char>| #[trigger] kept(after, to, c) == kept(t, to, c)
        + collected(values_of(Step::End(path, text, attributes)), t.spec, to, c) by {
        lemma_collected_on(own, others, t.spec, to, c);
        assert(kept(texted, to, c) =~= kept(t, to, c) + collected(own, t.spec, to, c)) by {
            reveal_with_fuel(collected, 2);
            if own.len() > 0 {
                assert(own.drop_last() =~= Seq::empty());
            }
        }
        assert(kept(after, to, c) == kept(texted, to, c) + collected(others, t.spec, to, c));
        assert(kept(after, to, c) =~= kept(t, to, c) + collected(
            values_of(Step::End(path, text, attributes)),
            t.spec,
            to,
            c,
        ));
    }
}

// ---------------------------------------------------------------------------
// Cells
// ---------------------------------------------------------------------------

/// The value of a cell.
pub open spec fn cell(row: Row, column: Seq<char>) -> Option<Seq<char>> {
    match entry_value(row, column) {
        Some(v) => v,
        None => None,
    }
}

/// A cell with the given values for it: one that has a value keeps it, an empty one gets the
/// values, if there are any, with bars between them.
pub open spec fn filled(cell: Option<Seq<char>>, values: Seq<Seq<char>>) -> Option<Seq<char>> {
    if cell is Some {
        cell
    } else if values.len() > 0 {
        Some(join(values, seq!['|']))
    } else {
        None
    }
}

/// The cell at a column, once the first `n` columns are put in.
proof fn lemma_cell_filled(
    row: Row,
    values: Values,
    n: nat,
    only_if_empty: bool,
    column: Seq<char>,
)
    requires
        keys_differ(values),
        n <= values.len(),
        !only_if_empty ==> cell(row, column) is None,
    ensures
        cell(with_values(row, values, n, only_if_empty), column) == (if entry_index(values, column)
            < n {
            filled(cell(row, column), held(values, column))
        } else {
            cell(row, column)
        }),
    decreases n,
{
    if n > 0 {
        lemma_cell_filled(row, values, (n - 1) as nat, only_if_empty, column);
        lemma_entry_index(values, column);
        let earlier = with_values(row, values, (n - 1) as nat, only_if_empty);
        let (other, v) = values[n - 1];
        law_with_entry_value(earlier, other, Some(join(v, seq!['|'])), column);
        if other == column {
            let i = entry_index(values, column) as int;
            if i < n - 1 {
                assert(values[i].0 != values[n - 1].0);
            }
            if i > n - 1 {
                assert(values[n - 1].0 != column);
            }
        } else if entry_index(values, column) == n - 1 {
            assert(values[n - 1].0 == column);
        }
    }
}

proof fn lemma_cell(row: Row, values: Values, only_if_empty: bool, column: Seq<char>)
    requires
        keys_differ(values),
        !only_if_empty ==> cell(row, column) is None,
    ensures
        cell(with_values(row, values, values.len(), only_if_empty), column) == filled(
            cell(row, column),
            held(values, column),
        ),
{
    lemma_cell_filled(row, values, values.len(), only_if_empty, column);
    lemma_entry_index(values, column);
}

proof fn lemma_blank_cell(columns: Seq<Seq<char>>, n: nat, column: Seq<char>)
    ensures
        cell(blank_row(columns, n), column) is None,
    decreases n,
{
    if 0 < n <= columns.len() {
        lemma_blank_cell(columns, (n - 1) as nat, column);
        law_with_entry_value(
            blank_row(columns, (n - 1) as nat),
            columns[n - 1],
            None::<Seq<char>>,
            column,
        );
    }
}

/// What a cell of the next row is.
spec fn next_cell(t: TableModel, c: Seq<char>) -> Option<Seq<char>> {
    if c == "_table"@ {
        Some(t.spec.name)
    } else if t.spec.context_index_col == Some(c) {
        opt_number(t.context_id)
    } else if t.spec.row_index_col == Some(c) {
        Some(decimal(t.row_count + 1))
    } else {
        filled(
            filled(
                filled(None, kept(t, ValueTarget::Column, c)),
                kept(t, ValueTarget::GlobalCarry, c),
            ),
            kept(t, ValueTarget::ContextCarry, c),
        )
    }
}

proof fn lemma_next_cell(t: TableModel, c: Seq<char>)
    requires
        all_keys_differ(t),
    ensures
        cell(next_row(t), c) == next_cell(t, c),
{
    let out = t.spec.output_columns;
    let blank = blank_row(out, out.len());
    lemma_blank_cell(out, out.len(), c);
    lemma_cell(blank, t.row_values, false, c);
    let own = with_values(blank, t.row_values, t.row_values.len(), false);
    lemma_cell(own, t.global_carry, true, c);
    let global = with_values(own, t.global_carry, t.global_carry.len(), true);
    lemma_cell(global, t.context_carry, true, c);
    let carried = with_values(global, t.context_carry, t.context_carry.len(), true);
    let counted = match t.spec.row_index_col {
        Some(k) => {
            law_with_entry_value(carried, k, Some(decimal(t.row_count + 1)), c);
            with_entry(carried, k, Some(decimal(t.row_count + 1)))
        },
        None => carried,
    };
    let placed = match t.spec.context_index_col {
        Some(k) => {
            law_with_entry_value(counted, k, opt_number(t.context_id), c);
            with_entry(counted, k, opt_number(t.context_id))
        },
        None => counted,
    };
    law_with_entry_value(placed, "_table"@, Some(t.spec.name), c);
}

/// The rows named by `open`, a run of them, are filled; the others stay.
proof fn lemma_carried(rows: Seq<Row>, open: Seq<int>, values: Values, n: nat, m: int)
    requires
        n <= open.len(),
        0 <= m,
        m + open.len() == rows.len(),
        forall|i: int| 0 <= i < open.len() ==> #[trigger] open[i] == m + i,
    ensures
        carried_rows(rows, open, values, n).len() == rows.len(),
        forall|k: int|
            0 <= k < rows.len() ==> #[trigger] carried_rows(rows, open, values, n)[k] == (if m <= k
                < m + n {
                with_values(rows[k], values, values.len(), true)
            } else {
                rows[k]
            }),
    decreases n,
{
    if n > 0 {
        lemma_carried(rows, open, values, (n - 1) as nat, m);
        assert(open[n - 1] == m + (n - 1));
    }
}

// ---------------------------------------------------------------------------
// Rows and contexts
// ---------------------------------------------------------------------------

/// Whether a step ends a row.
pub open spec fn ends_row(spec: ResolvedModel, step: Step) -> bool {
    step matches Step::End(path, _, _) && path == spec.row_boundary
}

/// Whether a step begins a context.
pub open spec fn begins_context(spec: ResolvedModel, step: Step) -> bool {
    step matches Step::Begin(path) && spec.context_path == Some(path)
}

/// Whether a step ends a context.
pub open spec fn ends_context(spec: ResolvedModel, step: Step) -> bool {
    step matches Step::End(path, _, _) && spec.context_path == Some(path)
}

/// The place behind the last end of a row before the `n`-th step.
pub open spec fn row_begin(spec: ResolvedModel, steps: Seq<Step>, n: int) -> int
    decreases n,
{
    if n <= 0 {
        0
    } else if ends_row(spec, steps[n - 1]) {
        n
    } else {
        row_begin(spec, steps, n - 1)
    }
}

/// How many rows end before the `n`-th step.
pub open spec fn rows_before(spec: ResolvedModel, steps: Seq<Step>, n: int) -> nat
    decreases n,
{
    if n <= 0 {
        0
    } else {
        rows_before(spec, steps, n - 1) + (if ends_row(spec, steps[n - 1]) {
            1nat
        } else {
            0nat
        })
    }
}

/// The place behind the last beginning or end of a context before the `n`-th step.
pub open spec fn context_place(spec: ResolvedModel, steps: Seq<Step>, n: int) -> int
    decreases n,
{
    if n <= 0 {
        0
    } else if begins_context(spec, steps[n - 1]) || ends_context(spec, steps[n - 1]) {
        n
    } else {
        context_place(spec, steps, n - 1)
    }
}

/// Whether the `n`-th step stands in a context.
pub open spec fn stands_in_context(spec: ResolvedModel, steps: Seq<Step>, n: int) -> bool {
    let m = context_place(spec, steps, n);
    m > 0 && begins_context(spec, steps[m - 1])
}

/// How many contexts begin before the `n`-th step.
pub open spec fn contexts_before(spec: ResolvedModel, steps: Seq<Step>, n: int) -> nat
    decreases n,
{
    if n <= 0 {
        0
    } else {
        contexts_before(spec, steps, n - 1) + (if begins_context(spec, steps[n - 1]) {
            1nat
        } else {
            0nat
        })
    }
}

/// The first beginning or end of a context from the `b`-th step on, or `n`.
pub open spec fn next_context(spec: ResolvedModel, steps: Seq<Step>, b: int, n: int) -> int
    decreases n - b,
{
    if b >= n {
        n
    } else if begins_context(spec, steps[b]) || ends_context(spec, steps[b]) {
        b
    } else {
        next_context(spec, steps, b + 1, n)
    }
}

/// What the steps from the `a`-th to before the `b`-th bring for a column.
pub open spec fn gathered(
    spec: ResolvedModel,
    steps: Seq<Step>,
    a: int,
    b: int,
    target: ValueTarget,
    column: Seq<char>,
) -> Seq<Seq<char>> {
    collected(found(steps, a, b), spec, target, column)
}

/// The place behind a step; behind the last step there is none.
pub open spec fn behind_step(steps: Seq<Step>, b: int) -> int {
    if b < steps.len() {
        b + 1
    } else {
        steps.len() as int
    }
}

/// A cell of the row that ends at the `b`-th step, when it ends. A cell of the table's own columns
/// holds all that stands at their paths since the row before it, texts and attributes, with bars
/// between. Where that is nothing, it holds what was carried so far.
pub open spec fn row_cell(
    spec: ResolvedModel,
    steps: Seq<Step>,
    b: int,
    c: Seq<char>,
) -> Option<Seq<char>> {
    let e = behind_step(steps, b);
    let own = gathered(spec, steps, row_begin(spec, steps, b), e, ValueTarget::Column, c);
    let global = gathered(spec, steps, 0, e, ValueTarget::GlobalCarry, c);
    let local = gathered(
        spec,
        steps,
        context_place(spec, steps, b),
        e,
        ValueTarget::ContextCarry,
        c,
    );
    if c == "_table"@ {
        Some(spec.name)
    } else if spec.context_index_col == Some(c) {
        if stands_in_context(spec, steps, b) {
            Some(decimal(contexts_before(spec, steps, b)))
        } else {
            None
        }
    } else if spec.row_index_col == Some(c) {
        Some(decimal(rows_before(spec, steps, b) + 1))
    } else {
        filled(filled(filled(None, own), global), local)
    }
}

/// Whether a column says where a row stands rather than what it holds.
pub open spec fn tells_place(spec: ResolvedModel, c: Seq<char>) -> bool {
    c == "_table"@ || spec.row_index_col == Some(c) || spec.context_index_col == Some(c)
}

/// Whether a cell of the row that ends at the `b`-th step holds something.
pub open spec fn holds_value(spec: ResolvedModel, steps: Seq<Step>, b: int, c: Seq<char>) -> bool {
    !tells_place(spec, c) && spec.output_columns.contains(c) && (row_cell(spec, steps, b, c)
        matches Some(v) && trim(v).len() > 0)
}

/// Whether the row that ends at the `b`-th step holds anything.
pub open spec fn row_holds(spec: ResolvedModel, steps: Seq<Step>, b: int) -> bool {
    exists|c: Seq<char>| #[trigger] holds_value(spec, steps, b, c)
}

/// What the context of a row that ends at the `b`-th step brings by its end, if it is ended before
/// the `n`-th step.
spec fn brought_before(
    spec: ResolvedModel,
    steps: Seq<Step>,
    b: int,
    n: int,
    c: Seq<char>,
) -> Seq<Seq<char>> {
    let e = next_context(spec, steps, b, n);
    if e < n && ends_context(spec, steps[e]) {
        gathered(
            spec,
            steps,
            context_place(spec, steps, b),
            e + 1,
            ValueTarget::ContextCarry,
            c,
        )
    } else {
        Seq::empty()
    }
}

// ---------------------------------------------------------------------------
// Reading on
// ---------------------------------------------------------------------------

/// What a table has counted and carries, with the marks of the first `n` steps and the values of
/// the first `e`.
spec fn carries(t: TableModel, spec: ResolvedModel, steps: Seq<Step>, n: int, e: int) -> bool {
    &&& t.spec == spec
    &&& paths_differ(spec)
    &&& all_keys_differ(t)
    &&& table_agrees(t)
    &&& forall|c: Seq<char>| #[trigger]
        kept(t, ValueTarget::GlobalCarry, c) == gathered(
            spec,
            steps,
            0,
            e,
            ValueTarget::GlobalCarry,
            c,
        )
    &&& forall|c: Seq<char>| #[trigger]
        kept(t, ValueTarget::ContextCarry, c) == gathered(
            spec,
            steps,
            context_place(spec, steps, n),
            e,
            ValueTarget::ContextCarry,
            c,
        )
    &&& t.context_count == contexts_before(spec, steps, n)
    &&& t.context_id == (if stands_in_context(spec, steps, n) {
        Some(contexts_before(spec, steps, n))
    } else {
        None
    })
}

/// What a table has for its next row.
spec fn has_next(t: TableModel, spec: ResolvedModel, steps: Seq<Step>, n: int, e: int) -> bool {
    &&& forall|c: Seq<char>| #[trigger]
        kept(t, ValueTarget::Column, c) == gathered(
            spec,
            steps,
            row_begin(spec, steps, n),
            e,
            ValueTarget::Column,
            c,
        )
    &&& spec.row_index_col is Some ==> t.row_count == rows_before(spec, steps, n)
}

/// What the rows of a table hold, with the contexts that are ended before the `n`-th step.
spec fn rows_tell(
    rows: Seq<Row>,
    spec: ResolvedModel,
    steps: Seq<Step>,
    at: Seq<int>,
    n: int,
) -> bool {
    &&& rows.len() == at.len()
    &&& forall|i: int, j: int| 0 <= i < j < at.len() ==> #[trigger] at[i] < #[trigger] at[j]
    &&& forall|k: int, c: Seq<char>|
        0 <= k < at.len() ==> #[trigger] cell(rows[k], c) == filled(
            row_cell(spec, steps, at[k], c),
            brought_before(spec, steps, at[k], n, c),
        )
}

/// Which rows are there: those that end before the `n`-th step and hold something.
spec fn rows_there(spec: ResolvedModel, steps: Seq<Step>, at: Seq<int>, n: int) -> bool {
    &&& forall|k: int| 0 <= k < at.len() ==> 0 <= #[trigger] at[k] < n
    &&& forall|b: int|
        0 <= b < n ==> (#[trigger] at.contains(b) <==> ends_row(spec, steps[b]) && row_holds(
            spec,
            steps,
            b,
        ))
}

/// Which rows are open: those since the last beginning or end of a context.
spec fn rows_open(
    t: TableModel,
    spec: ResolvedModel,
    steps: Seq<Step>,
    at: Seq<int>,
    n: int,
) -> bool {
    let m = t.rows.len() - t.open_rows.len();
    if spec.context_path is Some {
        &&& 0 <= m
        &&& forall|i: int| 0 <= i < t.open_rows.len() ==> #[trigger] t.open_rows[i] == m + i
        &&& forall|k: int|
            0 <= k < at.len() ==> (m <= k <==> context_place(spec, steps, n) <= #[trigger] at[k])
    } else {
        t.open_rows.len() == 0
    }
}

spec fn tells(t: TableModel, spec: ResolvedModel, steps: Seq<Step>, at: Seq<int>, n: int) -> bool {
    &&& 0 <= n <= steps.len()
    &&& carries(t, spec, steps, n, n)
    &&& has_next(t, spec, steps, n, n)
    &&& rows_tell(t.rows, spec, steps, at, n)
    &&& rows_there(spec, steps, at, n)
    &&& rows_open(t, spec, steps, at, n)
}

proof fn lemma_places(spec: ResolvedModel, steps: Seq<Step>, n: int)
    requires
        0 <= n,
    ensures
        0 <= context_place(spec, steps, n) <= n,
        0 <= row_begin(spec, steps, n) <= n,
    decreases n,
{
    if n > 0 {
        lemma_places(spec, steps, n - 1);
    }
}

proof fn lemma_gathered_next(
    spec: ResolvedModel,
    steps: Seq<Step>,
    a: int,
    n: int,
    to: ValueTarget,
    c: Seq<char>,
)
    requires
        0 <= a <= n < steps.len(),
    ensures
        gathered(spec, steps, a, n + 1, to, c) == gathered(spec, steps, a, n, to, c) + collected(
            values_of(steps[n]),
            spec,
            to,
            c,
        ),
{
    lemma_collected_on(found(steps, a, n), values_of(steps[n]), spec, to, c);
}

proof fn lemma_next_context(spec: ResolvedModel, steps: Seq<Step>, b: int, n: int)
    requires
        0 <= b <= n,
    ensures
        b <= next_context(spec, steps, b, n) <= n,
        next_context(spec, steps, b, n) < n ==> {
            let e = next_context(spec, steps, b, n);
            &&& next_context(spec, steps, b, n + 1) == e
            &&& begins_context(spec, steps[e]) || ends_context(spec, steps[e])
            &&& context_place(spec, steps, n) > b
        },
        next_context(spec, steps, b, n) == n ==> {
            &&& context_place(spec, steps, n) == context_place(spec, steps, b)
            &&& next_context(spec, steps, b, n + 1) == (if begins_context(spec, steps[n])
                || ends_context(spec, steps[n]) {
                n
            } else {
                n + 1
            })
        },
    decreases n - b,
{
    reveal_with_fuel(next_context, 2);
    if b < n && !(begins_context(spec, steps[b]) || ends_context(spec, steps[b])) {
        lemma_next_context(spec, steps, b + 1, n);
        assert(context_place(spec, steps, b + 1) == context_place(spec, steps, b));
    } else if b < n {
        lemma_place_behind(spec, steps, b, n);
    }
}

proof fn lemma_place_behind(spec: ResolvedModel, steps: Seq<Step>, b: int, n: int)
    requires
        0 <= b < n,
        begins_context(spec, steps[b]) || ends_context(spec, steps[b]),
    ensures
        context_place(spec, steps, n) > b,
    decreases n,
{
    if n > b + 1 {
        lemma_place_behind(spec, steps, b, n - 1);
    }
}

proof fn lemma_tells_fresh(spec: ResolvedModel, steps: Seq<Step>)
    requires
        columns_agree(spec),
        paths_differ(spec),
    ensures
        tells(fresh_table(spec), spec, steps, Seq::empty(), 0),
{
    let t = fresh_table(spec);
    lemma_fresh_agrees(spec);
    lemma_held_fresh(spec.columns, spec.columns.len(), Seq::empty());
    lemma_held_fresh_carry(
        spec.carry,
        spec.context_path,
        true,
        spec.carry.len(),
        Seq::empty(),
    );
    lemma_held_fresh_carry(
        spec.carry,
        spec.context_path,
        false,
        spec.carry.len(),
        Seq::empty(),
    );
    assert forall|to: ValueTarget, c: Seq<char>| #[trigger] kept(t, to, c) == Seq::<
        Seq<char>,
    >::empty() by {
        lemma_held_fresh(spec.columns, spec.columns.len(), c);
        lemma_held_fresh_carry(spec.carry, spec.context_path, true, spec.carry.len(), c);
        lemma_held_fresh_carry(spec.carry, spec.context_path, false, spec.carry.len(), c);
    }
}

/// The rows at a beginning of an element, or at an end that ends no context.
proof fn lemma_rows_stay(
    rows: Seq<Row>,
    spec: ResolvedModel,
    steps: Seq<Step>,
    at: Seq<int>,
    n: int,
)
    requires
        0 <= n < steps.len(),
        rows_tell(rows, spec, steps, at, n),
        forall|k: int| 0 <= k < at.len() ==> 0 <= #[trigger] at[k] <= n,
        !ends_context(spec, steps[n]),
    ensures
        rows_tell(rows, spec, steps, at, n + 1),
{
    assert forall|k: int, c: Seq<char>| 0 <= k < at.len() implies #[trigger] cell(rows[k], c)
        == filled(
        row_cell(spec, steps, at[k], c),
        brought_before(spec, steps, at[k], n + 1, c),
    ) by {
        lemma_next_context(spec, steps, at[k], n);
        assert(brought_before(spec, steps, at[k], n + 1, c) =~= brought_before(
            spec,
            steps,
            at[k],
            n,
            c,
        ));
    }
}

proof fn lemma_tells_begun(
    t: TableModel,
    spec: ResolvedModel,
    steps: Seq<Step>,
    at: Seq<int>,
    n: int,
)
    requires
        tells(t, spec, steps, at, n),
        n < steps.len(),
        steps[n] is Begin,
    ensures
        tells(stepped(t, steps[n]), spec, steps, at, n + 1),
{
    let path = steps[n]->Begin_0;
    let after = element_begun(t, path);
    lemma_begun_agrees(t, path);
    lemma_rows_stay(t.rows, spec, steps, at, n);
    lemma_places(spec, steps, n);
    lemma_held_none(t.context_carry, t.context_carry.len(), Seq::empty());
    assert forall|c: Seq<char>| #[trigger] kept(after, ValueTarget::GlobalCarry, c) == gathered(
        spec,
        steps,
        0,
        n + 1,
        ValueTarget::GlobalCarry,
        c,
    ) by {
        lemma_gathered_next(spec, steps, 0, n, ValueTarget::GlobalCarry, c);
        assert(kept(t, ValueTarget::GlobalCarry, c) + Seq::empty() =~= kept(
            t,
            ValueTarget::GlobalCarry,
            c,
        ));
    }
    assert forall|c: Seq<char>| #[trigger] kept(after, ValueTarget::Column, c) == gathered(
        spec,
        steps,
        row_begin(spec, steps, n + 1),
        n + 1,
        ValueTarget::Column,
        c,
    ) by {
        lemma_gathered_next(
            spec,
            steps,
            row_begin(spec, steps, n),
            n,
            ValueTarget::Column,
            c,
        );
        assert(kept(t, ValueTarget::Column, c) + Seq::empty() =~= kept(
            t,
            ValueTarget::Column,
            c,
        ));
    }
    assert forall|c: Seq<char>| #[trigger] kept(after, ValueTarget::ContextCarry, c) == gathered(
        spec,
        steps,
        context_place(spec, steps, n + 1),
        n + 1,
        ValueTarget::ContextCarry,
        c,
    ) by {
        lemma_held_none(t.context_carry, t.context_carry.len(), c);
        lemma_gathered_next(
            spec,
            steps,
            context_place(spec, steps, n),
            n,
            ValueTarget::ContextCarry,
            c,
        );
        assert(kept(t, ValueTarget::ContextCarry, c) + Seq::empty() =~= kept(
            t,
            ValueTarget::ContextCarry,
            c,
        ));
    }
    assert forall|b: int| 0 <= b < n + 1 implies (#[trigger] at.contains(b) <==> ends_row(
        spec,
        steps[b],
    ) && row_holds(spec, steps, b)) by {
        if at.contains(b) {
            let k = choose|k: int| 0 <= k < at.len() && at[k] == b;
            assert(at[k] < n);
        }
    }
}

proof fn lemma_row_counts(t: TableModel, spec: ResolvedModel, steps: Seq<Step>, n: int)
    requires
        0 <= n <= steps.len(),
        carries(t, spec, steps, n, behind_step(steps, n)),
        has_next(t, spec, steps, n, behind_step(steps, n)),
    ensures
        forall|c: Seq<char>| #[trigger] cell(next_row(t), c) == row_cell(spec, steps, n, c),
        row_counts(spec, next_row(t)) <==> row_holds(spec, steps, n),
        entry_keys(next_row(t)) == spec.output_columns,
{
    let row = next_row(t);
    let out = spec.output_columns;
    lemma_next_row_keys(t);
    assert forall|c: Seq<char>| #[trigger] cell(row, c) == row_cell(spec, steps, n, c) by {
        lemma_next_cell(t, c);
        assert(kept(t, ValueTarget::GlobalCarry, c) == gathered(
            spec,
            steps,
            0,
            behind_step(steps, n),
            ValueTarget::GlobalCarry,
            c,
        ));
        assert(kept(t, ValueTarget::Column, c).len() >= 0);
        assert(kept(t, ValueTarget::ContextCarry, c).len() >= 0);
    }
    if row_counts(spec, row) {
        let i = choose|i: int| 0 <= i < row.len() && cell_counts(spec, #[trigger] row[i]);
        let c = row[i].0;
        lemma_entry_index(row, c);
        assert(entry_keys(row)[i] == c);
        let j = entry_index(row, c) as int;
        assert(out.contains(c));
        assert(entry_keys(row)[j] == c);
        assert(j == i);
        assert(cell(row, c) == row[i].1);
        assert(holds_value(spec, steps, n, c));
    }
    if row_holds(spec, steps, n) {
        let c = choose|c: Seq<char>| #[trigger] holds_value(spec, steps, n, c);
        lemma_entry_index(row, c);
        let j = entry_index(row, c) as int;
        assert(cell(row, c) == row[j].1);
        assert(cell_counts(spec, row[j]));
    }
}

spec fn rows_with(spec: ResolvedModel, steps: Seq<Step>, at: Seq<int>, n: int) -> Seq<int> {
    if row_holds(spec, steps, n) {
        at.push(n)
    } else {
        at
    }
}

/// A table at the end of a row.
proof fn lemma_tells_row(
    t: TableModel,
    spec: ResolvedModel,
    steps: Seq<Step>,
    at: Seq<int>,
    n: int,
)
    requires
        0 <= n <= steps.len(),
        carries(t, spec, steps, n, behind_step(steps, n)),
        has_next(t, spec, steps, n, behind_step(steps, n)),
        rows_tell(t.rows, spec, steps, at, n),
        rows_open(t, spec, steps, at, n),
        forall|k: int| 0 <= k < at.len() ==> 0 <= #[trigger] at[k] < n,
    ensures
        carries(row_ended(t), spec, steps, n, behind_step(steps, n)),
        rows_tell(row_ended(t).rows, spec, steps, rows_with(spec, steps, at, n), n),
        rows_open(row_ended(t), spec, steps, rows_with(spec, steps, at, n), n),
        forall|c: Seq<char>| #[trigger]
            kept(row_ended(t), ValueTarget::Column, c) == Seq::<Seq<char>>::empty(),
        spec.row_index_col is Some ==> row_ended(t).row_count == rows_before(spec, steps, n) + 1,
{
    let e = behind_step(steps, n);
    let after = row_ended(t);
    lemma_row_ended_agrees(t);
    lemma_row_counts(t, spec, steps, n);
    lemma_held_none(t.row_values, t.row_values.len(), Seq::empty());
    lemma_places(spec, steps, n);
    assert forall|c: Seq<char>| #[trigger] kept(after, ValueTarget::Column, c) == Seq::<
        Seq<char>,
    >::empty() by {
        lemma_held_none(t.row_values, t.row_values.len(), c);
    }
    assert forall|c: Seq<char>| #[trigger] kept(after, ValueTarget::GlobalCarry, c) == gathered(
        spec,
        steps,
        0,
        e,
        ValueTarget::GlobalCarry,
        c,
    ) by {
        assert(kept(t, ValueTarget::GlobalCarry, c) == kept(after, ValueTarget::GlobalCarry, c));
    }
    assert forall|c: Seq<char>| #[trigger] kept(after, ValueTarget::ContextCarry, c) == gathered(
        spec,
        steps,
        context_place(spec, steps, n),
        e,
        ValueTarget::ContextCarry,
        c,
    ) by {
        assert(kept(t, ValueTarget::ContextCarry, c) == kept(after, ValueTarget::ContextCarry, c));
    }
    let more = rows_with(spec, steps, at, n);
    assert forall|k: int, c: Seq<char>| 0 <= k < more.len() implies #[trigger] cell(
        after.rows[k],
        c,
    ) == filled(row_cell(spec, steps, more[k], c), brought_before(spec, steps, more[k], n, c)) by {
        if k < at.len() {
            assert(more[k] == at[k]);
            assert(after.rows[k] == t.rows[k]);
            assert(cell(t.rows[k], c) == filled(
                row_cell(spec, steps, at[k], c),
                brought_before(spec, steps, at[k], n, c),
            ));
        } else {
            assert(after.rows[k] == next_row(t));
            assert(cell(next_row(t), c) == row_cell(spec, steps, n, c));
            lemma_next_context(spec, steps, n, n);
        }
    }
    assert forall|i: int, j: int| 0 <= i < j < more.len() implies #[trigger] more[i]
        < #[trigger] more[j] by {
        assert(more[i] == at[i]);
        if j < at.len() {
            assert(more[j] == at[j]);
        }
    }
    if spec.context_path is Some {
        let m = t.rows.len() - t.open_rows.len();
        assert(after.rows.len() - after.open_rows.len() == m);
        assert forall|k: int| 0 <= k < more.len() implies (m <= k <==> context_place(spec, steps, n)
            <= #[trigger] more[k]) by {
            if k < at.len() {
                assert(more[k] == at[k]);
            }
        }
    }
}

/// The rows of a context, with what it brought by its end.
proof fn lemma_context_filled(
    t: TableModel,
    spec: ResolvedModel,
    steps: Seq<Step>,
    at: Seq<int>,
    n: int,
)
    requires
        t.spec == spec,
        spec.context_path is Some,
        keys_differ(t.context_carry),
        rows_open(t, spec, steps, at, n),
        t.rows.len() == at.len(),
    ensures
        context_ended(t).rows.len() == at.len(),
        forall|k: int, c: Seq<char>|
            0 <= k < at.len() ==> #[trigger] cell(context_ended(t).rows[k], c) == (
            if context_place(spec, steps, n) <= at[k] {
                filled(cell(t.rows[k], c), kept(t, ValueTarget::ContextCarry, c))
            } else {
                cell(t.rows[k], c)
            }),
{
    let m = t.rows.len() - t.open_rows.len();
    lemma_carried(t.rows, t.open_rows, t.context_carry, t.open_rows.len(), m);
    assert forall|k: int, c: Seq<char>| 0 <= k < at.len() implies #[trigger] cell(
        context_ended(t).rows[k],
        c,
    ) == (if context_place(spec, steps, n) <= at[k] {
        filled(cell(t.rows[k], c), kept(t, ValueTarget::ContextCarry, c))
    } else {
        cell(t.rows[k], c)
    }) by {
        lemma_cell(t.rows[k], t.context_carry, true, c);
    }
}

/// A table at the end of a context.
proof fn lemma_tells_context(
    t: TableModel,
    spec: ResolvedModel,
    steps: Seq<Step>,
    at: Seq<int>,
    n: int,
)
    requires
        0 <= n < steps.len(),
        ends_context(spec, steps[n]),
        carries(t, spec, steps, n, n + 1),
        rows_tell(t.rows, spec, steps, at, n),
        rows_open(t, spec, steps, at, n),
        forall|k: int| 0 <= k < at.len() ==> 0 <= #[trigger] at[k] <= n,
    ensures
        carries(context_ended(t), spec, steps, n + 1, n + 1),
        rows_tell(context_ended(t).rows, spec, steps, at, n + 1),
        rows_open(context_ended(t), spec, steps, at, n + 1),
{
    let after = context_ended(t);
    lemma_context_ended_agrees(t);
    lemma_context_filled(t, spec, steps, at, n);
    lemma_places(spec, steps, n);
    lemma_held_none(t.context_carry, t.context_carry.len(), Seq::empty());
    assert forall|c: Seq<char>| #[trigger] kept(after, ValueTarget::ContextCarry, c) == gathered(
        spec,
        steps,
        context_place(spec, steps, n + 1),
        n + 1,
        ValueTarget::ContextCarry,
        c,
    ) by {
        lemma_held_none(t.context_carry, t.context_carry.len(), c);
    }
    assert forall|c: Seq<char>| #[trigger] kept(after, ValueTarget::GlobalCarry, c) == gathered(
        spec,
        steps,
        0,
        n + 1,
        ValueTarget::GlobalCarry,
        c,
    ) by {
        assert(kept(t, ValueTarget::GlobalCarry, c) == kept(after, ValueTarget::GlobalCarry, c));
    }
    assert forall|k: int, c: Seq<char>| 0 <= k < at.len() implies #[trigger] cell(after.rows[k], c)
        == filled(
        row_cell(spec, steps, at[k], c),
        brought_before(spec, steps, at[k], n + 1, c),
    ) by {
        lemma_next_context(spec, steps, at[k], n);
        assert(cell(t.rows[k], c) == filled(
            row_cell(spec, steps, at[k], c),
            brought_before(spec, steps, at[k], n, c),
        ));
        assert(kept(t, ValueTarget::ContextCarry, c) == gathered(
            spec,
            steps,
            context_place(spec, steps, n),
            n + 1,
            ValueTarget::ContextCarry,
            c,
        ));
        if next_context(spec, steps, at[k], n) == n {
            lemma_places(spec, steps, at[k]);
        }
    }
}

proof fn lemma_full_agrees(t: TableModel, path: Seq<char>, frame: FrameModel)
    requires
        table_agrees(t),
    ensures
        table_agrees(with_all(t, path, frame)),
{
    lemma_taken_agrees(t, path, trim(frame.text));
    let texted = text_taken(t, path, frame.text);
    lemma_attributes_agree(texted, path, frame.attributes, frame.attributes.len());
}

proof fn lemma_tells_ended(
    t: TableModel,
    spec: ResolvedModel,
    steps: Seq<Step>,
    at: Seq<int>,
    n: int,
) -> (more: Seq<int>)
    requires
        tells(t, spec, steps, at, n),
        n < steps.len(),
        steps[n] is End,
    ensures
        tells(stepped(t, steps[n]), spec, steps, more, n + 1),
{
    let (path, text, attributes) = (steps[n]->End_0, steps[n]->End_1, steps[n]->End_2);
    let frame = frame_of(text, attributes);
    let full = with_all(t, path, frame);
    lemma_with_all(t, path, text, attributes);
    lemma_full_agrees(t, path, frame);
    lemma_places(spec, steps, n);
    assert forall|c: Seq<char>| #[trigger] kept(full, ValueTarget::GlobalCarry, c) == gathered(
        spec,
        steps,
        0,
        n + 1,
        ValueTarget::GlobalCarry,
        c,
    ) by {
        lemma_gathered_next(spec, steps, 0, n, ValueTarget::GlobalCarry, c);
        assert(kept(t, ValueTarget::GlobalCarry, c).len() >= 0);
    }
    assert forall|c: Seq<char>| #[trigger] kept(full, ValueTarget::Column, c) == gathered(
        spec,
        steps,
        row_begin(spec, steps, n),
        n + 1,
        ValueTarget::Column,
        c,
    ) by {
        lemma_gathered_next(spec, steps, row_begin(spec, steps, n), n, ValueTarget::Column, c);
        assert(kept(t, ValueTarget::Column, c).len() >= 0);
    }
    assert forall|c: Seq<char>| #[trigger] kept(full, ValueTarget::ContextCarry, c) == gathered(
        spec,
        steps,
        context_place(spec, steps, n),
        n + 1,
        ValueTarget::ContextCarry,
        c,
    ) by {
        lemma_gathered_next(
            spec,
            steps,
            context_place(spec, steps, n),
            n,
            ValueTarget::ContextCarry,
            c,
        );
        assert(kept(t, ValueTarget::ContextCarry, c).len() >= 0);
    }
    assert(carries(full, spec, steps, n, n + 1));
    assert(has_next(full, spec, steps, n, n + 1));
    let rows_end = ends_row(spec, steps[n]);
    let rowed = if rows_end {
        row_ended(full)
    } else {
        full
    };
    let more = if rows_end {
        rows_with(spec, steps, at, n)
    } else {
        at
    };
    if rows_end {
        lemma_tells_row(full, spec, steps, at, n);
    }
    let after = stepped(t, steps[n]);
    assert forall|k: int| 0 <= k < more.len() implies 0 <= #[trigger] more[k] <= n by {
        if k < at.len() {
            assert(more[k] == at[k]);
        }
    }
    if ends_context(spec, steps[n]) {
        lemma_tells_context(rowed, spec, steps, more, n);
    } else {
        lemma_rows_stay(rowed.rows, spec, steps, more, n);
    }
    assert(has_next(after, spec, steps, n + 1, n + 1)) by {
        assert forall|c: Seq<char>| #[trigger] kept(after, ValueTarget::Column, c) == gathered(
            spec,
            steps,
            row_begin(spec, steps, n + 1),
            n + 1,
            ValueTarget::Column,
            c,
        ) by {
            assert(kept(after, ValueTarget::Column, c) == kept(rowed, ValueTarget::Column, c));
        }
    }
    assert forall|b: int| 0 <= b < n + 1 implies (#[trigger] more.contains(b) <==> ends_row(
        spec,
        steps[b],
    ) && row_holds(spec, steps, b)) by {
        if b < n {
            assert(at.contains(b) <==> ends_row(spec, steps[b]) && row_holds(spec, steps, b));
            if at.contains(b) {
                let k = choose|k: int| 0 <= k < at.len() && at[k] == b;
                assert(more[k] == b);
            }
            if more.contains(b) {
                let k = choose|k: int| 0 <= k < more.len() && more[k] == b;
                assert(k < at.len());
                assert(at[k] == b);
            }
        } else {
            if more.contains(b) {
                let k = choose|k: int| 0 <= k < more.len() && more[k] == b;
                if k < at.len() {
                    assert(more[k] == at[k]);
                }
            }
            if rows_end && row_holds(spec, steps, n) {
                assert(more[at.len() as int] == n);
            }
        }
    }
    more
}

proof fn lemma_tells(spec: ResolvedModel, steps: Seq<Step>, n: int) -> (at: Seq<int>)
    requires
        columns_agree(spec),
        paths_differ(spec),
        0 <= n <= steps.len(),
    ensures
        tells(run(fresh_table(spec), steps.take(n)), spec, steps, at, n),
    decreases n,
{
    if n == 0 {
        lemma_tells_fresh(spec, steps);
        Seq::empty()
    } else {
        let before = lemma_tells(spec, steps, n - 1);
        let t = run(fresh_table(spec), steps.take(n - 1));
        assert(steps.take(n).drop_last() =~= steps.take(n - 1));
        if steps[n - 1] is Begin {
            lemma_tells_begun(t, spec, steps, before, n - 1);
            before
        } else {
            lemma_tells_ended(t, spec, steps, before, n - 1)
        }
    }
}

// ---------------------------------------------------------------------------
// Whole tables
// ---------------------------------------------------------------------------

/// What the context of a row that ends at the `b`-th step brings by its end, or by the end of the
/// document.
pub open spec fn brought_by_context(
    spec: ResolvedModel,
    steps: Seq<Step>,
    b: int,
    c: Seq<char>,
) -> Seq<Seq<char>> {
    let e = next_context(spec, steps, b, steps.len() as int);
    if e < steps.len() && begins_context(spec, steps[e]) {
        Seq::empty()
    } else {
        gathered(
            spec,
            steps,
            context_place(spec, steps, b),
            behind_step(steps, e),
            ValueTarget::ContextCarry,
            c,
        )
    }
}

/// A cell of the row that ends at the `b`-th step, at the end of the document: where it was empty,
/// it holds what its context brought, or else what the document brought.
pub open spec fn final_cell(
    spec: ResolvedModel,
    steps: Seq<Step>,
    b: int,
    c: Seq<char>,
) -> Option<Seq<char>> {
    filled(
        filled(row_cell(spec, steps, b, c), brought_by_context(spec, steps, b, c)),
        gathered(spec, steps, 0, steps.len() as int, ValueTarget::GlobalCarry, c),
    )
}

/// Whether a row ends at the `b`-th step; where nothing says where rows end, one ends with the
/// document.
pub open spec fn is_row_end(spec: ResolvedModel, steps: Seq<Step>, b: int) -> bool {
    ||| 0 <= b < steps.len() && ends_row(spec, steps[b])
    ||| b == steps.len() && !spec.explicit_row_path
}

/// Whether `at` names, in order, the steps at which a row ends that holds something.
pub open spec fn names_rows(at: Seq<int>, spec: ResolvedModel, steps: Seq<Step>) -> bool {
    &&& forall|i: int, j: int| 0 <= i < j < at.len() ==> #[trigger] at[i] < #[trigger] at[j]
    &&& forall|b: int| #[trigger]
        at.contains(b) <==> is_row_end(spec, steps, b) && row_holds(spec, steps, b)
}

/// Whether the rows hold what the steps bring.
pub open spec fn rows_hold(
    rows: Seq<Row>,
    at: Seq<int>,
    spec: ResolvedModel,
    steps: Seq<Step>,
) -> bool {
    &&& rows.len() == at.len()
    &&& forall|k: int, c: Seq<char>|
        0 <= k < rows.len() ==> #[trigger] cell(rows[k], c) == final_cell(spec, steps, at[k], c)
}

/// A table has one row for each end of a row that holds something, in order. Its cells hold all
/// that stands at the paths of their columns since the row before, be it text or attribute; what
/// is carried fills the cells that are empty.
pub proof fn law_rows_hold_what_elements_hold(spec: ResolvedModel, steps: Seq<Step>)
    requires
        columns_agree(spec),
        paths_differ(spec),
    ensures
        exists|at: Seq<int>|
            #[trigger] names_rows(at, spec, steps) && rows_hold(
                table_ended(run(fresh_table(spec), steps)).rows,
                at,
                spec,
                steps,
            ),
{
    let n = steps.len() as int;
    let before = lemma_tells(spec, steps, n);
    assert(steps.take(n) =~= steps);
    let t = run(fresh_table(spec), steps);
    let rowed = if spec.explicit_row_path {
        t
    } else {
        row_ended(t)
    };
    let at = if spec.explicit_row_path {
        before
    } else {
        rows_with(spec, steps, before, n)
    };
    lemma_places(spec, steps, n);
    if !spec.explicit_row_path {
        lemma_tells_row(t, spec, steps, before, n);
    }
    let closes = spec.context_path is Some && rowed.open_rows.len() > 0;
    let closed = if closes {
        context_ended(rowed)
    } else {
        rowed
    };
    if closes {
        lemma_context_filled(rowed, spec, steps, at, n);
    }
    let rows = table_ended(t).rows;
    assert forall|k: int| 0 <= k < at.len() implies 0 <= #[trigger] at[k] <= n by {
        if k < before.len() {
            assert(at[k] == before[k]);
        }
    }
    assert forall|k: int, c: Seq<char>| 0 <= k < rows.len() implies #[trigger] cell(rows[k], c)
        == final_cell(spec, steps, at[k], c) by {
        let b = at[k];
        lemma_next_context(spec, steps, b, n);
        assert(cell(rowed.rows[k], c) == filled(
            row_cell(spec, steps, b, c),
            brought_before(spec, steps, b, n, c),
        ));
        assert(kept(rowed, ValueTarget::ContextCarry, c) == gathered(
            spec,
            steps,
            context_place(spec, steps, n),
            n,
            ValueTarget::ContextCarry,
            c,
        ));
        lemma_places(spec, steps, b);
        assert(cell(closed.rows[k], c) == filled(
            row_cell(spec, steps, b, c),
            brought_by_context(spec, steps, b, c),
        )) by {
            let e = next_context(spec, steps, b, n);
            if closes {
                assert(cell(closed.rows[k], c) == (if context_place(spec, steps, n) <= at[k] {
                    filled(cell(rowed.rows[k], c), kept(rowed, ValueTarget::ContextCarry, c))
                } else {
                    cell(rowed.rows[k], c)
                }));
            } else if spec.context_path is Some {
                assert(rowed.rows.len() - rowed.open_rows.len() > k);
                assert(context_place(spec, steps, n) > at[k]);
            } else {
                lemma_no_context(spec, found(steps, context_place(spec, steps, b), n), c);
            }
        }
        assert(kept(closed, ValueTarget::GlobalCarry, c) == gathered(
            spec,
            steps,
            0,
            n,
            ValueTarget::GlobalCarry,
            c,
        )) by {
            assert(kept(rowed, ValueTarget::GlobalCarry, c) == kept(
                closed,
                ValueTarget::GlobalCarry,
                c,
            ));
        }
        lemma_cell(closed.rows[k], closed.global_carry, true, c);
    }
    assert forall|b: int| #[trigger] at.contains(b) <==> is_row_end(spec, steps, b) && row_holds(
        spec,
        steps,
        b,
    ) by {
        if 0 <= b < n {
            assert(before.contains(b) <==> ends_row(spec, steps[b]) && row_holds(spec, steps, b));
        }
        if before.contains(b) {
            let k = choose|k: int| 0 <= k < before.len() && before[k] == b;
            assert(at[k] == b);
        }
        if at.contains(b) {
            let k = choose|k: int| 0 <= k < at.len() && at[k] == b;
            if k < before.len() {
                assert(before[k] == b);
            }
        }
        if b == n && !spec.explicit_row_path && row_holds(spec, steps, n) {
            assert(at[before.len() as int] == n);
        }
    }
    assert(names_rows(at, spec, steps));
}

proof fn lemma_no_context(
    spec: ResolvedModel,
    values: Seq<(Seq<char>, Seq<char>)>,
    c: Seq<char>,
)
    requires
        spec.context_path is None,
    ensures
        collected(values, spec, ValueTarget::ContextCarry, c) == Seq::<Seq<char>>::empty(),
    decreases values.len(),
{
    if values.len() > 0 {
        lemma_no_context(spec, values.drop_last(), c);
    }
}

pub proof fn lemma_spec_stays(spec: ResolvedModel, steps: Seq<Step>)
    requires
        columns_agree(spec),
        paths_differ(spec),
    ensures
        table_ended(run(fresh_table(spec), steps)).spec == spec,
{
    let at = lemma_tells(spec, steps, steps.len() as int);
    assert(steps.take(steps.len() as int) =~= steps);
}

} // verus!
