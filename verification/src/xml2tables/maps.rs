//! The maps and sets that tables are made with.
use indexmap::{IndexMap, IndexSet};
use vstd::prelude::*;

use crate::collections::{entry_value, with_entry, with_item};
use crate::text::{opt_text, texts};
use crate::xml2tables::types::{XmlMappingDocument, XmlRow, XmlTableSpec};

verus! {

// ---------------------------------------------------------------------------
// Rows
// ---------------------------------------------------------------------------

/// The cells of a row, in their order.
pub uninterp spec fn row_entries(m: XmlRow) -> Seq<(Seq<char>, Option<Seq<char>>)>;

pub open spec fn cell_pairs(v: Seq<(String, Option<String>)>) -> Seq<
    (Seq<char>, Option<Seq<char>>),
> {
    v.map_values(|p: (String, Option<String>)| (p.0@, opt_text(p.1)))
}

/// `IndexMap::new`: no cells.
#[verifier::external_body]
pub(crate) fn new_row() -> (row: XmlRow)
    ensures
        row_entries(row) == Seq::<(Seq<char>, Option<Seq<char>>)>::empty(),
{
    IndexMap::new()
}

/// `IndexMap::insert`: the cell in the column is set; a new column comes last.
#[verifier::external_body]
pub(crate) fn set_cell(row: &mut XmlRow, column: String, value: Option<String>)
    ensures
        row_entries(*final(row)) == with_entry(row_entries(*old(row)), column@, opt_text(value)),
{
    row.insert(column, value);
}

/// `IndexMap::get`: the cell in the column, if the row has that column.
#[verifier::external_body]
pub(crate) fn get_cell<'a>(row: &'a XmlRow, column: &str) -> (cell: Option<&'a Option<String>>)
    ensures
        match cell {
            Some(c) => entry_value(row_entries(*row), column@) == Some(opt_text(*c)),
            None => entry_value(row_entries(*row), column@) is None,
        },
{
    row.get(column)
}

/// `IndexMap::iter`: the cells in their order.
#[verifier::external_body]
pub(crate) fn row_pairs(row: &XmlRow) -> (pairs: Vec<(String, Option<String>)>)
    ensures
        cell_pairs(pairs@) == row_entries(*row),
{
    row.iter().map(|(k, v)| (k.clone(), v.clone())).collect()
}

// ---------------------------------------------------------------------------
// Values by column
// ---------------------------------------------------------------------------

/// The values that were collected for each column, in the order of the columns.
pub uninterp spec fn value_entries(m: IndexMap<String, Vec<String>>) -> Seq<
    (Seq<char>, Seq<Seq<char>>),
>;

pub open spec fn value_pairs(v: Seq<(String, Vec<String>)>) -> Seq<(Seq<char>, Seq<Seq<char>>)> {
    v.map_values(|p: (String, Vec<String>)| (p.0@, texts(p.1@)))
}

/// `IndexMap::new`: no columns.
#[verifier::external_body]
pub(crate) fn new_values() -> (m: IndexMap<String, Vec<String>>)
    ensures
        value_entries(m) == Seq::<(Seq<char>, Seq<Seq<char>>)>::empty(),
{
    IndexMap::new()
}

/// `IndexMap::insert`: the values of the column are set; a new column comes last.
#[verifier::external_body]
pub(crate) fn set_values(m: &mut IndexMap<String, Vec<String>>, column: String, values: Vec<String>)
    ensures
        value_entries(*final(m)) == with_entry(value_entries(*old(m)), column@, texts(values@)),
{
    m.insert(column, values);
}

/// `IndexMap::get`: the values of the column, if it is there.
#[verifier::external_body]
pub(crate) fn get_values<'a>(m: &'a IndexMap<String, Vec<String>>, column: &str) -> (values: Option<
    &'a Vec<String>,
>)
    ensures
        match values {
            Some(v) => entry_value(value_entries(*m), column@) == Some(texts(v@)),
            None => entry_value(value_entries(*m), column@) is None,
        },
{
    m.get(column)
}

/// `IndexMap::iter`: the columns with their values, in the order of the columns.
#[verifier::external_body]
pub(crate) fn column_values(m: &IndexMap<String, Vec<String>>) -> (pairs: Vec<
    (String, Vec<String>),
>)
    ensures
        value_pairs(pairs@) == value_entries(*m),
{
    m.iter().map(|(k, v)| (k.clone(), v.clone())).collect()
}

// ---------------------------------------------------------------------------
// Mappings
// ---------------------------------------------------------------------------

/// The tables of a mapping, in their order.
pub uninterp spec fn mapping_entries(m: XmlMappingDocument) -> Seq<(Seq<char>, XmlTableSpec)>;

pub open spec fn named_specs(v: Seq<(&String, &XmlTableSpec)>) -> Seq<(Seq<char>, XmlTableSpec)> {
    v.map_values(|p: (&String, &XmlTableSpec)| (p.0@, *p.1))
}

/// `IndexMap::iter`: the tables in their order.
#[verifier::external_body]
pub(crate) fn mapping_pairs(m: &XmlMappingDocument) -> (pairs: Vec<(&String, &XmlTableSpec)>)
    ensures
        named_specs(pairs@) == mapping_entries(*m),
{
    m.iter().collect()
}

// ---------------------------------------------------------------------------
// Column names
// ---------------------------------------------------------------------------

/// The items of a set of texts, in the order in which they came.
pub uninterp spec fn text_items(s: IndexSet<String>) -> Seq<Seq<char>>;

/// `IndexSet::new`: no items.
#[verifier::external_body]
pub(crate) fn new_text_set() -> (s: IndexSet<String>)
    ensures
        text_items(s) == Seq::<Seq<char>>::empty(),
{
    IndexSet::new()
}

/// `IndexSet::insert`: an item that is not there comes last.
#[verifier::external_body]
pub(crate) fn add_item(s: &mut IndexSet<String>, item: String)
    ensures
        text_items(*final(s)) == with_item(text_items(*old(s)), item@),
{
    s.insert(item);
}

/// `IndexSet::into_iter`: the items in their order.
#[verifier::external_body]
pub(crate) fn into_items(s: IndexSet<String>) -> (items: Vec<String>)
    ensures
        texts(items@) == text_items(s),
{
    s.into_iter().collect()
}

} // verus!
