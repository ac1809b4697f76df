//! What documents are turned into, and how.
use indexmap::IndexMap;
use vstd::prelude::*;

use crate::collections::{copy_text_map, text_entries};
use crate::text::{copy_option, copy_texts, opt_text, texts};

verus! {

/// A row: a cell for each column, in the order of the columns.
pub type XmlRow = IndexMap<String, Option<String>>;

/// The tables of a document.
#[derive(Debug, Clone, PartialEq, Eq)]
pub struct XmlTables {
    pub document_type: String,
    pub tables: Vec<XmlTable>,
}

/// A table.
#[derive(Debug, Clone, PartialEq, Eq)]
pub struct XmlTable {
    pub name: String,
    pub columns: Vec<String>,
    pub rows: Vec<XmlRow>,
}

/// How the tables of a document are made, by name.
pub type XmlMappingDocument = IndexMap<String, XmlTableSpec>;

/// One path or several, the first of which that a document has counts.
#[derive(Debug, PartialEq, Eq)]
pub enum XmlPathList {
    One(String),
    Many(Vec<String>),
}

/// How a table is made.
#[derive(Debug, PartialEq, Eq)]
pub enum XmlTableSpec {
    Structured(StructuredXmlTableSpec),
    /// The columns by path.
    Legacy(IndexMap<String, String>),
}

/// How a table is made: its columns by path, and where its rows and their contexts end.
#[derive(Debug, PartialEq, Eq)]
pub struct StructuredXmlTableSpec {
    pub columns: IndexMap<String, String>,
    /// Columns whose values stay for the rows that follow.
    pub carry: IndexMap<String, String>,
    pub row_path: Option<XmlPathList>,
    pub context_path: Option<XmlPathList>,
    pub row_index: Option<String>,
    pub context_index: Option<String>,
}

// ---------------------------------------------------------------------------
// Copies
// ---------------------------------------------------------------------------

/// Whether two lists hold the same paths.
pub open spec fn same_paths(a: XmlPathList, b: XmlPathList) -> bool {
    match (a, b) {
        (XmlPathList::One(p), XmlPathList::One(q)) => p@ == q@,
        (XmlPathList::Many(p), XmlPathList::Many(q)) => texts(p@) == texts(q@),
        _ => false,
    }
}

pub open spec fn same_opt_paths(a: Option<XmlPathList>, b: Option<XmlPathList>) -> bool {
    match (a, b) {
        (Some(p), Some(q)) => same_paths(p, q),
        (None, None) => true,
        _ => false,
    }
}

/// Whether two tables are made the same way.
pub open spec fn same_structure(a: StructuredXmlTableSpec, b: StructuredXmlTableSpec) -> bool {
    &&& text_entries(a.columns) == text_entries(b.columns)
    &&& text_entries(a.carry) == text_entries(b.carry)
    &&& same_opt_paths(a.row_path, b.row_path)
    &&& same_opt_paths(a.context_path, b.context_path)
    &&& opt_text(a.row_index) == opt_text(b.row_index)
    &&& opt_text(a.context_index) == opt_text(b.context_index)
}

fn copy_paths(paths: &Option<XmlPathList>) -> (copy: Option<XmlPathList>)
    ensures
        same_opt_paths(*paths, copy),
{
    match paths {
        Some(p) => Some(p.clone()),
        None => None,
    }
}

impl Clone for XmlPathList {
    fn clone(&self) -> (copy: Self)
        ensures
            same_paths(*self, copy),
    {
        match self {
            XmlPathList::One(path) => XmlPathList::One(path.clone()),
            XmlPathList::Many(paths) => XmlPathList::Many(copy_texts(paths)),
        }
    }
}

impl Clone for StructuredXmlTableSpec {
    fn clone(&self) -> (copy: Self)
        ensures
            same_structure(*self, copy),
    {
        StructuredXmlTableSpec {
            columns: copy_text_map(&self.columns),
            carry: copy_text_map(&self.carry),
            row_path: copy_paths(&self.row_path),
            context_path: copy_paths(&self.context_path),
            row_index: copy_option(&self.row_index),
            context_index: copy_option(&self.context_index),
        }
    }
}

impl Clone for XmlTableSpec {
    fn clone(&self) -> (copy: Self)
        ensures
            match (*self, copy) {
                (XmlTableSpec::Structured(a), XmlTableSpec::Structured(b)) => same_structure(a, b),
                (XmlTableSpec::Legacy(a), XmlTableSpec::Legacy(b)) => text_entries(a)
                    == text_entries(b),
                _ => false,
            },
    {
        match self {
            XmlTableSpec::Structured(spec) => XmlTableSpec::Structured(spec.clone()),
            XmlTableSpec::Legacy(columns) => XmlTableSpec::Legacy(copy_text_map(columns)),
        }
    }
}

} // verus!
