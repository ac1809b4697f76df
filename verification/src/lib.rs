//! Filings of the SEC: archives, XBRL facts, XML tables, feeds, index pages and the bulk data of
//! all companies.
pub mod archive_laws;
pub mod collections;
pub mod common;
pub mod compression_util;
pub mod construct_submissions_data;
pub mod construct_submissions_metadata;
pub mod context_laws;
pub mod encoding;
pub mod fact_laws;
pub mod filenames;
pub mod filing_archive;
pub mod header_laws;
pub mod json;
pub mod metadata_json;
pub mod metadata_runs;
pub mod monitor;
pub mod monitor_laws;
pub mod numeral;
pub mod ordered_map;
pub mod page_laws;
pub mod parse_index_page;
pub mod record_laws;
pub mod rss;
pub mod rss_laws;
pub mod scale;
pub mod sgml;
pub mod submission_laws;
pub mod submissions;
pub mod tar;
pub mod text;
pub mod text_laws;
pub mod xbrl;
pub mod xml;
pub mod xml2tables;

pub use common::{Submission, SubmissionSource};
pub use compression_util::{
    compress_bytes, CompressedBytes, CompressedStreamStats, CompressionType,
};
pub use construct_submissions_data::ConstructSubmissionsDataStats;
pub use construct_submissions_metadata::ConstructSubmissionsMetadataStats;
pub use filing_archive::{
    build_tar_from_sgml, DocumentByteRange, FilingDocument, FilingTarArchive,
};
pub use monitor::{AccessionCache, Monitor};
pub use ordered_map::XbrlMap;
pub use sgml::{ParsedSgml, ParsedSubmissionMetadata, SubmissionEvent, SubmissionEventType};
pub use xbrl::{
    construct_simple_xbrl, parse_extracted_inline_xbrl, parse_inline_xbrl, parse_xbrl,
    SimpleXbrlRecord, XbrlFact, XbrlFileType,
};
pub use xml2tables::registry::{mapping_json_for_document_type, supported_xml_document_types};
pub use xml2tables::types::{
    StructuredXmlTableSpec, XmlMappingDocument, XmlPathList, XmlRow, XmlTable, XmlTableSpec,
    XmlTables,
};
