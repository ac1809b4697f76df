//! The index pages of filings.
use indexmap::IndexMap;
use secinfra::parse_index_page::{
    assemble_page, cik_from_href, find_accession, header_metadata_of, nonempty, normalize_text,
    parse_documents, parse_filers, parse_index_page, parse_optional_u32, parse_optional_u64,
    split_name_and_role, CalendarDate, CalendarTime, IndexPageError, PageElement, PageParts,
};

const PAGE: &str = r#"<html><body>
<div id="formName"><strong>Form  10-K</strong> - Annual report [Section 13]: </div>
<div id="secNum"><strong>SEC Accession No.</strong> 0000320193-24-000123</div>
<div class="formGrouping"><div class="infoHead">Filing Date</div><div class="info">2024-11-01</div>
<div class="infoHead">Accepted</div><div class="info">2024-11-01 06:01:36</div>
<div class="infoHead">Documents</div><div class="info">102</div>
<div class="infoHead"></div><div class="info">unnamed</div></div>
<table class="tableFile"><tr><th>Seq</th></tr>
<tr><td>1</td><td>10-K</td><td><a href="/Archives/a.htm">a.htm</a> iXBRL</td><td>10-K</td><td>1,466,330</td></tr>
<tr><td>&nbsp;</td><td></td><td>full.txt</td><td></td><td>x</td></tr>
<tr><td>only</td><td>two</td></tr></table>
<div class="filerDiv"><div class="mailer">Mailing Address <span>ONE APPLE PARK WAY</span></div>
<div class="mailer">Business Address</div>
<span class="companyName">Apple Inc. (Filer) <acronym>CIK</acronym>:
<a href="/browse?x=1">x</a><a href="/cgi-bin/browse-edgar?action=getcompany&amp;CIK=0000320193&amp;x">0000320193</a></span>
<p class="identInfo">IRS No.: 942404110</p></div>
<div class="filerDiv"><span>no company</span></div>
<div class="filerDiv"><span class="companyName">Plain Name</span></div>
</body></html>"#;

fn chars(text: &str) -> Vec<char> {
    text.chars().collect()
}

fn element(text: &str) -> PageElement {
    PageElement { texts: vec![text.to_string()], links: Vec::new() }
}

fn linked(text: &str, links: &[&str]) -> PageElement {
    PageElement {
        texts: vec![text.to_string()],
        links: links.iter().map(|link| Some(link.to_string())).collect(),
    }
}

fn parts() -> PageParts {
    PageParts {
        form_names: vec![element("Form 8-K - Current report:")],
        form_headers: vec![vec![element("Form 8-K")]],
        sec_nums: vec![element("SEC Accession No. 0000000001-24-000002")],
        companies: Vec::new(),
        mailers: Vec::new(),
        idents: Vec::new(),
        rows: Vec::new(),
    }
}

#[test]
fn pages_are_read() {
    let page = parse_index_page(PAGE.as_bytes()).unwrap();
    assert_eq!(page.accession, 32019324000123);
    assert_eq!(page.submission_type, "10-K");
    assert_eq!(page.form_description.as_deref(), Some("Annual report [Section 13]"));
    let date = CalendarDate { year: 2024, month: 11, day: 1 };
    assert_eq!(page.filing_date, Some(date));
    assert_eq!(
        page.accepted_at,
        Some(CalendarTime { date, hour: 6, minute: 1, second: 36, nanosecond: 0 })
    );
    assert_eq!(page.document_count, Some(102));
    assert_eq!(
        page.header_metadata.keys().cloned().collect::<Vec<_>>(),
        vec!["Filing Date", "Accepted", "Documents"]
    );

    assert_eq!(page.filers.len(), 2);
    assert_eq!(page.filers[0].name, "Apple Inc.");
    assert_eq!(page.filers[0].role.as_deref(), Some("Filer"));
    assert_eq!(page.filers[0].cik, Some(320193));
    assert_eq!(page.filers[0].mailing_address.as_deref(), Some("ONE APPLE PARK WAY"));
    assert_eq!(page.filers[0].business_address, None);
    assert_eq!(page.filers[0].identification.as_deref(), Some("IRS No.: 942404110"));
    assert_eq!(page.filers[1].name, "Plain Name");
    assert_eq!(page.filers[1].role, None);
    assert_eq!(page.filers[1].cik, None);
    assert_eq!(page.ciks(), vec![320193]);

    assert_eq!(page.documents.len(), 2);
    assert_eq!(page.documents[0].sequence, Some(1));
    assert_eq!(page.documents[0].description.as_deref(), Some("10-K"));
    assert_eq!(page.documents[0].filename.as_deref(), Some("a.htm iXBRL"));
    assert_eq!(page.documents[0].href.as_deref(), Some("/Archives/a.htm"));
    assert_eq!(page.documents[0].size_bytes, Some(1466330));
    assert_eq!(page.documents[1].sequence, None);
    assert_eq!(page.documents[1].description, None);
    assert_eq!(page.documents[1].href, None);
    assert_eq!(page.documents[1].document_type, None);
    assert_eq!(page.documents[1].size_bytes, None);
}

#[test]
fn incomplete_pages_say_what_is_missing() {
    assert!(matches!(parse_index_page(b"\xff"), Err(IndexPageError::NotUtf8)));
    assert!(matches!(parse_index_page(b"<p>"), Err(IndexPageError::MissingFormName)));
    assert!(matches!(
        parse_index_page(b"<div id=formName>Form 4</div>"),
        Err(IndexPageError::MissingFormHeader)
    ));
    assert!(matches!(
        parse_index_page(b"<div id=formName><strong> </strong></div>"),
        Err(IndexPageError::EmptySubmissionType)
    ));
    assert!(matches!(
        parse_index_page(b"<div id=formName><strong>Form 4</strong></div>"),
        Err(IndexPageError::MissingSecNum)
    ));
    assert!(matches!(
        parse_index_page(b"<div id=formName><strong>4</strong></div><p id=secNum>12-3</p>"),
        Err(IndexPageError::InvalidAccession)
    ));
}

#[test]
fn pages_are_put_together_from_parts() {
    let page = assemble_page(&parts(), IndexMap::new(), None, None).unwrap();
    assert_eq!(page.accession, 124000002);
    assert_eq!(page.submission_type, "8-K");
    assert_eq!(page.form_description.as_deref(), Some("Current report"));
    assert_eq!(page.document_count, None);
    let mut metadata = IndexMap::new();
    metadata.insert("Documents".to_string(), "12".to_string());
    let mut other = parts();
    other.form_names = vec![element("8-K")];
    other.form_headers = vec![vec![element("Form 8-K")]];
    let page = assemble_page(&other, metadata, None, None).unwrap();
    assert_eq!(page.form_description, None);
    assert_eq!(page.document_count, Some(12));
}

#[test]
fn accessions_have_eighteen_digits() {
    assert_eq!(find_accession(&chars("No. 1 0000000001-24-000002 x")), Some(124000002));
    assert_eq!(find_accession(&chars("000000000124000002")), Some(124000002));
    assert_eq!(find_accession(&chars("1234")), None);
    assert_eq!(find_accession(&chars("")), None);
}

#[test]
fn filers_take_the_first_valid_cik() {
    let companies = vec![
        vec![linked(
            "A (Subject) CIK: 1",
            &["/x?cik=abc", "/x?Cik=0", "/x?a=1&CIK=12", "/x?CIK=13"],
        )],
        vec![linked("B CIK", &["/x?CIK=10000000000", "nothing"])],
        vec![],
        vec![linked("C", &["/x?CIK=12"])],
    ];
    let mailers = vec![
        vec![element("Business Address 1 ROAD"), element("Other")],
        vec![],
        vec![],
        vec![element("Mailing Address"), element("Mailing Address 2 ROAD")],
    ];
    let idents = vec![vec![element("")], vec![], vec![], vec![element("id"), element("second")]];
    let filers = parse_filers(&companies, &mailers, &idents);
    assert_eq!(filers.len(), 3);
    assert_eq!(filers[0].name, "A");
    assert_eq!(filers[0].role.as_deref(), Some("Subject"));
    assert_eq!(filers[0].cik, Some(12));
    assert_eq!(filers[0].business_address.as_deref(), Some("1 ROAD"));
    assert_eq!(filers[0].identification, None);
    assert_eq!(filers[1].cik, None);
    assert_eq!(filers[2].mailing_address.as_deref(), Some("2 ROAD"));
    assert_eq!(filers[2].identification.as_deref(), Some("id"));
}

#[test]
fn ciks_of_a_page_are_listed_once() {
    let mut parts = parts();
    for link in ["/x?CIK=5", "/x?CIK=3", "/x?CIK=5", "/x"] {
        parts.companies.push(vec![linked("N", &[link])]);
        parts.mailers.push(Vec::new());
        parts.idents.push(Vec::new());
    }
    let page = assemble_page(&parts, IndexMap::new(), None, None).unwrap();
    assert_eq!(page.filers.len(), 4);
    assert_eq!(page.ciks(), vec![5, 3]);
}

#[test]
fn rows_with_five_cells_are_documents() {
    let rows = vec![
        vec![element("1"), element("d"), linked("f", &["h1", "h2"]), element("t"), element("1,024")],
        vec![element("1"), element("d"), element("f"), element("t")],
    ];
    let documents = parse_documents(&rows);
    assert_eq!(documents.len(), 1);
    assert_eq!(documents[0].href.as_deref(), Some("h1"));
    assert_eq!(documents[0].size_bytes, Some(1024));
}

#[test]
fn headings_are_paired_with_values() {
    let heads = vec![element("A"), element(" "), element("B"), element("A")];
    let infos = vec![element("1"), element("2"), element(""), element(" 4  5 "), element("6")];
    let metadata = header_metadata_of(&heads, &infos);
    assert_eq!(metadata.len(), 1);
    assert_eq!(metadata["A"], "4 5");
}

#[test]
fn small_parts_are_read() {
    let parts = vec![" a  b".to_string(), "c\u{a0}d ".to_string()];
    assert_eq!(normalize_text(&parts), chars("a b c d"));
    assert_eq!(nonempty(&chars("")), None);
    assert_eq!(nonempty(&chars("x")).as_deref(), Some("x"));
    assert_eq!(parse_optional_u32(&chars("4,294,967,295")), Some(u32::MAX));
    assert_eq!(parse_optional_u32(&chars("4294967296")), None);
    assert_eq!(parse_optional_u64(&chars("1,2")), Some(12));
    assert_eq!(parse_optional_u64(&chars("-1")), None);
    assert_eq!(
        split_name_and_role(&chars(" A (B) (C) ")),
        ("A (B)".to_string(), Some("C".to_string()))
    );
    assert_eq!(split_name_and_role(&chars("(C)")), ("(C)".to_string(), None));
    assert_eq!(split_name_and_role(&chars("A ()")), ("A ()".to_string(), None));
    assert_eq!(split_name_and_role(&chars("A (B) x")), ("A (B) x".to_string(), None));
    assert_eq!(cik_from_href("/x?a&cIk=7"), Some(7));
    assert_eq!(cik_from_href("/x?CIK=x&CIK=8"), Some(8));
    assert_eq!(cik_from_href("/CIK=7"), None);
}

#[test]
fn pages_can_be_copied() {
    let page = parse_index_page(PAGE.as_bytes()).unwrap();
    let copy = page.clone();
    assert_eq!(copy, page);
    assert_eq!(copy.filers.len(), 2);
    assert_eq!(copy.documents.len(), 2);
    assert_eq!(copy.header_metadata.len(), page.header_metadata.len());
}
