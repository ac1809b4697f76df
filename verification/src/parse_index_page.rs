//! The index page of a filing.
use std::collections::HashSet;

use chrono::{Datelike, NaiveDate, NaiveDateTime, Timelike};
use indexmap::IndexMap;
use scraper::{ElementRef, Html, Selector};
use vstd::arithmetic::power::{lemma_pow0, lemma_pow_increases, pow};
use vstd::prelude::*;
use vstd::slice::slice_subrange;
use vstd::utf8::{decode_utf8, valid_utf8};

use crate::collections::{
    copy_text_map, entry_value, get_text, new_text_map, set_text, text_entries, with_entry,
};
use crate::encoding::utf8_text;
use crate::numeral::{all_digits, digits_value, parse_unsigned, read_u32, read_u64};
use crate::text::{
    chars_of, copy_chars, copy_option, cut_once, drop_leading, drop_trailing, find, find_in,
    is_digit, join, join_pieces, keep_digits, last_of, lemma_only_digits, lower, only_digits,
    opt_text, past_last, pieces, remove_char, same_chars, split, split_at_char, split_once,
    split_words, string_of, strip_prefix, texts, to_lower, trim, trim_space, without,
    without_leading, without_prefix, without_trailing, words, CharClass,
};

verus! {

#[verifier::external_type_specification]
#[verifier::external_body]
pub struct ExHtml(scraper::Html);

#[verifier::external_type_specification]
#[verifier::external_body]
pub struct ExSelector(scraper::Selector);

/// The largest number that a company can have.
pub const MAX_CIK: u64 = 9999999999;

/// A day of the calendar.
#[derive(Debug, Clone, Copy, PartialEq, Eq, Structural)]
pub struct CalendarDate {
    pub year: i32,
    pub month: u32,
    pub day: u32,
}

/// A moment of a day. The nanoseconds go beyond a second in a leap second.
#[derive(Debug, Clone, Copy, PartialEq, Eq, Structural)]
pub struct CalendarTime {
    pub date: CalendarDate,
    pub hour: u32,
    pub minute: u32,
    pub second: u32,
    pub nanosecond: u32,
}

/// What an index page says of a filing.
#[derive(Debug, PartialEq, Eq)]
pub struct IndexPage {
    pub accession: u64,
    pub submission_type: String,
    pub form_description: Option<String>,
    pub filing_date: Option<CalendarDate>,
    pub accepted_at: Option<CalendarTime>,
    pub document_count: Option<u32>,
    pub header_metadata: IndexMap<String, String>,
    pub filers: Vec<IndexPageFiler>,
    pub documents: Vec<IndexPageDocument>,
}

/// Who made a filing.
#[derive(Debug, PartialEq, Eq)]
pub struct IndexPageFiler {
    pub name: String,
    pub role: Option<String>,
    pub cik: Option<u64>,
    pub mailing_address: Option<String>,
    pub business_address: Option<String>,
    pub identification: Option<String>,
}

/// A document of a filing.
#[derive(Debug, PartialEq, Eq)]
pub struct IndexPageDocument {
    pub sequence: Option<u32>,
    pub description: Option<String>,
    pub filename: Option<String>,
    pub href: Option<String>,
    pub document_type: Option<String>,
    pub size_bytes: Option<u64>,
}

/// Why an index page cannot be read.
#[derive(Debug, Clone, Copy, PartialEq, Eq, Structural)]
pub enum IndexPageError {
    NotUtf8,
    MissingFormName,
    MissingFormHeader,
    EmptySubmissionType,
    MissingSecNum,
    InvalidAccession,
}

// ---------------------------------------------------------------------------
// Elements
// ---------------------------------------------------------------------------

/// An element of a page: the texts inside it, and the address of each link inside it.
#[derive(Debug)]
pub struct PageElement {
    pub texts: Vec<String>,
    pub links: Vec<Option<String>>,
}

#[verifier::ext_equal]
pub struct ElementModel {
    pub texts: Seq<Seq<char>>,
    pub links: Seq<Option<Seq<char>>>,
}

impl View for PageElement {
    type V = ElementModel;

    open spec fn view(&self) -> ElementModel {
        ElementModel {
            texts: texts(self.texts@),
            links: self.links@.map_values(|l: Option<String>| opt_text(l)),
        }
    }
}

pub open spec fn element_models(v: Seq<PageElement>) -> Seq<ElementModel> {
    v.map_values(|e: PageElement| e@)
}

pub open spec fn element_lists(v: Seq<Vec<PageElement>>) -> Seq<Seq<ElementModel>> {
    v.map_values(|l: Vec<PageElement>| element_models(l@))
}

/// The text that a page was parsed from.
pub uninterp spec fn page_source(page: Html) -> Seq<char>;

/// `Html::parse_document`: a page for any text.
#[verifier::external_body]
fn parse_page(html: &str) -> (page: Html)
    ensures
        page_source(page) == html@,
{
    Html::parse_document(html)
}

/// The text that a selector was parsed from.
pub uninterp spec fn selector_source(selector: Selector) -> Seq<char>;

/// The selectors that a page is read with. Each is made of types, an identifier, a class or an
/// attribute, and of the descendants of such.
pub open spec fn is_page_selector(css: Seq<char>) -> bool {
    ||| css == "#formName"@
    ||| css == "#secNum"@
    ||| css == "strong"@
    ||| css == "td"@
    ||| css == "a[href]"@
    ||| css == ".filerDiv"@
    ||| css == ".companyName"@
    ||| css == ".mailer"@
    ||| css == ".identInfo"@
    ||| css == ".formGrouping .infoHead"@
    ||| css == ".formGrouping .info"@
    ||| css == "table.tableFile tr"@
}

/// `Selector::parse`: the selector for a text. It fails on texts that are no selectors, and so
/// the texts are those above, which are.
#[verifier::external_body]
fn parse_selector(css: &str) -> (selector: Selector)
    requires
        is_page_selector(css@),
    ensures
        selector_source(selector) == css@,
{
    Selector::parse(css).unwrap()
}

/// The elements of a page that a selector selects, with the given attribute of the links that
/// another selects in them.
pub uninterp spec fn selected_elements(
    html: Seq<char>,
    css: Seq<char>,
    link_css: Seq<char>,
    attribute: Seq<char>,
) -> Seq<ElementModel>;

/// `Html::select`: the elements that match the selector, each with its texts
/// (`ElementRef::text`) and the given attribute (`ElementRef::attr`) of each link in it.
#[verifier::external_body]
fn select_elements(page: &Html, selector: &Selector, link: &Selector, attribute: &str) -> (elements:
    Vec<PageElement>)
    ensures
        element_models(elements@) == selected_elements(
            page_source(*page),
            selector_source(*selector),
            selector_source(*link),
            attribute@,
        ),
{
    let links = |e: ElementRef|
        e.select(link).map(|l| l.attr(attribute).map(String::from)).collect();
    page.select(selector).map(
        |e| PageElement { texts: e.text().map(String::from).collect(), links: links(e) },
    ).collect()
}

/// For each element of a page that a selector selects, the elements in it that another selects.
pub uninterp spec fn nested_elements(
    html: Seq<char>,
    outer_css: Seq<char>,
    inner_css: Seq<char>,
    link_css: Seq<char>,
    attribute: Seq<char>,
) -> Seq<Seq<ElementModel>>;

/// `ElementRef::select`: for each element that matches the outer selector, those in it that match
/// the inner one. There are as many lists as elements that match the outer selector.
#[verifier::external_body]
fn select_nested(
    page: &Html,
    outer: &Selector,
    inner: &Selector,
    link: &Selector,
    attribute: &str,
) -> (lists: Vec<Vec<PageElement>>)
    ensures
        element_lists(lists@) == nested_elements(
            page_source(*page),
            selector_source(*outer),
            selector_source(*inner),
            selector_source(*link),
            attribute@,
        ),
        lists@.len() == selected_elements(
            page_source(*page),
            selector_source(*outer),
            selector_source(*link),
            attribute@,
        ).len(),
{
    let links = |e: ElementRef|
        e.select(link).map(|l| l.attr(attribute).map(String::from)).collect();
    let element = |e: ElementRef|
        PageElement { texts: e.text().map(String::from).collect(), links: links(e) };
    page.select(outer).map(|o| o.select(inner).map(element).collect()).collect()
}

/// The words of all the given texts.
pub open spec fn all_words(parts: Seq<Seq<char>>) -> Seq<Seq<char>>
    decreases parts.len(),
{
    if parts.len() == 0 {
        Seq::empty()
    } else {
        all_words(parts.drop_last()) + words(parts.last())
    }
}

/// The text of an element: its words with single spaces between.
pub open spec fn element_text_of(e: ElementModel) -> Seq<char> {
    join(all_words(e.texts), seq![' '])
}

/// The words of all the given texts, with single spaces between.
pub fn normalize_text(parts: &Vec<String>) -> (out: Vec<char>)
    ensures
        out@ == join(all_words(texts(parts@)), seq![' ']),
{
    let ghost all = texts(parts@);
    let mut found: Vec<Vec<char>> = Vec::new();
    assert(pieces(found@) =~= all_words(all.take(0)));
    let mut i: usize = 0;
    while i < parts.len()
        invariant
            i <= parts@.len(),
            all == texts(parts@),
            pieces(found@) == all_words(all.take(i as int)),
        decreases parts@.len() - i,
    {
        let more = split_words(&chars_of(parts[i].as_str()));
        let ghost earlier = pieces(found@);
        proof {
            assert(all.take(i + 1).drop_last() =~= all.take(i as int));
            assert(all.take(i + 1).last() == parts@[i as int]@);
            assert(pieces(found@) =~= earlier + pieces(more@).take(0));
        }
        let mut k: usize = 0;
        while k < more.len()
            invariant
                k <= more@.len(),
                pieces(found@) == earlier + pieces(more@).take(k as int),
            decreases more@.len() - k,
        {
            let ghost before = found@;
            found.push(copy_chars(&more[k]));
            assert(pieces(found@) =~= pieces(before).push(more@[k as int]@));
            assert(pieces(found@) =~= earlier + pieces(more@).take(k + 1));
            k += 1;
        }
        assert(pieces(more@).take(k as int) =~= pieces(more@));
        i += 1;
    }
    assert(all.take(i as int) =~= all);
    let mut space: Vec<char> = Vec::new();
    space.push(' ');
    assert(space@ =~= seq![' ']);
    join_pieces(&found, &space)
}

/// The text of an element.
pub fn element_text(element: &PageElement) -> (out: Vec<char>)
    ensures
        out@ == element_text_of(element@),
{
    normalize_text(&element.texts)
}

// ---------------------------------------------------------------------------
// Parts of texts
// ---------------------------------------------------------------------------

pub open spec fn nonempty_text(s: Seq<char>) -> Option<Seq<char>> {
    if s.len() == 0 {
        None
    } else {
        Some(s)
    }
}

/// A text, unless it is empty.
pub fn nonempty(value: &[char]) -> (out: Option<String>)
    ensures
        opt_text(out) == nonempty_text(value@),
{
    if value.len() == 0 {
        None
    } else {
        Some(string_of(value))
    }
}

pub fn parse_optional_u32(value: &[char]) -> (out: Option<u32>)
    ensures
        match out {
            Some(n) => parse_unsigned(without(value@, ','), u32::MAX as nat) == Some(n as nat),
            None => parse_unsigned(without(value@, ','), u32::MAX as nat) is None,
        },
{
    read_u32(&remove_char(value, ','))
}

pub fn parse_optional_u64(value: &[char]) -> (out: Option<u64>)
    ensures
        match out {
            Some(n) => parse_unsigned(without(value@, ','), u64::MAX as nat) == Some(n as nat),
            None => parse_unsigned(without(value@, ','), u64::MAX as nat) is None,
        },
{
    read_u64(&remove_char(value, ','))
}

/// A name and the role in parentheses behind it. Where either would be empty, the whole is the
/// name.
pub open spec fn name_and_role(value: Seq<char>) -> (Seq<char>, Option<Seq<char>>) {
    let v = trim(value);
    let open = last_of(v, '(');
    let name = trim(v.take(open));
    let role = trim(v.subrange(open + 1, v.len() - 1));
    if open >= 0 && v.last() == ')' && name.len() > 0 && role.len() > 0 {
        (name, Some(role))
    } else {
        (v, None)
    }
}

pub fn split_name_and_role(value: &[char]) -> (out: (String, Option<String>))
    ensures
        (out.0@, opt_text(out.1)) == name_and_role(value@),
{
    let v = trim_space(value);
    let past = past_last(v, '(');
    if past > 0 && v[v.len() - 1] == ')' {
        proof {
            crate::text::lemma_last_of(v@, '(');
        }
        let inner = slice_subrange(v, past, v.len() - 1);
        let front = slice_subrange(v, 0, past - 1);
        assert(front@ =~= v@.take(last_of(v@, '(')));
        let role = trim_space(inner);
        let name = trim_space(front);
        if name.len() > 0 && role.len() > 0 {
            return (string_of(name), Some(string_of(role)));
        }
    }
    (string_of(v), None)
}

/// The number that a part of a query gives for the key `CIK`.
pub open spec fn pair_cik(pair: Seq<char>) -> Option<nat> {
    match split_once(pair, '=') {
        Some((key, value)) => if lower(key) == seq!['c', 'i', 'k'] {
            parse_unsigned(value, u64::MAX as nat)
        } else {
            None
        },
        None => None,
    }
}

/// The first number that the parts of a query, from the `i`-th on, give for the key `CIK`.
pub open spec fn first_pair_cik(pairs: Seq<Seq<char>>, i: int) -> Option<nat>
    decreases pairs.len() - i,
{
    if i >= pairs.len() {
        None
    } else {
        match pair_cik(pairs[i]) {
            Some(n) => Some(n),
            None => first_pair_cik(pairs, i + 1),
        }
    }
}

/// The number that the query of an address gives for the key `CIK`.
pub open spec fn href_cik(href: Seq<char>) -> Option<nat> {
    match split_once(href, '?') {
        Some((_, query)) => first_pair_cik(split(query, '&'), 0),
        None => None,
    }
}

fn cik_from_pair(pair: &[char]) -> (out: Option<u64>)
    ensures
        match out {
            Some(n) => pair_cik(pair@) == Some(n as nat),
            None => pair_cik(pair@) is None,
        },
{
    match cut_once(pair, '=') {
        Some((key, value)) => {
            let mut expected: Vec<char> = Vec::new();
            expected.push('c');
            expected.push('i');
            expected.push('k');
            assert(expected@ =~= seq!['c', 'i', 'k']);
            if same_chars(&to_lower(key), &expected) {
                read_u64(value)
            } else {
                None
            }
        },
        None => None,
    }
}

/// The number of a company in an address.
pub fn cik_from_href(href: &str) -> (out: Option<u64>)
    ensures
        match out {
            Some(n) => href_cik(href@) == Some(n as nat),
            None => href_cik(href@) is None,
        },
{
    let chars = chars_of(href);
    match cut_once(&chars, '?') {
        Some((_, query)) => {
            let pairs = split_at_char(query, '&');
            let ghost models = pieces(pairs@);
            let mut i: usize = 0;
            while i < pairs.len()
                invariant
                    i <= pairs@.len(),
                    models == pieces(pairs@),
                    href_cik(href@) == first_pair_cik(models, 0),
                    first_pair_cik(models, 0) == first_pair_cik(models, i as int),
                decreases pairs@.len() - i,
            {
                assert(models[i as int] == pairs@[i as int]@);
                match cik_from_pair(&pairs[i]) {
                    Some(n) => {
                        return Some(n);
                    },
                    None => {},
                }
                i += 1;
            }
            None
        },
        None => None,
    }
}

// ---------------------------------------------------------------------------
// Header
// ---------------------------------------------------------------------------

/// What the first `n` pairs of a heading and a value say; empty ones say nothing.
pub open spec fn header_entries(
    heads: Seq<ElementModel>,
    infos: Seq<ElementModel>,
    n: nat,
) -> Seq<(Seq<char>, Seq<char>)>
    decreases n,
{
    if n == 0 || n > heads.len() || n > infos.len() {
        Seq::empty()
    } else {
        let earlier = header_entries(heads, infos, (n - 1) as nat);
        let head = element_text_of(heads[n - 1]);
        let value = element_text_of(infos[n - 1]);
        if head.len() > 0 && value.len() > 0 {
            with_entry(earlier, head, value)
        } else {
            earlier
        }
    }
}

pub open spec fn shorter(a: nat, b: nat) -> nat {
    if a <= b {
        a
    } else {
        b
    }
}

/// The values of a page by their headings.
pub fn header_metadata_of(heads: &Vec<PageElement>, infos: &Vec<PageElement>) -> (out: IndexMap<
    String,
    String,
>)
    ensures
        text_entries(out) == header_entries(
            element_models(heads@),
            element_models(infos@),
            shorter(heads@.len(), infos@.len()),
        ),
{
    let ghost h = element_models(heads@);
    let ghost v = element_models(infos@);
    let mut out = new_text_map();
    let mut i: usize = 0;
    while i < heads.len() && i < infos.len()
        invariant
            i <= heads@.len(),
            i <= infos@.len(),
            h == element_models(heads@),
            v == element_models(infos@),
            text_entries(out) == header_entries(h, v, i as nat),
        decreases heads@.len() - i,
    {
        assert(h[i as int] == heads@[i as int]@ && v[i as int] == infos@[i as int]@);
        let head = element_text(&heads[i]);
        let value = element_text(&infos[i]);
        if head.len() > 0 && value.len() > 0 {
            set_text(&mut out, string_of(&head), string_of(&value));
        }
        i += 1;
    }
    out
}

/// The day that chrono reads from a text in the given form.
pub uninterp spec fn read_date(text: Seq<char>, form: Seq<char>) -> Option<CalendarDate>;

/// `NaiveDate::parse_from_str`: the day that the text gives in the given form, if it gives one.
#[verifier::external_body]
fn parse_date(text: &str, form: &str) -> (date: Option<CalendarDate>)
    ensures
        date == read_date(text@, form@),
{
    let date = NaiveDate::parse_from_str(text, form).ok();
    date.map(|d| CalendarDate { year: d.year(), month: d.month(), day: d.day() })
}

/// The moment that chrono reads from a text in the given form.
pub uninterp spec fn read_time(text: Seq<char>, form: Seq<char>) -> Option<CalendarTime>;

/// `NaiveDateTime::parse_from_str`: the moment that the text gives in the given form, if it gives
/// one.
#[verifier::external_body]
fn parse_time(text: &str, form: &str) -> (time: Option<CalendarTime>)
    ensures
        time == read_time(text@, form@),
{
    let time = NaiveDateTime::parse_from_str(text, form).ok();
    time.map(
        |t|
            CalendarTime {
                date: CalendarDate { year: t.year(), month: t.month(), day: t.day() },
                hour: t.hour(),
                minute: t.minute(),
                second: t.second(),
                nanosecond: t.nanosecond(),
            },
    )
}

pub open spec fn filing_date_in(metadata: Seq<(Seq<char>, Seq<char>)>) -> Option<CalendarDate> {
    match entry_value(metadata, "Filing Date"@) {
        Some(v) => read_date(v, "%Y-%m-%d"@),
        None => None,
    }
}

pub open spec fn accepted_in(metadata: Seq<(Seq<char>, Seq<char>)>) -> Option<CalendarTime> {
    match entry_value(metadata, "Accepted"@) {
        Some(v) => read_time(v, "%Y-%m-%d %H:%M:%S"@),
        None => None,
    }
}

// ---------------------------------------------------------------------------
// Filers
// ---------------------------------------------------------------------------

#[verifier::ext_equal]
pub struct FilerModel {
    pub name: Seq<char>,
    pub role: Option<Seq<char>>,
    pub cik: Option<u64>,
    pub mailing_address: Option<Seq<char>>,
    pub business_address: Option<Seq<char>>,
    pub identification: Option<Seq<char>>,
}

impl View for IndexPageFiler {
    type V = FilerModel;

    open spec fn view(&self) -> FilerModel {
        FilerModel {
            name: self.name@,
            role: opt_text(self.role),
            cik: self.cik,
            mailing_address: opt_text(self.mailing_address),
            business_address: opt_text(self.business_address),
            identification: opt_text(self.identification),
        }
    }
}

pub open spec fn filer_models(v: Seq<IndexPageFiler>) -> Seq<FilerModel> {
    v.map_values(|f: IndexPageFiler| f@)
}

/// The first number of a company in the links from the `i`-th on.
pub open spec fn first_link_cik(links: Seq<Option<Seq<char>>>, i: int) -> Option<u64>
    decreases links.len() - i,
{
    if i >= links.len() {
        None
    } else {
        let here = match links[i] {
            Some(href) => href_cik(href),
            None => None,
        };
        match here {
            Some(n) => if 1 <= n <= MAX_CIK {
                Some(n as u64)
            } else {
                first_link_cik(links, i + 1)
            },
            None => first_link_cik(links, i + 1),
        }
    }
}

/// What stands before the number of the company.
pub open spec fn before_cik(text: Seq<char>) -> Seq<char> {
    match find(text, "CIK"@) {
        Some(n) => text.take(n as int),
        None => text,
    }
}

/// The mailing and the business address that the first `n` elements give; the last of each counts.
pub open spec fn addresses(mailers: Seq<ElementModel>, n: nat) -> (
    Option<Seq<char>>,
    Option<Seq<char>>,
)
    decreases n,
{
    if n == 0 || n > mailers.len() {
        (None, None)
    } else {
        let earlier = addresses(mailers, (n - 1) as nat);
        let text = element_text_of(mailers[n - 1]);
        match strip_prefix(text, "Mailing Address"@) {
            Some(a) => (nonempty_text(trim(a)), earlier.1),
            None => match strip_prefix(text, "Business Address"@) {
                Some(a) => (earlier.0, nonempty_text(trim(a))),
                None => earlier,
            },
        }
    }
}

/// The filer that the parts of its block describe.
pub open spec fn filer_of(
    company: ElementModel,
    mailers: Seq<ElementModel>,
    idents: Seq<ElementModel>,
) -> FilerModel {
    let (name, role) = name_and_role(before_cik(element_text_of(company)));
    let (mailing_address, business_address) = addresses(mailers, mailers.len());
    FilerModel {
        name,
        role,
        cik: first_link_cik(company.links, 0),
        mailing_address,
        business_address,
        identification: if idents.len() == 0 {
            None
        } else {
            nonempty_text(element_text_of(idents[0]))
        },
    }
}

/// The filers of the first `n` blocks; a block that names no company is passed over.
pub open spec fn filers_of(
    companies: Seq<Seq<ElementModel>>,
    mailers: Seq<Seq<ElementModel>>,
    idents: Seq<Seq<ElementModel>>,
    n: nat,
) -> Seq<FilerModel>
    decreases n,
{
    if n == 0 || n > companies.len() {
        Seq::empty()
    } else {
        let earlier = filers_of(companies, mailers, idents, (n - 1) as nat);
        if companies[n - 1].len() == 0 {
            earlier
        } else {
            earlier.push(filer_of(companies[n - 1][0], mailers[n - 1], idents[n - 1]))
        }
    }
}

proof fn lemma_link_cik(links: Seq<Option<Seq<char>>>, i: int)
    ensures
        first_link_cik(links, i) matches Some(cik) ==> 1 <= cik <= MAX_CIK,
    decreases links.len() - i,
{
    if i < links.len() {
        lemma_link_cik(links, i + 1);
    }
}

/// The number of a filer has ten digits at most, and is not zero.
pub proof fn law_filer_ciks_are_in_range(
    companies: Seq<Seq<ElementModel>>,
    mailers: Seq<Seq<ElementModel>>,
    idents: Seq<Seq<ElementModel>>,
    n: nat,
)
    ensures
        forall|k: int|
            0 <= k < filers_of(companies, mailers, idents, n).len() ==> (#[trigger] filers_of(
                companies,
                mailers,
                idents,
                n,
            )[k].cik matches Some(cik) ==> 1 <= cik <= MAX_CIK),
    decreases n,
{
    if 0 < n <= companies.len() {
        law_filer_ciks_are_in_range(companies, mailers, idents, (n - 1) as nat);
        if companies[n - 1].len() > 0 {
            lemma_link_cik(companies[n - 1][0].links, 0);
        }
        let earlier = filers_of(companies, mailers, idents, (n - 1) as nat);
        let all = filers_of(companies, mailers, idents, n);
        assert forall|k: int| 0 <= k < all.len() implies (#[trigger] all[k].cik matches Some(cik)
            ==> 1 <= cik <= MAX_CIK) by {
            if k < earlier.len() {
                assert(all[k] == earlier[k]);
                assert(earlier[k].cik matches Some(cik) ==> 1 <= cik <= MAX_CIK);
            }
        }
    }
}

fn link_cik(links: &Vec<Option<String>>) -> (out: Option<u64>)
    ensures
        out == first_link_cik(links@.map_values(|l: Option<String>| opt_text(l)), 0),
{
    let ghost models = links@.map_values(|l: Option<String>| opt_text(l));
    let mut i: usize = 0;
    while i < links.len()
        invariant
            i <= links@.len(),
            models == links@.map_values(|l: Option<String>| opt_text(l)),
            first_link_cik(models, 0) == first_link_cik(models, i as int),
        decreases links@.len() - i,
    {
        assert(models[i as int] == opt_text(links@[i as int]));
        match &links[i] {
            Some(href) => match cik_from_href(href.as_str()) {
                Some(n) => if 1 <= n && n <= MAX_CIK {
                    return Some(n);
                },
                None => {},
            },
            None => {},
        }
        i += 1;
    }
    None
}

fn read_addresses(mailers: &Vec<PageElement>) -> (out: (Option<String>, Option<String>))
    ensures
        (opt_text(out.0), opt_text(out.1)) == addresses(
            element_models(mailers@),
            mailers@.len(),
        ),
{
    let ghost models = element_models(mailers@);
    let mut mailing: Option<String> = None;
    let mut business: Option<String> = None;
    let mailing_prefix = chars_of("Mailing Address");
    let business_prefix = chars_of("Business Address");
    let mut i: usize = 0;
    while i < mailers.len()
        invariant
            i <= mailers@.len(),
            models == element_models(mailers@),
            mailing_prefix@ == "Mailing Address"@,
            business_prefix@ == "Business Address"@,
            (opt_text(mailing), opt_text(business)) == addresses(models, i as nat),
        decreases mailers@.len() - i,
    {
        assert(models[i as int] == mailers@[i as int]@);
        let text = element_text(&mailers[i]);
        match without_prefix(&text, &mailing_prefix) {
            Some(address) => {
                mailing = nonempty(trim_space(address));
            },
            None => match without_prefix(&text, &business_prefix) {
                Some(address) => {
                    business = nonempty(trim_space(address));
                },
                None => {},
            },
        }
        i += 1;
    }
    (mailing, business)
}

fn read_filer(company: &PageElement, mailers: &Vec<PageElement>, idents: &Vec<PageElement>) -> (out:
    IndexPageFiler)
    ensures
        out@ == filer_of(company@, element_models(mailers@), element_models(idents@)),
{
    let text = element_text(company);
    let identity = match find_in(&text, &chars_of("CIK")) {
        Some(n) => {
            let part = slice_subrange(&text, 0, n);
            assert(part@ =~= text@.take(n as int));
            part
        },
        None => slice_subrange(&text, 0, text.len()),
    };
    assert(identity@ =~= before_cik(text@));
    let (name, role) = split_name_and_role(identity);
    let (mailing_address, business_address) = read_addresses(mailers);
    let identification = if idents.len() == 0 {
        None
    } else {
        assert(element_models(idents@)[0] == idents@[0]@);
        nonempty(&element_text(&idents[0]))
    };
    IndexPageFiler {
        name,
        role,
        cik: link_cik(&company.links),
        mailing_address,
        business_address,
        identification,
    }
}

/// The filers that the blocks of a page describe.
pub fn parse_filers(
    companies: &Vec<Vec<PageElement>>,
    mailers: &Vec<Vec<PageElement>>,
    idents: &Vec<Vec<PageElement>>,
) -> (filers: Vec<IndexPageFiler>)
    requires
        mailers@.len() == companies@.len(),
        idents@.len() == companies@.len(),
    ensures
        filer_models(filers@) == filers_of(
            element_lists(companies@),
            element_lists(mailers@),
            element_lists(idents@),
            companies@.len(),
        ),
{
    let ghost c = element_lists(companies@);
    let ghost m = element_lists(mailers@);
    let ghost d = element_lists(idents@);
    let mut filers: Vec<IndexPageFiler> = Vec::new();
    assert(filer_models(filers@) =~= Seq::empty());
    let mut i: usize = 0;
    while i < companies.len()
        invariant
            i <= companies@.len(),
            mailers@.len() == companies@.len(),
            idents@.len() == companies@.len(),
            c == element_lists(companies@),
            m == element_lists(mailers@),
            d == element_lists(idents@),
            filer_models(filers@) == filers_of(c, m, d, i as nat),
        decreases companies@.len() - i,
    {
        assert(c[i as int] == element_models(companies@[i as int]@));
        assert(m[i as int] == element_models(mailers@[i as int]@));
        assert(d[i as int] == element_models(idents@[i as int]@));
        let ghost earlier = filers@;
        if companies[i].len() > 0 {
            assert(c[i as int][0] == companies@[i as int]@[0]@);
            filers.push(read_filer(&companies[i][0], &mailers[i], &idents[i]));
            assert(filer_models(filers@) =~= filer_models(earlier).push(filers@.last()@));
        }
        i += 1;
    }
    filers
}

// ---------------------------------------------------------------------------
// Documents
// ---------------------------------------------------------------------------

#[verifier::ext_equal]
pub struct DocumentModel {
    pub sequence: Option<u32>,
    pub description: Option<Seq<char>>,
    pub filename: Option<Seq<char>>,
    pub href: Option<Seq<char>>,
    pub document_type: Option<Seq<char>>,
    pub size_bytes: Option<u64>,
}

impl View for IndexPageDocument {
    type V = DocumentModel;

    open spec fn view(&self) -> DocumentModel {
        DocumentModel {
            sequence: self.sequence,
            description: opt_text(self.description),
            filename: opt_text(self.filename),
            href: opt_text(self.href),
            document_type: opt_text(self.document_type),
            size_bytes: self.size_bytes,
        }
    }
}

pub open spec fn document_models(v: Seq<IndexPageDocument>) -> Seq<DocumentModel> {
    v.map_values(|d: IndexPageDocument| d@)
}

pub open spec fn number_u32(s: Seq<char>) -> Option<u32> {
    match parse_unsigned(without(s, ','), u32::MAX as nat) {
        Some(n) => Some(n as u32),
        None => None,
    }
}

pub open spec fn number_u64(s: Seq<char>) -> Option<u64> {
    match parse_unsigned(without(s, ','), u64::MAX as nat) {
        Some(n) => Some(n as u64),
        None => None,
    }
}

/// The document that the cells of a row describe.
pub open spec fn document_of(cells: Seq<ElementModel>) -> DocumentModel {
    DocumentModel {
        sequence: number_u32(element_text_of(cells[0])),
        description: nonempty_text(element_text_of(cells[1])),
        filename: nonempty_text(element_text_of(cells[2])),
        href: if cells[2].links.len() == 0 {
            None
        } else {
            cells[2].links[0]
        },
        document_type: nonempty_text(element_text_of(cells[3])),
        size_bytes: number_u64(element_text_of(cells[4])),
    }
}

/// The documents of the first `n` rows; a row with fewer than five cells describes none.
pub open spec fn documents_of(rows: Seq<Seq<ElementModel>>, n: nat) -> Seq<DocumentModel>
    decreases n,
{
    if n == 0 || n > rows.len() {
        Seq::empty()
    } else {
        let earlier = documents_of(rows, (n - 1) as nat);
        if rows[n - 1].len() < 5 {
            earlier
        } else {
            earlier.push(document_of(rows[n - 1]))
        }
    }
}

fn copy_link(links: &Vec<Option<String>>) -> (out: Option<String>)
    ensures
        opt_text(out) == (if links@.len() == 0 {
            None
        } else {
            opt_text(links@[0])
        }),
{
    if links.len() == 0 {
        return None;
    }
    match &links[0] {
        Some(s) => Some(s.clone()),
        None => None,
    }
}

/// The documents that the rows of a page describe.
pub fn parse_documents(rows: &Vec<Vec<PageElement>>) -> (documents: Vec<IndexPageDocument>)
    ensures
        document_models(documents@) == documents_of(element_lists(rows@), rows@.len()),
{
    let ghost models = element_lists(rows@);
    let mut documents: Vec<IndexPageDocument> = Vec::new();
    assert(document_models(documents@) =~= Seq::empty());
    let mut i: usize = 0;
    while i < rows.len()
        invariant
            i <= rows@.len(),
            models == element_lists(rows@),
            document_models(documents@) == documents_of(models, i as nat),
        decreases rows@.len() - i,
    {
        let cells = &rows[i];
        assert(models[i as int] == element_models(cells@));
        let ghost earlier = documents@;
        if cells.len() >= 5 {
            proof {
                assert(element_models(cells@)[0] == cells@[0]@);
                assert(element_models(cells@)[1] == cells@[1]@);
                assert(element_models(cells@)[2] == cells@[2]@);
                assert(element_models(cells@)[3] == cells@[3]@);
                assert(element_models(cells@)[4] == cells@[4]@);
            }
            let document = IndexPageDocument {
                sequence: parse_optional_u32(&element_text(&cells[0])),
                description: nonempty(&element_text(&cells[1])),
                filename: nonempty(&element_text(&cells[2])),
                href: copy_link(&cells[2].links),
                document_type: nonempty(&element_text(&cells[3])),
                size_bytes: parse_optional_u64(&element_text(&cells[4])),
            };
            assert(document@ =~= document_of(element_models(cells@)));
            documents.push(document);
            assert(document_models(documents@) =~= document_models(earlier).push(
                documents@.last()@,
            ));
        }
        i += 1;
    }
    documents
}

// ---------------------------------------------------------------------------
// The page
// ---------------------------------------------------------------------------

/// The elements of a page that say something of the filing.
#[derive(Debug)]
pub struct PageParts {
    /// The elements that name the form.
    pub form_names: Vec<PageElement>,
    /// In each of them, the elements in bold.
    pub form_headers: Vec<Vec<PageElement>>,
    /// The elements that give the accession number.
    pub sec_nums: Vec<PageElement>,
    /// In each block of a filer, the elements that name the company.
    pub companies: Vec<Vec<PageElement>>,
    /// In each block of a filer, the addresses.
    pub mailers: Vec<Vec<PageElement>>,
    /// In each block of a filer, the identification.
    pub idents: Vec<Vec<PageElement>>,
    /// The cells of each row of the documents.
    pub rows: Vec<Vec<PageElement>>,
}

pub struct PartsModel {
    pub form_names: Seq<ElementModel>,
    pub form_headers: Seq<Seq<ElementModel>>,
    pub sec_nums: Seq<ElementModel>,
    pub companies: Seq<Seq<ElementModel>>,
    pub mailers: Seq<Seq<ElementModel>>,
    pub idents: Seq<Seq<ElementModel>>,
    pub rows: Seq<Seq<ElementModel>>,
}

impl View for PageParts {
    type V = PartsModel;

    open spec fn view(&self) -> PartsModel {
        PartsModel {
            form_names: element_models(self.form_names@),
            form_headers: element_lists(self.form_headers@),
            sec_nums: element_models(self.sec_nums@),
            companies: element_lists(self.companies@),
            mailers: element_lists(self.mailers@),
            idents: element_lists(self.idents@),
            rows: element_lists(self.rows@),
        }
    }
}

impl PartsModel {
    /// Each list of nested elements is as long as that of the elements around them.
    pub open spec fn wf(self) -> bool {
        &&& self.form_headers.len() == self.form_names.len()
        &&& self.mailers.len() == self.companies.len()
        &&& self.idents.len() == self.companies.len()
    }
}

/// The type of a filing, from the heading of its form.
pub open spec fn header_type(header: Seq<char>) -> Seq<char> {
    match strip_prefix(header, "Form "@) {
        Some(rest) => trim(rest),
        None => trim(header),
    }
}

/// The description of a form: what stands behind its heading, without the dash before it and the
/// colon behind it.
pub open spec fn header_description(name: Seq<char>, header: Seq<char>) -> Option<Seq<char>> {
    let rest = match strip_prefix(name, header) {
        Some(rest) => rest,
        None => Seq::empty(),
    };
    nonempty_text(
        trim(
            drop_trailing(
                trim(drop_leading(trim(rest), CharClass::Only('-'))),
                CharClass::Only(':'),
            ),
        ),
    )
}

/// The number in the first of the given words, from the `i`-th on, that has eighteen digits.
pub open spec fn accession_in(w: Seq<Seq<char>>, i: int) -> Option<nat>
    decreases w.len() - i,
{
    if i >= w.len() {
        None
    } else if only_digits(w[i]).len() == 18 {
        Some(digits_value(only_digits(w[i])))
    } else {
        accession_in(w, i + 1)
    }
}

/// What is wrong with a page, or nothing.
pub open spec fn page_error(p: PartsModel) -> Option<IndexPageError> {
    if p.form_names.len() == 0 {
        Some(IndexPageError::MissingFormName)
    } else if p.form_headers[0].len() == 0 {
        Some(IndexPageError::MissingFormHeader)
    } else if header_type(element_text_of(p.form_headers[0][0])).len() == 0 {
        Some(IndexPageError::EmptySubmissionType)
    } else if p.sec_nums.len() == 0 {
        Some(IndexPageError::MissingSecNum)
    } else if accession_in(words(element_text_of(p.sec_nums[0])), 0) is None {
        Some(IndexPageError::InvalidAccession)
    } else {
        None
    }
}

impl IndexPage {
    /// What the parts of a page say, with the values by their headings.
    pub open spec fn says(
        self,
        p: PartsModel,
        metadata: Seq<(Seq<char>, Seq<char>)>,
        filing_date: Option<CalendarDate>,
        accepted_at: Option<CalendarTime>,
    ) -> bool {
        let header = element_text_of(p.form_headers[0][0]);
        &&& accession_in(words(element_text_of(p.sec_nums[0])), 0) == Some(self.accession as nat)
        &&& self.submission_type@ == header_type(header)
        &&& opt_text(self.form_description) == header_description(
            element_text_of(p.form_names[0]),
            header,
        )
        &&& self.filing_date == filing_date
        &&& self.accepted_at == accepted_at
        &&& self.document_count == (match entry_value(metadata, "Documents"@) {
            Some(v) => match parse_unsigned(v, u32::MAX as nat) {
                Some(n) => Some(n as u32),
                None => None,
            },
            None => None,
        })
        &&& text_entries(self.header_metadata) == metadata
        &&& filer_models(self.filers@) == filers_of(
            p.companies,
            p.mailers,
            p.idents,
            p.companies.len(),
        )
        &&& document_models(self.documents@) == documents_of(p.rows, p.rows.len())
    }
}

/// A number of eighteen digits fits a machine word.
proof fn lemma_eighteen_digits(s: Seq<char>)
    requires
        all_digits(s),
        s.len() <= 18,
    ensures
        digits_value(s) < 1000000000000000000,
{
    lemma_digits_bound(s);
    assert(pow(10, s.len()) <= 1000000000000000000) by {
        lemma_pow_increases(10, s.len(), 18);
        assert(pow(10, 18) == 1000000000000000000) by {
            reveal_with_fuel(pow, 19);
        }
    }
}

proof fn lemma_digits_bound(s: Seq<char>)
    requires
        all_digits(s),
    ensures
        digits_value(s) < pow(10, s.len()),
    decreases s.len(),
{
    if s.len() == 0 {
        lemma_pow0(10);
    } else {
        let t = s.drop_last();
        assert forall|i: int| 0 <= i < t.len() implies is_digit(#[trigger] t[i]) by {
            assert(t[i] == s[i]);
        }
        lemma_digits_bound(t);
        assert(is_digit(s[s.len() - 1]));
        assert(pow(10, s.len()) == 10 * pow(
            10,
            t.len(),
        )) by {
            reveal(pow);
        }
    }
}

/// An accession number has eighteen digits at most.
pub proof fn law_accessions_have_eighteen_digits(w: Seq<Seq<char>>, i: int)
    ensures
        accession_in(w, i) matches Some(n) ==> n < 1000000000000000000,
    decreases w.len() - i,
{
    if i < w.len() {
        if only_digits(w[i]).len() == 18 {
            lemma_only_digits(w[i]);
            lemma_eighteen_digits(only_digits(w[i]));
        } else {
            law_accessions_have_eighteen_digits(w, i + 1);
        }
    }
}

/// The accession number among the words of a text.
pub fn find_accession(text: &[char]) -> (out: Option<u64>)
    ensures
        match out {
            Some(n) => accession_in(words(text@), 0) == Some(n as nat),
            None => accession_in(words(text@), 0) is None,
        },
{
    let found = split_words(text);
    let ghost models = pieces(found@);
    let mut i: usize = 0;
    while i < found.len()
        invariant
            i <= found@.len(),
            models == pieces(found@),
            models == words(text@),
            accession_in(models, 0) == accession_in(models, i as int),
        decreases found@.len() - i,
    {
        assert(models[i as int] == found@[i as int]@);
        let digits = keep_digits(&found[i]);
        if digits.len() == 18 {
            proof {
                lemma_only_digits(found@[i as int]@);
                lemma_eighteen_digits(digits@);
                assert(is_digit(digits@[0]));
            }
            return read_u64(&digits);
        }
        i += 1;
    }
    None
}

fn describe_form(name: &[char], header: &[char]) -> (out: Option<String>)
    ensures
        opt_text(out) == header_description(name@, header@),
{
    match without_prefix(name, header) {
        Some(rest) => {
            let undashed = trim_space(without_leading(trim_space(rest), CharClass::Only('-')));
            nonempty(trim_space(without_trailing(undashed, CharClass::Only(':'))))
        },
        None => {
            proof {
                let e = Seq::<char>::empty();
                assert(trim(e) =~= e);
                assert(drop_leading(e, CharClass::Only('-')) =~= e);
                assert(drop_trailing(e, CharClass::Only(':')) =~= e);
            }
            None
        },
    }
}

/// Puts a page together from its parts, the values by their headings, and the dates among them.
pub fn assemble_page(
    parts: &PageParts,
    header_metadata: IndexMap<String, String>,
    filing_date: Option<CalendarDate>,
    accepted_at: Option<CalendarTime>,
) -> (r: Result<IndexPage, IndexPageError>)
    requires
        parts@.wf(),
    ensures
        match r {
            Ok(page) => page_error(parts@) is None && page.says(
                parts@,
                text_entries(header_metadata),
                filing_date,
                accepted_at,
            ),
            Err(e) => page_error(parts@) == Some(e),
        },
{
    proof {
        assert(parts@.form_names.len() == parts.form_names@.len());
        assert(parts@.form_headers.len() == parts.form_headers@.len());
        assert(parts@.sec_nums.len() == parts.sec_nums@.len());
        assert(parts@.companies.len() == parts.companies@.len());
        assert(parts@.mailers.len() == parts.mailers@.len());
        assert(parts@.idents.len() == parts.idents@.len());
        assert(parts@.rows.len() == parts.rows@.len());
    }
    if parts.form_names.len() == 0 {
        return Err(IndexPageError::MissingFormName);
    }
    assert(parts@.form_names[0] == parts.form_names@[0]@);
    assert(parts@.form_headers[0] == element_models(parts.form_headers@[0]@));
    if parts.form_headers[0].len() == 0 {
        return Err(IndexPageError::MissingFormHeader);
    }
    assert(parts@.form_headers[0][0] == parts.form_headers@[0]@[0]@);
    let header = element_text(&parts.form_headers[0][0]);
    let submission_type = match without_prefix(&header, &chars_of("Form ")) {
        Some(rest) => string_of(trim_space(rest)),
        None => string_of(trim_space(&header)),
    };
    assert(submission_type@ == header_type(header@));
    if submission_type.as_str().is_empty() {
        return Err(IndexPageError::EmptySubmissionType);
    }
    let form_description = describe_form(&element_text(&parts.form_names[0]), &header);
    if parts.sec_nums.len() == 0 {
        return Err(IndexPageError::MissingSecNum);
    }
    assert(parts@.sec_nums[0] == parts.sec_nums@[0]@);
    let accession = match find_accession(&element_text(&parts.sec_nums[0])) {
        Some(n) => n,
        None => {
            return Err(IndexPageError::InvalidAccession);
        },
    };
    let document_count = match get_text(&header_metadata, "Documents") {
        Some(v) => read_u32(&chars_of(v.as_str())),
        None => None,
    };
    let filers = parse_filers(&parts.companies, &parts.mailers, &parts.idents);
    let documents = parse_documents(&parts.rows);
    Ok(
        IndexPage {
            accession,
            submission_type,
            form_description,
            filing_date,
            accepted_at,
            document_count,
            header_metadata,
            filers,
            documents,
        },
    )
}

/// The elements of a page that say something of the filing.
pub open spec fn page_parts(html: Seq<char>) -> PartsModel {
    PartsModel {
        form_names: selected_elements(html, "#formName"@, "a[href]"@, "href"@),
        form_headers: nested_elements(html, "#formName"@, "strong"@, "a[href]"@, "href"@),
        sec_nums: selected_elements(html, "#secNum"@, "a[href]"@, "href"@),
        companies: nested_elements(html, ".filerDiv"@, ".companyName"@, "a[href]"@, "href"@),
        mailers: nested_elements(html, ".filerDiv"@, ".mailer"@, "a[href]"@, "href"@),
        idents: nested_elements(html, ".filerDiv"@, ".identInfo"@, "a[href]"@, "href"@),
        rows: nested_elements(html, "table.tableFile tr"@, "td"@, "a[href]"@, "href"@),
    }
}

/// The values of a page by their headings.
pub open spec fn page_metadata(html: Seq<char>) -> Seq<(Seq<char>, Seq<char>)> {
    let heads = selected_elements(html, ".formGrouping .infoHead"@, "a[href]"@, "href"@);
    let infos = selected_elements(html, ".formGrouping .info"@, "a[href]"@, "href"@);
    header_entries(heads, infos, shorter(heads.len(), infos.len()))
}

fn read_parts(page: &Html, link: &Selector) -> (parts: PageParts)
    requires
        selector_source(*link) == "a[href]"@,
    ensures
        parts@ == page_parts(page_source(*page)),
        parts@.wf(),
{
    let form_name = parse_selector("#formName");
    let strong = parse_selector("strong");
    let sec_num = parse_selector("#secNum");
    let filer = parse_selector(".filerDiv");
    let company = parse_selector(".companyName");
    let mailer = parse_selector(".mailer");
    let ident = parse_selector(".identInfo");
    let row = parse_selector("table.tableFile tr");
    let cell = parse_selector("td");
    let parts = PageParts {
        form_names: select_elements(page, &form_name, link, "href"),
        form_headers: select_nested(page, &form_name, &strong, link, "href"),
        sec_nums: select_elements(page, &sec_num, link, "href"),
        companies: select_nested(page, &filer, &company, link, "href"),
        mailers: select_nested(page, &filer, &mailer, link, "href"),
        idents: select_nested(page, &filer, &ident, link, "href"),
        rows: select_nested(page, &row, &cell, link, "href"),
    };
    proof {
        assert(parts@.form_names.len() == parts.form_names@.len());
        assert(parts@.form_headers.len() == parts.form_headers@.len());
        assert(parts@.companies.len() == parts.companies@.len());
        assert(parts@.mailers.len() == parts.mailers@.len());
        assert(parts@.idents.len() == parts.idents@.len());
    }
    parts
}

/// Reads the index page of a filing: what comes of a page is what its elements say.
pub fn parse_index_page(html: &[u8]) -> (r: Result<IndexPage, IndexPageError>)
    ensures
        !valid_utf8(html@) ==> r == Err::<IndexPage, IndexPageError>(IndexPageError::NotUtf8),
        valid_utf8(html@) ==> {
            let source = decode_utf8(html@);
            match r {
                Ok(page) => page_error(page_parts(source)) is None && page.says(
                    page_parts(source),
                    page_metadata(source),
                    filing_date_in(page_metadata(source)),
                    accepted_in(page_metadata(source)),
                ),
                Err(e) => page_error(page_parts(source)) == Some(e),
            }
        },
{
    let source = match utf8_text(html) {
        Some(s) => s,
        None => {
            return Err(IndexPageError::NotUtf8);
        },
    };
    let page = parse_page(source);
    let link = parse_selector("a[href]");
    let parts = read_parts(&page, &link);
    let head = parse_selector(".formGrouping .infoHead");
    let info = parse_selector(".formGrouping .info");
    let heads = select_elements(&page, &head, &link, "href");
    let infos = select_elements(&page, &info, &link, "href");
    assert(element_models(heads@).len() == heads@.len());
    assert(element_models(infos@).len() == infos@.len());
    let metadata = header_metadata_of(&heads, &infos);
    let filing_date = match get_text(&metadata, "Filing Date") {
        Some(v) => parse_date(v.as_str(), "%Y-%m-%d"),
        None => None,
    };
    let accepted_at = match get_text(&metadata, "Accepted") {
        Some(v) => parse_time(v.as_str(), "%Y-%m-%d %H:%M:%S"),
        None => None,
    };
    assemble_page(&parts, metadata, filing_date, accepted_at)
}

// ---------------------------------------------------------------------------
// Companies
// ---------------------------------------------------------------------------

/// The companies among the first `n` filers, each once, in the order of their first mention.
pub open spec fn filer_ciks(filers: Seq<FilerModel>, n: nat) -> Seq<u64>
    decreases n,
{
    if n == 0 || n > filers.len() {
        Seq::empty()
    } else {
        let earlier = filer_ciks(filers, (n - 1) as nat);
        match filers[n - 1].cik {
            Some(c) => if earlier.contains(c) {
                earlier
            } else {
                earlier.push(c)
            },
            None => earlier,
        }
    }
}

/// No company is listed twice, and every company of a filer is listed.
pub proof fn law_filer_ciks(filers: Seq<FilerModel>, n: nat)
    requires
        n <= filers.len(),
    ensures
        filer_ciks(filers, n).no_duplicates(),
        forall|i: int|
            0 <= i < n && (#[trigger] filers[i]).cik is Some ==> filer_ciks(filers, n).contains(
                filers[i].cik->0,
            ),
    decreases n,
{
    if n > 0 {
        law_filer_ciks(filers, (n - 1) as nat);
        let earlier = filer_ciks(filers, (n - 1) as nat);
        let all = filer_ciks(filers, n);
        assert forall|i: int| 0 <= i < n && (#[trigger] filers[i]).cik is Some implies all.contains(
            filers[i].cik->0,
        ) by {
            let c = filers[i].cik->0;
            if i < n - 1 {
                let j = choose|j: int| 0 <= j < earlier.len() && earlier[j] == c;
                assert(all[j] == c);
            } else if !earlier.contains(c) {
                assert(all[earlier.len() as int] == c);
            }
        }
    }
}

impl IndexPage {
    /// The companies of the filers, each once.
    pub fn ciks(&self) -> (ciks: Vec<u64>)
        ensures
            ciks@ == filer_ciks(filer_models(self.filers@), self.filers@.len()),
            ciks@.no_duplicates(),
    {
        let ghost models = filer_models(self.filers@);
        let mut seen: HashSet<u64> = HashSet::new();
        let mut ciks: Vec<u64> = Vec::new();
        let mut i: usize = 0;
        while i < self.filers.len()
            invariant
                i <= self.filers@.len(),
                models == filer_models(self.filers@),
                ciks@ == filer_ciks(models, i as nat),
                forall|c: u64| seen@.contains(c) <==> ciks@.contains(c),
            decreases self.filers@.len() - i,
        {
            broadcast use vstd::std_specs::hash::group_hash_axioms;

            assert(models[i as int] == self.filers@[i as int]@);
            let ghost earlier = ciks@;
            match self.filers[i].cik {
                Some(cik) => if seen.insert(cik) {
                    ciks.push(cik);
                    assert forall|c: u64| seen@.contains(c) <==> ciks@.contains(c) by {
                        if earlier.contains(c) {
                            let j = choose|j: int| 0 <= j < earlier.len() && earlier[j] == c;
                            assert(ciks@[j] == c);
                        }
                        if c == cik {
                            assert(ciks@[earlier.len() as int] == c);
                        }
                    }
                },
                None => {},
            }
            i += 1;
        }
        proof {
            law_filer_ciks(models, models.len());
        }
        ciks
    }
}

// ---------------------------------------------------------------------------
// Copies
// ---------------------------------------------------------------------------

impl Clone for IndexPageFiler {
    fn clone(&self) -> (copy: Self)
        ensures
            copy@ == self@,
    {
        IndexPageFiler {
            name: self.name.clone(),
            role: copy_option(&self.role),
            cik: self.cik,
            mailing_address: copy_option(&self.mailing_address),
            business_address: copy_option(&self.business_address),
            identification: copy_option(&self.identification),
        }
    }
}

impl Clone for IndexPageDocument {
    fn clone(&self) -> (copy: Self)
        ensures
            copy@ == self@,
    {
        IndexPageDocument {
            sequence: self.sequence,
            description: copy_option(&self.description),
            filename: copy_option(&self.filename),
            href: copy_option(&self.href),
            document_type: copy_option(&self.document_type),
            size_bytes: self.size_bytes,
        }
    }
}

fn copy_filers(v: &Vec<IndexPageFiler>) -> (out: Vec<IndexPageFiler>)
    ensures
        filer_models(out@) == filer_models(v@),
{
    let mut out: Vec<IndexPageFiler> = Vec::new();
    let mut i: usize = 0;
    while i < v.len()
        invariant
            i <= v@.len(),
            filer_models(out@) == filer_models(v@).take(i as int),
        decreases v@.len() - i,
    {
        let ghost earlier = out@;
        out.push(v[i].clone());
        assert(filer_models(out@) =~= filer_models(earlier).push(v@[i as int]@));
        assert(filer_models(out@) =~= filer_models(v@).take(i + 1));
        i += 1;
    }
    assert(filer_models(v@).take(i as int) =~= filer_models(v@));
    out
}

fn copy_documents(v: &Vec<IndexPageDocument>) -> (out: Vec<IndexPageDocument>)
    ensures
        document_models(out@) == document_models(v@),
{
    let mut out: Vec<IndexPageDocument> = Vec::new();
    let mut i: usize = 0;
    while i < v.len()
        invariant
            i <= v@.len(),
            document_models(out@) == document_models(v@).take(i as int),
        decreases v@.len() - i,
    {
        let ghost earlier = out@;
        out.push(v[i].clone());
        assert(document_models(out@) =~= document_models(earlier).push(v@[i as int]@));
        assert(document_models(out@) =~= document_models(v@).take(i + 1));
        i += 1;
    }
    assert(document_models(v@).take(i as int) =~= document_models(v@));
    out
}

impl Clone for IndexPage {
    fn clone(&self) -> (copy: Self)
        ensures
            copy.accession == self.accession,
            copy.submission_type@ == self.submission_type@,
            opt_text(copy.form_description) == opt_text(self.form_description),
            copy.filing_date == self.filing_date,
            copy.accepted_at == self.accepted_at,
            copy.document_count == self.document_count,
            text_entries(copy.header_metadata) == text_entries(self.header_metadata),
            filer_models(copy.filers@) == filer_models(self.filers@),
            document_models(copy.documents@) == document_models(self.documents@),
    {
        IndexPage {
            accession: self.accession,
            submission_type: self.submission_type.clone(),
            form_description: copy_option(&self.form_description),
            filing_date: self.filing_date,
            accepted_at: self.accepted_at,
            document_count: self.document_count,
            header_metadata: copy_text_map(&self.header_metadata),
            filers: copy_filers(&self.filers),
            documents: copy_documents(&self.documents),
        }
    }
}

} // verus!
