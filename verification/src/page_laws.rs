//! What an index page says, told from the texts that stand on it.
use vstd::prelude::*;

use crate::collections::{entry_index, entry_value, lemma_entry_index};
use crate::numeral::{digits_value, parse_unsigned};
use crate::parse_index_page::{
    accepted_in, accession_in, addresses, all_words, before_cik, document_of, documents_of,
    element_text_of, filer_ciks, filer_models, filer_of, filers_of, filing_date_in, first_link_cik,
    first_pair_cik, header_description, header_entries, header_type, href_cik, law_filer_ciks,
    name_and_role, nonempty_text, number_u32, number_u64, page_error, pair_cik, read_date,
    read_time, shorter, CalendarDate, CalendarTime, DocumentModel, ElementModel, FilerModel,
    IndexPage, IndexPageError, PartsModel, MAX_CIK,
};
use crate::text::{
    drop_leading, drop_trailing, is_digit, join, last_of, lemma_last_of, lower, lower_char,
    only_digits, opt_text, split, split_once, strip_prefix, trim, without, words, CharClass,
};
use crate::text_laws::{
    is_trim_of, is_trimmed_value, law_find_is_first, law_split_once, law_trim,
    law_words_stand_in_text, lemma_commas, stands_in, stands_spaced,
};
use crate::xml2tables::mapping_laws::{are_last_pairs, lemma_set_last};

verus! {

// ---------------------------------------------------------------------------
// Texts and numbers
// ---------------------------------------------------------------------------

/// Whether `text` is made of the words of the given texts, in their order, with one space between
/// any two.
pub open spec fn is_spaced_text(text: Seq<char>, parts: Seq<Seq<char>>) -> bool {
    exists|lists: Seq<Seq<Seq<char>>>|
        #![trigger lists.flatten()]
        lists.len() == parts.len() && (forall|k: int|
            0 <= k < parts.len() ==> stands_spaced(#[trigger] lists[k], parts[k])) && text == join(
            lists.flatten(),
            seq![' '],
        )
}

proof fn lemma_word_lists(parts: Seq<Seq<char>>)
    ensures
        parts.map_values(|p: Seq<char>| words(p)).flatten() == all_words(parts),
    decreases parts.len(),
{
    let f = |p: Seq<char>| words(p);
    if parts.len() == 0 {
        assert(parts.map_values(f).flatten() =~= Seq::<Seq<char>>::empty());
    } else {
        lemma_word_lists(parts.drop_last());
        let front = parts.drop_last().map_values(f);
        front.lemma_flatten_push(words(parts.last()));
        assert(parts.map_values(f) =~= front.push(words(parts.last())));
    }
}

/// The text of an element is made of the words in it, with one space between any two.
pub proof fn law_element_text_is_spaced(e: ElementModel)
    ensures
        is_spaced_text(element_text_of(e), e.texts),
{
    let lists = e.texts.map_values(|p: Seq<char>| words(p));
    lemma_word_lists(e.texts);
    assert forall|k: int| 0 <= k < e.texts.len() implies stands_spaced(
        #[trigger] lists[k],
        e.texts[k],
    ) by {
        law_words_stand_in_text(e.texts[k]);
    }
    assert(lists.flatten() == all_words(e.texts));
}

/// Whether a text writes a number: digits, with a plus sign before them or not.
pub open spec fn writes_number(s: Seq<char>, n: nat) -> bool {
    exists|digits: Seq<char>|
        #![trigger digits_value(digits)]
        (s == digits || s == seq!['+'] + digits) && digits.len() > 0 && (forall|i: int|
            0 <= i < digits.len() ==> is_digit(#[trigger] digits[i])) && digits_value(digits) == n
}

pub proof fn lemma_parse_unsigned(s: Seq<char>, max: nat)
    ensures
        parse_unsigned(s, max) matches Some(n) ==> n <= max && writes_number(s, n),
        forall|n: nat| n <= max && #[trigger] writes_number(s, n) ==> parse_unsigned(s, max)
            == Some(n),
{
    let digits = if s.len() > 0 && s[0] == '+' {
        s.drop_first()
    } else {
        s
    };
    if s.len() > 0 && s[0] == '+' {
        assert(s =~= seq!['+'] + digits);
    }
    assert forall|n: nat| n <= max && #[trigger] writes_number(s, n) implies parse_unsigned(s, max)
        == Some(n) by {
        let d = choose|d: Seq<char>|
            #![trigger digits_value(d)]
            (s == d || s == seq!['+'] + d) && d.len() > 0 && (forall|i: int|
                0 <= i < d.len() ==> is_digit(#[trigger] d[i])) && digits_value(d) == n;
        assert(is_digit(d[0]));
        if s != d {
            assert(s[0] == '+');
            assert(s.drop_first() =~= d);
        }
    }
}

/// Whether a number that may be missing is the one that the text, without its commas, writes; it is
/// missing where the text writes none, or none that small.
pub open spec fn is_number_of(value: Option<nat>, text: Seq<char>, max: nat) -> bool {
    let bare = text.filter(|c: char| c != ',');
    match value {
        Some(n) => n <= max && writes_number(bare, n),
        None => forall|n: nat| n <= max ==> !#[trigger] writes_number(bare, n),
    }
}

proof fn lemma_number(text: Seq<char>, max: nat)
    ensures
        is_number_of(parse_unsigned(without(text, ','), max), text, max),
{
    lemma_commas(text);
    lemma_parse_unsigned(without(text, ','), max);
}

// ---------------------------------------------------------------------------
// Addresses
// ---------------------------------------------------------------------------

/// Whether an element stands under the given heading.
pub open spec fn is_headed(e: ElementModel, heading: Seq<char>) -> bool {
    heading.is_prefix_of(element_text_of(e))
}

/// Whether an address is the one that the elements under the heading give: what the last of them
/// says behind the heading, if it says anything. Other elements do not matter.
pub open spec fn is_last_under(
    address: Option<Seq<char>>,
    elements: Seq<ElementModel>,
    heading: Seq<char>,
) -> bool {
    ||| address is None && forall|i: int|
        0 <= i < elements.len() ==> !is_headed(#[trigger] elements[i], heading)
    ||| exists|i: int|
        0 <= i < elements.len() && is_headed(#[trigger] elements[i], heading) && (forall|j: int|
            i < j < elements.len() ==> !is_headed(#[trigger] elements[j], heading))
            && is_trimmed_value(
            address,
            element_text_of(elements[i]).skip(heading.len() as int),
        )
}

proof fn lemma_last_under_grows(
    address: Option<Seq<char>>,
    elements: Seq<ElementModel>,
    heading: Seq<char>,
    e: ElementModel,
)
    requires
        is_last_under(address, elements, heading),
        !is_headed(e, heading),
    ensures
        is_last_under(address, elements.push(e), heading),
{
    let all = elements.push(e);
    if exists|i: int| 0 <= i < elements.len() && is_headed(#[trigger] elements[i], heading) {
        let i = choose|i: int|
            0 <= i < elements.len() && is_headed(#[trigger] elements[i], heading) && (forall|
                j: int,
            |
                i < j < elements.len() ==> !is_headed(#[trigger] elements[j], heading))
                && is_trimmed_value(
                address,
                element_text_of(elements[i]).skip(heading.len() as int),
            );
        assert(all[i] == elements[i]);
        assert forall|j: int| i < j < all.len() implies !is_headed(#[trigger] all[j], heading) by {
            if j < elements.len() {
                assert(all[j] == elements[j]);
            }
        }
        assert(is_headed(all[i], heading));
    } else {
        assert forall|i: int| 0 <= i < all.len() implies !is_headed(#[trigger] all[i], heading) by {
            if i < elements.len() {
                assert(all[i] == elements[i]);
            }
        }
    }
}

proof fn lemma_last_under_new(elements: Seq<ElementModel>, heading: Seq<char>, e: ElementModel)
    requires
        is_headed(e, heading),
    ensures
        is_last_under(
            nonempty_text(trim(element_text_of(e).skip(heading.len() as int))),
            elements.push(e),
            heading,
        ),
{
    let all = elements.push(e);
    law_trim(element_text_of(e).skip(heading.len() as int));
    assert(all[elements.len() as int] == e);
    assert(is_headed(all[elements.len() as int], heading));
}

/// A mailing address is decided by the elements under the heading `Mailing Address` alone, and a
/// business address by those under `Business Address` alone.
pub proof fn law_addresses_are_told_apart(mailers: Seq<ElementModel>)
    ensures
        is_last_under(addresses(mailers, mailers.len()).0, mailers, "Mailing Address"@),
        is_last_under(addresses(mailers, mailers.len()).1, mailers, "Business Address"@),
{
    lemma_addresses(mailers, mailers.len());
    assert(mailers.take(mailers.len() as int) =~= mailers);
}

proof fn lemma_addresses(mailers: Seq<ElementModel>, n: nat)
    requires
        n <= mailers.len(),
    ensures
        is_last_under(addresses(mailers, n).0, mailers.take(n as int), "Mailing Address"@),
        is_last_under(addresses(mailers, n).1, mailers.take(n as int), "Business Address"@),
    decreases n,
{
    if n > 0 {
        lemma_addresses(mailers, (n - 1) as nat);
        let before = mailers.take(n - 1);
        let e = mailers[n - 1];
        let text = element_text_of(e);
        let (mailing, business) = addresses(mailers, (n - 1) as nat);
        assert(mailers.take(n as int) =~= before.push(e));
        reveal_strlit("Mailing Address");
        reveal_strlit("Business Address");
        assert("Mailing Address"@[0] == 'M');
        assert("Business Address"@[0] == 'B');
        if is_headed(e, "Mailing Address"@) {
            assert(text[0] == 'M');
            lemma_last_under_new(before, "Mailing Address"@, e);
            lemma_last_under_grows(business, before, "Business Address"@, e);
        } else {
            lemma_last_under_grows(mailing, before, "Mailing Address"@, e);
            if is_headed(e, "Business Address"@) {
                lemma_last_under_new(before, "Business Address"@, e);
            } else {
                lemma_last_under_grows(business, before, "Business Address"@, e);
            }
        }
    }
}

// ---------------------------------------------------------------------------
// Names, roles and numbers of companies
// ---------------------------------------------------------------------------

/// Whether a text is made of a front, and of an inside between the last opening parenthesis and a
/// closing one at the end.
pub open spec fn is_bracketed(v: Seq<char>, front: Seq<char>, inside: Seq<char>) -> bool {
    v == front + seq!['('] + inside + seq![')'] && !inside.contains('(')
}

/// Whether a name and a role are those that a text gives.
pub open spec fn is_name_and_role(
    name: Seq<char>,
    role: Option<Seq<char>>,
    text: Seq<char>,
) -> bool {
    match role {
        Some(r) => name.len() > 0 && r.len() > 0 && exists|
            v: Seq<char>,
            front: Seq<char>,
            inside: Seq<char>,
        |
            #![trigger is_bracketed(v, front, inside)]
            is_trim_of(v, text) && is_bracketed(v, front, inside) && is_trim_of(name, front)
                && is_trim_of(r, inside),
        None => is_trim_of(name, text) && forall|front: Seq<char>, inside: Seq<char>|
            #[trigger] is_bracketed(name, front, inside) ==> is_trim_of(Seq::empty(), front)
                || is_trim_of(Seq::empty(), inside),
    }
}

/// A role is what stands in the last parentheses at the end of a name, where neither it nor what
/// stands before it is blank.
pub proof fn law_role_stands_in_parentheses(text: Seq<char>)
    ensures
        is_name_and_role(name_and_role(text).0, name_and_role(text).1, text),
{
    let v = trim(text);
    law_trim(text);
    lemma_last_of(v, '(');
    let open = last_of(v, '(');
    let (name, role) = name_and_role(text);
    if open >= 0 && v.last() == ')' {
        let front = v.take(open);
        let inside = v.subrange(open + 1, v.len() - 1);
        law_trim(front);
        law_trim(inside);
        assert(v =~= front + seq!['('] + inside + seq![')']);
        if inside.contains('(') {
            let i = choose|i: int| 0 <= i < inside.len() && inside[i] == '(';
            assert(v[open + 1 + i] == '(');
        }
        assert(is_bracketed(v, front, inside));
        if role is None {
            assert forall|f: Seq<char>, i: Seq<char>| #[trigger]
                is_bracketed(v, f, i) implies is_trim_of(Seq::empty(), f) || is_trim_of(
                Seq::empty(),
                i,
            ) by {
                lemma_bracketed(v, f, i, open);
                assert(f =~= front && i =~= inside);
                assert(trim(front) =~= Seq::<char>::empty() || trim(inside) =~= Seq::<
                    char,
                >::empty());
            }
        }
    } else {
        assert forall|f: Seq<char>, i: Seq<char>| !#[trigger] is_bracketed(v, f, i) by {
            if is_bracketed(v, f, i) {
                assert(v[f.len() as int] == '(');
                assert(v.last() == ')');
            }
        }
    }
}

proof fn lemma_bracketed(v: Seq<char>, front: Seq<char>, inside: Seq<char>, open: int)
    requires
        is_bracketed(v, front, inside),
        0 <= open < v.len(),
        v[open] == '(',
        forall|j: int| open < j < v.len() ==> v[j] != '(',
    ensures
        front == v.take(open),
        inside == v.subrange(open + 1, v.len() - 1),
{
    assert(v[front.len() as int] == '(');
    if open > front.len() {
        if open < v.len() - 1 {
            assert(v[open] == inside[open - front.len() - 1]);
        } else {
            assert(v[open] == ')');
        }
    }
    assert(front =~= v.take(open));
    assert(inside =~= v.subrange(open + 1, v.len() - 1));
}

/// What stands before the first `CIK` of a text, or all of it.
pub open spec fn is_before_cik(s: Seq<char>, text: Seq<char>) -> bool {
    ||| s == text && forall|k: int| !#[trigger] stands_in("CIK"@, text, k)
    ||| exists|k: int|
        #[trigger] stands_in("CIK"@, text, k) && s == text.take(k) && forall|j: int|
            #[trigger] stands_in("CIK"@, text, j) ==> k <= j
}

proof fn lemma_before_cik(text: Seq<char>)
    ensures
        is_before_cik(before_cik(text), text),
{
    law_find_is_first(text, "CIK"@);
}

/// Whether a part of a query has the key `CIK`, in upper or lower case, and a number for it.
pub open spec fn is_cik_part(part: Seq<char>, n: nat) -> bool {
    exists|key: Seq<char>, value: Seq<char>|
        #![trigger key + seq!['='] + value]
        part == key + seq!['='] + value && !key.contains('=') && key.len() == 3 && (key[0] == 'C'
            || key[0] == 'c') && (key[1] == 'I' || key[1] == 'i') && (key[2] == 'K' || key[2]
            == 'k') && n <= u64::MAX && writes_number(value, n)
}

proof fn lemma_pair_cik(part: Seq<char>)
    ensures
        pair_cik(part) matches Some(n) ==> is_cik_part(part, n),
        forall|n: nat| #[trigger] is_cik_part(part, n) ==> pair_cik(part) == Some(n),
{
    law_split_once(part, '=');
    if let Some((key, value)) = split_once(part, '=') {
        lemma_parse_unsigned(value, u64::MAX as nat);
        if lower(key) == seq!['c', 'i', 'k'] {
            assert(lower(key).len() == 3);
            assert(lower(key)[0] == 'c' && lower(key)[1] == 'i' && lower(key)[2] == 'k');
            lemma_lower(key[0]);
            lemma_lower(key[1]);
            lemma_lower(key[2]);
            assert(part == key + seq!['='] + value);
        }
    }
    assert forall|n: nat| #[trigger] is_cik_part(part, n) implies pair_cik(part) == Some(n) by {
        let (key, value) = choose|key: Seq<char>, value: Seq<char>|
            #![trigger key + seq!['='] + value]
            part == key + seq!['='] + value && !key.contains('=') && key.len() == 3 && (key[0]
                == 'C' || key[0] == 'c') && (key[1] == 'I' || key[1] == 'i') && (key[2] == 'K'
                || key[2] == 'k') && n <= u64::MAX && writes_number(value, n);
        assert(part[3] == '=');
        assert(part.contains('='));
        let (k, v) = split_once(part, '=')->Some_0;
        if k.len() < 3 {
            assert(part[k.len() as int] == '=');
            assert(key[k.len() as int] == '=');
        }
        if k.len() > 3 {
            assert(k[3] == part[3]);
        }
        assert(k =~= key);
        assert(v =~= value);
        lemma_lower(key[0]);
        lemma_lower(key[1]);
        lemma_lower(key[2]);
        assert(lower(key) =~= seq!['c', 'i', 'k']);
        lemma_parse_unsigned(value, u64::MAX as nat);
    }
}

proof fn lemma_lower(c: char)
    ensures
        lower_char(c) == 'c' <==> c == 'c' || c == 'C',
        lower_char(c) == 'i' <==> c == 'i' || c == 'I',
        lower_char(c) == 'k' <==> c == 'k' || c == 'K',
{
}

/// Whether an address has a query behind its first question mark, and the first of its parts
/// between ampersands with the key `CIK` and a number gives that number.
pub open spec fn gives_cik(href: Seq<char>, n: nat) -> bool {
    exists|front: Seq<char>, query: Seq<char>, i: int|
        #![trigger front + seq!['?'] + query, is_cik_part(split(query, '&')[i], n)]
        href == front + seq!['?'] + query && !front.contains('?') && 0 <= i < split(
            query,
            '&',
        ).len() && is_cik_part(split(query, '&')[i], n) && forall|j: int, m: nat|
            0 <= j < i ==> !#[trigger] is_cik_part(split(query, '&')[j], m)
}

proof fn lemma_first_pair(parts: Seq<Seq<char>>, i: int)
    requires
        0 <= i,
    ensures
        match first_pair_cik(parts, i) {
            Some(n) => exists|k: int|
                i <= k < parts.len() && #[trigger] is_cik_part(parts[k], n) && forall|
                    j: int,
                    m: nat,
                |
                    i <= j < k ==> !#[trigger] is_cik_part(parts[j], m),
            None => forall|k: int, m: nat|
                i <= k < parts.len() ==> !#[trigger] is_cik_part(parts[k], m),
        },
    decreases parts.len() - i,
{
    if i < parts.len() {
        lemma_pair_cik(parts[i]);
        lemma_first_pair(parts, i + 1);
        match pair_cik(parts[i]) {
            Some(n) => {
                assert(is_cik_part(parts[i], n));
            },
            None => {
                if let Some(n) = first_pair_cik(parts, i + 1) {
                    let k = choose|k: int|
                        i + 1 <= k < parts.len() && #[trigger] is_cik_part(parts[k], n) && forall|
                            j: int,
                            m: nat,
                        |
                            i + 1 <= j < k ==> !#[trigger] is_cik_part(parts[j], m);
                    assert forall|j: int, m: nat| i <= j < k implies !#[trigger] is_cik_part(
                        parts[j],
                        m,
                    ) by {}
                }
            },
        }
    }
}

/// The number that an address gives, if it gives one.
pub proof fn law_address_gives_cik(href: Seq<char>)
    ensures
        href_cik(href) matches Some(n) ==> gives_cik(href, n),
        forall|n: nat| #[trigger] gives_cik(href, n) ==> href_cik(href) == Some(n),
{
    law_split_once(href, '?');
    if let Some((front, query)) = split_once(href, '?') {
        lemma_first_pair(split(query, '&'), 0);
        assert(href == front + seq!['?'] + query);
        if let Some(n) = href_cik(href) {
            let k = choose|k: int|
                0 <= k < split(query, '&').len() && #[trigger] is_cik_part(
                    split(query, '&')[k],
                    n,
                ) && forall|j: int, m: nat|
                    0 <= j < k ==> !#[trigger] is_cik_part(split(query, '&')[j], m);
            assert(is_cik_part(split(query, '&')[k], n));
        }
    }
    assert forall|n: nat| #[trigger] gives_cik(href, n) implies href_cik(href) == Some(n) by {
        let (front, query, i) = choose|front: Seq<char>, query: Seq<char>, i: int|
            #![trigger front + seq!['?'] + query, is_cik_part(split(query, '&')[i], n)]
            href == front + seq!['?'] + query && !front.contains('?') && 0 <= i < split(
                query,
                '&',
            ).len() && is_cik_part(split(query, '&')[i], n) && forall|j: int, m: nat|
                0 <= j < i ==> !#[trigger] is_cik_part(split(query, '&')[j], m);
        assert(href[front.len() as int] == '?');
        assert(href.contains('?'));
        let (f, q) = split_once(href, '?')->Some_0;
        if f.len() < front.len() {
            assert(href[f.len() as int] == '?');
            assert(front[f.len() as int] == '?');
        }
        if f.len() > front.len() {
            assert(f[front.len() as int] == '?');
        }
        assert(f =~= front);
        assert(q =~= query);
        let parts = split(query, '&');
        lemma_first_pair(parts, 0);
        match first_pair_cik(parts, 0) {
            Some(m) => {
                let k = choose|k: int|
                    0 <= k < parts.len() && #[trigger] is_cik_part(parts[k], m) && forall|
                        j: int,
                        m: nat,
                    |
                        0 <= j < k ==> !#[trigger] is_cik_part(parts[j], m);
                assert(k == i);
                lemma_pair_cik(parts[i]);
            },
            None => {},
        }
    }
}

/// Whether a link leads to the page of the company with the given number.
pub open spec fn links_to(link: Option<Seq<char>>, cik: nat) -> bool {
    link matches Some(href) && gives_cik(href, cik) && 1 <= cik <= MAX_CIK
}

/// Whether the number of a company is that of the first link that leads to a company.
pub open spec fn is_first_linked(cik: Option<u64>, links: Seq<Option<Seq<char>>>) -> bool {
    match cik {
        Some(n) => exists|i: int|
            0 <= i < links.len() && links_to(#[trigger] links[i], n as nat) && forall|
                j: int,
                m: nat,
            |
                0 <= j < i ==> !#[trigger] links_to(links[j], m),
        None => forall|j: int, m: nat|
            0 <= j < links.len() ==> !#[trigger] links_to(links[j], m),
    }
}

proof fn lemma_first_linked(links: Seq<Option<Seq<char>>>, i: int)
    requires
        0 <= i,
        forall|j: int, m: nat|
            0 <= j < i && j < links.len() ==> !#[trigger] links_to(links[j], m),
    ensures
        is_first_linked(first_link_cik(links, i), links),
    decreases links.len() - i,
{
    if i < links.len() {
        if let Some(href) = links[i] {
            law_address_gives_cik(href);
            if let Some(n) = href_cik(href) {
                if 1 <= n <= MAX_CIK {
                    assert(links_to(links[i], n));
                    assert(first_link_cik(links, i) == Some(n as u64));
                }
            }
        }
        if first_link_cik(links, i) == first_link_cik(links, i + 1) && !(exists|m: nat|
            links_to(links[i], m)) {
            assert forall|j: int, m: nat| 0 <= j < i + 1 && j < links.len() implies !#[trigger]
                links_to(links[j], m) by {}
            lemma_first_linked(links, i + 1);
        } else {
            assert(exists|m: nat| links_to(links[i], m));
            let m = choose|m: nat| links_to(links[i], m);
            assert(href_cik(links[i]->0) == Some(m));
            assert(links_to(links[i], first_link_cik(links, i)->0 as nat));
        }
    }
}

// ---------------------------------------------------------------------------
// Filers and documents
// ---------------------------------------------------------------------------

/// Whether a value is the text of an element, missing where there is none.
pub open spec fn is_text_of(value: Option<Seq<char>>, e: ElementModel) -> bool {
    match value {
        Some(t) => t.len() > 0 && t == element_text_of(e),
        None => element_text_of(e).len() == 0,
    }
}

/// Whether a filer is what the parts of its block say.
pub open spec fn is_filer_of(
    f: FilerModel,
    company: ElementModel,
    mailers: Seq<ElementModel>,
    idents: Seq<ElementModel>,
) -> bool {
    &&& exists|identity: Seq<char>|
        #[trigger] is_before_cik(identity, element_text_of(company)) && is_name_and_role(
            f.name,
            f.role,
            identity,
        )
    &&& is_first_linked(f.cik, company.links)
    &&& is_last_under(f.mailing_address, mailers, "Mailing Address"@)
    &&& is_last_under(f.business_address, mailers, "Business Address"@)
    &&& if idents.len() == 0 {
        f.identification is None
    } else {
        is_text_of(f.identification, idents[0])
    }
}

proof fn lemma_filer(
    company: ElementModel,
    mailers: Seq<ElementModel>,
    idents: Seq<ElementModel>,
)
    ensures
        is_filer_of(filer_of(company, mailers, idents), company, mailers, idents),
{
    let text = element_text_of(company);
    lemma_before_cik(text);
    law_role_stands_in_parentheses(before_cik(text));
    lemma_first_linked(company.links, 0);
    law_addresses_are_told_apart(mailers);
}

/// Whether `at` names, in order, all lists that have the given length or more.
pub open spec fn names_all<T>(at: Seq<int>, lists: Seq<Seq<T>>, min: nat) -> bool {
    &&& forall|i: int, j: int| 0 <= i < j < at.len() ==> #[trigger] at[i] < #[trigger] at[j]
    &&& forall|i: int|
        0 <= i < at.len() ==> 0 <= #[trigger] at[i] < lists.len() && lists[at[i]].len() >= min
    &&& forall|k: int|
        0 <= k < lists.len() && (#[trigger] lists[k]).len() >= min ==> at.contains(k)
}

proof fn lemma_names_next<T>(at: Seq<int>, lists: Seq<Seq<T>>, min: nat, x: Seq<T>) -> (more: Seq<
    int,
>)
    requires
        names_all(at, lists, min),
    ensures
        names_all(more, lists.push(x), min),
        more == (if x.len() >= min {
            at.push(lists.len() as int)
        } else {
            at
        }),
{
    let all = lists.push(x);
    let more = if x.len() >= min {
        at.push(lists.len() as int)
    } else {
        at
    };
    assert forall|k: int| 0 <= k < all.len() && (#[trigger] all[k]).len()
        >= min implies more.contains(k) by {
        if k < lists.len() {
            assert(lists[k].len() >= min);
            let i = choose|i: int| 0 <= i < at.len() && at[i] == k;
            assert(more[i] == k);
        } else {
            assert(more[at.len() as int] == k);
        }
    }
    assert forall|i: int| 0 <= i < more.len() implies 0 <= #[trigger] more[i] < all.len()
        && all[more[i]].len() >= min by {
        if i < at.len() {
            assert(more[i] == at[i]);
            assert(all[at[i]] == lists[at[i]]);
        }
    }
    more
}

/// Every block that names a company is a filer, in the order of the blocks, and each filer is what
/// its block says: the name and the role from the name of the company, the number from its links,
/// each address from the elements under its heading, the identification from its element.
pub proof fn law_filers_say_what_their_blocks_say(
    companies: Seq<Seq<ElementModel>>,
    mailers: Seq<Seq<ElementModel>>,
    idents: Seq<Seq<ElementModel>>,
)
    ensures
        exists|at: Seq<int>|
            #[trigger] names_all(at, companies, 1) && {
                let filers = filers_of(companies, mailers, idents, companies.len());
                &&& filers.len() == at.len()
                &&& forall|k: int|
                    0 <= k < at.len() ==> is_filer_of(
                        #[trigger] filers[k],
                        companies[at[k]][0],
                        mailers[at[k]],
                        idents[at[k]],
                    )
            },
{
    let at = lemma_filers(companies, mailers, idents, companies.len());
    assert(companies.take(companies.len() as int) =~= companies);
}

proof fn lemma_filers(
    companies: Seq<Seq<ElementModel>>,
    mailers: Seq<Seq<ElementModel>>,
    idents: Seq<Seq<ElementModel>>,
    n: nat,
) -> (at: Seq<int>)
    requires
        n <= companies.len(),
    ensures
        names_all(at, companies.take(n as int), 1),
        ({
            let filers = filers_of(companies, mailers, idents, n);
            &&& filers.len() == at.len()
            &&& forall|k: int|
                0 <= k < at.len() ==> is_filer_of(
                    #[trigger] filers[k],
                    companies[at[k]][0],
                    mailers[at[k]],
                    idents[at[k]],
                )
        }),
    decreases n,
{
    if n == 0 {
        Seq::empty()
    } else {
        let before = lemma_filers(companies, mailers, idents, (n - 1) as nat);
        let at = lemma_names_next(before, companies.take(n - 1), 1, companies[n - 1]);
        assert(companies.take(n as int) =~= companies.take(n - 1).push(companies[n - 1]));
        if companies[n - 1].len() > 0 {
            lemma_filer(companies[n - 1][0], mailers[n - 1], idents[n - 1]);
            let earlier = filers_of(companies, mailers, idents, (n - 1) as nat);
            let filers = filers_of(companies, mailers, idents, n);
            assert forall|k: int| 0 <= k < at.len() implies is_filer_of(
                #[trigger] filers[k],
                companies[at[k]][0],
                mailers[at[k]],
                idents[at[k]],
            ) by {
                if k < before.len() {
                    assert(filers[k] == earlier[k]);
                    assert(at[k] == before[k]);
                }
            }
        }
        at
    }
}

pub open spec fn wide_u32(n: Option<u32>) -> Option<nat> {
    match n {
        Some(n) => Some(n as nat),
        None => None,
    }
}

pub open spec fn wide_u64(n: Option<u64>) -> Option<nat> {
    match n {
        Some(n) => Some(n as nat),
        None => None,
    }
}

/// Whether a document is what the cells of its row say.
pub open spec fn is_document_of(d: DocumentModel, cells: Seq<ElementModel>) -> bool {
    &&& is_number_of(wide_u32(d.sequence), element_text_of(cells[0]), u32::MAX as nat)
    &&& is_text_of(d.description, cells[1])
    &&& is_text_of(d.filename, cells[2])
    &&& d.href == (if cells[2].links.len() > 0 {
        cells[2].links[0]
    } else {
        None
    })
    &&& is_text_of(d.document_type, cells[3])
    &&& is_number_of(wide_u64(d.size_bytes), element_text_of(cells[4]), u64::MAX as nat)
}

proof fn lemma_document(cells: Seq<ElementModel>)
    ensures
        is_document_of(document_of(cells), cells),
{
    let sequence = element_text_of(cells[0]);
    let size = element_text_of(cells[4]);
    lemma_number(sequence, u32::MAX as nat);
    lemma_number(size, u64::MAX as nat);
    assert(wide_u32(number_u32(sequence)) == parse_unsigned(
        without(sequence, ','),
        u32::MAX as nat,
    ));
    assert(wide_u64(number_u64(size)) == parse_unsigned(without(size, ','), u64::MAX as nat));
}

/// Every row with five cells or more is a document, in the order of the rows: its number, its
/// description, its name and address, its type and its size, cell by cell.
pub proof fn law_documents_say_what_their_rows_say(rows: Seq<Seq<ElementModel>>)
    ensures
        exists|at: Seq<int>|
            #[trigger] names_all(at, rows, 5) && {
                let documents = documents_of(rows, rows.len());
                &&& documents.len() == at.len()
                &&& forall|k: int|
                    0 <= k < at.len() ==> is_document_of(#[trigger] documents[k], rows[at[k]])
            },
{
    let at = lemma_documents(rows, rows.len());
    assert(rows.take(rows.len() as int) =~= rows);
}

proof fn lemma_documents(rows: Seq<Seq<ElementModel>>, n: nat) -> (at: Seq<int>)
    requires
        n <= rows.len(),
    ensures
        names_all(at, rows.take(n as int), 5),
        documents_of(rows, n).len() == at.len(),
        forall|k: int|
            0 <= k < at.len() ==> is_document_of(
                #[trigger] documents_of(rows, n)[k],
                rows[at[k]],
            ),
    decreases n,
{
    if n == 0 {
        Seq::empty()
    } else {
        let before = lemma_documents(rows, (n - 1) as nat);
        let at = lemma_names_next(before, rows.take(n - 1), 5, rows[n - 1]);
        assert(rows.take(n as int) =~= rows.take(n - 1).push(rows[n - 1]));
        let earlier = documents_of(rows, (n - 1) as nat);
        let documents = documents_of(rows, n);
        lemma_document(rows[n - 1]);
        assert forall|k: int| 0 <= k < at.len() implies is_document_of(
            #[trigger] documents[k],
            rows[at[k]],
        ) by {
            if k < before.len() {
                assert(documents[k] == earlier[k]);
                assert(at[k] == before[k]);
            }
        }
        at
    }
}

// ---------------------------------------------------------------------------
// Header
// ---------------------------------------------------------------------------

/// The headings and values of a page, pair by pair, where neither is empty.
pub open spec fn header_pairs(
    heads: Seq<ElementModel>,
    infos: Seq<ElementModel>,
    n: nat,
) -> Seq<(Seq<char>, Seq<char>)>
    decreases n,
{
    if n == 0 {
        Seq::empty()
    } else {
        let earlier = header_pairs(heads, infos, (n - 1) as nat);
        let pair = (element_text_of(heads[n - 1]), element_text_of(infos[n - 1]));
        if pair.0.len() == 0 || pair.1.len() == 0 {
            earlier
        } else {
            earlier.push(pair)
        }
    }
}

proof fn lemma_header(heads: Seq<ElementModel>, infos: Seq<ElementModel>, n: nat)
    requires
        n <= heads.len(),
        n <= infos.len(),
    ensures
        are_last_pairs(header_entries(heads, infos, n), header_pairs(heads, infos, n)),
    decreases n,
{
    if n > 0 {
        let m = (n - 1) as nat;
        lemma_header(heads, infos, m);
        let (head, value) = (element_text_of(heads[n - 1]), element_text_of(infos[n - 1]));
        if head.len() > 0 && value.len() > 0 {
            lemma_set_last(
                header_entries(heads, infos, m),
                header_pairs(heads, infos, m),
                head,
                value,
            );
        }
    }
}

/// Under each heading of a page stands the value beside it; where a heading is repeated, the last
/// value counts.
pub proof fn law_values_stand_under_headings(heads: Seq<ElementModel>, infos: Seq<ElementModel>)
    ensures
        ({
            let n = shorter(heads.len(), infos.len());
            &&& n == heads.len() || n == infos.len()
            &&& n <= heads.len() && n <= infos.len()
            &&& are_last_pairs(header_entries(heads, infos, n), header_pairs(heads, infos, n))
        }),
{
    lemma_header(heads, infos, shorter(heads.len(), infos.len()));
}

/// Whether a word holds an accession number: eighteen digits, whatever stands between them.
pub open spec fn holds_accession(word: Seq<char>) -> bool {
    word.filter(|c: char| is_digit(c)).len() == 18
}

/// Whether a number is the accession number in the first word that holds one.
pub open spec fn is_first_accession(n: Option<nat>, w: Seq<Seq<char>>) -> bool {
    match n {
        Some(n) => exists|i: int|
            0 <= i < w.len() && holds_accession(#[trigger] w[i]) && n == digits_value(
                only_digits(w[i]),
            ) && forall|j: int| 0 <= j < i ==> !holds_accession(#[trigger] w[j]),
        None => forall|j: int| 0 <= j < w.len() ==> !holds_accession(#[trigger] w[j]),
    }
}

proof fn lemma_accession(w: Seq<Seq<char>>, i: int)
    requires
        0 <= i <= w.len(),
        forall|j: int| 0 <= j < i ==> !holds_accession(#[trigger] w[j]),
    ensures
        is_first_accession(accession_in(w, i), w),
    decreases w.len() - i,
{
    if i < w.len() {
        assert(holds_accession(w[i]) <==> only_digits(w[i]).len() == 18);
        if !holds_accession(w[i]) {
            lemma_accession(w, i + 1);
        } else {
            assert(accession_in(w, i) == Some(digits_value(only_digits(w[i]))));
        }
    }
}

/// The accession number of a page is that in the first word that holds one.
pub proof fn law_first_accession_counts(w: Seq<Seq<char>>)
    ensures
        is_first_accession(accession_in(w, 0), w),
{
    lemma_accession(w, 0);
}

/// The type of a filing is its heading without the word before it and white space around it.
pub proof fn law_type_follows_word(header: Seq<char>)
    ensures
        forall|rest: Seq<char>|
            header == #[trigger] ("Form "@ + rest) ==> is_trim_of(header_type(header), rest),
        (forall|rest: Seq<char>| header != #[trigger] ("Form "@ + rest)) ==> is_trim_of(
            header_type(header),
            header,
        ),
{
    let word = "Form "@;
    law_trim(header);
    if word.is_prefix_of(header) {
        let rest = header.skip(word.len() as int);
        assert(header =~= word + rest);
        law_trim(rest);
        assert(strip_prefix(header, word) == Some(rest));
        assert forall|other: Seq<char>| header == #[trigger] (word + other) implies is_trim_of(
            header_type(header),
            other,
        ) by {
            assert(other =~= header.skip(word.len() as int));
        }
    } else {
        assert forall|other: Seq<char>| header != #[trigger] (word + other) by {
            if header == word + other {
                assert(header.subrange(0, word.len() as int) =~= word);
            }
        }
    }
}

/// Whether all of a text is the given character.
pub open spec fn is_all(s: Seq<char>, c: char) -> bool {
    forall|i: int| 0 <= i < s.len() ==> #[trigger] s[i] == c
}

/// Whether `t` is what is left of `s` without the given character at its front.
pub open spec fn is_without_front(t: Seq<char>, s: Seq<char>, c: char) -> bool {
    (t.len() > 0 ==> t[0] != c) && exists|a: Seq<char>| #[trigger] is_all(a, c) && s == a + t
}

/// Whether `t` is what is left of `s` without the given character at its end.
pub open spec fn is_without_end(t: Seq<char>, s: Seq<char>, c: char) -> bool {
    (t.len() > 0 ==> t.last() != c) && exists|b: Seq<char>| #[trigger] is_all(b, c) && s == t + b
}

pub proof fn lemma_without_front(s: Seq<char>, c: char)
    ensures
        is_without_front(drop_leading(s, CharClass::Only(c)), s, c),
    decreases s.len(),
{
    let class = CharClass::Only(c);
    let t = drop_leading(s, class);
    if s.len() > 0 && s[0] == c {
        let rest = s.drop_first();
        lemma_without_front(rest, c);
        assert(t == drop_leading(rest, class));
        let a = choose|a: Seq<char>| #[trigger] is_all(a, c) && rest == a + t;
        let b = seq![c] + a;
        assert(is_all(b, c)) by {
            assert forall|i: int| 0 <= i < b.len() implies #[trigger] b[i] == c by {
                if i > 0 {
                    assert(b[i] == a[i - 1]);
                }
            }
        }
        assert(s =~= seq![c] + rest);
        assert(b + t =~= seq![c] + (a + t));
    } else {
        let a = Seq::<char>::empty();
        assert(is_all(a, c));
        assert(t == s);
        assert(s =~= a + t);
    }
}

pub proof fn lemma_without_end(s: Seq<char>, c: char)
    ensures
        is_without_end(drop_trailing(s, CharClass::Only(c)), s, c),
    decreases s.len(),
{
    let class = CharClass::Only(c);
    let t = drop_trailing(s, class);
    if s.len() > 0 && s.last() == c {
        let rest = s.drop_last();
        lemma_without_end(rest, c);
        assert(t == drop_trailing(rest, class));
        let a = choose|a: Seq<char>| #[trigger] is_all(a, c) && rest == t + a;
        let b = a.push(c);
        assert(is_all(b, c));
        assert(s =~= rest.push(c));
        assert(t + b =~= (t + a).push(c));
    } else {
        let a = Seq::<char>::empty();
        assert(is_all(a, c));
        assert(t == s);
        assert(s =~= t + a);
    }
}

/// Whether a description is the given text without the dash at its front, the colon at its end and
/// white space around it; there is none where nothing is left.
pub open spec fn is_description(description: Option<Seq<char>>, rest: Seq<char>) -> bool {
    exists|t: Seq<char>, d: Seq<char>, u: Seq<char>, c: Seq<char>|
        #![trigger is_trim_of(t, rest), is_without_front(d, t, '-'), is_trim_of(u, d),
            is_without_end(c, u, ':')]
        is_trim_of(t, rest) && is_without_front(d, t, '-') && is_trim_of(u, d) && is_without_end(
            c,
            u,
            ':',
        ) && is_trimmed_value(description, c)
}

/// The description of a form is what stands behind its heading; where its name does not begin with
/// the heading, there is none.
pub proof fn law_description_follows_heading(header: Seq<char>, name: Seq<char>)
    ensures
        forall|rest: Seq<char>|
            name == #[trigger] (header + rest) ==> is_description(
                header_description(name, header),
                rest,
            ),
        !header.is_prefix_of(name) ==> header_description(name, header) is None,
{
    let rest = match strip_prefix(name, header) {
        Some(rest) => rest,
        None => Seq::empty(),
    };
    let t = trim(rest);
    law_trim(rest);
    let d = drop_leading(t, CharClass::Only('-'));
    lemma_without_front(t, '-');
    let u = trim(d);
    law_trim(d);
    let c = drop_trailing(u, CharClass::Only(':'));
    lemma_without_end(u, ':');
    law_trim(c);
    assert(is_trimmed_value(header_description(name, header), c));
    assert(is_description(header_description(name, header), rest));
    assert forall|other: Seq<char>| name == #[trigger] (header + other) implies is_description(
        header_description(name, header),
        other,
    ) by {
        assert(name.subrange(0, header.len() as int) =~= header);
        assert(other =~= name.skip(header.len() as int));
        assert(other =~= rest);
    }
    if !header.is_prefix_of(name) {
        assert(rest.len() == 0);
        assert(t.len() == 0 && d.len() == 0 && u.len() == 0 && c.len() == 0);
    }
}

/// Whether `at` names, in order, the filers whose companies are new.
pub open spec fn names_companies(at: Seq<int>, filers: Seq<FilerModel>, n: int) -> bool {
    &&& forall|i: int, j: int| 0 <= i < j < at.len() ==> #[trigger] at[i] < #[trigger] at[j]
    &&& forall|i: int| #[trigger] at.contains(i) <==> is_new_company(filers, n, i)
}

/// Whether the `i`-th of the first `n` filers has a company that none before it has.
pub open spec fn is_new_company(filers: Seq<FilerModel>, n: int, i: int) -> bool {
    &&& 0 <= i < n
    &&& filers[i].cik is Some
    &&& forall|j: int| 0 <= j < i ==> (#[trigger] filers[j]).cik != filers[i].cik
}

proof fn lemma_companies(filers: Seq<FilerModel>, n: nat) -> (at: Seq<int>)
    requires
        n <= filers.len(),
    ensures
        names_companies(at, filers, n as int),
        filer_ciks(filers, n).len() == at.len(),
        forall|k: int|
            0 <= k < at.len() ==> Some(#[trigger] filer_ciks(filers, n)[k]) == filers[at[k]].cik,
    decreases n,
{
    if n == 0 {
        Seq::empty()
    } else {
        let m = n - 1;
        let before = lemma_companies(filers, m as nat);
        law_filer_ciks(filers, m as nat);
        let old = filer_ciks(filers, m as nat);
        let new = filer_ciks(filers, n);
        let grows = filers[m].cik is Some && !old.contains(filers[m].cik->0);
        let at = if grows {
            before.push(m)
        } else {
            before
        };
        assert(is_new_company(filers, n as int, m) <==> grows) by {
            if filers[m].cik is Some && old.contains(filers[m].cik->0) {
                let k = choose|k: int| 0 <= k < old.len() && old[k] == filers[m].cik->0;
                assert(Some(old[k]) == filers[before[k]].cik);
                assert(before.contains(before[k]));
            }
        }
        assert forall|i: int| #[trigger] at.contains(i) <==> is_new_company(
            filers,
            n as int,
            i,
        ) by {
            assert(before.contains(i) <==> is_new_company(filers, m, i));
            if at.contains(i) {
                let k = choose|k: int| 0 <= k < at.len() && at[k] == i;
                if k < before.len() {
                    assert(before[k] == i);
                }
            }
            if before.contains(i) {
                let k = choose|k: int| 0 <= k < before.len() && before[k] == i;
                assert(at[k] == i);
            }
            if grows {
                assert(at[before.len() as int] == m);
            }
        }
        assert forall|i: int, j: int| 0 <= i < j < at.len() implies #[trigger] at[i]
            < #[trigger] at[j] by {
            assert(at[i] == before[i]);
            assert(before.contains(before[i]));
            if j < before.len() {
                assert(at[j] == before[j]);
            }
        }
        assert forall|k: int| 0 <= k < at.len() implies Some(#[trigger] new[k])
            == filers[at[k]].cik by {
            if k < before.len() {
                assert(new[k] == old[k]);
                assert(Some(old[k]) == filers[before[k]].cik);
            }
        }
        at
    }
}

/// The companies of a page are those of its filers, each once, in the order of their first mention.
pub proof fn law_companies_come_in_order(filers: Seq<FilerModel>)
    ensures
        exists|at: Seq<int>|
            #[trigger] names_companies(at, filers, filers.len() as int) && filer_ciks(
                filers,
                filers.len(),
            ).len() == at.len() && forall|k: int|
                0 <= k < at.len() ==> Some(#[trigger] filer_ciks(filers, filers.len())[k])
                    == filers[at[k]].cik,
{
    let at = lemma_companies(filers, filers.len());
}

/// Whether a value stands under a heading; there is none where the heading is missing.
pub open spec fn is_value_under(
    v: Option<Seq<char>>,
    metadata: Seq<(Seq<char>, Seq<char>)>,
    heading: Seq<char>,
) -> bool {
    match v {
        Some(t) => metadata.contains((heading, t)),
        None => forall|t: Seq<char>| !#[trigger] metadata.contains((heading, t)),
    }
}

proof fn lemma_value_under(metadata: Seq<(Seq<char>, Seq<char>)>, heading: Seq<char>)
    ensures
        is_value_under(entry_value(metadata, heading), metadata, heading),
{
    lemma_entry_index(metadata, heading);
    let at = entry_index(metadata, heading) as int;
    if at < metadata.len() {
        assert(metadata[at] == (heading, metadata[at].1));
    } else {
        assert forall|t: Seq<char>| !#[trigger] metadata.contains((heading, t)) by {
            if metadata.contains((heading, t)) {
                let i = choose|i: int| 0 <= i < metadata.len() && metadata[i] == (heading, t);
                assert(metadata[i].0 != heading);
            }
        }
    }
}

/// Whether a count is the number that a text writes.
pub open spec fn is_count_in(count: Option<u32>, text: Option<Seq<char>>) -> bool {
    match (count, text) {
        (Some(n), Some(t)) => writes_number(t, n as nat),
        (Some(_), None) => false,
        (None, Some(t)) => forall|n: nat| n <= u32::MAX ==> !#[trigger] writes_number(t, n),
        (None, None) => true,
    }
}

/// The dates of a page are those under their headings.
pub proof fn law_dates_stand_under_headings(metadata: Seq<(Seq<char>, Seq<char>)>)
    ensures
        exists|v: Option<Seq<char>>|
            #[trigger] is_value_under(v, metadata, "Filing Date"@) && filing_date_in(metadata) == (
            match v {
                Some(t) => read_date(t, "%Y-%m-%d"@),
                None => None,
            }),
        exists|v: Option<Seq<char>>|
            #[trigger] is_value_under(v, metadata, "Accepted"@) && accepted_in(metadata) == (
            match v {
                Some(t) => read_time(t, "%Y-%m-%d %H:%M:%S"@),
                None => None,
            }),
{
    lemma_value_under(metadata, "Filing Date"@);
    lemma_value_under(metadata, "Accepted"@);
}

/// A page says what stands on it: the first accession number, the type and the description of its
/// form, and how many documents there are.
pub proof fn law_page_says_what_stands_on_it(
    page: IndexPage,
    p: PartsModel,
    metadata: Seq<(Seq<char>, Seq<char>)>,
    filing_date: Option<CalendarDate>,
    accepted_at: Option<CalendarTime>,
)
    requires
        page.says(p, metadata, filing_date, accepted_at),
    ensures
        is_first_accession(Some(page.accession as nat), words(element_text_of(p.sec_nums[0]))),
        page.submission_type@ == header_type(element_text_of(p.form_headers[0][0])),
        opt_text(page.form_description) == header_description(
            element_text_of(p.form_names[0]),
            element_text_of(p.form_headers[0][0]),
        ),
        page.filing_date == filing_date,
        page.accepted_at == accepted_at,
        exists|v: Option<Seq<char>>|
            #[trigger] is_value_under(v, metadata, "Documents"@) && is_count_in(
                page.document_count,
                v,
            ),
        filer_models(page.filers@) == filers_of(
            p.companies,
            p.mailers,
            p.idents,
            p.companies.len(),
        ),
{
    law_first_accession_counts(words(element_text_of(p.sec_nums[0])));
    lemma_value_under(metadata, "Documents"@);
    if let Some(t) = entry_value(metadata, "Documents"@) {
        lemma_parse_unsigned(t, u32::MAX as nat);
    }
    let v = entry_value(metadata, "Documents"@);
    assert(is_value_under(v, metadata, "Documents"@) && is_count_in(page.document_count, v));
}

/// A page is refused if and only if the name of its form, the heading in it, the type in that, the
/// element with the number of the filing, or the number in that is missing; the first of these that
/// is missing is named.
pub proof fn law_pages_are_refused(p: PartsModel)
    ensures
        ({
            let named = p.form_names.len() > 0;
            let headed = p.form_headers[0].len() > 0;
            let typed = header_type(element_text_of(p.form_headers[0][0])).len() > 0;
            let numbered = p.sec_nums.len() > 0;
            let w = words(element_text_of(p.sec_nums[0]));
            let found = exists|i: int| 0 <= i < w.len() && holds_accession(#[trigger] w[i]);
            match page_error(p) {
                None => named && headed && typed && numbered && found,
                Some(IndexPageError::MissingFormName) => !named,
                Some(IndexPageError::MissingFormHeader) => named && !headed,
                Some(IndexPageError::EmptySubmissionType) => named && headed && !typed,
                Some(IndexPageError::MissingSecNum) => named && headed && typed && !numbered,
                Some(IndexPageError::InvalidAccession) => named && headed && typed && numbered
                    && !found,
                _ => false,
            }
        }),
{
    law_first_accession_counts(words(element_text_of(p.sec_nums[0])));
}

} // verus!
