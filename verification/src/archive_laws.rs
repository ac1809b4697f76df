//! What an archive says, told by reading it, and what it takes from the header of a filing.
use vstd::prelude::*;
use vstd::utf8::{decode_utf8, encode_utf8, is_ascii_chars, is_ascii_chars_encode_utf8, valid_utf8};

use crate::encoding::utf8_lossy;
use crate::filenames::{fitted, safe_char, sanitized};
use crate::filing_archive::{
    event_cik, first_oversized, has_key, header_ciks, header_value, hyphenated_date,
    looks_like_xbrl, sequence_of,
};
use crate::numeral::{decimal, numeral, zero_padded};
use crate::page_laws::{
    is_without_end, is_without_front, lemma_parse_unsigned, lemma_without_end, lemma_without_front,
    writes_number,
};
use crate::sgml::{SubmissionEvent, SubmissionEventType};
use crate::tar::{
    ascii, byte_sum, checksum_field, header, header_back, header_front, lemma_entry_len,
    lemma_header_front_len, lemma_header_len, lemma_octal_len, octal_field, spaces, tar_entry,
    MAX_ENTRY_LEN,
};
use crate::text::{
    drop_leading, is_digit, last_of, lemma_last_of, lower, only_digits, trim, trimmed, upper,
    CharClass,
};
use crate::text_laws::{is_trim_of, is_trimmed_value, law_trim, law_trim_is_one};

verus! {

// ---------------------------------------------------------------------------
// Headers of filings
// ---------------------------------------------------------------------------

/// Whether a value is that of the first event with a key, without white space around it; it is
/// missing where that is blank or no event has the key.
pub open spec fn is_first_value(
    v: Option<Seq<char>>,
    events: Seq<SubmissionEvent>,
    key: Seq<char>,
) -> bool {
    ||| v is None && forall|i: int| 0 <= i < events.len() ==> !has_key(#[trigger] events[i], key)
    ||| exists|i: int|
        0 <= i < events.len() && has_key(#[trigger] events[i], key) && is_trimmed_value(
            v,
            utf8_lossy(events[i].value@),
        ) && forall|j: int| 0 <= j < i ==> !has_key(#[trigger] events[j], key)
}

/// The first event with a key decides on its value.
pub proof fn law_first_event_counts(events: Seq<SubmissionEvent>, key: Seq<char>)
    ensures
        is_first_value(header_value(events, key), events, key),
    decreases events.len(),
{
    if events.len() > 0 {
        law_trim(utf8_lossy(events[0].value@));
        if has_key(events[0], key) {
            assert(is_trimmed_value(header_value(events, key), utf8_lossy(events[0].value@)));
        } else {
            let rest = events.drop_first();
            law_first_event_counts(rest, key);
            let v = header_value(rest, key);
            if exists|i: int|
                0 <= i < rest.len() && has_key(#[trigger] rest[i], key) && is_trimmed_value(
                    v,
                    utf8_lossy(rest[i].value@),
                ) && forall|j: int| 0 <= j < i ==> !has_key(#[trigger] rest[j], key) {
                let i = choose|i: int|
                    0 <= i < rest.len() && has_key(#[trigger] rest[i], key) && is_trimmed_value(
                        v,
                        utf8_lossy(rest[i].value@),
                    ) && forall|j: int| 0 <= j < i ==> !has_key(#[trigger] rest[j], key);
                assert(events[i + 1] == rest[i]);
                assert forall|j: int| 0 <= j < i + 1 implies !has_key(
                    #[trigger] events[j],
                    key,
                ) by {
                    if j > 0 {
                        assert(rest[j - 1] == events[j]);
                    }
                }
            } else {
                assert forall|i: int| 0 <= i < events.len() implies !has_key(
                    #[trigger] events[i],
                    key,
                ) by {
                    if i > 0 {
                        assert(rest[i - 1] == events[i]);
                    }
                }
            }
        }
    }
}

/// Whether an event gives the number of a company: its key is `cik`, whatever the case of its
/// letters, and its value writes the number.
pub open spec fn gives_company(event: SubmissionEvent, n: u64) -> bool {
    &&& event.event_type == SubmissionEventType::KeyValue
    &&& event.key@.len() == 3
    &&& event.key@[0] == 'c' as u8 || event.key@[0] == 'C' as u8
    &&& event.key@[1] == 'i' as u8 || event.key@[1] == 'I' as u8
    &&& event.key@[2] == 'k' as u8 || event.key@[2] == 'K' as u8
    &&& exists|t: Seq<char>|
        #[trigger] is_trim_of(t, utf8_lossy(event.value@)) && writes_number(t, n as nat)
}

proof fn lemma_company(event: SubmissionEvent)
    ensures
        match event_cik(event) {
            Some(n) => n <= u64::MAX && gives_company(event, n as u64) && forall|m: u64| #[trigger]
                gives_company(event, m) ==> m == n,
            None => forall|m: u64| !#[trigger] gives_company(event, m),
        },
{
    let text = utf8_lossy(event.value@);
    law_trim(text);
    lemma_parse_unsigned(trim(text), u64::MAX as nat);
    assert forall|m: u64| #[trigger] gives_company(event, m) implies event_cik(event) == Some(
        m as nat,
    ) by {
        let t = choose|t: Seq<char>|
            #[trigger] is_trim_of(t, text) && writes_number(t, m as nat);
        law_trim_is_one(text, t);
        assert(writes_number(trim(text), m as nat));
    }
    if let Some(n) = event_cik(event) {
        assert(is_trim_of(trim(text), text));
    }
}

/// Whether an event is the first to give the number of a company.
pub open spec fn is_first_giving(events: Seq<SubmissionEvent>, i: int, n: u64) -> bool {
    &&& 0 <= i < events.len()
    &&& gives_company(events[i], n)
    &&& forall|j: int| 0 <= j < i ==> !gives_company(#[trigger] events[j], n)
}

/// Whether the companies are those that the events give, each once, in the order of the events that
/// give them first.
pub open spec fn are_companies(list: Seq<u64>, at: Seq<int>, events: Seq<SubmissionEvent>) -> bool {
    &&& list.len() == at.len()
    &&& forall|p: int, q: int| 0 <= p < q < at.len() ==> #[trigger] at[p] < #[trigger] at[q]
    &&& forall|p: int|
        0 <= p < at.len() ==> is_first_giving(events, #[trigger] at[p], list[p])
    &&& forall|i: int, n: u64|
        0 <= i < events.len() && #[trigger] gives_company(events[i], n) ==> list.contains(n)
}

proof fn lemma_companies(events: Seq<SubmissionEvent>) -> (at: Seq<int>)
    ensures
        are_companies(header_ciks(events), at, events),
    decreases events.len(),
{
    if events.len() == 0 {
        Seq::empty()
    } else {
        let part = events.drop_last();
        let before = lemma_companies(part);
        let old = header_ciks(part);
        let new = header_ciks(events);
        let m = events.len() - 1;
        lemma_company(events[m]);
        assert(events.last() == events[m]);
        let grows = event_cik(events[m]) is Some && !old.contains(event_cik(events[m])->0 as u64);
        let at = if grows {
            before.push(m)
        } else {
            before
        };
        assert forall|p: int| 0 <= p < at.len() implies is_first_giving(
            events,
            #[trigger] at[p],
            new[p],
        ) by {
            if p < before.len() {
                assert(at[p] == before[p] && new[p] == old[p]);
                assert(is_first_giving(part, before[p], old[p]));
                assert(part[at[p]] == events[at[p]]);
                assert forall|j: int| 0 <= j < at[p] implies !gives_company(
                    #[trigger] events[j],
                    new[p],
                ) by {
                    assert(part[j] == events[j]);
                }
            } else {
                let n = event_cik(events[m])->0 as u64;
                assert forall|j: int| 0 <= j < m implies !gives_company(
                    #[trigger] events[j],
                    n,
                ) by {
                    assert(part[j] == events[j]);
                }
            }
        }
        assert forall|i: int, n: u64| 0 <= i < events.len() && #[trigger] gives_company(
            events[i],
            n,
        ) implies new.contains(n) by {
            if i < m {
                assert(part[i] == events[i]);
                assert(gives_company(part[i], n));
                let k = choose|k: int| 0 <= k < old.len() && old[k] == n;
                assert(new[k] == n);
            } else if grows {
                assert(new[old.len() as int] == n);
            }
        }
        assert forall|p: int, q: int| 0 <= p < q < at.len() implies #[trigger] at[p]
            < #[trigger] at[q] by {
            assert(at[p] == before[p]);
            assert(is_first_giving(part, before[p], old[p]));
            if q < before.len() {
                assert(at[q] == before[q]);
            }
        }
        at
    }
}

/// The companies of a filing are all those that its header gives, each once, in the order of their
/// first mention.
pub proof fn law_companies_are_given(events: Seq<SubmissionEvent>)
    ensures
        exists|at: Seq<int>| #[trigger] are_companies(header_ciks(events), at, events),
{
    let at = lemma_companies(events);
}

/// A text with eight digits becomes a date with the same digits, in groups of four, two and two;
/// any other stays where it takes ten bytes, and is no date elsewhere.
pub proof fn law_dates_keep_digits(raw: Seq<char>)
    ensures
        ({
            let digits = raw.filter(|c: char| is_digit(c));
            if digits.len() == 8 {
                hyphenated_date(raw) matches Some(date) && {
                    &&& date.len() == 10
                    &&& date[4] == '-' && date[7] == '-'
                    &&& forall|i: int| 0 <= i < 4 ==> #[trigger] date[i] == digits[i]
                    &&& forall|i: int| 5 <= i < 7 ==> #[trigger] date[i] == digits[i - 1]
                    &&& forall|i: int| 8 <= i < 10 ==> #[trigger] date[i] == digits[i - 2]
                }
            } else if encode_utf8(raw).len() == 10 {
                hyphenated_date(raw) == Some(raw)
            } else {
                hyphenated_date(raw) is None
            }
        }),
{
    assert(only_digits(raw) == raw.filter(|c: char| is_digit(c)));
}

// ---------------------------------------------------------------------------
// Names
// ---------------------------------------------------------------------------

/// Whether a byte is a character that a name may hold.
pub open spec fn is_allowed(b: u8) -> bool {
    0x20 <= b <= 0x7e && b != '\\' as u8 && b != '/' as u8 && b != ':' as u8 && b != '*' as u8 && b
        != '?' as u8 && b != '"' as u8 && b != '<' as u8 && b != '>' as u8 && b != '|' as u8
}

/// Whether a text has the allowed bytes of a name as they are, and underscores for the others.
pub open spec fn is_masked(s: Seq<char>, name: Seq<u8>) -> bool {
    &&& s.len() == name.len()
    &&& forall|i: int|
        0 <= i < s.len() ==> #[trigger] s[i] == (if is_allowed(name[i]) {
            name[i] as char
        } else {
            '_'
        })
}

/// Whether `r` is what is left of `s` without white space around it and dots around what is then
/// left.
pub open spec fn is_stripped(r: Seq<char>, s: Seq<char>) -> bool {
    exists|t: Seq<char>, u: Seq<char>|
        #![trigger is_trim_of(t, s), is_without_front(u, t, '.')]
        is_trim_of(t, s) && is_without_front(u, t, '.') && is_without_end(r, u, '.')
}

/// The name of a document keeps what a name may hold, in order; where nothing is left, it is made
/// of the document's number.
pub proof fn law_names_keep_characters(name: Seq<u8>, index: nat)
    ensures
        exists|s: Seq<char>, r: Seq<char>|
            #![trigger is_masked(s, name), is_stripped(r, s)]
            is_masked(s, name) && is_stripped(r, s) && sanitized(name, index) == (if r.len() > 0 {
                r
            } else {
                decimal(index) + ".txt"@
            }),
{
    let s = name.map_values(|b: u8| safe_char(b));
    assert(is_masked(s, name));
    let t = trim(s);
    law_trim(s);
    let u = drop_leading(t, CharClass::Only('.'));
    lemma_without_front(t, '.');
    lemma_without_end(u, '.');
    let r = trimmed(t, CharClass::Only('.'));
    assert(is_without_end(r, u, '.'));
    assert(is_stripped(r, s));
}

/// Whether the part of a name from its last dot on is short enough to be kept behind a suffix.
pub open spec fn has_extension(filename: Seq<char>, stem: Seq<char>, ext: Seq<char>) -> bool {
    &&& filename == stem + ext
    &&& stem.len() > 0
    &&& ext.len() > 0
    &&& ext[0] == '.'
    &&& forall|i: int| 1 <= i < ext.len() ==> #[trigger] ext[i] != '.'
}

/// A name that fits with its suffix is not cut: the suffix stands before the extension.
pub proof fn law_short_names_are_kept(
    stem: Seq<char>,
    ext: Seq<char>,
    suffix: Seq<char>,
)
    requires
        has_extension(stem + ext, stem, ext),
        is_ascii_chars(stem),
        is_ascii_chars(ext),
        is_ascii_chars(suffix),
        ext.len() <= 20,
        stem.len() + suffix.len() + ext.len() <= 100,
    ensures
        fitted(stem + ext, suffix) == stem + suffix + ext,
{
    let filename = stem + ext;
    lemma_last_of(filename, '.');
    let dot = last_of(filename, '.');
    assert(filename[stem.len() as int] == '.');
    if dot > stem.len() {
        assert(filename[dot] == ext[dot - stem.len()]);
    }
    assert(dot == stem.len());
    assert(filename.take(dot) =~= stem);
    assert(filename.skip(dot) =~= ext);
    is_ascii_chars_encode_utf8(ext);
    is_ascii_chars_encode_utf8(suffix);
    if suffix.len() == 0 {
        assert(stem + suffix + ext =~= stem + ext);
    }
}

/// A name that is too long is cut in the middle: its front, the suffix and its extension stay.
pub proof fn law_long_names_keep_extensions(
    stem: Seq<char>,
    ext: Seq<char>,
    suffix: Seq<char>,
)
    requires
        has_extension(stem + ext, stem, ext),
        is_ascii_chars(ext),
        is_ascii_chars(suffix),
        ext.len() <= 20,
        suffix.len() < 80,
        stem.len() + suffix.len() + ext.len() > 100,
    ensures
        fitted(stem + ext, suffix) == stem.take(100 - suffix.len() - ext.len()) + suffix + ext,
        fitted(stem + ext, suffix).len() == 100,
{
    let filename = stem + ext;
    lemma_last_of(filename, '.');
    let dot = last_of(filename, '.');
    assert(filename[stem.len() as int] == '.');
    if dot > stem.len() {
        assert(filename[dot] == ext[dot - stem.len()]);
    }
    assert(dot == stem.len());
    assert(filename.take(dot) =~= stem);
    assert(filename.skip(dot) =~= ext);
    is_ascii_chars_encode_utf8(ext);
    is_ascii_chars_encode_utf8(suffix);
    if suffix.len() == 0 {
        let cut = stem.take(100 - ext.len());
        assert(cut + suffix + ext =~= cut + ext);
    }
}

// ---------------------------------------------------------------------------
// Headers of entries
// ---------------------------------------------------------------------------

/// The number that octal digits write.
pub open spec fn octal_value(s: Seq<u8>) -> nat
    decreases s.len(),
{
    if s.len() == 0 {
        0
    } else {
        octal_value(s.drop_last()) * 8 + (s.last() - 48) as nat
    }
}

proof fn lemma_octal_numeral(n: nat)
    ensures
        octal_value(ascii(numeral(n, 8))) == n,
        forall|i: int|
            0 <= i < numeral(n, 8).len() ==> 48 <= #[trigger] ascii(numeral(n, 8))[i] <= 55,
    decreases n,
{
    let s = ascii(numeral(n, 8));
    if n < 8 {
        assert(s =~= seq![(48 + n) as u8]);
        assert(s.drop_last() =~= Seq::empty());
        reveal_with_fuel(octal_value, 2);
    } else {
        lemma_octal_numeral(n / 8);
        let front = ascii(numeral(n / 8, 8));
        assert(s.drop_last() =~= front);
        assert(s.last() == (48 + n % 8) as u8);
        assert forall|i: int| 0 <= i < s.len() implies 48 <= #[trigger] s[i] <= 55 by {
            if i < front.len() {
                assert(s[i] == front[i]);
            }
        }
    }
}

proof fn lemma_octal_zeros(k: nat, s: Seq<u8>)
    ensures
        octal_value(Seq::new(k, |i: int| 48u8) + s) == octal_value(s),
    decreases s.len() + k,
{
    let z = Seq::new(k, |i: int| 48u8);
    if s.len() > 0 {
        lemma_octal_zeros(k, s.drop_last());
        assert((z + s).drop_last() =~= z + s.drop_last());
    } else if k > 0 {
        let y = Seq::new((k - 1) as nat, |i: int| 48u8);
        lemma_octal_zeros((k - 1) as nat, s);
        assert((z + s).drop_last() =~= y + s);
    } else {
        assert(z + s =~= s);
    }
}

proof fn lemma_octal_padded(n: nat, width: nat)
    requires
        numeral(n, 8).len() <= width,
    ensures
        ascii(zero_padded(numeral(n, 8), width)).len() == width,
        octal_value(ascii(zero_padded(numeral(n, 8), width))) == n,
{
    let s = numeral(n, 8);
    lemma_octal_numeral(n);
    let k = (width - s.len()) as nat;
    lemma_octal_zeros(k, ascii(s));
    assert(ascii(zero_padded(s, width)) =~= Seq::new(k, |i: int| 48u8) + ascii(s));
}

/// Whether a field of a header writes a number in octal digits, with a zero byte behind them.
pub open spec fn writes_octal(field: Seq<u8>, n: nat) -> bool {
    field.len() > 0 && field.last() == 0 && octal_value(field.drop_last()) == n
}

proof fn lemma_octal_field(n: nat, width: nat)
    requires
        1 <= width,
        numeral(n, 8).len() <= width - 1,
    ensures
        octal_field(n, width).len() == width,
        writes_octal(octal_field(n, width), n),
{
    let w = (width - 1) as nat;
    lemma_octal_padded(n, w);
    let digits = zero_padded(numeral(n, 8), w);
    assert(digits.len() == w) by {
        assert(ascii(digits).len() == digits.len());
    }
    assert(digits.take(width - 1) =~= digits);
    assert(octal_field(n, width).drop_last() =~= ascii(digits));
}

/// The header of an entry names its file at its front, says how long the content is, and holds the
/// sum of its bytes, taken with blanks in the place of the sum.
pub proof fn law_header_reads_back(path: Seq<u8>, len: nat)
    requires
        path.len() <= 100,
        len <= MAX_ENTRY_LEN,
    ensures
        ({
            let h = header(path, len);
            &&& h.len() == 512
            &&& h.subrange(0, path.len() as int) == path
            &&& forall|i: int| path.len() <= i < 100 ==> #[trigger] h[i] == 0
            &&& writes_octal(h.subrange(124, 136), len)
            &&& writes_octal(
                h.subrange(148, 155),
                byte_sum(h.subrange(0, 148) + Seq::new(8, |i: int| 32u8) + h.subrange(156, 512)),
            )
            &&& h[155] == 32
            &&& h[156] == 48
            &&& h.subrange(257, 263) == seq![117u8, 115u8, 116u8, 97u8, 114u8, 0u8]
        }),
{
    reveal(header);
    lemma_header_len(path, len);
    lemma_header_front_len(path, len);
    lemma_octal_len(420, 7);
    lemma_octal_len(0, 7);
    lemma_octal_len(0, 11);
    lemma_octal_len(len, 11);
    let front = header_front(path, len);
    let back = header_back();
    let sum = byte_sum(front + spaces(8) + back);
    lemma_octal_len(sum, 6);
    let h = header(path, len);
    let field = checksum_field(sum);
    assert(h.subrange(0, 148) =~= front);
    assert(h.subrange(156, 512) =~= back);
    assert(spaces(8) =~= Seq::new(8, |i: int| 32u8));
    lemma_octal_field(len, 12);
    lemma_octal_field(420, 8);
    lemma_octal_field(0, 8);
    lemma_octal_field(0, 12);
    let (a, b, c) = (octal_field(420, 8), octal_field(0, 8), octal_field(len, 12));
    assert(front.subrange(124, 136) =~= c);
    assert(h.subrange(124, 136) =~= front.subrange(124, 136));
    assert(h.subrange(0, path.len() as int) =~= path);
    lemma_octal_padded(sum, 6);
    let digits = zero_padded(numeral(sum, 8), 6);
    assert(digits.len() == 6) by {
        assert(ascii(digits).len() == digits.len());
    }
    assert(digits.take(6) =~= digits);
    assert(h.subrange(148, 155) =~= ascii(digits).push(0u8));
    assert(h.subrange(148, 155).drop_last() =~= ascii(digits));
    assert(h.subrange(257, 263) =~= seq![117u8, 115u8, 116u8, 97u8, 114u8, 0u8]);
}

/// A sequence field that writes a number gives it; any other gives the place of the document.
pub proof fn law_sequence_is_read(bytes: Seq<u8>, index: nat)
    ensures
        forall|n: nat|
            n <= 65535 && valid_utf8(bytes) && #[trigger] writes_number(trim(decode_utf8(bytes)), n)
                ==> sequence_of(bytes, index) == n,
        (!valid_utf8(bytes) || forall|n: nat|
            n <= 65535 ==> !#[trigger] writes_number(trim(decode_utf8(bytes)), n)) ==> sequence_of(
            bytes,
            index,
        ) == (index + 1) % 65536,
{
    lemma_parse_unsigned(trim(decode_utf8(bytes)), u16::MAX as nat);
}

proof fn lemma_case_of_end(f: Seq<char>, end: Seq<char>, small: Seq<char>)
    requires
        lower(end) == small,
    ensures
        small.is_suffix_of(lower(f + end)),
{
    let all = lower(f + end);
    assert(all.subrange(all.len() - small.len(), all.len() as int) =~= small);
}

/// A document holds XBRL whatever its type, where its name ends like that of such a file, in
/// letters of whatever case.
pub proof fn law_names_tell_xbrl(document_type: Seq<char>, f: Seq<char>, end: Seq<char>)
    requires
        lower(end) == ".xbrl"@ || lower(end) == ".xml"@ || lower(end) == ".xsd"@ || lower(end)
            == ".cal"@ || lower(end) == ".def"@ || lower(end) == ".lab"@ || lower(end) == ".pre"@,
    ensures
        looks_like_xbrl(document_type, f + end),
{
    lemma_case_of_end(f, end, lower(end));
}

/// A document holds XBRL whatever its name, where its type begins like that of such exhibits or is
/// XML, in letters of whatever case.
pub proof fn law_types_tell_xbrl(front: Seq<char>, rest: Seq<char>, filename: Seq<char>)
    ensures
        upper(front) == "EX-101"@ ==> looks_like_xbrl(front + rest, filename),
        upper(front) == "XML"@ ==> looks_like_xbrl(front, filename),
{
    let t = upper(front + rest);
    assert(t.subrange(0, front.len() as int) =~= upper(front));
}

/// Whether the name is that of the first of the given contents that is too large.
pub open spec fn is_first_oversized(
    name: Option<Seq<char>>,
    names: Seq<Seq<char>>,
    contents: Seq<Seq<u8>>,
) -> bool {
    match name {
        Some(n) => exists|i: int|
            0 <= i < contents.len() && (#[trigger] contents[i]).len() > MAX_ENTRY_LEN && names[i]
                == n && forall|j: int|
                0 <= j < i ==> (#[trigger] contents[j]).len() <= MAX_ENTRY_LEN,
        None => forall|j: int|
            0 <= j < contents.len() ==> (#[trigger] contents[j]).len() <= MAX_ENTRY_LEN,
    }
}

proof fn lemma_oversized(names: Seq<Seq<char>>, contents: Seq<Seq<u8>>, i: int)
    requires
        0 <= i <= contents.len(),
        forall|j: int| 0 <= j < i ==> (#[trigger] contents[j]).len() <= MAX_ENTRY_LEN,
    ensures
        is_first_oversized(first_oversized(names, contents, i), names, contents),
    decreases contents.len() - i,
{
    if i < contents.len() {
        if contents[i].len() > MAX_ENTRY_LEN {
            assert(first_oversized(names, contents, i) == Some(names[i]));
        } else {
            lemma_oversized(names, contents, i + 1);
        }
    }
}

/// An archive is refused for the first content that is too large, and for no other.
pub proof fn law_first_oversized_is_named(names: Seq<Seq<char>>, contents: Seq<Seq<u8>>)
    ensures
        is_first_oversized(first_oversized(names, contents, 0), names, contents),
{
    lemma_oversized(names, contents, 0);
}

/// An entry holds its content as it is behind its header, and nothing but zeros behind that.
pub proof fn law_entry_holds_content(path: Seq<u8>, content: Seq<u8>)
    requires
        path.len() <= 100,
        content.len() <= MAX_ENTRY_LEN,
    ensures
        ({
            let e = tar_entry(path, content);
            let n = content.len() as int;
            &&& e.len() % 512 == 0
            &&& 512 + n <= e.len() < 512 + n + 512
            &&& e.subrange(0, 512) == header(path, content.len())
            &&& e.subrange(512, 512 + n) == content
            &&& forall|i: int| 512 + n <= i < e.len() ==> #[trigger] e[i] == 0
        }),
{
    lemma_header_len(path, content.len());
    lemma_entry_len(path, content);
    let e = tar_entry(path, content);
    assert(e.subrange(0, 512) =~= header(path, content.len()));
    assert(e.subrange(512, 512 + content.len() as int) =~= content);
}

} // verus!
