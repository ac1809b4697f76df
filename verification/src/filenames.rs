//! The names of the entries of an archive.
use vstd::arithmetic::power::pow;
use vstd::hash_set::StringHashSet;
use vstd::prelude::*;
use vstd::seq_lib::group_seq_properties;
use vstd::set_lib::lemma_len_subset;
use vstd::slice::slice_subrange;
use vstd::utf8::{encode_utf8, is_ascii_chars, is_ascii_chars_encode_utf8};

use crate::numeral::{
    all_digits, decimal, law_decimal_reads_back, lemma_numeral_len, numeral_of,
};
use crate::text::{
    chars_of, drop_leading, drop_trailing, last_of, lemma_last_of, past_last, push_chars, string_of,
    trim, trim_class, trim_space, trimmed, CharClass,
};

verus! {

// ---------------------------------------------------------------------------
// Model
// ---------------------------------------------------------------------------

/// The character that a byte of a name becomes: itself if it is printable and allowed in a file
/// name, an underscore otherwise.
pub open spec fn safe_char(b: u8) -> char {
    if b == 92 || b == 47 || b == 58 || b == 42 || b == 63 || b == 34 || b == 60 || b == 62 || b
        == 124 {
        '_'
    } else if 0x20 <= b <= 0x7e {
        b as char
    } else {
        '_'
    }
}

/// A name without characters that do not belong in a file name, without spaces and dots around
/// it; where nothing is left, one made of the given number.
pub open spec fn sanitized(name: Seq<u8>, index: nat) -> Seq<char> {
    let s = trimmed(trim(name.map_values(|b: u8| safe_char(b))), CharClass::Only('.'));
    if s.len() == 0 {
        decimal(index) + ".txt"@
    } else {
        s
    }
}

/// How many bytes a text takes.
pub open spec fn byte_len(s: Seq<char>) -> nat {
    encode_utf8(s).len()
}

/// The first `n` characters of a text, or all of them.
pub open spec fn at_most(s: Seq<char>, n: int) -> Seq<char> {
    if n <= 0 {
        Seq::empty()
    } else if s.len() <= n {
        s
    } else {
        s.take(n)
    }
}

/// The name with the suffix before its extension, cut in the middle to what a header holds.
pub open spec fn fitted(filename: Seq<char>, suffix: Seq<char>) -> Seq<char> {
    let dot = last_of(filename, '.');
    let stem = filename.take(dot);
    let ext = filename.skip(dot);
    if suffix.len() == 0 {
        if dot > 0 && byte_len(ext) < 100 {
            at_most(stem, 100 - byte_len(ext)) + ext
        } else {
            at_most(filename, 100)
        }
    } else if dot > 0 && byte_len(ext) <= 20 && byte_len(suffix) + byte_len(ext) < 100 {
        at_most(stem, 100 - byte_len(suffix) - byte_len(ext)) + suffix + ext
    } else {
        at_most(filename, 100 - byte_len(suffix)) + suffix
    }
}

/// The `count`-th name to try.
pub open spec fn candidate(filename: Seq<char>, count: nat) -> Seq<char> {
    if count == 1 {
        fitted(filename, Seq::empty())
    } else {
        fitted(filename, seq!['-'] + decimal(count))
    }
}

/// Whether `count` is the first whose name is not taken.
pub open spec fn first_free(filename: Seq<char>, seen: Set<Seq<char>>, count: nat) -> bool {
    &&& count >= 1
    &&& !seen.contains(candidate(filename, count))
    &&& forall|j: nat| 1 <= j < count ==> seen.contains(#[trigger] candidate(filename, j))
}

/// The first candidate that is not taken.
pub open spec fn unique_name(filename: Seq<char>, seen: Set<Seq<char>>) -> Seq<char> {
    candidate(filename, choose|n: nat| first_free(filename, seen, n))
}

/// The names of the archive's entries behind the metadata: for each document its name made safe,
/// marked as compressed, and changed where an earlier entry has it.
pub open spec fn tar_names(filenames: Seq<Seq<u8>>) -> Seq<Seq<char>>
    decreases filenames.len(),
{
    if filenames.len() == 0 {
        Seq::empty()
    } else {
        let earlier = tar_names(filenames.drop_last());
        earlier.push(
            unique_name(
                sanitized(filenames.last(), filenames.len()) + ".zst"@,
                earlier.to_set().insert("metadata.json"@),
            ),
        )
    }
}

// ---------------------------------------------------------------------------
// Facts
// ---------------------------------------------------------------------------

proof fn lemma_unique_name(filename: Seq<char>, seen: Set<Seq<char>>, count: nat)
    requires
        first_free(filename, seen, count),
    ensures
        unique_name(filename, seen) == candidate(filename, count),
{
    let n = choose|n: nat| first_free(filename, seen, n);
    assert(first_free(filename, seen, n));
    if n < count {
        assert(seen.contains(candidate(filename, n)));
    }
    if count < n {
        assert(seen.contains(candidate(filename, count)));
    }
}

/// Digits behind the last hyphen can be read off.
proof fn lemma_digits_end(x: Seq<char>, d: Seq<char>, y: Seq<char>, e: Seq<char>)
    requires
        all_digits(d),
        all_digits(e),
        x + (seq!['-'] + d) == y + (seq!['-'] + e),
    ensures
        d == e,
{
    let s = x + (seq!['-'] + d);
    let t = y + (seq!['-'] + e);
    assert(s.len() == t.len());
    if d.len() < e.len() {
        let p = s.len() - d.len() - 1;
        assert(s[p] == '-');
        assert(t[p] == e[p - y.len() - 1]);
        assert(false);
    }
    if e.len() < d.len() {
        let p = t.len() - e.len() - 1;
        assert(t[p] == '-');
        assert(s[p] == d[p - x.len() - 1]);
        assert(false);
    }
    assert forall|i: int| 0 <= i < d.len() implies d[i] == e[i] by {
        assert(s[x.len() + 1 + i] == d[i]);
        assert(t[y.len() + 1 + i] == e[i]);
    }
    assert(d =~= e);
}

proof fn lemma_suffix_len(count: nat)
    requires
        count <= u64::MAX,
    ensures
        all_digits(decimal(count)),
        is_ascii_chars(seq!['-'] + decimal(count)),
        byte_len(seq!['-'] + decimal(count)) <= 21,
        (seq!['-'] + decimal(count)).len() <= 21,
{
    law_decimal_reads_back(count);
    assert(pow(10, 20) == 100000000000000000000) by {
        reveal_with_fuel(pow, 21);
    }
    lemma_numeral_len(count, 10, 20);
    is_ascii_chars_encode_utf8(seq!['-'] + decimal(count));
}

/// Two candidates beyond the first are never the same.
proof fn lemma_candidates_differ(filename: Seq<char>, a: nat, b: nat)
    requires
        2 <= a <= u64::MAX,
        2 <= b <= u64::MAX,
        candidate(filename, a) == candidate(filename, b),
    ensures
        a == b,
{
    lemma_suffix_len(a);
    lemma_suffix_len(b);
    lemma_last_of(filename, '.');
    let dot = last_of(filename, '.');
    let stem = filename.take(dot);
    let ext = filename.skip(dot);
    let sa = seq!['-'] + decimal(a);
    let sb = seq!['-'] + decimal(b);
    if dot > 0 && byte_len(ext) <= 20 {
        let xa = at_most(stem, 100 - byte_len(sa) - byte_len(ext));
        let xb = at_most(stem, 100 - byte_len(sb) - byte_len(ext));
        let ca = xa + sa + ext;
        let cb = xb + sb + ext;
        assert(ca == cb);
        assert(ca.take(ca.len() - ext.len()) =~= xa + sa);
        assert(cb.take(cb.len() - ext.len()) =~= xb + sb);
        lemma_digits_end(xa, decimal(a), xb, decimal(b));
    } else {
        lemma_digits_end(
            at_most(filename, 100 - byte_len(sa)),
            decimal(a),
            at_most(filename, 100 - byte_len(sb)),
            decimal(b),
        );
    }
    law_decimal_reads_back(a);
    law_decimal_reads_back(b);
}

/// Among as many candidates as there are names taken, and one more, one is free.
proof fn lemma_taken_bound(filename: Seq<char>, seen: Set<Seq<char>>, count: nat)
    requires
        seen.finite(),
        1 <= count <= u64::MAX,
        forall|j: nat| 1 <= j < count ==> seen.contains(#[trigger] candidate(filename, j)),
    ensures
        count <= seen.len() + 2,
{
    if count > 2 {
        let s = Seq::new((count - 2) as nat, |i: int| candidate(filename, (i + 2) as nat));
        assert forall|i: int, j: int| 0 <= i < s.len() && 0 <= j < s.len() && i != j implies s[i]
            != s[j] by {
            if s[i] == s[j] {
                lemma_candidates_differ(filename, (i + 2) as nat, (j + 2) as nat);
            }
        }
        assert(s.no_duplicates());
        s.unique_seq_to_set();
        assert forall|x: Seq<char>| s.to_set().contains(x) implies seen.contains(x) by {
            let i = choose|i: int| 0 <= i < s.len() && s[i] == x;
            assert(s[i] == candidate(filename, (i + 2) as nat));
        }
        lemma_len_subset(s.to_set(), seen);
    }
}

proof fn lemma_trimmed_ascii(s: Seq<char>, class: CharClass)
    requires
        is_ascii_chars(s),
    ensures
        is_ascii_chars(trimmed(s, class)),
{
    lemma_leading_ascii(s, class);
    lemma_trailing_ascii(drop_leading(s, class), class);
}

proof fn lemma_leading_ascii(s: Seq<char>, class: CharClass)
    requires
        is_ascii_chars(s),
    ensures
        is_ascii_chars(drop_leading(s, class)),
    decreases s.len(),
{
    if s.len() > 0 && class.has(s.first()) {
        lemma_leading_ascii(s.drop_first(), class);
    }
}

proof fn lemma_trailing_ascii(s: Seq<char>, class: CharClass)
    requires
        is_ascii_chars(s),
    ensures
        is_ascii_chars(drop_trailing(s, class)),
    decreases s.len(),
{
    if s.len() > 0 && class.has(s.last()) {
        lemma_trailing_ascii(s.drop_last(), class);
    }
}

proof fn lemma_sanitized_ascii(name: Seq<u8>, index: nat)
    ensures
        is_ascii_chars(sanitized(name, index)),
{
    let s = name.map_values(|b: u8| safe_char(b));
    assert(is_ascii_chars(s));
    lemma_trimmed_ascii(s, CharClass::Space);
    lemma_trimmed_ascii(trim(s), CharClass::Only('.'));
    law_decimal_reads_back(index);
    reveal_strlit(".txt");
}

/// Whether a character may stand in a file name everywhere.
pub open spec fn is_safe(c: char) -> bool {
    0x20 <= c as u32 <= 0x7e && c != '\\' && c != '/' && c != ':' && c != '*' && c != '?' && c
        != '"' && c != '<' && c != '>' && c != '|'
}

pub open spec fn all_safe(s: Seq<char>) -> bool {
    forall|i: int| 0 <= i < s.len() ==> is_safe(#[trigger] s[i])
}

proof fn lemma_trimmed_safe(s: Seq<char>, class: CharClass)
    requires
        all_safe(s),
    ensures
        all_safe(trimmed(s, class)),
{
    lemma_leading_safe(s, class);
    lemma_trailing_safe(drop_leading(s, class), class);
}

proof fn lemma_leading_safe(s: Seq<char>, class: CharClass)
    requires
        all_safe(s),
    ensures
        all_safe(drop_leading(s, class)),
    decreases s.len(),
{
    if s.len() > 0 && class.has(s.first()) {
        lemma_leading_safe(s.drop_first(), class);
    }
}

proof fn lemma_trailing_safe(s: Seq<char>, class: CharClass)
    requires
        all_safe(s),
    ensures
        all_safe(drop_trailing(s, class)),
    decreases s.len(),
{
    if s.len() > 0 && class.has(s.last()) {
        lemma_trailing_safe(s.drop_last(), class);
    }
}

/// Whatever bytes name a document, its sanitized name is not empty and has only characters that
/// may stand in a file name everywhere.
pub proof fn law_sanitized_names_are_safe(name: Seq<u8>, index: nat)
    ensures
        sanitized(name, index).len() > 0,
        all_safe(sanitized(name, index)),
{
    let s = name.map_values(|b: u8| safe_char(b));
    assert forall|i: int| 0 <= i < s.len() implies is_safe(#[trigger] s[i]) by {
        assert(s[i] == safe_char(name[i]));
    }
    lemma_trimmed_safe(s, CharClass::Space);
    lemma_trimmed_safe(trim(s), CharClass::Only('.'));
    law_decimal_reads_back(index);
    reveal_strlit(".txt");
    let numbered = decimal(index) + ".txt"@;
    assert forall|i: int| 0 <= i < numbered.len() implies is_safe(#[trigger] numbered[i]) by {
        if i < decimal(index).len() {
            assert(numbered[i] == decimal(index)[i]);
        }
    }
}

/// A fitted name of single-byte characters fits the name field of a header.
pub proof fn law_fitted_name_fits(filename: Seq<char>, suffix: Seq<char>)
    requires
        is_ascii_chars(filename),
        is_ascii_chars(suffix),
        suffix.len() <= 100,
    ensures
        is_ascii_chars(fitted(filename, suffix)),
        byte_len(fitted(filename, suffix)) <= 100,
{
    lemma_last_of(filename, '.');
    let ext = filename.skip(last_of(filename, '.'));
    if last_of(filename, '.') > 0 {
        is_ascii_chars_encode_utf8(ext);
    }
    is_ascii_chars_encode_utf8(suffix);
    is_ascii_chars_encode_utf8(fitted(filename, suffix));
}

/// What `unique_name` gives is not taken, whatever is.
pub proof fn law_unique_name_is_free(filename: Seq<char>, seen: Set<Seq<char>>)
    requires
        seen.finite(),
        seen.len() + 3 <= u64::MAX,
    ensures
        !seen.contains(unique_name(filename, seen)),
        exists|n: nat| 1 <= n <= seen.len() + 2 && #[trigger] first_free(filename, seen, n),
{
    let limit = (seen.len() + 3) as nat;
    if forall|j: nat| 1 <= j < limit ==> seen.contains(#[trigger] candidate(filename, j)) {
        lemma_taken_bound(filename, seen, limit);
    }
    let free = choose|j: nat|
        1 <= j < limit && !seen.contains(#[trigger] candidate(filename, j));
    let n = lemma_least_free(filename, seen, free);
    lemma_unique_name(filename, seen, n);
}

proof fn lemma_least_free(filename: Seq<char>, seen: Set<Seq<char>>, free: nat) -> (n: nat)
    requires
        free >= 1,
        !seen.contains(candidate(filename, free)),
    ensures
        n <= free,
        first_free(filename, seen, n),
    decreases free,
{
    if forall|j: nat| 1 <= j < free ==> seen.contains(#[trigger] candidate(filename, j)) {
        free
    } else {
        let j = choose|j: nat| 1 <= j < free && !seen.contains(#[trigger] candidate(filename, j));
        lemma_least_free(filename, seen, j)
    }
}

/// The entries of an archive have names that differ from one another and from the metadata's,
/// and each name fits the name field of a header.
pub proof fn law_tar_names(filenames: Seq<Seq<u8>>)
    requires
        filenames.len() + 4 <= u64::MAX,
    ensures
        tar_names(filenames).len() == filenames.len(),
        tar_names(filenames).no_duplicates(),
        !tar_names(filenames).contains("metadata.json"@),
        forall|i: int|
            0 <= i < filenames.len() ==> byte_len(#[trigger] tar_names(filenames)[i]) <= 100,
    decreases filenames.len(),
{
    broadcast use group_seq_properties;

    if filenames.len() > 0 {
        let earlier = tar_names(filenames.drop_last());
        law_tar_names(filenames.drop_last());
        let seen = earlier.to_set().insert("metadata.json"@);
        let base = sanitized(filenames.last(), filenames.len()) + ".zst"@;
        earlier.unique_seq_to_set();
        law_unique_name_is_free(base, seen);
        lemma_sanitized_ascii(filenames.last(), filenames.len());
        assert(is_ascii_chars(base)) by {
            reveal_strlit(".zst");
        }
        let m = choose|m: nat| 1 <= m <= seen.len() + 2 && #[trigger] first_free(base, seen, m);
        lemma_unique_name(base, seen, m);
        lemma_suffix_len(m);
        law_fitted_name_fits(base, Seq::empty());
        law_fitted_name_fits(base, seq!['-'] + decimal(m));
        let name = unique_name(base, seen);
        assert(tar_names(filenames) == earlier.push(name));
        assert(!earlier.contains(name)) by {
            if earlier.contains(name) {
                assert(earlier.to_set().contains(name));
            }
        }
        assert(name != "metadata.json"@);
        let names = tar_names(filenames);
        assert forall|i: int, j: int| 0 <= i < names.len() && 0 <= j < names.len() && i != j
            implies names[i] != names[j] by {
            if i < earlier.len() && j < earlier.len() {
                assert(earlier[i] != earlier[j]);
            } else if i < earlier.len() {
                assert(earlier.contains(earlier[i]));
            } else {
                assert(earlier.contains(earlier[j]));
            }
        }
        assert(!names.contains("metadata.json"@)) by {
            if names.contains("metadata.json"@) {
                let i = choose|i: int| 0 <= i < names.len() && names[i] == "metadata.json"@;
                if i < earlier.len() {
                    assert(earlier.contains(earlier[i]));
                }
            }
        }
        assert forall|i: int| 0 <= i < filenames.len() implies byte_len(
            #[trigger] tar_names(filenames)[i],
        ) <= 100 by {
            if i < earlier.len() {
                assert(names[i] == earlier[i]);
            }
        }
    }
}

// ---------------------------------------------------------------------------
// Functions
// ---------------------------------------------------------------------------

fn byte_to_safe_char(byte: u8) -> (c: char)
    ensures
        c == safe_char(byte),
{
    if byte == 92 || byte == 47 || byte == 58 || byte == 42 || byte == 63 || byte == 34 || byte
        == 60 || byte == 62 || byte == 124 {
        '_'
    } else if 0x20 <= byte && byte <= 0x7e {
        byte as char
    } else {
        '_'
    }
}

/// A name that is safe to use for a file.
pub fn sanitize_filename(name: &[u8], index: usize) -> (out: String)
    ensures
        out@ == sanitized(name@, index as nat),
{
    let mut chars: Vec<char> = Vec::new();
    let mut i: usize = 0;
    while i < name.len()
        invariant
            i <= name@.len(),
            chars@ == name@.take(i as int).map_values(|b: u8| safe_char(b)),
        decreases name@.len() - i,
    {
        chars.push(byte_to_safe_char(name[i]));
        assert(chars@ =~= name@.take(i + 1).map_values(|b: u8| safe_char(b)));
        i += 1;
    }
    assert(name@.take(i as int) =~= name@);
    let kept = trim_class(trim_space(&chars), CharClass::Only('.'));
    if kept.len() == 0 {
        let mut out = numeral_of(index as u64, 10);
        push_chars(&mut out, &chars_of(".txt"));
        string_of(&out)
    } else {
        string_of(kept)
    }
}

fn byte_length(s: &[char]) -> (n: usize)
    ensures
        n == byte_len(s@),
{
    let text = string_of(s);
    text.as_str().as_bytes().len()
}

fn first_chars(s: &[char], n: usize) -> (out: &[char])
    ensures
        out@ == at_most(s@, n as int),
{
    if s.len() <= n {
        assert(at_most(s@, n as int) =~= s@);
        s
    } else {
        let out = slice_subrange(s, 0, n);
        assert(out@ =~= at_most(s@, n as int));
        out
    }
}

/// The name with the suffix before its extension, cut to what a header holds.
pub fn fit_tar_filename(filename: &str, suffix: &str) -> (out: String)
    ensures
        out@ == fitted(filename@, suffix@),
{
    let name = chars_of(filename);
    let suffix = chars_of(suffix);
    let past_dot = past_last(&name, '.');
    let mut out: Vec<char> = Vec::new();
    let suffix_len = byte_length(&suffix);
    if past_dot > 1 {
        let stem = slice_subrange(&name, 0, past_dot - 1);
        let ext = slice_subrange(&name, past_dot - 1, name.len());
        let ext_len = byte_length(ext);
        assert(stem@ =~= name@.take(last_of(name@, '.')));
        assert(ext@ =~= name@.skip(last_of(name@, '.')));
        if suffix.len() == 0 {
            if ext_len < 100 {
                push_chars(&mut out, first_chars(stem, 100 - ext_len));
                push_chars(&mut out, ext);
                assert(out@ =~= fitted(filename@, suffix@));
                return string_of(&out);
            }
        } else if ext_len <= 20 && suffix_len < 100 - ext_len {
            push_chars(&mut out, first_chars(stem, 100 - suffix_len - ext_len));
            push_chars(&mut out, &suffix);
            push_chars(&mut out, ext);
            assert(out@ =~= fitted(filename@, suffix@));
            return string_of(&out);
        }
    }
    if suffix.len() == 0 {
        push_chars(&mut out, first_chars(&name, 100));
    } else {
        if suffix_len < 100 {
            push_chars(&mut out, first_chars(&name, 100 - suffix_len));
        }
        push_chars(&mut out, &suffix);
    }
    assert(out@ =~= fitted(filename@, suffix@));
    string_of(&out)
}

/// The first candidate for the name that is not taken; it is then taken.
pub fn unique_filename(filename: &str, seen: &mut StringHashSet) -> (out: String)
    requires
        old(seen)@.finite(),
        old(seen)@.len() + 3 <= usize::MAX,
    ensures
        out@ == unique_name(filename@, old(seen)@),
        !old(seen)@.contains(out@),
        final(seen)@ == old(seen)@.insert(out@),
{
    let mut count: usize = 1;
    loop
        invariant
            count >= 1,
            seen@ == old(seen)@,
            old(seen)@.finite(),
            old(seen)@.len() + 3 <= usize::MAX,
            forall|j: nat|
                1 <= j < count ==> old(seen)@.contains(#[trigger] candidate(filename@, j)),
        decreases old(seen)@.len() + 3 - count,
    {
        proof {
            lemma_taken_bound(filename@, seen@, count as nat);
        }
        let name = if count == 1 {
            let empty = String::new();
            assert(empty@ =~= Seq::empty());
            fit_tar_filename(filename, empty.as_str())
        } else {
            let mut suffix: Vec<char> = Vec::new();
            suffix.push('-');
            push_chars(&mut suffix, &numeral_of(count as u64, 10));
            assert(suffix@ =~= seq!['-'] + decimal(count as nat));
            fit_tar_filename(filename, string_of(&suffix).as_str())
        };
        assert(name@ == candidate(filename@, count as nat));
        if !seen.contains(name.as_str()) {
            proof {
                lemma_unique_name(filename@, seen@, count as nat);
            }
            seen.insert(name.clone());
            return name;
        }
        count += 1;
    }
}

} // verus!
