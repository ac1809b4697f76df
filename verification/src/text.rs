//! Text as sequences of characters: trimming, splitting, searching, numerals.
//!
//! A string is taken apart into its characters (`chars_of`), worked on as a
//! slice, and put together again (`string_of`).
use vstd::prelude::*;
use vstd::slice::slice_subrange;
use vstd::utf8::{encode_utf8, encode_utf8_decode_utf8};

verus! {

/// `String::push`: the character is appended to the end of the string.
pub assume_specification[ String::push ](s: &mut String, c: char)
    ensures
        final(s)@ == old(s)@.push(c),
;

// ---------------------------------------------------------------------------
// Characters
// ---------------------------------------------------------------------------

/// The characters with the Unicode property `White_Space`.
pub open spec fn is_space(c: char) -> bool {
    ||| '\u{9}' <= c <= '\u{d}'
    ||| c == '\u{20}'
    ||| c == '\u{85}'
    ||| c == '\u{a0}'
    ||| c == '\u{1680}'
    ||| '\u{2000}' <= c <= '\u{200a}'
    ||| c == '\u{2028}'
    ||| c == '\u{2029}'
    ||| c == '\u{202f}'
    ||| c == '\u{205f}'
    ||| c == '\u{3000}'
}

pub open spec fn is_digit(c: char) -> bool {
    '0' <= c <= '9'
}

pub open spec fn is_alpha(c: char) -> bool {
    'a' <= c <= 'z' || 'A' <= c <= 'Z'
}

/// The ASCII lower case of a character.
pub open spec fn lower_char(c: char) -> char {
    if 'A' <= c <= 'Z' {
        ((c as u8) + 32) as u8 as char
    } else {
        c
    }
}

/// The ASCII upper case of a character.
pub open spec fn upper_char(c: char) -> char {
    if 'a' <= c <= 'z' {
        ((c as u8) - 32) as u8 as char
    } else {
        c
    }
}

pub fn char_is_space(c: char) -> (r: bool)
    ensures
        r == is_space(c),
{
    ('\u{9}' <= c && c <= '\u{d}') || c == '\u{20}' || c == '\u{85}' || c == '\u{a0}' || c
        == '\u{1680}' || ('\u{2000}' <= c && c <= '\u{200a}') || c == '\u{2028}' || c == '\u{2029}'
        || c == '\u{202f}' || c == '\u{205f}' || c == '\u{3000}'
}

pub fn char_is_digit(c: char) -> (r: bool)
    ensures
        r == is_digit(c),
{
    '0' <= c && c <= '9'
}

pub fn char_lower(c: char) -> (r: char)
    ensures
        r == lower_char(c),
{
    if 'A' <= c && c <= 'Z' {
        (c as u8 + 32) as char
    } else {
        c
    }
}

pub fn char_upper(c: char) -> (r: char)
    ensures
        r == upper_char(c),
{
    if 'a' <= c && c <= 'z' {
        (c as u8 - 32) as char
    } else {
        c
    }
}

/// A class of characters that trimming removes.
#[derive(Clone, Copy)]
pub enum CharClass {
    /// Unicode white space.
    Space,
    /// One character.
    Only(char),
    /// Everything but ASCII letters.
    NonAlpha,
}

impl CharClass {
    pub open spec fn has(self, c: char) -> bool {
        match self {
            CharClass::Space => is_space(c),
            CharClass::Only(d) => c == d,
            CharClass::NonAlpha => !is_alpha(c),
        }
    }

    pub fn holds(self, c: char) -> (r: bool)
        ensures
            r == self.has(c),
    {
        match self {
            CharClass::Space => char_is_space(c),
            CharClass::Only(d) => c == d,
            CharClass::NonAlpha => !(('a' <= c && c <= 'z') || ('A' <= c && c <= 'Z')),
        }
    }
}

// ---------------------------------------------------------------------------
// Strings and slices
// ---------------------------------------------------------------------------

/// The characters of a string, one per element.
pub fn chars_of(s: &str) -> (out: Vec<char>)
    ensures
        out@ == s@,
{
    let mut out: Vec<char> = Vec::new();
    for c in iter: s.chars()
        invariant
            iter.seq() == s@,
            out@ == s@.take(iter.index()),
    {
        out.push(c);
    }
    out
}

/// The string made of the given characters.
pub fn string_of(s: &[char]) -> (out: String)
    ensures
        out@ == s@,
{
    let mut out = String::new();
    let mut i: usize = 0;
    while i < s.len()
        invariant
            i <= s@.len(),
            out@ == s@.take(i as int),
        decreases s@.len() - i,
    {
        out.push(s[i]);
        i += 1;
    }
    out
}

pub fn same_chars(a: &[char], b: &[char]) -> (r: bool)
    ensures
        r == (a@ == b@),
{
    if a.len() != b.len() {
        return false;
    }
    let mut i: usize = 0;
    while i < a.len()
        invariant
            i <= a@.len() == b@.len(),
            a@.take(i as int) == b@.take(i as int),
        decreases a@.len() - i,
    {
        if a[i] != b[i] {
            assert(a@[i as int] != b@[i as int]);
            return false;
        }
        assert(a@.take(i + 1) == a@.take(i as int).push(a@[i as int]));
        assert(b@.take(i + 1) == b@.take(i as int).push(b@[i as int]));
        i += 1;
    }
    assert(a@.take(i as int) == a@ && b@.take(i as int) == b@);
    true
}

pub fn same_bytes(a: &[u8], b: &[u8]) -> (r: bool)
    ensures
        r == (a@ == b@),
{
    if a.len() != b.len() {
        return false;
    }
    let mut i: usize = 0;
    while i < a.len()
        invariant
            i <= a@.len() == b@.len(),
            a@.take(i as int) == b@.take(i as int),
        decreases a@.len() - i,
    {
        if a[i] != b[i] {
            assert(a@[i as int] != b@[i as int]);
            return false;
        }
        assert(a@.take(i + 1) == a@.take(i as int).push(a@[i as int]));
        assert(b@.take(i + 1) == b@.take(i as int).push(b@[i as int]));
        i += 1;
    }
    assert(a@.take(i as int) == a@ && b@.take(i as int) == b@);
    true
}

/// Whether two strings hold the same characters.
pub fn same_str(a: &str, b: &str) -> (r: bool)
    ensures
        r == (a@ == b@),
{
    proof {
        encode_utf8_decode_utf8(a@);
        encode_utf8_decode_utf8(b@);
    }
    same_bytes(a.as_bytes(), b.as_bytes())
}

pub fn copy_chars(s: &[char]) -> (out: Vec<char>)
    ensures
        out@ == s@,
{
    let mut out: Vec<char> = Vec::new();
    push_chars(&mut out, s);
    assert(out@ == s@);
    out
}

pub fn push_chars(out: &mut Vec<char>, s: &[char])
    ensures
        final(out)@ == old(out)@ + s@,
{
    out.extend_from_slice(s);
    assert(out@ =~= old(out)@ + s@);
}

pub fn push_bytes(out: &mut Vec<u8>, s: &[u8])
    ensures
        final(out)@ == old(out)@ + s@,
{
    out.extend_from_slice(s);
    assert(out@ =~= old(out)@ + s@);
}

/// The bytes of the given text, appended.
pub fn push_text(out: &mut Vec<u8>, s: &str)
    ensures
        final(out)@ == old(out)@ + encode_utf8(s@),
{
    push_bytes(out, s.as_bytes());
}

// ---------------------------------------------------------------------------
// Case
// ---------------------------------------------------------------------------

pub open spec fn lower(s: Seq<char>) -> Seq<char> {
    s.map_values(|c: char| lower_char(c))
}

pub open spec fn upper(s: Seq<char>) -> Seq<char> {
    s.map_values(|c: char| upper_char(c))
}

pub fn to_lower(s: &[char]) -> (out: Vec<char>)
    ensures
        out@ == lower(s@),
{
    let mut out: Vec<char> = Vec::new();
    let mut i: usize = 0;
    while i < s.len()
        invariant
            i <= s@.len(),
            out@ == lower(s@.take(i as int)),
        decreases s@.len() - i,
    {
        out.push(char_lower(s[i]));
        assert(lower(s@.take(i + 1)) =~= lower(s@.take(i as int)).push(lower_char(s@[i as int])));
        i += 1;
    }
    assert(s@.take(i as int) == s@);
    out
}

pub fn to_upper(s: &[char]) -> (out: Vec<char>)
    ensures
        out@ == upper(s@),
{
    let mut out: Vec<char> = Vec::new();
    let mut i: usize = 0;
    while i < s.len()
        invariant
            i <= s@.len(),
            out@ == upper(s@.take(i as int)),
        decreases s@.len() - i,
    {
        out.push(char_upper(s[i]));
        assert(upper(s@.take(i + 1)) =~= upper(s@.take(i as int)).push(upper_char(s@[i as int])));
        i += 1;
    }
    assert(s@.take(i as int) == s@);
    out
}

// ---------------------------------------------------------------------------
// Trimming
// ---------------------------------------------------------------------------

/// `s` without the longest prefix of characters in `class`.
pub open spec fn drop_leading(s: Seq<char>, class: CharClass) -> Seq<char>
    decreases s.len(),
{
    if s.len() > 0 && class.has(s[0]) {
        drop_leading(s.drop_first(), class)
    } else {
        s
    }
}

/// `s` without the longest suffix of characters in `class`.
pub open spec fn drop_trailing(s: Seq<char>, class: CharClass) -> Seq<char>
    decreases s.len(),
{
    if s.len() > 0 && class.has(s.last()) {
        drop_trailing(s.drop_last(), class)
    } else {
        s
    }
}

pub open spec fn trimmed(s: Seq<char>, class: CharClass) -> Seq<char> {
    drop_trailing(drop_leading(s, class), class)
}

/// `s` without leading and trailing white space.
pub open spec fn trim(s: Seq<char>) -> Seq<char> {
    trimmed(s, CharClass::Space)
}

proof fn lemma_drop_leading_ends(s: Seq<char>, class: CharClass)
    ensures
        ({
            let t = drop_leading(s, class);
            t.len() > 0 ==> !class.has(t[0])
        }),
    decreases s.len(),
{
    if s.len() > 0 && class.has(s[0]) {
        lemma_drop_leading_ends(s.drop_first(), class);
    }
}

proof fn lemma_drop_trailing_ends(s: Seq<char>, class: CharClass)
    ensures
        ({
            let t = drop_trailing(s, class);
            t.len() > 0 ==> !class.has(t.last()) && t[0] == s[0]
        }),
    decreases s.len(),
{
    if s.len() > 0 && class.has(s.last()) {
        lemma_drop_trailing_ends(s.drop_last(), class);
    }
}

/// To trim a text once more changes nothing.
pub proof fn law_trim_once(s: Seq<char>)
    ensures
        trim(trim(s)) == trim(s),
{
    let t = drop_leading(s, CharClass::Space);
    lemma_drop_leading_ends(s, CharClass::Space);
    lemma_drop_trailing_ends(t, CharClass::Space);
}

pub fn without_leading(s: &[char], class: CharClass) -> (out: &[char])
    ensures
        out@ == drop_leading(s@, class),
{
    let mut i: usize = 0;
    assert(s@.skip(0) == s@);
    while i < s.len() && class.holds(s[i])
        invariant
            i <= s@.len(),
            drop_leading(s@.skip(i as int), class) == drop_leading(s@, class),
        decreases s@.len() - i,
    {
        assert(s@.skip(i as int).drop_first() == s@.skip(i + 1));
        i += 1;
    }
    assert(s@.skip(i as int) == s@.subrange(i as int, s@.len() as int));
    slice_subrange(s, i, s.len())
}

pub fn without_trailing(s: &[char], class: CharClass) -> (out: &[char])
    ensures
        out@ == drop_trailing(s@, class),
{
    let mut n: usize = s.len();
    assert(s@.take(n as int) == s@);
    while n > 0 && class.holds(s[n - 1])
        invariant
            n <= s@.len(),
            drop_trailing(s@.take(n as int), class) == drop_trailing(s@, class),
        decreases n,
    {
        assert(s@.take(n as int).drop_last() == s@.take(n - 1));
        n -= 1;
    }
    assert(s@.take(n as int) == s@.subrange(0, n as int));
    slice_subrange(s, 0, n)
}

pub fn trim_class(s: &[char], class: CharClass) -> (out: &[char])
    ensures
        out@ == trimmed(s@, class),
{
    without_trailing(without_leading(s, class), class)
}

pub fn trim_space(s: &[char]) -> (out: &[char])
    ensures
        out@ == trim(s@),
{
    trim_class(s, CharClass::Space)
}

/// The trimmed text of a string.
pub fn trim_str(s: &str) -> (out: String)
    ensures
        out@ == trim(s@),
{
    let chars = chars_of(s);
    string_of(trim_space(&chars))
}

// ---------------------------------------------------------------------------
// Prefixes, suffixes, occurrences
// ---------------------------------------------------------------------------

pub fn has_prefix(s: &[char], p: &[char]) -> (r: bool)
    ensures
        r == p@.is_prefix_of(s@),
{
    if p.len() > s.len() {
        return false;
    }
    same_chars(slice_subrange(s, 0, p.len()), p)
}

pub fn has_suffix(s: &[char], p: &[char]) -> (r: bool)
    ensures
        r == p@.is_suffix_of(s@),
{
    if p.len() > s.len() {
        return false;
    }
    same_chars(slice_subrange(s, s.len() - p.len(), s.len()), p)
}

/// The rest of `s` behind the prefix `p`.
pub open spec fn strip_prefix(s: Seq<char>, p: Seq<char>) -> Option<Seq<char>> {
    if p.is_prefix_of(s) {
        Some(s.skip(p.len() as int))
    } else {
        None
    }
}

pub fn without_prefix<'a>(s: &'a [char], p: &[char]) -> (out: Option<&'a [char]>)
    ensures
        match out {
            Some(rest) => strip_prefix(s@, p@) == Some(rest@),
            None => strip_prefix(s@, p@) is None,
        },
{
    if has_prefix(s, p) {
        let rest = slice_subrange(s, p.len(), s.len());
        assert(rest@ == s@.skip(p@.len() as int));
        Some(rest)
    } else {
        None
    }
}

/// How many characters stand before the first `c`: all of them where there is none.
pub open spec fn before(s: Seq<char>, c: char) -> nat
    decreases s.len(),
{
    if s.len() == 0 || s[0] == c {
        0
    } else {
        1 + before(s.drop_first(), c)
    }
}

pub proof fn lemma_before(s: Seq<char>, c: char)
    ensures
        before(s, c) <= s.len(),
        before(s, c) < s.len() ==> s[before(s, c) as int] == c,
        forall|j: int| 0 <= j < before(s, c) ==> s[j] != c,
    decreases s.len(),
{
    if s.len() > 0 && s[0] != c {
        let t = s.drop_first();
        lemma_before(t, c);
        assert forall|j: int| 0 <= j < before(s, c) implies s[j] != c by {
            if j > 0 {
                assert(s[j] == t[j - 1]);
            }
        }
    }
}

pub proof fn lemma_before_is(s: Seq<char>, c: char, n: int)
    requires
        0 <= n <= s.len(),
        forall|j: int| 0 <= j < n ==> s[j] != c,
        n == s.len() || s[n] == c,
    ensures
        before(s, c) == n,
{
    lemma_before(s, c);
    if before(s, c) < n {
        assert(s[before(s, c) as int] != c);
    }
    if before(s, c) > n {
        assert(s[n] != c);
    }
}

pub fn index_of(s: &[char], c: char) -> (n: usize)
    ensures
        n == before(s@, c),
        n <= s@.len(),
        n < s@.len() ==> s@[n as int] == c,
{
    let mut n: usize = 0;
    while n < s.len() && s[n] != c
        invariant
            n <= s@.len(),
            forall|j: int| 0 <= j < n ==> s@[j] != c,
        decreases s@.len() - n,
    {
        n += 1;
    }
    proof {
        lemma_before_is(s@, c, n as int);
    }
    n
}

/// The parts of `s` around the first `c`, without it.
pub open spec fn split_once(s: Seq<char>, c: char) -> Option<(Seq<char>, Seq<char>)> {
    let n = before(s, c);
    if n < s.len() {
        Some((s.take(n as int), s.skip(n as int + 1)))
    } else {
        None
    }
}

pub fn cut_once(s: &[char], c: char) -> (out: Option<(&[char], &[char])>)
    ensures
        match out {
            Some((a, b)) => split_once(s@, c) == Some((a@, b@)),
            None => split_once(s@, c) is None,
        },
{
    let n = index_of(s, c);
    if n < s.len() {
        let a = slice_subrange(s, 0, n);
        let b = slice_subrange(s, n + 1, s.len());
        assert(a@ == s@.take(n as int));
        assert(b@ == s@.skip(n + 1));
        Some((a, b))
    } else {
        None
    }
}

/// The text before the first `c`.
pub open spec fn head(s: Seq<char>, c: char) -> Seq<char> {
    s.take(before(s, c) as int)
}

pub fn head_of(s: &[char], c: char) -> (out: &[char])
    ensures
        out@ == head(s@, c),
{
    let n = index_of(s, c);
    let a = slice_subrange(s, 0, n);
    assert(a@ == s@.take(n as int));
    a
}

/// The position of the last `c`, or -1.
pub open spec fn last_of(s: Seq<char>, c: char) -> int
    decreases s.len(),
{
    if s.len() == 0 {
        -1
    } else if s.last() == c {
        s.len() - 1
    } else {
        last_of(s.drop_last(), c)
    }
}

pub proof fn lemma_last_of(s: Seq<char>, c: char)
    ensures
        -1 <= last_of(s, c) < s.len(),
        last_of(s, c) >= 0 ==> s[last_of(s, c)] == c,
        forall|j: int| last_of(s, c) < j < s.len() ==> s[j] != c,
    decreases s.len(),
{
    if s.len() > 0 && s.last() != c {
        let t = s.drop_last();
        lemma_last_of(t, c);
        assert forall|j: int| last_of(s, c) < j < s.len() implies s[j] != c by {
            if j < s.len() - 1 {
                assert(s[j] == t[j]);
            }
        }
    }
}

/// The position behind the last `c`, or 0.
pub fn past_last(s: &[char], c: char) -> (n: usize)
    ensures
        n == last_of(s@, c) + 1,
        n <= s@.len(),
{
    let mut n: usize = s.len();
    assert(s@.take(n as int) == s@);
    while n > 0 && s[n - 1] != c
        invariant
            n <= s@.len(),
            last_of(s@.take(n as int), c) == last_of(s@, c),
        decreases n,
    {
        assert(s@.take(n as int).drop_last() == s@.take(n - 1));
        n -= 1;
    }
    n
}

/// Where `p` first occurs in `s`.
pub open spec fn find(s: Seq<char>, p: Seq<char>) -> Option<nat>
    decreases s.len(),
{
    if p.is_prefix_of(s) {
        Some(0)
    } else if s.len() == 0 {
        None
    } else {
        match find(s.drop_first(), p) {
            Some(n) => Some(n + 1),
            None => None,
        }
    }
}

pub proof fn lemma_find(s: Seq<char>, p: Seq<char>)
    ensures
        find(s, p) matches Some(n) ==> n + p.len() <= s.len() && s.subrange(
            n as int,
            n as int + p.len(),
        ) == p,
    decreases s.len(),
{
    if p.is_prefix_of(s) {
        assert(s.subrange(0, p.len() as int) == p);
    } else if s.len() > 0 {
        lemma_find(s.drop_first(), p);
        if let Some(n) = find(s.drop_first(), p) {
            assert(s.subrange(n as int + 1, n as int + 1 + p.len()) == s.drop_first().subrange(
                n as int,
                n as int + p.len(),
            ));
        }
    }
}

pub fn find_in(s: &[char], p: &[char]) -> (out: Option<usize>)
    ensures
        match out {
            Some(n) => find(s@, p@) == Some(n as nat) && n + p@.len() <= s@.len(),
            None => find(s@, p@) is None,
        },
{
    let mut i: usize = 0;
    assert(s@.skip(0) == s@);
    proof {
        lemma_find(s@, p@);
    }
    while i < s.len()
        invariant
            i <= s@.len(),
            match find(s@.skip(i as int), p@) {
                Some(n) => find(s@, p@) == Some(n + i as nat),
                None => find(s@, p@) is None,
            },
            find(s@, p@) matches Some(n) ==> n + p@.len() <= s@.len(),
        decreases s@.len() - i,
    {
        let rest = slice_subrange(s, i, s.len());
        assert(rest@ == s@.skip(i as int));
        if has_prefix(rest, p) {
            return Some(i);
        }
        assert(rest@.drop_first() == s@.skip(i + 1));
        i += 1;
    }
    if p.len() == 0 {
        Some(i)
    } else {
        None
    }
}

// ---------------------------------------------------------------------------
// Splitting and joining
// ---------------------------------------------------------------------------

/// The texts of a list of character vectors.
pub open spec fn pieces(v: Seq<Vec<char>>) -> Seq<Seq<char>> {
    v.map_values(|p: Vec<char>| p@)
}

/// The texts of a list of strings.
pub open spec fn texts(v: Seq<String>) -> Seq<Seq<char>> {
    v.map_values(|p: String| p@)
}

/// The text in an option.
pub open spec fn opt_text(o: Option<String>) -> Option<Seq<char>> {
    match o {
        Some(s) => Some(s@),
        None => None,
    }
}

/// The parts of `s` between the occurrences of `c`.
pub open spec fn split(s: Seq<char>, c: char) -> Seq<Seq<char>>
    decreases s.len(),
{
    if s.len() == 0 {
        seq![Seq::<char>::empty()]
    } else {
        let parts = split(s.drop_last(), c);
        if s.last() == c {
            parts.push(Seq::<char>::empty())
        } else {
            parts.drop_last().push(parts.last().push(s.last()))
        }
    }
}

pub fn split_at_char(s: &[char], c: char) -> (out: Vec<Vec<char>>)
    ensures
        pieces(out@) == split(s@, c),
        out@.len() > 0,
{
    let mut done: Vec<Vec<char>> = Vec::new();
    let mut cur: Vec<char> = Vec::new();
    let mut i: usize = 0;
    assert(pieces(done@).push(cur@) =~= seq![Seq::<char>::empty()]);
    while i < s.len()
        invariant
            i <= s@.len(),
            pieces(done@).push(cur@) == split(s@.take(i as int), c),
        decreases s@.len() - i,
    {
        assert(s@.take(i + 1).drop_last() == s@.take(i as int));
        let ghost before = pieces(done@).push(cur@);
        assert(before.drop_last() == pieces(done@));
        if s[i] == c {
            done.push(cur);
            cur = Vec::new();
            assert(pieces(done@) =~= before);
        } else {
            cur.push(s[i]);
        }
        i += 1;
    }
    assert(s@.take(i as int) == s@);
    let ghost d = done@;
    done.push(cur);
    assert(pieces(done@) =~= pieces(d).push(cur@));
    done
}

/// The words of `s` that white space has ended, and the word that it has not.
pub open spec fn words_and_rest(s: Seq<char>) -> (Seq<Seq<char>>, Seq<char>)
    decreases s.len(),
{
    if s.len() == 0 {
        (Seq::empty(), Seq::empty())
    } else {
        let (words, rest) = words_and_rest(s.drop_last());
        if !is_space(s.last()) {
            (words, rest.push(s.last()))
        } else if rest.len() > 0 {
            (words.push(rest), Seq::empty())
        } else {
            (words, rest)
        }
    }
}

/// The maximal runs of characters in `s` that are not white space.
pub open spec fn words(s: Seq<char>) -> Seq<Seq<char>> {
    let (words, rest) = words_and_rest(s);
    if rest.len() > 0 {
        words.push(rest)
    } else {
        words
    }
}

pub fn split_words(s: &[char]) -> (out: Vec<Vec<char>>)
    ensures
        pieces(out@) == words(s@),
{
    let mut done: Vec<Vec<char>> = Vec::new();
    let mut cur: Vec<char> = Vec::new();
    let mut i: usize = 0;
    assert(pieces(done@) =~= Seq::<Seq<char>>::empty());
    while i < s.len()
        invariant
            i <= s@.len(),
            (pieces(done@), cur@) == words_and_rest(s@.take(i as int)),
        decreases s@.len() - i,
    {
        assert(s@.take(i + 1).drop_last() == s@.take(i as int));
        if !char_is_space(s[i]) {
            cur.push(s[i]);
        } else if cur.len() > 0 {
            let ghost d = done@;
            let ghost k = cur@;
            done.push(cur);
            cur = Vec::new();
            assert(pieces(done@) =~= pieces(d).push(k));
        }
        i += 1;
    }
    assert(s@.take(i as int) == s@);
    if cur.len() > 0 {
        let ghost d = done@;
        done.push(cur);
        assert(pieces(done@) =~= pieces(d).push(cur@));
    }
    done
}

/// The parts in order, with `sep` between each two.
pub open spec fn join(parts: Seq<Seq<char>>, sep: Seq<char>) -> Seq<char>
    decreases parts.len(),
{
    if parts.len() == 0 {
        Seq::empty()
    } else if parts.len() == 1 {
        parts[0]
    } else {
        join(parts.drop_last(), sep) + sep + parts.last()
    }
}

pub fn join_strings(parts: &[String], sep: &str) -> (out: String)
    ensures
        out@ == join(texts(parts@), sep@),
{
    let mut out = String::new();
    let mut i: usize = 0;
    assert(texts(parts@).take(0) =~= Seq::<Seq<char>>::empty());
    while i < parts.len()
        invariant
            i <= parts@.len(),
            out@ == join(texts(parts@).take(i as int), sep@),
        decreases parts@.len() - i,
    {
        assert(texts(parts@).take(i + 1).drop_last() =~= texts(parts@).take(i as int));
        if i > 0 {
            out.append(sep);
        }
        out.append(parts[i].as_str());
        proof {
            if i == 0 {
                assert(Seq::<char>::empty() + parts@[0]@ =~= parts@[0]@);
            }
        }
        i += 1;
    }
    assert(texts(parts@).take(i as int) =~= texts(parts@));
    out
}

pub fn join_pieces(parts: &[Vec<char>], sep: &[char]) -> (out: Vec<char>)
    ensures
        out@ == join(pieces(parts@), sep@),
{
    let mut out: Vec<char> = Vec::new();
    let mut i: usize = 0;
    assert(pieces(parts@).take(0) =~= Seq::<Seq<char>>::empty());
    while i < parts.len()
        invariant
            i <= parts@.len(),
            out@ == join(pieces(parts@).take(i as int), sep@),
        decreases parts@.len() - i,
    {
        assert(pieces(parts@).take(i + 1).drop_last() =~= pieces(parts@).take(i as int));
        if i > 0 {
            push_chars(&mut out, sep);
        }
        push_chars(&mut out, &parts[i]);
        proof {
            if i == 0 {
                assert(Seq::<char>::empty() + parts@[0]@ =~= parts@[0]@);
            }
        }
        i += 1;
    }
    assert(pieces(parts@).take(i as int) =~= pieces(parts@));
    out
}

/// `s` without the characters `c`.
pub open spec fn without(s: Seq<char>, c: char) -> Seq<char> {
    s.filter(|x: char| x != c)
}

pub fn remove_char(s: &[char], c: char) -> (out: Vec<char>)
    ensures
        out@ == without(s@, c),
{
    let mut out: Vec<char> = Vec::new();
    reveal(Seq::filter);
    let mut i: usize = 0;
    while i < s.len()
        invariant
            i <= s@.len(),
            out@ == without(s@.take(i as int), c),
        decreases s@.len() - i,
    {
        reveal(Seq::filter);
        assert(s@.take(i + 1).drop_last() == s@.take(i as int));
        if s[i] != c {
            out.push(s[i]);
        }
        i += 1;
    }
    assert(s@.take(i as int) == s@);
    out
}

/// The digits of `s`.
pub open spec fn only_digits(s: Seq<char>) -> Seq<char> {
    s.filter(|x: char| is_digit(x))
}

pub proof fn lemma_only_digits(s: Seq<char>)
    ensures
        forall|i: int| 0 <= i < only_digits(s).len() ==> is_digit(#[trigger] only_digits(s)[i]),
    decreases s.len(),
{
    reveal(Seq::filter);
    if s.len() > 0 {
        lemma_only_digits(s.drop_last());
    }
}

/// The digits of a text.
pub fn keep_digits(s: &[char]) -> (out: Vec<char>)
    ensures
        out@ == only_digits(s@),
{
    let mut out: Vec<char> = Vec::new();
    reveal(Seq::filter);
    let mut i: usize = 0;
    while i < s.len()
        invariant
            i <= s@.len(),
            out@ == only_digits(s@.take(i as int)),
        decreases s@.len() - i,
    {
        reveal(Seq::filter);
        assert(s@.take(i + 1).drop_last() == s@.take(i as int));
        if char_is_digit(s[i]) {
            out.push(s[i]);
        }
        i += 1;
    }
    assert(s@.take(i as int) == s@);
    out
}

/// A copy of the given texts.
pub fn copy_texts(v: &Vec<String>) -> (out: Vec<String>)
    ensures
        texts(out@) == texts(v@),
{
    let mut out: Vec<String> = Vec::new();
    let mut i: usize = 0;
    while i < v.len()
        invariant
            i <= v@.len(),
            texts(out@) == texts(v@).take(i as int),
        decreases v@.len() - i,
    {
        let ghost earlier = out@;
        out.push(v[i].clone());
        assert(texts(out@) =~= texts(earlier).push(v@[i as int]@));
        assert(texts(out@) =~= texts(v@).take(i + 1));
        i += 1;
    }
    assert(texts(v@).take(i as int) =~= texts(v@));
    out
}

/// A copy of a text that may be missing.
pub fn copy_option(o: &Option<String>) -> (out: Option<String>)
    ensures
        opt_text(out) == opt_text(*o),
{
    match o {
        Some(s) => Some(s.clone()),
        None => None,
    }
}

} // verus!
