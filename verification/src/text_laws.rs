//! What holds of the parts that texts are cut into.
use vstd::prelude::*;

use crate::text::{
    before, drop_leading, drop_trailing, find, is_space, join, lemma_before, lower, split,
    split_once, trim, upper, without, words, words_and_rest, CharClass,
};

verus! {

pub open spec fn all_space(s: Seq<char>) -> bool {
    forall|i: int| 0 <= i < s.len() ==> is_space(#[trigger] s[i])
}

pub open spec fn no_space(s: Seq<char>) -> bool {
    forall|i: int| 0 <= i < s.len() ==> !is_space(#[trigger] s[i])
}

/// Whether `t` is what is left of `s` without the white space at its ends.
pub open spec fn is_trim_of(t: Seq<char>, s: Seq<char>) -> bool {
    exists|a: Seq<char>, b: Seq<char>|
        #![trigger all_space(a), all_space(b)]
        all_space(a) && all_space(b) && s == a + t + b && (t.len() > 0 ==> !is_space(t[0])
            && !is_space(t.last()))
}

/// Whether a text that may be missing is what is left of `s` without the white space at its ends;
/// it is missing where nothing is left.
pub open spec fn is_trimmed_value(v: Option<Seq<char>>, s: Seq<char>) -> bool {
    match v {
        Some(t) => t.len() > 0 && is_trim_of(t, s),
        None => all_space(s),
    }
}

proof fn lemma_leading(s: Seq<char>) -> (a: Seq<char>)
    ensures
        all_space(a),
        s == a + drop_leading(s, CharClass::Space),
        drop_leading(s, CharClass::Space).len() > 0 ==> !is_space(
            drop_leading(s, CharClass::Space)[0],
        ),
    decreases s.len(),
{
    if s.len() > 0 && is_space(s[0]) {
        let rest = lemma_leading(s.drop_first());
        let a = seq![s[0]] + rest;
        let d = drop_leading(s, CharClass::Space);
        assert(d == drop_leading(s.drop_first(), CharClass::Space));
        assert(s =~= seq![s[0]] + s.drop_first());
        assert(a + d =~= seq![s[0]] + (rest + d));
        a
    } else {
        assert(s =~= Seq::<char>::empty() + s);
        Seq::empty()
    }
}

proof fn lemma_trailing(s: Seq<char>) -> (b: Seq<char>)
    ensures
        all_space(b),
        s == drop_trailing(s, CharClass::Space) + b,
        drop_trailing(s, CharClass::Space).len() > 0 ==> !is_space(
            drop_trailing(s, CharClass::Space).last(),
        ),
    decreases s.len(),
{
    if s.len() > 0 && is_space(s.last()) {
        let rest = lemma_trailing(s.drop_last());
        let b = rest.push(s.last());
        let d = drop_trailing(s, CharClass::Space);
        assert(d == drop_trailing(s.drop_last(), CharClass::Space));
        assert(s =~= s.drop_last().push(s.last()));
        assert(d + b =~= (d + rest).push(s.last()));
        b
    } else {
        assert(s =~= s + Seq::<char>::empty());
        Seq::empty()
    }
}

/// Trimming takes white space away at both ends, all of it and nothing else.
pub proof fn law_trim(s: Seq<char>)
    ensures
        is_trim_of(trim(s), s),
        trim(s).len() == 0 <==> all_space(s),
{
    let a = lemma_leading(s);
    let m = drop_leading(s, CharClass::Space);
    let b = lemma_trailing(m);
    let t = trim(s);
    assert(s =~= a + t + b);
    if t.len() > 0 {
        assert(t[0] == m[0]);
        assert(s[a.len() as int] == t[0]);
    } else {
        assert forall|i: int| 0 <= i < s.len() implies is_space(#[trigger] s[i]) by {
            if i < a.len() {
                assert(s[i] == a[i]);
            } else {
                assert(s[i] == b[i - a.len()]);
            }
        }
    }
    assert(all_space(a) && all_space(b));
}

/// There is one way only to trim a text.
pub proof fn law_trim_is_one(s: Seq<char>, t: Seq<char>)
    requires
        is_trim_of(t, s),
    ensures
        t == trim(s),
{
    law_trim(s);
    let (a, b) = choose|a: Seq<char>, b: Seq<char>|
        #![trigger all_space(a), all_space(b)]
        all_space(a) && all_space(b) && s == a + t + b && (t.len() > 0 ==> !is_space(t[0])
            && !is_space(t.last()));
    let u = trim(s);
    let (c, d) = choose|c: Seq<char>, d: Seq<char>|
        #![trigger all_space(c), all_space(d)]
        all_space(c) && all_space(d) && s == c + u + d && (u.len() > 0 ==> !is_space(u[0])
            && !is_space(u.last()));
    if t.len() == 0 {
        assert forall|i: int| 0 <= i < s.len() implies is_space(#[trigger] s[i]) by {
            if i < a.len() {
                assert(s[i] == a[i]);
            } else {
                assert(s[i] == b[i - a.len()]);
            }
        }
        assert(u.len() == 0);
        assert(t =~= u);
    } else {
        assert(s[a.len() as int] == t[0]);
        assert(!all_space(s));
        assert(s[c.len() as int] == u[0]);
        let p = a.len() + t.len() - 1;
        let q = c.len() + u.len() - 1;
        assert(s[p] == t.last());
        assert(s[q] == u.last());
        if a.len() < c.len() {
            assert(s[a.len() as int] == c[a.len() as int]);
        }
        if c.len() < a.len() {
            assert(s[c.len() as int] == a[c.len() as int]);
        }
        if p < q {
            assert(s[q] == b[q - a.len() - t.len()]);
        }
        if q < p {
            assert(s[p] == d[p - c.len() - u.len()]);
        }
        assert(t =~= s.subrange(a.len() as int, p + 1));
        assert(u =~= s.subrange(c.len() as int, q + 1));
    }
}

/// Joined texts are the texts in their order, with the separator between them and nowhere else.
pub proof fn law_join_is_piecewise(a: Seq<Seq<char>>, b: Seq<Seq<char>>, sep: Seq<char>)
    ensures
        a.len() == 0 ==> join(a, sep) == Seq::<char>::empty(),
        a.len() == 1 ==> join(a, sep) == a[0],
        a.len() > 0 && b.len() > 0 ==> join(a + b, sep) == join(a, sep) + sep + join(b, sep),
    decreases b.len(),
{
    if a.len() > 0 && b.len() > 0 {
        let all = a + b;
        assert(all.drop_last() =~= a + b.drop_last());
        assert(all.last() == b.last());
        if b.len() == 1 {
            assert(all.drop_last() =~= a);
        } else {
            law_join_is_piecewise(a, b.drop_last(), sep);
            assert(join(a, sep) + sep + join(b.drop_last(), sep) + sep + b.last() =~= join(a, sep)
                + sep + (join(b.drop_last(), sep) + sep + b.last()));
        }
    }
}

/// The first character of a kind cuts a text in two.
pub proof fn law_split_once(s: Seq<char>, c: char)
    ensures
        match split_once(s, c) {
            Some((a, b)) => s == a + seq![c] + b && !a.contains(c),
            None => !s.contains(c),
        },
{
    lemma_before(s, c);
    let n = before(s, c) as int;
    if n < s.len() {
        assert(s =~= s.take(n) + seq![c] + s.skip(n + 1));
        if s.take(n).contains(c) {
            let i = choose|i: int| 0 <= i < n && s.take(n)[i] == c;
            assert(s[i] == c);
        }
    } else if s.contains(c) {
        let i = choose|i: int| 0 <= i < s.len() && s[i] == c;
        assert(s[i] != c);
    }
}

/// The parts between separators hold none, and joined by the separator they are the text.
pub proof fn law_split_reads_back(s: Seq<char>, c: char)
    ensures
        split(s, c).len() > 0,
        join(split(s, c), seq![c]) == s,
        forall|i: int| 0 <= i < split(s, c).len() ==> !(#[trigger] split(s, c)[i]).contains(c),
    decreases s.len(),
{
    let parts = split(s, c);
    if s.len() == 0 {
        assert(join(parts, seq![c]) =~= s);
    } else {
        law_split_reads_back(s.drop_last(), c);
        let earlier = split(s.drop_last(), c);
        if s.last() == c {
            assert(parts.drop_last() =~= earlier);
            assert(join(parts, seq![c]) =~= s);
        } else {
            let last = earlier.last();
            assert(parts.drop_last() =~= earlier.drop_last());
            assert(!earlier[earlier.len() - 1].contains(c));
            assert forall|i: int| 0 <= i < parts.len() implies !(#[trigger] parts[i]).contains(
                c,
            ) by {
                if i < parts.len() - 1 {
                    assert(parts[i] == earlier[i]);
                } else if parts[i].contains(c) {
                    let j = choose|j: int| 0 <= j < parts[i].len() && parts[i][j] == c;
                    if j < last.len() {
                        assert(last[j] == c);
                    }
                }
            }
            if parts.len() == 1 {
                assert(join(earlier, seq![c]) == last);
                assert(join(parts, seq![c]) =~= s);
            } else {
                let front = join(earlier.drop_last(), seq![c]) + seq![c];
                assert(join(earlier, seq![c]) == front + last);
                assert(join(parts, seq![c]) == front + last.push(s.last()));
                assert(front + last.push(s.last()) =~= (front + last).push(s.last()));
                assert(s =~= s.drop_last().push(s.last()));
            }
        }
    }
}

/// The words in their order, with the gaps before, between and behind them.
pub open spec fn laid_out(ws: Seq<Seq<char>>, gaps: Seq<Seq<char>>) -> Seq<char>
    decreases ws.len(),
{
    if ws.len() == 0 {
        gaps[0]
    } else {
        laid_out(ws.drop_last(), gaps.drop_last()) + ws.last() + gaps.last()
    }
}

/// Whether the gaps are made of white space, and there is some between any two words, which have
/// none in them.
pub open spec fn is_spacing(ws: Seq<Seq<char>>, gaps: Seq<Seq<char>>) -> bool {
    &&& gaps.len() == ws.len() + 1
    &&& forall|i: int| 0 <= i < gaps.len() ==> all_space(#[trigger] gaps[i])
    &&& forall|i: int| 0 < i < gaps.len() - 1 ==> (#[trigger] gaps[i]).len() > 0
    &&& forall|i: int| 0 <= i < ws.len() ==> no_space(#[trigger] ws[i]) && ws[i].len() > 0
}

/// Whether the words stand in the text in their order, with white space before, between and behind
/// them and nothing else.
pub open spec fn stands_spaced(ws: Seq<Seq<char>>, s: Seq<char>) -> bool {
    exists|gaps: Seq<Seq<char>>| #[trigger] is_spacing(ws, gaps) && laid_out(ws, gaps) == s
}

/// Where words are laid out, and what stands behind the last space.
proof fn lemma_words_and_rest(s: Seq<char>) -> (gaps: Seq<Seq<char>>)
    ensures
        ({
            let (ws, rest) = words_and_rest(s);
            &&& is_spacing(ws, gaps)
            &&& no_space(rest)
            &&& s == laid_out(ws, gaps) + rest
            &&& ws.len() > 0 ==> gaps.last().len() > 0
        }),
    decreases s.len(),
{
    let (ws, rest) = words_and_rest(s);
    if s.len() == 0 {
        let gaps = seq![Seq::<char>::empty()];
        assert(s =~= laid_out(ws, gaps) + rest);
        gaps
    } else {
        let before = lemma_words_and_rest(s.drop_last());
        let (before_ws, before_rest) = words_and_rest(s.drop_last());
        let front = laid_out(before_ws, before);
        assert(s =~= s.drop_last().push(s.last()));
        if !is_space(s.last()) {
            assert(s =~= front + rest);
            before
        } else if before_rest.len() > 0 {
            let gaps = before.push(seq![s.last()]);
            assert(ws.drop_last() =~= before_ws);
            assert(gaps.drop_last() =~= before);
            assert(s =~= laid_out(ws, gaps) + rest);
            assert forall|i: int| 0 <= i < ws.len() implies no_space(#[trigger] ws[i])
                && ws[i].len() > 0 by {
                if i < before_ws.len() {
                    assert(ws[i] == before_ws[i]);
                }
            }
            assert forall|i: int| 0 < i < gaps.len() - 1 implies (#[trigger] gaps[i]).len() > 0 by {
                assert(gaps[i] == before[i]);
            }
            gaps
        } else {
            let last = before.last().push(s.last());
            let gaps = before.drop_last().push(last);
            assert(all_space(before[before.len() - 1]));
            assert(gaps.drop_last() =~= before.drop_last());
            assert(laid_out(ws, gaps) =~= front.push(s.last()));
            assert(s =~= laid_out(ws, gaps) + rest);
            gaps
        }
    }
}

/// The words of a text stand in it, in their order, and nothing but white space stands around them.
pub proof fn law_words_stand_in_text(s: Seq<char>)
    ensures
        stands_spaced(words(s), s),
{
    let gaps = lemma_words_and_rest(s);
    let (ws, rest) = words_and_rest(s);
    let all = words(s);
    if rest.len() > 0 {
        let more = gaps.push(Seq::<char>::empty());
        assert(all.drop_last() =~= ws);
        assert(more.drop_last() =~= gaps);
        assert(laid_out(all, more) =~= s);
        assert forall|i: int| 0 < i < more.len() - 1 implies (#[trigger] more[i]).len() > 0 by {
            assert(more[i] == gaps[i]);
        }
        assert(is_spacing(all, more));
    } else {
        assert(s =~= laid_out(ws, gaps));
        assert(is_spacing(all, gaps));
    }
}

/// Whether `p` stands in `s` at the place `k`.
pub open spec fn stands_in(p: Seq<char>, s: Seq<char>, k: int) -> bool {
    0 <= k && k + p.len() <= s.len() && s.subrange(k, k + p.len()) == p
}

/// The first place of a part is the least at which it stands.
pub proof fn law_find_is_first(s: Seq<char>, p: Seq<char>)
    ensures
        match find(s, p) {
            Some(n) => stands_in(p, s, n as int) && forall|k: int|
                #[trigger] stands_in(p, s, k) ==> n <= k,
            None => forall|k: int| !#[trigger] stands_in(p, s, k),
        },
    decreases s.len(),
{
    let m = p.len() as int;
    if p.is_prefix_of(s) {
        assert(s.subrange(0, m) =~= p);
        assert(stands_in(p, s, 0));
    } else {
        assert(!stands_in(p, s, 0));
        if s.len() > 0 {
            let t = s.drop_first();
            law_find_is_first(t, p);
            assert forall|k: int| k != 0 implies #[trigger] stands_in(p, s, k) == stands_in(
                p,
                t,
                k - 1,
            ) by {
                if 1 <= k && k + m <= s.len() {
                    assert(s.subrange(k, k + m) =~= t.subrange(k - 1, k - 1 + m));
                }
            }
            if let Some(n) = find(t, p) {
                assert(stands_in(p, s, n + 1 as int) == stands_in(p, t, n as int));
            }
        }
    }
}

pub proof fn lemma_commas(text: Seq<char>)
    ensures
        without(text, ',') == text.filter(|c: char| c != ','),
    decreases text.len(),
{
    reveal(Seq::filter);
    if text.len() > 0 {
        lemma_commas(text.drop_last());
    }
}

/// Small letters stand thirty-two places behind their capitals; nothing but letters changes its
/// case, and a letter that changes it twice is as it was.
pub proof fn law_case_changes_letters(s: Seq<char>, i: int)
    requires
        0 <= i < s.len(),
    ensures
        lower(s).len() == s.len() && upper(s).len() == s.len(),
        'A' <= s[i] <= 'Z' ==> lower(s)[i] as int == s[i] as int + 32 && upper(s)[i] == s[i]
            && upper(lower(s))[i] == s[i],
        'a' <= s[i] <= 'z' ==> upper(s)[i] as int == s[i] as int - 32 && lower(s)[i] == s[i]
            && lower(upper(s))[i] == s[i],
        !('A' <= s[i] <= 'Z') && !('a' <= s[i] <= 'z') ==> lower(s)[i] == s[i] && upper(s)[i]
            == s[i],
{
}

} // verus!
