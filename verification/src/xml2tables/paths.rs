//! Paths of elements and attributes.
use indexmap::IndexMap;
use vstd::hash_set::StringHashSet;
use vstd::prelude::*;
use vstd::slice::slice_subrange;

use crate::collections::{new_text_map, set_text, text_entries, text_pairs, with_entry};
use crate::encoding::{lossy_string, utf8_lossy};
use crate::ordered_map::pair_texts;
use crate::text::{
    chars_of, copy_chars, find, find_in, has_prefix, join, join_pieces, join_strings, lower,
    opt_text, pieces, push_chars, same_chars, split, split_at_char, string_of, texts, to_lower,
    trim, trim_class, trim_space, trimmed, CharClass,
};
use crate::xml::{local_name, local_part};

use crate::xml2tables::types::XmlPathList;

verus! {

// ---------------------------------------------------------------------------
// Names and paths
// ---------------------------------------------------------------------------

/// A tag in a path: its local name in small letters.
pub open spec fn tag_text(name: Seq<u8>) -> Seq<char> {
    lower(utf8_lossy(local_part(name)))
}

/// An attribute in a path: its name in small letters.
pub open spec fn attribute_text(name: Seq<u8>) -> Seq<char> {
    lower(utf8_lossy(name))
}

/// The path that the given tags make.
pub open spec fn path_of(tags: Seq<Seq<char>>) -> Seq<char> {
    if tags.len() == 0 {
        Seq::empty()
    } else {
        seq!['/'] + join(tags, seq!['/'])
    }
}

/// The path of an attribute of the element at the given path.
pub open spec fn attribute_path(path: Seq<char>, name: Seq<char>) -> Seq<char> {
    path + seq!['/', '@'] + name
}

/// A path as a mapping means it: in small letters, from the root.
pub open spec fn normal_path(path: Seq<char>) -> Seq<char> {
    let p = trim(path);
    if p.len() == 0 {
        Seq::empty()
    } else if p[0] == '/' {
        lower(p)
    } else {
        lower(seq!['/'] + p)
    }
}

pub fn normalize_tag(name: &[u8]) -> (out: String)
    ensures
        out@ == tag_text(name@),
{
    let text = lossy_string(local_name(name));
    string_of(&to_lower(&chars_of(text.as_str())))
}

pub fn normalize_attr_name(name: &[u8]) -> (out: String)
    ensures
        out@ == attribute_text(name@),
{
    let text = lossy_string(name);
    string_of(&to_lower(&chars_of(text.as_str())))
}

/// The path that the given tags make.
pub fn current_path(tags: &[String]) -> (out: String)
    ensures
        out@ == path_of(texts(tags@)),
{
    if tags.len() == 0 {
        let out = String::new();
        assert(out@ =~= Seq::empty());
        return out;
    }
    let mut path: Vec<char> = Vec::new();
    path.push('/');
    let slash = "/";
    proof {
        reveal_strlit("/");
        assert(slash@ =~= seq!['/']);
    }
    push_chars(&mut path, &chars_of(join_strings(tags, slash).as_str()));
    assert(path@ =~= path_of(texts(tags@)));
    string_of(&path)
}

pub fn join_attribute(path: &str, name: &str) -> (out: String)
    ensures
        out@ == attribute_path(path@, name@),
{
    let mut out = chars_of(path);
    out.push('/');
    out.push('@');
    push_chars(&mut out, &chars_of(name));
    assert(out@ =~= attribute_path(path@, name@));
    string_of(&out)
}

pub fn normalize_path(path: &str) -> (out: String)
    ensures
        out@ == normal_path(path@),
{
    let chars = chars_of(path);
    let p = trim_space(&chars);
    if p.len() == 0 {
        let out = String::new();
        assert(out@ =~= Seq::empty());
        return out;
    }
    if p[0] == '/' {
        return string_of(&to_lower(p));
    }
    let mut rooted: Vec<char> = Vec::new();
    rooted.push('/');
    push_chars(&mut rooted, p);
    assert(rooted@ =~= seq!['/'] + p@);
    string_of(&to_lower(&rooted))
}

// ---------------------------------------------------------------------------
// Paths of a mapping
// ---------------------------------------------------------------------------

/// The columns of the first `n` paths; where two paths are the same, the later column counts.
pub open spec fn normal_columns(s: Seq<(Seq<char>, Seq<char>)>, n: nat) -> Seq<
    (Seq<char>, Seq<char>),
>
    decreases n,
{
    if n == 0 || n > s.len() {
        Seq::empty()
    } else {
        with_entry(normal_columns(s, (n - 1) as nat), normal_path(s[n - 1].0), s[n - 1].1)
    }
}

pub fn normalize_path_map(paths: &IndexMap<String, String>) -> (out: IndexMap<String, String>)
    ensures
        text_entries(out) == normal_columns(text_entries(*paths), text_entries(*paths).len()),
{
    let pairs = text_pairs(paths);
    let mut out = new_text_map();
    let mut i: usize = 0;
    while i < pairs.len()
        invariant
            i <= pairs@.len(),
            pair_texts(pairs@) == text_entries(*paths),
            text_entries(out) == normal_columns(text_entries(*paths), i as nat),
        decreases pairs@.len() - i,
    {
        assert(text_entries(*paths)[i as int] == (pairs@[i as int].0@, pairs@[i as int].1@));
        set_text(&mut out, normalize_path(pairs[i].0.as_str()), pairs[i].1.clone());
        i += 1;
    }
    assert(pairs@.len() == text_entries(*paths).len());
    out
}

/// The given paths without the empty ones.
pub open spec fn normal_paths(paths: Seq<Seq<char>>) -> Seq<Seq<char>>
    decreases paths.len(),
{
    if paths.len() == 0 {
        Seq::empty()
    } else {
        let earlier = normal_paths(paths.drop_last());
        let path = normal_path(paths.last());
        if path.len() == 0 {
            earlier
        } else {
            earlier.push(path)
        }
    }
}

/// The paths of a list. A single path stands even if it is empty.
pub open spec fn listed_paths(paths: Option<XmlPathList>) -> Seq<Seq<char>> {
    match paths {
        None => Seq::empty(),
        Some(XmlPathList::One(path)) => seq![normal_path(path@)],
        Some(XmlPathList::Many(paths)) => normal_paths(texts(paths@)),
    }
}

pub fn normalize_path_list(paths: &Option<XmlPathList>) -> (out: Vec<String>)
    ensures
        texts(out@) == listed_paths(*paths),
{
    let mut out: Vec<String> = Vec::new();
    match paths {
        None => {
            assert(texts(out@) =~= Seq::empty());
        },
        Some(XmlPathList::One(path)) => {
            out.push(normalize_path(path.as_str()));
            assert(texts(out@) =~= seq![normal_path(path@)]);
        },
        Some(XmlPathList::Many(list)) => {
            let mut i: usize = 0;
            assert(texts(out@) =~= normal_paths(texts(list@).take(0)));
            while i < list.len()
                invariant
                    i <= list@.len(),
                    texts(out@) == normal_paths(texts(list@).take(i as int)),
                decreases list@.len() - i,
            {
                let ghost earlier = out@;
                assert(texts(list@).take(i + 1).drop_last() =~= texts(list@).take(i as int));
                assert(texts(list@).take(i + 1).last() == list@[i as int]@);
                let path = normalize_path(list[i].as_str());
                if !path.as_str().is_empty() {
                    let ghost p = path@;
                    out.push(path);
                    assert(texts(out@) =~= texts(earlier).push(p));
                }
                i += 1;
            }
            assert(texts(list@).take(i as int) =~= texts(list@));
        },
    }
    out
}

/// The first of the given paths, from the `i`-th on, that a document has.
pub open spec fn first_existing(paths: Seq<Seq<char>>, present: Set<Seq<char>>, i: int) -> Option<
    Seq<char>,
>
    decreases paths.len() - i,
{
    if i >= paths.len() {
        None
    } else if paths[i].len() > 0 && present.contains(paths[i]) {
        Some(paths[i])
    } else {
        first_existing(paths, present, i + 1)
    }
}

pub fn select_first_existing_path(paths: &Vec<String>, real_paths: &StringHashSet) -> (out: Option<
    String,
>)
    ensures
        opt_text(out) == first_existing(texts(paths@), real_paths@, 0),
{
    let mut i: usize = 0;
    while i < paths.len()
        invariant
            i <= paths@.len(),
            first_existing(texts(paths@), real_paths@, 0) == first_existing(
                texts(paths@),
                real_paths@,
                i as int,
            ),
        decreases paths@.len() - i,
    {
        assert(texts(paths@)[i as int] == paths@[i as int]@);
        if !paths[i].as_str().is_empty() && real_paths.contains(paths[i].as_str()) {
            return Some(paths[i].clone());
        }
        i += 1;
    }
    None
}

/// Whether a path is the given one or leads below it.
pub open spec fn at_or_below(path: Seq<char>, top: Seq<char>) -> bool {
    path == top || (top + seq!['/']).is_prefix_of(path)
}

pub fn is_at_or_below(path: &str, top: &str) -> (r: bool)
    ensures
        r == at_or_below(path@, top@),
{
    let path = chars_of(path);
    let mut prefix = chars_of(top);
    if same_chars(&path, &prefix) {
        return true;
    }
    prefix.push('/');
    assert(prefix@ =~= top@ + seq!['/']);
    has_prefix(&path, &prefix)
}

/// The first of the given paths, from the `i`-th on, that a document has and that the row
/// boundary is at or below.
pub open spec fn first_around(
    paths: Seq<Seq<char>>,
    boundary: Seq<char>,
    present: Set<Seq<char>>,
    i: int,
) -> Option<Seq<char>>
    decreases paths.len() - i,
{
    if i >= paths.len() {
        None
    } else if paths[i].len() > 0 && present.contains(paths[i]) && at_or_below(boundary, paths[i]) {
        Some(paths[i])
    } else {
        first_around(paths, boundary, present, i + 1)
    }
}

/// The context of the rows with the given boundary: the first path around it, or else the first
/// that the document has.
pub open spec fn chosen_context(
    paths: Seq<Seq<char>>,
    boundary: Seq<char>,
    present: Set<Seq<char>>,
) -> Option<Seq<char>> {
    match first_around(paths, boundary, present, 0) {
        Some(path) => Some(path),
        None => first_existing(paths, present, 0),
    }
}

pub fn select_context_path(
    paths: &Vec<String>,
    row_boundary: &str,
    real_paths: &StringHashSet,
) -> (out: Option<String>)
    ensures
        opt_text(out) == chosen_context(texts(paths@), row_boundary@, real_paths@),
{
    let mut i: usize = 0;
    while i < paths.len()
        invariant
            i <= paths@.len(),
            first_around(texts(paths@), row_boundary@, real_paths@, 0) == first_around(
                texts(paths@),
                row_boundary@,
                real_paths@,
                i as int,
            ),
        decreases paths@.len() - i,
    {
        assert(texts(paths@)[i as int] == paths@[i as int]@);
        if !paths[i].as_str().is_empty() && real_paths.contains(paths[i].as_str())
            && is_at_or_below(row_boundary, paths[i].as_str()) {
            return Some(paths[i].clone());
        }
        i += 1;
    }
    select_first_existing_path(paths, real_paths)
}

// ---------------------------------------------------------------------------
// The row boundary that columns share
// ---------------------------------------------------------------------------

/// The element that a path leads to: for the path of an attribute, the one that has it.
pub open spec fn element_path(path: Seq<char>) -> Seq<char> {
    match find(path, seq!['/', '@']) {
        Some(n) => path.take(n as int),
        None => path,
    }
}

pub open spec fn nonempty_parts(parts: Seq<Seq<char>>) -> Seq<Seq<char>>
    decreases parts.len(),
{
    if parts.len() == 0 {
        Seq::empty()
    } else {
        let earlier = nonempty_parts(parts.drop_last());
        if parts.last().len() == 0 {
            earlier
        } else {
            earlier.push(parts.last())
        }
    }
}

/// The tags on the way to the element of a path.
pub open spec fn path_tags(path: Seq<char>) -> Seq<Seq<char>> {
    nonempty_parts(split(trimmed(element_path(path), CharClass::Only('/')), '/'))
}

/// The tags of each of the first `n` paths that has any.
pub open spec fn tag_lists(paths: Seq<(Seq<char>, Seq<char>)>, n: nat) -> Seq<Seq<Seq<char>>>
    decreases n,
{
    if n == 0 || n > paths.len() {
        Seq::empty()
    } else {
        let earlier = tag_lists(paths, (n - 1) as nat);
        let tags = path_tags(paths[n - 1].0);
        if tags.len() == 0 {
            earlier
        } else {
            earlier.push(tags)
        }
    }
}

pub open spec fn all_have(lists: Seq<Seq<Seq<char>>>, i: int, tag: Seq<char>) -> bool {
    forall|k: int| 0 <= k < lists.len() ==> (#[trigger] lists[k]).len() > i && lists[k][i] == tag
}

/// How many tags, from the `i`-th on, all lists share with the first.
pub open spec fn shared_len(first: Seq<Seq<char>>, lists: Seq<Seq<Seq<char>>>, i: int) -> int
    decreases first.len() - i,
{
    if 0 <= i < first.len() && all_have(lists, i, first[i]) {
        shared_len(first, lists, i + 1)
    } else {
        i
    }
}

/// The deepest element that all columns stand at or below.
pub open spec fn shared_boundary(columns: Seq<(Seq<char>, Seq<char>)>) -> Seq<char> {
    let lists = tag_lists(columns, columns.len());
    if lists.len() == 0 {
        Seq::empty()
    } else {
        path_of(lists[0].take(shared_len(lists[0], lists, 0)))
    }
}

fn keep_nonempty(parts: Vec<Vec<char>>) -> (out: Vec<Vec<char>>)
    ensures
        pieces(out@) == nonempty_parts(pieces(parts@)),
{
    let mut out: Vec<Vec<char>> = Vec::new();
    let ghost all = pieces(parts@);
    assert(pieces(out@) =~= nonempty_parts(all.take(0)));
    let mut i: usize = 0;
    while i < parts.len()
        invariant
            i <= parts@.len(),
            all == pieces(parts@),
            pieces(out@) == nonempty_parts(all.take(i as int)),
        decreases parts@.len() - i,
    {
        let ghost earlier = out@;
        assert(all.take(i + 1).drop_last() =~= all.take(i as int));
        assert(all.take(i + 1).last() == parts@[i as int]@);
        if parts[i].len() > 0 {
            out.push(copy_chars(&parts[i]));
            assert(pieces(out@) =~= pieces(earlier).push(parts@[i as int]@));
        }
        i += 1;
    }
    assert(all.take(i as int) =~= all);
    out
}

fn split_path(path: &str) -> (tags: Vec<Vec<char>>)
    ensures
        pieces(tags@) == path_tags(path@),
{
    let chars = chars_of(path);
    let mut marker: Vec<char> = Vec::new();
    marker.push('/');
    marker.push('@');
    assert(marker@ =~= seq!['/', '@']);
    let element = match find_in(&chars, &marker) {
        Some(n) => {
            proof {
                crate::text::lemma_find(chars@, marker@);
            }
            let part = slice_subrange(&chars, 0, n);
            assert(part@ =~= chars@.take(n as int));
            part
        },
        None => slice_subrange(&chars, 0, chars.len()),
    };
    assert(element@ =~= element_path(path@));
    keep_nonempty(split_at_char(trim_class(element, CharClass::Only('/')), '/'))
}

pub open spec fn piece_lists(v: Seq<Vec<Vec<char>>>) -> Seq<Seq<Seq<char>>> {
    v.map_values(|l: Vec<Vec<char>>| pieces(l@))
}

fn every_list_has(lists: &Vec<Vec<Vec<char>>>, i: usize, tag: &[char]) -> (r: bool)
    ensures
        r == all_have(piece_lists(lists@), i as int, tag@),
{
    let ghost models = piece_lists(lists@);
    let mut k: usize = 0;
    while k < lists.len()
        invariant
            k <= lists@.len(),
            models == piece_lists(lists@),
            forall|j: int|
                0 <= j < k ==> (#[trigger] models[j]).len() > i && models[j][i as int] == tag@,
        decreases lists@.len() - k,
    {
        assert(models[k as int] == pieces(lists@[k as int]@));
        if i >= lists[k].len() || !same_chars(&lists[k][i], tag) {
            assert(!(models[k as int].len() > i && models[k as int][i as int] == tag@));
            return false;
        }
        assert(models[k as int][i as int] == tag@);
        k += 1;
    }
    true
}

/// The deepest element that all columns stand at or below.
pub fn infer_row_boundary(columns: &Vec<(String, String)>) -> (out: String)
    ensures
        out@ == shared_boundary(pair_texts(columns@)),
{
    let ghost models = pair_texts(columns@);
    let mut lists: Vec<Vec<Vec<char>>> = Vec::new();
    assert(piece_lists(lists@) =~= tag_lists(models, 0));
    let mut i: usize = 0;
    while i < columns.len()
        invariant
            i <= columns@.len(),
            models == pair_texts(columns@),
            piece_lists(lists@) == tag_lists(models, i as nat),
        decreases columns@.len() - i,
    {
        let ghost earlier = lists@;
        assert(models[i as int].0 == columns@[i as int].0@);
        let tags = split_path(columns[i].0.as_str());
        if tags.len() > 0 {
            let ghost t = pieces(tags@);
            lists.push(tags);
            assert(piece_lists(lists@) =~= piece_lists(earlier).push(t));
        }
        i += 1;
    }
    let ghost all = piece_lists(lists@);
    assert(models.len() == columns@.len());
    assert(all == tag_lists(models, models.len()));
    if lists.len() == 0 {
        let out = String::new();
        assert(out@ =~= Seq::empty());
        return out;
    }
    assert(all[0] == pieces(lists@[0]@));
    let mut n: usize = 0;
    while n < lists[0].len() && every_list_has(&lists, n, &lists[0][n])
        invariant
            lists@.len() > 0,
            all == piece_lists(lists@),
            all[0] == pieces(lists@[0]@),
            n <= lists@[0]@.len(),
            shared_len(all[0], all, 0) == shared_len(all[0], all, n as int),
        decreases lists@[0]@.len() - n,
    {
        assert(all[0][n as int] == lists@[0]@[n as int]@);
        n += 1;
    }
    assert(n < lists@[0]@.len() ==> all[0][n as int] == lists@[0]@[n as int]@);
    assert(shared_len(all[0], all, 0) == n);
    let mut prefix: Vec<Vec<char>> = Vec::new();
    let mut k: usize = 0;
    while k < n
        invariant
            lists@.len() > 0,
            k <= n <= lists@[0]@.len(),
            pieces(prefix@) == pieces(lists@[0]@).take(k as int),
        decreases n - k,
    {
        let ghost earlier = prefix@;
        prefix.push(copy_chars(&lists[0][k]));
        assert(pieces(prefix@) =~= pieces(earlier).push(lists@[0]@[k as int]@));
        assert(pieces(prefix@) =~= pieces(lists@[0]@).take(k + 1));
        k += 1;
    }
    if n == 0 {
        let out = String::new();
        assert(out@ =~= Seq::empty());
        return out;
    }
    let mut slash: Vec<char> = Vec::new();
    slash.push('/');
    assert(slash@ =~= seq!['/']);
    let mut out: Vec<char> = Vec::new();
    out.push('/');
    push_chars(&mut out, &join_pieces(&prefix, &slash));
    assert(out@ =~= path_of(pieces(prefix@)));
    string_of(&out)
}

} // verus!
