//! The collections of `indexmap`: maps and sets that keep the order of insertion.
use indexmap::IndexMap;
use vstd::prelude::*;

use crate::ordered_map::pair_texts;

verus! {

#[verifier::external_type_specification]
#[verifier::external_body]
#[verifier::reject_recursive_types(K)]
#[verifier::reject_recursive_types(V)]
#[verifier::reject_recursive_types(S)]
pub struct ExIndexMap<K, V, S>(indexmap::IndexMap<K, V, S>);

#[verifier::external_type_specification]
#[verifier::external_body]
#[verifier::reject_recursive_types(T)]
#[verifier::reject_recursive_types(S)]
pub struct ExIndexSet<T, S>(indexmap::IndexSet<T, S>);

/// The place of a key among the entries, or their number.
pub open spec fn entry_index<V>(s: Seq<(Seq<char>, V)>, key: Seq<char>) -> nat
    decreases s.len(),
{
    if s.len() == 0 || s[0].0 == key {
        0
    } else {
        1 + entry_index(s.drop_first(), key)
    }
}

/// The value at a key.
pub open spec fn entry_value<V>(s: Seq<(Seq<char>, V)>, key: Seq<char>) -> Option<V> {
    if entry_index(s, key) < s.len() {
        Some(s[entry_index(s, key) as int].1)
    } else {
        None
    }
}

/// The entries with the value at a key set: a key that is there keeps its place, a new one comes
/// last.
pub open spec fn with_entry<V>(s: Seq<(Seq<char>, V)>, key: Seq<char>, value: V) -> Seq<
    (Seq<char>, V),
> {
    if entry_index(s, key) < s.len() {
        s.update(entry_index(s, key) as int, (key, value))
    } else {
        s.push((key, value))
    }
}

/// The items with one more, unless it is there.
pub open spec fn with_item<T>(s: Seq<T>, item: T) -> Seq<T> {
    if s.contains(item) {
        s
    } else {
        s.push(item)
    }
}

pub open spec fn entry_keys<V>(s: Seq<(Seq<char>, V)>) -> Seq<Seq<char>> {
    s.map_values(|e: (Seq<char>, V)| e.0)
}

pub proof fn lemma_entry_index<V>(s: Seq<(Seq<char>, V)>, key: Seq<char>)
    ensures
        entry_index(s, key) <= s.len(),
        entry_index(s, key) < s.len() ==> s[entry_index(s, key) as int].0 == key,
        forall|j: int| 0 <= j < entry_index(s, key) ==> (#[trigger] s[j]).0 != key,
        entry_index(s, key) < s.len() <==> entry_keys(s).contains(key),
    decreases s.len(),
{
    let n = entry_index(s, key);
    if s.len() > 0 && s[0].0 != key {
        let t = s.drop_first();
        lemma_entry_index(t, key);
        assert forall|j: int| 0 <= j < n implies (#[trigger] s[j]).0 != key by {
            if j > 0 {
                assert(s[j] == t[j - 1]);
            }
        }
        if n < s.len() {
            assert(s[n as int] == t[n - 1]);
        }
    }
    if n < s.len() {
        assert(entry_keys(s)[n as int] == key);
    } else if entry_keys(s).contains(key) {
        let j = choose|j: int| 0 <= j < entry_keys(s).len() && entry_keys(s)[j] == key;
        assert(s[j].0 == key);
    }
}

/// Setting the value at a key gives that value there, and leaves the others as they are.
pub proof fn law_with_entry_value<V>(
    s: Seq<(Seq<char>, V)>,
    key: Seq<char>,
    value: V,
    other: Seq<char>,
)
    ensures
        entry_value(with_entry(s, key, value), other) == (if other == key {
            Some(value)
        } else {
            entry_value(s, other)
        }),
{
    let t = with_entry(s, key, value);
    lemma_entry_index(s, key);
    lemma_entry_index(s, other);
    lemma_entry_index(t, other);
    let n = entry_index(s, other);
    let m = entry_index(t, other);
    if other == key {
        let k = entry_index(s, key) as int;
        assert(t[k] == (key, value));
        if m < k {
            assert(t[m as int] == s[m as int]);
        }
        if m > k {
            assert(t[k].0 != other);
        }
    } else {
        if n < s.len() {
            assert(t[n as int] == s[n as int]);
            if m < n {
                assert(t[m as int] == s[m as int] || t[m as int].0 == key);
            }
            if m > n {
                assert(t[n as int].0 != other);
            }
        } else if m < t.len() {
            assert(t[m as int].0 == other);
            if m < s.len() {
                assert(t[m as int] == s[m as int] || t[m as int].0 == key);
            }
        }
    }
}

/// The items in the opposite order.
pub fn turned_round<T>(items: Vec<T>) -> (out: Vec<T>)
    ensures
        out@ == items@.reverse(),
{
    let ghost all = items@;
    let mut items = items;
    let mut out: Vec<T> = Vec::new();
    while items.len() > 0
        invariant
            items@.len() + out@.len() == all.len(),
            items@ == all.take(items@.len() as int),
            forall|k: int| 0 <= k < out@.len() ==> #[trigger] out@[k] == all[all.len() - 1 - k],
        decreases items@.len(),
    {
        match items.pop() {
            Some(item) => out.push(item),
            None => {},
        }
        assert(items@ =~= all.take(items@.len() as int));
    }
    assert(out@ =~= all.reverse());
    out
}

// ---------------------------------------------------------------------------
// Maps of texts
// ---------------------------------------------------------------------------

/// The entries of a map of texts, in their order.
pub uninterp spec fn text_entries(m: IndexMap<String, String>) -> Seq<(Seq<char>, Seq<char>)>;

/// `IndexMap::new`: no entries.
#[verifier::external_body]
pub(crate) fn new_text_map() -> (m: IndexMap<String, String>)
    ensures
        text_entries(m) == Seq::<(Seq<char>, Seq<char>)>::empty(),
{
    IndexMap::new()
}

/// `IndexMap::clone`: the same entries in the same order.
#[verifier::external_body]
pub(crate) fn copy_text_map(m: &IndexMap<String, String>) -> (copy: IndexMap<String, String>)
    ensures
        text_entries(copy) == text_entries(*m),
{
    m.clone()
}

/// `IndexMap::insert`: the value at the key is set; a new key comes last.
#[verifier::external_body]
pub(crate) fn set_text(m: &mut IndexMap<String, String>, key: String, value: String)
    ensures
        text_entries(*final(m)) == with_entry(text_entries(*old(m)), key@, value@),
{
    m.insert(key, value);
}

/// `IndexMap::iter`: the entries in their order.
#[verifier::external_body]
pub(crate) fn text_pairs(m: &IndexMap<String, String>) -> (pairs: Vec<(String, String)>)
    ensures
        pair_texts(pairs@) == text_entries(*m),
{
    m.iter().map(|(k, v)| (k.clone(), v.clone())).collect()
}

/// `IndexMap::get`: the value at the key, if it is there.
#[verifier::external_body]
pub(crate) fn get_text<'a>(m: &'a IndexMap<String, String>, key: &str) -> (value: Option<
    &'a String,
>)
    ensures
        match value {
            Some(v) => entry_value(text_entries(*m), key@) == Some(v@),
            None => entry_value(text_entries(*m), key@) is None,
        },
{
    m.get(key)
}

} // verus!
