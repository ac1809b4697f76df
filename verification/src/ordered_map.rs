//! A map from text to text that keeps its entries in the order of their keys.
use vstd::prelude::*;

use crate::text::{chars_of, same_str};

verus! {

/// The entries of a map.
pub type Entries = Seq<(Seq<char>, Seq<char>)>;

/// The order of texts: that of the first characters in which they differ.
pub open spec fn text_less(a: Seq<char>, b: Seq<char>) -> bool
    decreases a.len(),
{
    if b.len() == 0 {
        false
    } else if a.len() == 0 {
        true
    } else if a[0] != b[0] {
        a[0] < b[0]
    } else {
        text_less(a.drop_first(), b.drop_first())
    }
}

/// Entries in the order of their keys, no key twice.
pub open spec fn in_key_order(s: Entries) -> bool {
    forall|i: int, j: int|
        0 <= i < j < s.len() ==> text_less((#[trigger] s[i]).0, (#[trigger] s[j]).0)
}

/// The value at the given key.
pub open spec fn lookup(s: Entries, k: Seq<char>) -> Option<Seq<char>>
    decreases s.len(),
{
    if s.len() == 0 {
        None
    } else if s[0].0 == k {
        Some(s[0].1)
    } else {
        lookup(s.drop_first(), k)
    }
}

/// The entries with the value at the given key set.
pub open spec fn put(s: Entries, k: Seq<char>, v: Seq<char>) -> Entries
    decreases s.len(),
{
    if s.len() == 0 {
        seq![(k, v)]
    } else if s[0].0 == k {
        seq![(k, v)] + s.drop_first()
    } else if text_less(k, s[0].0) {
        seq![(k, v)] + s
    } else {
        seq![s[0]] + put(s.drop_first(), k, v)
    }
}

proof fn lemma_text_less_trans(a: Seq<char>, b: Seq<char>, c: Seq<char>)
    requires
        text_less(a, b),
        text_less(b, c),
    ensures
        text_less(a, c),
    decreases a.len(),
{
    if a.len() > 0 && a[0] == b[0] && b[0] == c[0] {
        lemma_text_less_trans(a.drop_first(), b.drop_first(), c.drop_first());
    }
}

proof fn lemma_text_less_total(a: Seq<char>, b: Seq<char>)
    ensures
        a == b || text_less(a, b) || text_less(b, a),
    decreases a.len(),
{
    if a.len() == 0 {
        if b.len() == 0 {
            assert(a =~= b);
        }
    } else if b.len() > 0 && a[0] == b[0] {
        lemma_text_less_total(a.drop_first(), b.drop_first());
        if a.drop_first() == b.drop_first() {
            assert(a =~= seq![a[0]] + a.drop_first());
            assert(b =~= seq![b[0]] + b.drop_first());
        }
    }
}

proof fn lemma_order_rest(s: Entries)
    requires
        in_key_order(s),
        s.len() > 0,
    ensures
        in_key_order(s.drop_first()),
{
    let t = s.drop_first();
    assert forall|i: int, j: int| 0 <= i < j < t.len() implies text_less(
        (#[trigger] t[i]).0,
        (#[trigger] t[j]).0,
    ) by {
        assert(t[i] == s[i + 1] && t[j] == s[j + 1]);
    }
}

/// What stands in the entries after a value is set stood there before, or is what was set.
proof fn lemma_put_keys(s: Entries, k: Seq<char>, v: Seq<char>, j: int)
    requires
        0 <= j < put(s, k, v).len(),
    ensures
        put(s, k, v)[j].0 == k || exists|i: int| 0 <= i < s.len() && s[i].0 == put(s, k, v)[j].0,
    decreases s.len(),
{
    if s.len() > 0 {
        if s[0].0 == k {
            if j > 0 {
                assert(put(s, k, v)[j] == s[j]);
            }
        } else if text_less(k, s[0].0) {
            if j > 0 {
                assert(put(s, k, v)[j] == s[j - 1]);
            }
        } else if j == 0 {
            assert(put(s, k, v)[0] == s[0]);
        } else {
            let t = s.drop_first();
            assert(put(s, k, v)[j] == put(t, k, v)[j - 1]);
            lemma_put_keys(t, k, v, j - 1);
            if put(t, k, v)[j - 1].0 != k {
                let i = choose|i: int| 0 <= i < t.len() && t[i].0 == put(t, k, v)[j - 1].0;
                assert(s[i + 1] == t[i]);
            }
        }
    }
}

/// Setting a value keeps the entries in the order of their keys.
pub proof fn law_put_keeps_order(s: Entries, k: Seq<char>, v: Seq<char>)
    requires
        in_key_order(s),
    ensures
        in_key_order(put(s, k, v)),
    decreases s.len(),
{
    let p = put(s, k, v);
    if s.len() > 0 {
        let t = s.drop_first();
        lemma_order_rest(s);
        if s[0].0 == k {
            assert forall|i: int, j: int| 0 <= i < j < p.len() implies text_less(
                (#[trigger] p[i]).0,
                (#[trigger] p[j]).0,
            ) by {
                assert(p[i].0 == s[i].0 && p[j].0 == s[j].0);
            }
        } else if text_less(k, s[0].0) {
            assert forall|i: int, j: int| 0 <= i < j < p.len() implies text_less(
                (#[trigger] p[i]).0,
                (#[trigger] p[j]).0,
            ) by {
                assert(p[j] == s[j - 1]);
                if i > 0 {
                    assert(p[i] == s[i - 1]);
                } else if j > 1 {
                    lemma_text_less_trans(k, s[0].0, s[j - 1].0);
                }
            }
        } else {
            law_put_keeps_order(t, k, v);
            lemma_text_less_total(k, s[0].0);
            let q = put(t, k, v);
            assert forall|i: int, j: int| 0 <= i < j < p.len() implies text_less(
                (#[trigger] p[i]).0,
                (#[trigger] p[j]).0,
            ) by {
                assert(p[j] == q[j - 1]);
                if i > 0 {
                    assert(p[i] == q[i - 1]);
                } else {
                    lemma_put_keys(t, k, v, j - 1);
                    if q[j - 1].0 != k {
                        let m = choose|m: int| 0 <= m < t.len() && t[m].0 == q[j - 1].0;
                        assert(t[m] == s[m + 1]);
                    }
                }
            }
        }
    }
}

/// Looking up a key gives the value that was set last; the other keys are left alone.
pub proof fn law_put_then_lookup(s: Entries, k: Seq<char>, v: Seq<char>, j: Seq<char>)
    requires
        in_key_order(s),
    ensures
        lookup(put(s, k, v), j) == (if j == k {
            Some(v)
        } else {
            lookup(s, j)
        }),
    decreases s.len(),
{
    let p = put(s, k, v);
    if s.len() == 0 {
        assert(p.drop_first() =~= Seq::empty());
        assert(lookup(p.drop_first(), j) is None);
    } else {
        let t = s.drop_first();
        assert(p.len() > 0);
        if s[0].0 == k {
            assert(p.drop_first() =~= t);
        } else if text_less(k, s[0].0) {
            assert(p.drop_first() =~= s);
        } else {
            lemma_order_rest(s);
            law_put_then_lookup(t, k, v, j);
            assert(p.drop_first() =~= put(t, k, v));
        }
    }
}

// ---------------------------------------------------------------------------
// The map
// ---------------------------------------------------------------------------

/// A map from text to text that keeps its entries in the order of their keys.
#[derive(Debug, PartialEq, Eq)]
pub struct XbrlMap {
    entries: Vec<(String, String)>,
}

pub open spec fn pair_texts(v: Seq<(String, String)>) -> Entries {
    v.map_values(|p: (String, String)| (p.0@, p.1@))
}

impl View for XbrlMap {
    type V = Entries;

    closed spec fn view(&self) -> Entries {
        pair_texts(self.entries@)
    }
}

/// Whether the first text comes before the second.
pub fn comes_before(a: &[char], b: &[char]) -> (r: bool)
    ensures
        r == text_less(a@, b@),
{
    let mut i: usize = 0;
    assert(a@.skip(0) =~= a@);
    assert(b@.skip(0) =~= b@);
    while i < a.len() && i < b.len() && a[i] == b[i]
        invariant
            i <= a@.len(),
            i <= b@.len(),
            text_less(a@, b@) == text_less(a@.skip(i as int), b@.skip(i as int)),
        decreases a@.len() - i,
    {
        assert(a@.skip(i as int).drop_first() =~= a@.skip(i + 1));
        assert(b@.skip(i as int).drop_first() =~= b@.skip(i + 1));
        i += 1;
    }
    if i >= b.len() {
        false
    } else if i >= a.len() {
        true
    } else {
        a[i] < b[i]
    }
}

impl XbrlMap {
    #[verifier::type_invariant]
    spec fn ordered(self) -> bool {
        in_key_order(pair_texts(self.entries@))
    }

    pub fn new() -> (m: Self)
        ensures
            m@ == Seq::<(Seq<char>, Seq<char>)>::empty(),
    {
        let m = XbrlMap { entries: Vec::new() };
        assert(m@ =~= Seq::<(Seq<char>, Seq<char>)>::empty());
        m
    }

    /// The entries are in the order of their keys.
    pub fn entries(&self) -> (v: &Vec<(String, String)>)
        ensures
            pair_texts(v@) == self@,
            in_key_order(self@),
    {
        proof {
            use_type_invariant(self);
        }
        &self.entries
    }

    pub fn get(&self, key: &str) -> (value: Option<&String>)
        ensures
            match value {
                Some(v) => lookup(self@, key@) == Some(v@),
                None => lookup(self@, key@) is None,
            },
    {
        let mut i: usize = 0;
        assert(self@.skip(0) =~= self@);
        while i < self.entries.len()
            invariant
                i <= self.entries@.len(),
                self@.len() == self.entries@.len(),
                lookup(self@, key@) == lookup(self@.skip(i as int), key@),
            decreases self.entries@.len() - i,
        {
            let ghost entry = self.entries@[i as int];
            assert(self@.skip(i as int)[0] == (entry.0@, entry.1@));
            assert(self@.skip(i as int).drop_first() =~= self@.skip(i + 1));
            if same_str(self.entries[i].0.as_str(), key) {
                return Some(&self.entries[i].1);
            }
            i += 1;
        }
        None
    }

    pub fn contains_key(&self, key: &str) -> (r: bool)
        ensures
            r == (lookup(self@, key@) is Some),
    {
        self.get(key).is_some()
    }

    /// Sets the value at the given key.
    pub fn insert(&mut self, key: String, value: String)
        ensures
            final(self)@ == put(old(self)@, key@, value@),
    {
        proof {
            use_type_invariant(&*self);
            law_put_keeps_order(self@, key@, value@);
        }
        let ghost before = self@;
        let key_chars = chars_of(key.as_str());
        let mut place: usize = 0;
        assert(before.skip(0) =~= before);
        assert(before.take(0) + put(before, key@, value@) =~= put(before, key@, value@));
        while place < self.entries.len() && !same_str(self.entries[place].0.as_str(), key.as_str())
            && !comes_before(&key_chars, &chars_of(self.entries[place].0.as_str()))
            invariant
                place <= self.entries@.len(),
                before == pair_texts(self.entries@),
                key_chars@ == key@,
                before.take(place as int) + put(before.skip(place as int), key@, value@) == put(
                    before,
                    key@,
                    value@,
                ),
            decreases self.entries@.len() - place,
        {
            let ghost rest = before.skip(place as int);
            assert(rest[0].0 == self.entries@[place as int].0@);
            assert(rest.drop_first() =~= before.skip(place + 1));
            assert(before.take(place as int) + (seq![rest[0]] + put(
                rest.drop_first(),
                key@,
                value@,
            )) =~= before.take(place + 1) + put(before.skip(place + 1), key@, value@));
            place += 1;
        }
        let mut entries: Vec<(String, String)> = Vec::new();
        std::mem::swap(&mut entries, &mut self.entries);
        let ghost k = key@;
        let ghost v = value@;
        let ghost old_entries = entries@;
        let ghost rest = before.skip(place as int);
        if place < entries.len() && same_str(entries[place].0.as_str(), key.as_str()) {
            assert(rest[0].0 == k);
            entries.set(place, (key, value));
            assert(pair_texts(entries@) =~= before.take(place as int) + (seq![(k, v)]
                + rest.drop_first()));
        } else {
            entries.insert(place, (key, value));
            assert(pair_texts(entries@) =~= before.take(place as int) + (seq![(k, v)] + rest));
            proof {
                if place < old_entries.len() {
                    assert(rest[0].0 == old_entries[place as int].0@);
                } else {
                    assert(rest =~= Seq::empty());
                    assert(seq![(k, v)] + rest =~= seq![(k, v)]);
                }
            }
        }
        assert(pair_texts(entries@) == put(before, k, v));
        self.entries = entries;
    }

    /// A map with the same entries.
    pub fn duplicate(&self) -> (m: Self)
        ensures
            m@ == self@,
    {
        proof {
            use_type_invariant(self);
        }
        let mut entries: Vec<(String, String)> = Vec::new();
        let mut i: usize = 0;
        while i < self.entries.len()
            invariant
                i <= self.entries@.len(),
                pair_texts(entries@) == pair_texts(self.entries@.take(i as int)),
            decreases self.entries@.len() - i,
        {
            let ghost before = entries@;
            entries.push((self.entries[i].0.clone(), self.entries[i].1.clone()));
            assert(pair_texts(entries@) =~= pair_texts(before).push(
                (self.entries@[i as int].0@, self.entries@[i as int].1@),
            ));
            assert(pair_texts(entries@) =~= pair_texts(self.entries@.take(i + 1)));
            i += 1;
        }
        assert(self.entries@.take(i as int) =~= self.entries@);
        XbrlMap { entries }
    }
}

impl Clone for XbrlMap {
    fn clone(&self) -> (m: Self)
        ensures
            m@ == self@,
    {
        self.duplicate()
    }
}

} // verus!
