//! What the JSON of a submission says, told by reading it.
use vstd::prelude::*;
use vstd::utf8::{encode_utf8, is_ascii_chars, is_ascii_chars_encode_utf8};

use crate::metadata_json::{
    document_json, documents_json, header_members, json_escape, json_escapes, json_group,
    json_members, json_node, json_string, json_unescaped, law_json_string_reads_back,
    lemma_byte_numeral, lemma_escapes_first, metadata_text, occurrences, section_end, DocumentEntry,
    HeaderNode,
};
use crate::sgml::{SubmissionEvent, SubmissionEventType};

verus! {

// ---------------------------------------------------------------------------
// Reading
// ---------------------------------------------------------------------------

/// A JSON value made of texts, arrays and objects.
pub enum Json {
    Text(Seq<u8>),
    List(Seq<Json>),
    Object(Seq<(Seq<u8>, Json)>),
}

/// The place of the quote that ends a string, from the `i`-th byte on.
pub open spec fn string_end(t: Seq<u8>, i: int) -> int
    decreases t.len() - i,
{
    if i >= t.len() || t[i] == 34 {
        i
    } else if t[i] == 92 && i + 1 < t.len() {
        string_end(t, i + 2)
    } else {
        string_end(t, i + 1)
    }
}

/// The string that a text begins with, and the rest.
pub open spec fn read_text(t: Seq<u8>) -> Option<(Seq<u8>, Seq<u8>)> {
    let end = string_end(t, 1);
    if t.len() > 0 && t[0] == 34 && 1 <= end < t.len() {
        Some((json_unescaped(t.subrange(1, end)), t.skip(end + 1)))
    } else {
        None
    }
}

/// The value that a text begins with, and the rest.
pub open spec fn read_value(t: Seq<u8>) -> Option<(Json, Seq<u8>)>
    decreases t.len(), 0nat,
{
    if t.len() == 0 {
        None
    } else if t[0] == 34 {
        match read_text(t) {
            Some((s, rest)) => Some((Json::Text(s), rest)),
            None => None,
        }
    } else if t[0] == 91 {
        if t.len() > 1 && t[1] == 93 {
            Some((Json::List(Seq::empty()), t.skip(2)))
        } else {
            match read_items(t.skip(1)) {
                Some((items, rest)) => Some((Json::List(items), rest)),
                None => None,
            }
        }
    } else if t[0] == 123 {
        if t.len() > 1 && t[1] == 125 {
            Some((Json::Object(Seq::empty()), t.skip(2)))
        } else {
            match read_members(t.skip(1)) {
                Some((members, rest)) => Some((Json::Object(members), rest)),
                None => None,
            }
        }
    } else {
        None
    }
}

/// The values up to the end of an array, and the rest.
pub open spec fn read_items(t: Seq<u8>) -> Option<(Seq<Json>, Seq<u8>)>
    decreases t.len(), 2nat,
{
    match read_value(t) {
        Some((v, rest)) => if rest.len() == 0 || rest.len() > t.len() {
            None
        } else if rest[0] == 93 {
            Some((seq![v], rest.skip(1)))
        } else if rest[0] == 44 {
            match read_items(rest.skip(1)) {
                Some((more, last)) => Some((seq![v] + more, last)),
                None => None,
            }
        } else {
            None
        },
        None => None,
    }
}

/// A name, a colon and a value, and the rest.
pub open spec fn read_member(t: Seq<u8>) -> Option<((Seq<u8>, Json), Seq<u8>)>
    decreases t.len(), 1nat,
{
    match read_text(t) {
        Some((k, rest)) => if rest.len() == 0 || rest.len() > t.len() || rest[0] != 58 {
            None
        } else {
            match read_value(rest.skip(1)) {
                Some((v, last)) => Some(((k, v), last)),
                None => None,
            }
        },
        None => None,
    }
}

/// The members up to the end of an object, and the rest.
pub open spec fn read_members(t: Seq<u8>) -> Option<(Seq<(Seq<u8>, Json)>, Seq<u8>)>
    decreases t.len(), 2nat,
{
    match read_member(t) {
        Some((m, rest)) => if rest.len() == 0 || rest.len() > t.len() {
            None
        } else if rest[0] == 125 {
            Some((seq![m], rest.skip(1)))
        } else if rest[0] == 44 {
            match read_members(rest.skip(1)) {
                Some((more, last)) => Some((seq![m] + more, last)),
                None => None,
            }
        } else {
            None
        },
        None => None,
    }
}

// ---------------------------------------------------------------------------
// Reading what is written
// ---------------------------------------------------------------------------

/// Whether a text reads as the given string, whatever stands behind it.
spec fn reads_text(part: Seq<u8>, s: Seq<u8>) -> bool {
    forall|rest: Seq<u8>| #[trigger] read_text(part + rest) == Some((s, rest))
}

/// Whether a text reads as the given value, whatever stands behind it.
pub open spec fn reads_value(part: Seq<u8>, j: Json) -> bool {
    forall|rest: Seq<u8>| #[trigger] read_value(part + rest) == Some((j, rest))
}

/// Whether a text reads as the given member, whatever stands behind it.
spec fn reads_member(part: Seq<u8>, m: (Seq<u8>, Json)) -> bool {
    forall|rest: Seq<u8>| #[trigger] read_member(part + rest) == Some((m, rest))
}

/// The parts with commas between.
spec fn listed(parts: Seq<Seq<u8>>) -> Seq<u8>
    decreases parts.len(),
{
    if parts.len() == 0 {
        Seq::empty()
    } else if parts.len() == 1 {
        parts[0]
    } else {
        parts[0] + seq![44u8] + listed(parts.drop_first())
    }
}

proof fn lemma_listed_push(parts: Seq<Seq<u8>>, part: Seq<u8>)
    ensures
        listed(parts.push(part)) == (if parts.len() == 0 {
            part
        } else {
            listed(parts) + seq![44u8] + part
        }),
    decreases parts.len(),
{
    let more = parts.push(part);
    if parts.len() == 0 {
        assert(more[0] == part);
    } else if parts.len() == 1 {
        assert(more.drop_first() =~= seq![part]);
        assert(listed(seq![part]) == part);
    } else {
        lemma_listed_push(parts.drop_first(), part);
        assert(more.drop_first() =~= parts.drop_first().push(part));
        assert(listed(more) =~= listed(parts) + seq![44u8] + part);
    }
}

proof fn lemma_items(parts: Seq<Seq<u8>>, items: Seq<Json>, rest: Seq<u8>)
    requires
        0 < parts.len() == items.len(),
        forall|i: int| 0 <= i < items.len() ==> reads_value(#[trigger] parts[i], items[i]),
    ensures
        read_items(listed(parts) + seq![93u8] + rest) == Some((items, rest)),
    decreases parts.len(),
{
    let t = listed(parts) + seq![93u8] + rest;
    assert(reads_value(parts[0], items[0]));
    if parts.len() == 1 {
        let behind = seq![93u8] + rest;
        assert(t =~= parts[0] + behind);
        assert(read_value(parts[0] + behind) == Some((items[0], behind)));
        assert(behind.skip(1) =~= rest);
        assert(seq![items[0]] =~= items);
    } else {
        let (p, q) = (parts.drop_first(), items.drop_first());
        assert forall|i: int| 0 <= i < q.len() implies reads_value(#[trigger] p[i], q[i]) by {
            assert(p[i] == parts[i + 1]);
        }
        lemma_items(p, q, rest);
        let behind = seq![44u8] + (listed(p) + seq![93u8] + rest);
        assert(t =~= parts[0] + behind);
        assert(read_value(parts[0] + behind) == Some((items[0], behind)));
        assert(behind.skip(1) =~= listed(p) + seq![93u8] + rest);
        assert(seq![items[0]] + q =~= items);
    }
}

proof fn lemma_members(parts: Seq<Seq<u8>>, members: Seq<(Seq<u8>, Json)>, rest: Seq<u8>)
    requires
        0 < parts.len() == members.len(),
        forall|i: int| 0 <= i < members.len() ==> reads_member(#[trigger] parts[i], members[i]),
    ensures
        read_members(listed(parts) + seq![125u8] + rest) == Some((members, rest)),
    decreases parts.len(),
{
    let t = listed(parts) + seq![125u8] + rest;
    assert(reads_member(parts[0], members[0]));
    if parts.len() == 1 {
        let behind = seq![125u8] + rest;
        assert(t =~= parts[0] + behind);
        assert(read_member(parts[0] + behind) == Some((members[0], behind)));
        assert(behind.skip(1) =~= rest);
        assert(seq![members[0]] =~= members);
    } else {
        let (p, q) = (parts.drop_first(), members.drop_first());
        assert forall|i: int| 0 <= i < q.len() implies reads_member(#[trigger] p[i], q[i]) by {
            assert(p[i] == parts[i + 1]);
        }
        lemma_members(p, q, rest);
        let behind = seq![44u8] + (listed(p) + seq![125u8] + rest);
        assert(t =~= parts[0] + behind);
        assert(read_member(parts[0] + behind) == Some((members[0], behind)));
        assert(behind.skip(1) =~= listed(p) + seq![125u8] + rest);
        assert(seq![members[0]] + q =~= members);
    }
}

proof fn lemma_string_end(t: Seq<u8>, i: int, s: Seq<u8>)
    requires
        0 <= i,
        i + json_escapes(s).len() < t.len(),
        t.subrange(i, i + json_escapes(s).len()) == json_escapes(s),
        t[i + json_escapes(s).len()] == 34,
    ensures
        string_end(t, i) == i + json_escapes(s).len(),
    decreases s.len(),
{
    let all = json_escapes(s);
    if s.len() > 0 {
        let rest = s.drop_first();
        let first = json_escape(s[0]);
        lemma_escapes_first(s);
        lemma_byte_numeral(s[0]);
        let n = first.len() as int;
        assert(all.skip(n) =~= json_escapes(rest));
        assert(t.subrange(i + n, i + n + json_escapes(rest).len()) =~= t.subrange(
            i,
            i + all.len(),
        ).skip(n));
        lemma_string_end(t, i + n, rest);
        assert forall|k: int| 0 <= k < n implies t[i + k] == #[trigger] first[k] by {
            assert(t.subrange(i, i + all.len())[k] == all[k]);
        }
        assert(t[i] == first[0]);
        if n == 2 {
            assert(t[i + 1] == first[1]);
        }
        if n == 6 {
            assert(t[i + 1] == first[1] && t[i + 2] == first[2] && t[i + 3] == first[3] && t[i + 4]
                == first[4] && t[i + 5] == first[5]);
            assert(string_end(t, i + 5) == string_end(t, i + 6));
            assert(string_end(t, i + 4) == string_end(t, i + 5));
            assert(string_end(t, i + 3) == string_end(t, i + 4));
            assert(string_end(t, i + 2) == string_end(t, i + 3));
        }
    }
}

proof fn lemma_text(s: Seq<u8>)
    ensures
        reads_text(json_string(s), s),
        reads_value(json_string(s), Json::Text(s)),
{
    law_json_string_reads_back(s);
    let inside = json_escapes(s);
    assert forall|rest: Seq<u8>| #[trigger] read_text(json_string(s) + rest) == Some((s, rest)) by {
        let t = json_string(s) + rest;
        let n = inside.len() as int;
        assert(t.subrange(1, 1 + n) =~= inside);
        lemma_string_end(t, 1, s);
        assert(t.skip(n + 2) =~= rest);
    }
    assert forall|rest: Seq<u8>| #[trigger] read_value(json_string(s) + rest) == Some(
        (Json::Text(s), rest),
    ) by {
        assert(read_text(json_string(s) + rest) == Some((s, rest)));
    }
}

/// A name, a colon and a value make a member.
proof fn lemma_member(k: Seq<u8>, text: Seq<u8>, j: Json)
    requires
        reads_value(text, j),
    ensures
        reads_member(json_string(k) + seq![58u8] + text, (k, j)),
{
    lemma_text(k);
    let part = json_string(k) + seq![58u8] + text;
    assert forall|rest: Seq<u8>| #[trigger] read_member(part + rest) == Some(((k, j), rest)) by {
        let behind = seq![58u8] + text + rest;
        assert(part + rest =~= json_string(k) + behind);
        assert(read_text(json_string(k) + behind) == Some((k, behind)));
        assert(behind.skip(1) =~= text + rest);
        assert(read_value(text + rest) == Some((j, rest)));
    }
}

/// Parts in brackets make an array.
proof fn lemma_list(parts: Seq<Seq<u8>>, items: Seq<Json>)
    requires
        parts.len() == items.len(),
        forall|i: int| 0 <= i < items.len() ==> reads_value(#[trigger] parts[i], items[i]),
        parts.len() > 0 ==> parts[0].len() > 0 && parts[0][0] != 93,
    ensures
        reads_value(seq![91u8] + listed(parts) + seq![93u8], Json::List(items)),
{
    let text = seq![91u8] + listed(parts) + seq![93u8];
    assert forall|rest: Seq<u8>| #[trigger] read_value(text + rest) == Some(
        (Json::List(items), rest),
    ) by {
        let t = text + rest;
        if parts.len() == 0 {
            assert(t[1] == 93);
            assert(t.skip(2) =~= rest);
            assert(items =~= Seq::empty());
        } else {
            lemma_items(parts, items, rest);
            assert(listed(parts)[0] == parts[0][0]);
            assert(t[1] == parts[0][0]);
            assert(t.skip(1) =~= listed(parts) + seq![93u8] + rest);
        }
    }
}

/// Parts in braces make an object.
proof fn lemma_object(parts: Seq<Seq<u8>>, members: Seq<(Seq<u8>, Json)>)
    requires
        parts.len() == members.len(),
        forall|i: int| 0 <= i < members.len() ==> reads_member(#[trigger] parts[i], members[i]),
        parts.len() > 0 ==> parts[0].len() > 0 && parts[0][0] == 34,
    ensures
        reads_value(seq![123u8] + listed(parts) + seq![125u8], Json::Object(members)),
{
    let text = seq![123u8] + listed(parts) + seq![125u8];
    assert forall|rest: Seq<u8>| #[trigger] read_value(text + rest) == Some(
        (Json::Object(members), rest),
    ) by {
        let t = text + rest;
        if parts.len() == 0 {
            assert(t[1] == 125);
            assert(t.skip(2) =~= rest);
            assert(members =~= Seq::empty());
        } else {
            lemma_members(parts, members, rest);
            assert(listed(parts)[0] == parts[0][0]);
            assert(t[1] == parts[0][0]);
            assert(t.skip(1) =~= listed(parts) + seq![125u8] + rest);
        }
    }
}

// ---------------------------------------------------------------------------
// Headers
// ---------------------------------------------------------------------------

/// The values of those of the first `n` members that have the key `k`.
pub open spec fn values_under(list: Seq<(Seq<u8>, HeaderNode)>, k: Seq<u8>, n: nat) -> Seq<Json>
    decreases list, 0nat, n,
{
    if n == 0 || n > list.len() {
        Seq::empty()
    } else {
        let earlier = values_under(list, k, (n - 1) as nat);
        if list[n - 1].0 == k {
            earlier.push(tree_of(list[n - 1].1))
        } else {
            earlier
        }
    }
}

/// The members of the first `n`, each key once.
pub open spec fn members_grouped(list: Seq<(Seq<u8>, HeaderNode)>, n: nat) -> Seq<(Seq<u8>, Json)>
    decreases list, 1nat, n,
{
    if n == 0 || n > list.len() {
        Seq::empty()
    } else {
        let earlier = members_grouped(list, (n - 1) as nat);
        let (k, v) = list[n - 1];
        if occurrences(list, k, (n - 1) as nat) > 0 {
            earlier
        } else if occurrences(list, k, list.len()) > 1 {
            earlier.push((k, Json::List(values_under(list, k, list.len()))))
        } else {
            earlier.push((k, tree_of(v)))
        }
    }
}

/// What the JSON of a header value reads as.
pub open spec fn tree_of(node: HeaderNode) -> Json
    decreases node, 0nat, 0nat,
{
    match node {
        HeaderNode::Text(s) => Json::Text(s),
        HeaderNode::Object(list) => Json::Object(members_grouped(list, list.len())),
    }
}

proof fn lemma_node_begins(node: HeaderNode)
    ensures
        json_node(node).len() > 0,
        json_node(node)[0] == 34 || json_node(node)[0] == 123,
{
}

proof fn lemma_group(list: Seq<(Seq<u8>, HeaderNode)>, k: Seq<u8>, n: nat) -> (parts: Seq<Seq<u8>>)
    requires
        n <= list.len(),
    ensures
        json_group(list, k, n) == listed(parts),
        parts.len() == values_under(list, k, n).len() == occurrences(list, k, n),
        forall|i: int|
            0 <= i < parts.len() ==> reads_value(
                #[trigger] parts[i],
                values_under(list, k, n)[i],
            ) && parts[i].len() > 0 && parts[i][0] != 93,
    decreases list, 0nat, n,
{
    if n == 0 {
        Seq::empty()
    } else {
        let before = lemma_group(list, k, (n - 1) as nat);
        if list[n - 1].0 == k {
            let part = json_node(list[n - 1].1);
            lemma_node(list[n - 1].1);
            lemma_node_begins(list[n - 1].1);
            lemma_listed_push(before, part);
            let parts = before.push(part);
            assert(json_group(list, k, n) =~= listed(parts));
            assert forall|i: int| 0 <= i < parts.len() implies reads_value(
                #[trigger] parts[i],
                values_under(list, k, n)[i],
            ) && parts[i].len() > 0 && parts[i][0] != 93 by {
                if i < before.len() {
                    assert(parts[i] == before[i]);
                }
            }
            parts
        } else {
            before
        }
    }
}

proof fn lemma_grouped(list: Seq<(Seq<u8>, HeaderNode)>, n: nat) -> (parts: Seq<Seq<u8>>)
    requires
        n <= list.len(),
    ensures
        json_members(list, n) == listed(parts),
        parts.len() == members_grouped(list, n).len(),
        n > 0 ==> parts.len() > 0,
        forall|i: int|
            0 <= i < parts.len() ==> reads_member(
                #[trigger] parts[i],
                members_grouped(list, n)[i],
            ) && parts[i].len() > 0 && parts[i][0] == 34,
    decreases list, 1nat, n,
{
    if n == 0 {
        Seq::empty()
    } else {
        let before = lemma_grouped(list, (n - 1) as nat);
        let (k, v) = list[n - 1];
        if occurrences(list, k, (n - 1) as nat) > 0 {
            before
        } else {
            let many = occurrences(list, k, list.len()) > 1;
            let text = if many {
                seq![91u8] + json_group(list, k, list.len()) + seq![93u8]
            } else {
                json_node(v)
            };
            let j = if many {
                Json::List(values_under(list, k, list.len()))
            } else {
                tree_of(v)
            };
            if many {
                let items = lemma_all_group(list, k);
                lemma_list(items, values_under(list, k, list.len()));
            } else {
                lemma_node(v);
            }
            lemma_member(k, text, j);
            let part = json_string(k) + seq![58u8] + text;
            lemma_listed_push(before, part);
            let parts = before.push(part);
            assert(json_members(list, n) =~= listed(parts));
            assert forall|i: int| 0 <= i < parts.len() implies reads_member(
                #[trigger] parts[i],
                members_grouped(list, n)[i],
            ) && parts[i].len() > 0 && parts[i][0] == 34 by {
                if i < before.len() {
                    assert(parts[i] == before[i]);
                }
            }
            parts
        }
    }
}

proof fn lemma_all_group(list: Seq<(Seq<u8>, HeaderNode)>, k: Seq<u8>) -> (parts: Seq<Seq<u8>>)
    ensures
        json_group(list, k, list.len()) == listed(parts),
        parts.len() == values_under(list, k, list.len()).len(),
        forall|i: int|
            0 <= i < parts.len() ==> reads_value(
                #[trigger] parts[i],
                values_under(list, k, list.len())[i],
            ) && parts[i].len() > 0 && parts[i][0] != 93,
    decreases list, 1nat, 0nat,
{
    lemma_group(list, k, list.len())
}

proof fn lemma_node(node: HeaderNode)
    ensures
        reads_value(json_node(node), tree_of(node)),
    decreases node, 0nat, 0nat,
{
    match node {
        HeaderNode::Text(s) => lemma_text(s),
        HeaderNode::Object(list) => {
            let parts = lemma_grouped(list, list.len());
            lemma_object(parts, members_grouped(list, list.len()));
        },
    }
}

/// Whether `at` names, in order, the members with the key `k`.
pub open spec fn names_under(at: Seq<int>, list: Seq<(Seq<u8>, HeaderNode)>, k: Seq<u8>) -> bool {
    &&& forall|i: int, j: int| 0 <= i < j < at.len() ==> #[trigger] at[i] < #[trigger] at[j]
    &&& forall|i: int|
        0 <= i < at.len() ==> 0 <= #[trigger] at[i] < list.len() && list[at[i]].0 == k
    &&& forall|m: int| 0 <= m < list.len() && (#[trigger] list[m]).0 == k ==> at.contains(m)
}

/// Whether a value holds all that stands under a key: the one value, or an array of the values in
/// their order.
pub open spec fn is_under(v: Json, list: Seq<(Seq<u8>, HeaderNode)>, k: Seq<u8>) -> bool {
    exists|at: Seq<int>|
        #[trigger] names_under(at, list, k) && {
            ||| at.len() == 1 && v == tree_of(list[at[0]].1)
            ||| at.len() > 1 && v == Json::List(
                Seq::new(at.len(), |i: int| tree_of(list[at[i]].1)),
            )
        }
}

/// Whether no member before the `i`-th has its key.
pub open spec fn is_first_of_key(list: Seq<(Seq<u8>, HeaderNode)>, i: int) -> bool {
    forall|j: int| 0 <= j < i ==> (#[trigger] list[j]).0 != list[i].0
}

/// Whether `at` names, in order, the members whose keys are new.
pub open spec fn names_keys(at: Seq<int>, list: Seq<(Seq<u8>, HeaderNode)>) -> bool {
    &&& forall|i: int, j: int| 0 <= i < j < at.len() ==> #[trigger] at[i] < #[trigger] at[j]
    &&& forall|i: int|
        0 <= i < at.len() ==> 0 <= #[trigger] at[i] < list.len() && is_first_of_key(list, at[i])
    &&& forall|m: int|
        0 <= m < list.len() && #[trigger] is_first_of_key(list, m) ==> at.contains(m)
}

/// Whether an object holds each key of a section once, where it first occurs, and under it all that
/// stands under it in the section.
pub open spec fn is_grouping(
    members: Seq<(Seq<u8>, Json)>,
    list: Seq<(Seq<u8>, HeaderNode)>,
) -> bool {
    exists|at: Seq<int>|
        #[trigger] names_keys(at, list) && members.len() == at.len() && forall|i: int|
            0 <= i < at.len() ==> (#[trigger] members[i]).0 == list[at[i]].0 && is_under(
                members[i].1,
                list,
                members[i].0,
            )
}

proof fn lemma_values_under(list: Seq<(Seq<u8>, HeaderNode)>, k: Seq<u8>, n: nat) -> (at: Seq<int>)
    requires
        n <= list.len(),
    ensures
        names_under(at, list.take(n as int), k),
        at.len() == occurrences(list, k, n) == values_under(list, k, n).len(),
        forall|i: int|
            0 <= i < at.len() ==> #[trigger] values_under(list, k, n)[i] == tree_of(
                list[at[i]].1,
            ),
    decreases n,
{
    if n == 0 {
        Seq::empty()
    } else {
        let before = lemma_values_under(list, k, (n - 1) as nat);
        let part = list.take(n - 1);
        let more = list.take(n as int);
        let at = if list[n - 1].0 == k {
            before.push(n - 1)
        } else {
            before
        };
        assert forall|i: int| 0 <= i < at.len() implies 0 <= #[trigger] at[i] < more.len()
            && more[at[i]].0 == k by {
            if i < before.len() {
                assert(at[i] == before[i]);
                assert(part[at[i]] == more[at[i]]);
            }
        }
        assert forall|m: int| 0 <= m < more.len() && (#[trigger] more[m]).0
            == k implies at.contains(m) by {
            if m < n - 1 {
                assert(part[m] == more[m]);
                let i = choose|i: int| 0 <= i < before.len() && before[i] == m;
                assert(at[i] == m);
            } else {
                assert(at[before.len() as int] == m);
            }
        }
        assert forall|i: int| 0 <= i < at.len() implies #[trigger] values_under(list, k, n)[i]
            == tree_of(list[at[i]].1) by {
            if i < before.len() {
                assert(at[i] == before[i]);
                assert(values_under(list, k, (n - 1) as nat)[i] == tree_of(list[before[i]].1));
            }
        }
        at
    }
}

proof fn lemma_occurs(list: Seq<(Seq<u8>, HeaderNode)>, k: Seq<u8>, n: nat)
    requires
        n <= list.len(),
    ensures
        occurrences(list, k, n) > 0 <==> exists|i: int| 0 <= i < n && (#[trigger] list[i]).0 == k,
    decreases n,
{
    if n > 0 {
        lemma_occurs(list, k, (n - 1) as nat);
        if occurrences(list, k, n) > 0 && list[n - 1].0 == k {
            assert(list[n - 1].0 == k);
        }
    }
}

proof fn lemma_grouping(list: Seq<(Seq<u8>, HeaderNode)>, n: nat) -> (at: Seq<int>)
    requires
        n <= list.len(),
    ensures
        names_keys(at, list.take(n as int)),
        members_grouped(list, n).len() == at.len(),
        forall|i: int|
            0 <= i < at.len() ==> (#[trigger] members_grouped(list, n)[i]).0 == list[at[i]].0
                && is_under(members_grouped(list, n)[i].1, list, list[at[i]].0),
    decreases n,
{
    if n == 0 {
        Seq::empty()
    } else {
        let before = lemma_grouping(list, (n - 1) as nat);
        let part = list.take(n - 1);
        let more = list.take(n as int);
        let (k, v) = list[n - 1];
        lemma_occurs(list, k, (n - 1) as nat);
        let new = occurrences(list, k, (n - 1) as nat) == 0;
        let at = if new {
            before.push(n - 1)
        } else {
            before
        };
        let earlier = members_grouped(list, (n - 1) as nat);
        let all = members_grouped(list, n);
        if new {
            let under = lemma_values_under(list, k, list.len());
            assert(list.take(list.len() as int) =~= list);
            assert(list[n - 1].0 == k);
            assert(under.contains(n - 1));
            if under.len() == 1 {
                assert(under[0] == n - 1);
            } else {
                assert(values_under(list, k, list.len()) =~= Seq::new(
                    under.len(),
                    |i: int| tree_of(list[under[i]].1),
                ));
            }
            assert(is_under(all.last().1, list, k));
            assert(is_first_of_key(more, n - 1));
        }
        assert forall|i: int| 0 <= i < at.len() implies 0 <= #[trigger] at[i] < more.len()
            && is_first_of_key(more, at[i]) by {
            if i < before.len() {
                assert(at[i] == before[i]);
                assert(is_first_of_key(part, before[i]));
                assert forall|j: int| 0 <= j < at[i] implies (#[trigger] more[j]).0
                    != more[at[i]].0 by {
                    assert(part[j] == more[j] && part[at[i]] == more[at[i]]);
                }
            }
        }
        assert forall|m: int| 0 <= m < more.len() && #[trigger] is_first_of_key(
            more,
            m,
        ) implies at.contains(m) by {
            if m < n - 1 {
                assert forall|j: int| 0 <= j < m implies (#[trigger] part[j]).0 != part[m].0 by {
                    assert(part[j] == more[j] && part[m] == more[m]);
                }
                assert(is_first_of_key(part, m));
                let i = choose|i: int| 0 <= i < before.len() && before[i] == m;
                assert(at[i] == m);
            } else {
                if !new {
                    let j = choose|j: int| 0 <= j < n - 1 && (#[trigger] list[j]).0 == k;
                    assert(more[j].0 == more[m].0);
                }
                assert(at[before.len() as int] == m);
            }
        }
        assert forall|i: int| 0 <= i < at.len() implies (#[trigger] all[i]).0 == list[at[i]].0
            && is_under(all[i].1, list, list[at[i]].0) by {
            if i < before.len() {
                assert(at[i] == before[i]);
                assert(all[i] == earlier[i]);
            }
        }
        at
    }
}

/// A header value, written as JSON and read again, is the same text, or an object that holds each
/// key of the section once and under it the values of all the members with that key, in order.
pub proof fn law_header_reads_back(node: HeaderNode)
    ensures
        reads_value(json_node(node), tree_of(node)),
        match node {
            HeaderNode::Text(s) => tree_of(node) == Json::Text(s),
            HeaderNode::Object(list) => tree_of(node) matches Json::Object(members) && is_grouping(
                members,
                list,
            ),
        },
{
    lemma_node(node);
    if let HeaderNode::Object(list) = node {
        let at = lemma_grouping(list, list.len());
        assert(list.take(list.len() as int) =~= list);
        let members = members_grouped(list, list.len());
        assert(names_keys(at, list));
        assert(is_grouping(members, list));
    }
}

// ---------------------------------------------------------------------------
// Documents
// ---------------------------------------------------------------------------

/// Whether a name is made of small letters and underscores.
spec fn is_plain_name(k: Seq<char>) -> bool {
    forall|i: int| 0 <= i < k.len() ==> 'a' <= #[trigger] k[i] <= 'z' || k[i] == '_'
}

proof fn lemma_plain_escapes(s: Seq<u8>)
    requires
        forall|i: int| 0 <= i < s.len() ==> 95 <= #[trigger] s[i] <= 122,
    ensures
        json_escapes(s) == s,
    decreases s.len(),
{
    if s.len() > 0 {
        lemma_plain_escapes(s.drop_last());
        assert(s =~= s.drop_last() + seq![s.last()]);
    }
}

/// A quoted name with a colon is the JSON of the name and a colon.
proof fn lemma_name(lead: Seq<char>, k: Seq<char>, text: Seq<char>)
    requires
        is_plain_name(k),
        text == lead + seq!['"'] + k + seq!['"', ':'],
        lead == Seq::<char>::empty() || lead == seq![','],
    ensures
        encode_utf8(text) == (if lead.len() == 0 {
            Seq::empty()
        } else {
            seq![44u8]
        }) + json_string(encode_utf8(k)) + seq![58u8],
{
    assert(is_ascii_chars(k));
    is_ascii_chars_encode_utf8(k);
    assert forall|i: int| 0 <= i < text.len() implies '\0' <= #[trigger] text[i] <= '\u{7f}' by {
        let n = lead.len() as int;
        if n < i && i - n - 1 < k.len() {
            assert(text[i] == k[i - n - 1]);
        }
    }
    is_ascii_chars_encode_utf8(text);
    let b = encode_utf8(k);
    assert forall|i: int| 0 <= i < b.len() implies 95 <= #[trigger] b[i] <= 122 by {
        assert(k[i] as u8 == b[i]);
    }
    lemma_plain_escapes(b);
    let want = (if lead.len() == 0 {
        Seq::empty()
    } else {
        seq![44u8]
    }) + json_string(b) + seq![58u8];
    let n = lead.len() as int;
    assert(encode_utf8(text).len() == want.len());
    assert forall|i: int| 0 <= i < want.len() implies encode_utf8(text)[i] == want[i] by {
        assert(text[i] as u8 == encode_utf8(text)[i]);
        if n < i && i - n - 1 < k.len() {
            assert(text[i] == k[i - n - 1]);
            assert(k[i - n - 1] as u8 == b[i - n - 1]);
            assert(want[i] == b[i - n - 1]);
        }
    }
    assert(encode_utf8(text) =~= want);
}

proof fn lemma_names()
    ensures
        encode_utf8("\"type\":"@) == json_string(encode_utf8("type"@)) + seq![58u8],
        encode_utf8(",\"sequence\":"@) == seq![44u8] + json_string(encode_utf8("sequence"@))
            + seq![58u8],
        encode_utf8(",\"filename\":"@) == seq![44u8] + json_string(encode_utf8("filename"@))
            + seq![58u8],
        encode_utf8(",\"description\":"@) == seq![44u8] + json_string(
            encode_utf8("description"@),
        ) + seq![58u8],
        encode_utf8(",\"secsgml_start_byte\":"@) == seq![44u8] + json_string(
            encode_utf8("secsgml_start_byte"@),
        ) + seq![58u8],
        encode_utf8(",\"secsgml_end_byte\":"@) == seq![44u8] + json_string(
            encode_utf8("secsgml_end_byte"@),
        ) + seq![58u8],
        encode_utf8("\"documents\":["@) == json_string(encode_utf8("documents"@)) + seq![
            58u8,
            91u8,
        ],
        encode_utf8("]}"@) == seq![93u8, 125u8],
{
    let none = Seq::<char>::empty();
    reveal_strlit("type");
    reveal_strlit("\"type\":");
    assert("\"type\":"@ =~= none + seq!['"'] + "type"@ + seq!['"', ':']);
    lemma_name(none, "type"@, "\"type\":"@);
    assert(encode_utf8("\"type\":"@) =~= json_string(encode_utf8("type"@)) + seq![58u8]);
    reveal_strlit("sequence");
    reveal_strlit(",\"sequence\":");
    assert(",\"sequence\":"@ =~= seq![','] + seq!['"'] + "sequence"@ + seq!['"', ':']);
    lemma_name(seq![','], "sequence"@, ",\"sequence\":"@);
    reveal_strlit("filename");
    reveal_strlit(",\"filename\":");
    assert(",\"filename\":"@ =~= seq![','] + seq!['"'] + "filename"@ + seq!['"', ':']);
    lemma_name(seq![','], "filename"@, ",\"filename\":"@);
    reveal_strlit("description");
    reveal_strlit(",\"description\":");
    assert(",\"description\":"@ =~= seq![','] + seq!['"'] + "description"@ + seq!['"', ':']);
    lemma_name(seq![','], "description"@, ",\"description\":"@);
    reveal_strlit("secsgml_start_byte");
    reveal_strlit(",\"secsgml_start_byte\":");
    assert(",\"secsgml_start_byte\":"@ =~= seq![','] + seq!['"'] + "secsgml_start_byte"@ + seq![
        '"',
        ':',
    ]);
    lemma_name(seq![','], "secsgml_start_byte"@, ",\"secsgml_start_byte\":"@);
    reveal_strlit("secsgml_end_byte");
    reveal_strlit(",\"secsgml_end_byte\":");
    assert(",\"secsgml_end_byte\":"@ =~= seq![','] + seq!['"'] + "secsgml_end_byte"@ + seq![
        '"',
        ':',
    ]);
    lemma_name(seq![','], "secsgml_end_byte"@, ",\"secsgml_end_byte\":"@);
    lemma_more_names();
}

proof fn lemma_more_names()
    ensures
        encode_utf8("\"documents\":["@) == json_string(encode_utf8("documents"@)) + seq![
            58u8,
            91u8,
        ],
        encode_utf8("]}"@) == seq![93u8, 125u8],
{
    let none = Seq::<char>::empty();
    reveal_strlit("documents");
    reveal_strlit("\"documents\":[");
    let text = none + seq!['"'] + "documents"@ + seq!['"', ':'];
    lemma_name(none, "documents"@, text);
    assert("\"documents\":["@ =~= text + seq!['[']);
    is_ascii_chars_encode_utf8(text);
    is_ascii_chars_encode_utf8("\"documents\":["@);
    let whole = encode_utf8("\"documents\":["@);
    let want = json_string(encode_utf8("documents"@)) + seq![58u8, 91u8];
    assert forall|i: int| 0 <= i < want.len() implies whole[i] == want[i] by {
        assert("\"documents\":["@[i] as u8 == whole[i]);
        if i < text.len() {
            assert(text[i] as u8 == encode_utf8(text)[i]);
            assert(want[i] == encode_utf8(text)[i]);
        }
    }
    assert(whole =~= want);
    reveal_strlit("]}");
    is_ascii_chars_encode_utf8("]}"@);
    let end = encode_utf8("]}"@);
    assert("]}"@[0] as u8 == end[0] && "]}"@[1] as u8 == end[1]);
    assert(end =~= seq![93u8, 125u8]);
}

/// What the JSON of a document reads as.
pub open spec fn document_tree(d: DocumentEntry) -> Json {
    Json::Object(
        seq![
            (encode_utf8("type"@), Json::Text(d.doc_type)),
            (encode_utf8("sequence"@), Json::Text(d.sequence)),
            (encode_utf8("filename"@), Json::Text(d.filename)),
            (encode_utf8("description"@), Json::Text(d.description)),
            (encode_utf8("secsgml_start_byte"@), Json::Text(encode_utf8(d.start_byte))),
            (encode_utf8("secsgml_end_byte"@), Json::Text(encode_utf8(d.end_byte))),
        ],
    )
}

spec fn member_text(k: Seq<u8>, v: Seq<u8>) -> Seq<u8> {
    json_string(k) + seq![58u8] + json_string(v)
}

spec fn document_keys() -> Seq<Seq<u8>> {
    seq![
        encode_utf8("type"@),
        encode_utf8("sequence"@),
        encode_utf8("filename"@),
        encode_utf8("description"@),
        encode_utf8("secsgml_start_byte"@),
        encode_utf8("secsgml_end_byte"@),
    ]
}

spec fn document_values(d: DocumentEntry) -> Seq<Seq<u8>> {
    seq![
        d.doc_type,
        d.sequence,
        d.filename,
        d.description,
        encode_utf8(d.start_byte),
        encode_utf8(d.end_byte),
    ]
}

spec fn document_part(d: DocumentEntry, i: int) -> Seq<u8> {
    member_text(document_keys()[i], document_values(d)[i])
}

#[verifier::rlimit(30)]
proof fn lemma_document_text(d: DocumentEntry)
    ensures
        document_json(d) == seq![123u8] + (document_part(d, 0) + seq![44u8] + document_part(d, 1)
            + seq![44u8] + document_part(d, 2) + seq![44u8] + document_part(d, 3) + seq![44u8]
            + document_part(d, 4) + seq![44u8] + document_part(d, 5)) + seq![125u8],
{
    lemma_names();
    let (k, v) = (document_keys(), document_values(d));
    let l1 = document_part(d, 0);
    let l2 = l1 + seq![44u8] + document_part(d, 1);
    let l3 = l2 + seq![44u8] + document_part(d, 2);
    let l4 = l3 + seq![44u8] + document_part(d, 3);
    let l5 = l4 + seq![44u8] + document_part(d, 4);
    lemma_first_part(k[0], v[0]);
    lemma_step(l1, k[1], v[1]);
    lemma_step(l2, k[2], v[2]);
    lemma_step(l3, k[3], v[3]);
    lemma_step(l4, k[4], v[4]);
    lemma_step(l5, k[5], v[5]);
}

proof fn lemma_first_part(k: Seq<u8>, v: Seq<u8>)
    ensures
        seq![123u8] + (json_string(k) + seq![58u8]) + json_string(v) == seq![123u8] + member_text(
            k,
            v,
        ),
{
    let (a, b) = (json_string(k), json_string(v));
    assert(seq![123u8] + (a + seq![58u8]) + b =~= seq![123u8] + (a + seq![58u8] + b));
}

/// A document, written as JSON and read again, is an object with its type, its place, its name, its
/// description and the bytes where it begins and ends.
pub proof fn law_document_reads_back(d: DocumentEntry)
    ensures
        reads_value(document_json(d), document_tree(d)),
{
    let parts = Seq::new(6, |i: int| document_part(d, i));
    let members = Seq::new(6, |i: int| (document_keys()[i], Json::Text(document_values(d)[i])));
    assert forall|i: int| 0 <= i < members.len() implies reads_member(
        #[trigger] parts[i],
        members[i],
    ) by {
        let (k, v) = (document_keys()[i], document_values(d)[i]);
        lemma_text(v);
        lemma_member(k, json_string(v), Json::Text(v));
    }
    lemma_object(parts, members);
    lemma_six(parts);
    lemma_document_text(d);
    assert(document_tree(d)->Object_0 =~= members);
}

proof fn lemma_step(l: Seq<u8>, k: Seq<u8>, v: Seq<u8>)
    ensures
        (seq![123u8] + l) + (seq![44u8] + json_string(k) + seq![58u8]) + json_string(v) == seq![
            123u8,
        ] + (l + seq![44u8] + member_text(k, v)),
{
    let (a, b) = (json_string(k), json_string(v));
    lemma_parts(l, a, b);
}

proof fn lemma_parts(l: Seq<u8>, a: Seq<u8>, b: Seq<u8>)
    ensures
        (seq![123u8] + l) + (seq![44u8] + a + seq![58u8]) + b == seq![123u8] + (l + seq![44u8] + (a
            + seq![58u8] + b)),
{
    assert((seq![123u8] + l) + (seq![44u8] + a + seq![58u8]) + b =~= seq![123u8] + (l + seq![44u8]
        + (a + seq![58u8] + b)));
}

proof fn lemma_six(p: Seq<Seq<u8>>)
    requires
        p.len() == 6,
    ensures
        listed(p) == p[0] + seq![44u8] + p[1] + seq![44u8] + p[2] + seq![44u8] + p[3] + seq![44u8]
            + p[4] + seq![44u8] + p[5],
{
    let a = seq![p[0]];
    lemma_listed_push(Seq::empty(), p[0]);
    assert(Seq::<Seq<u8>>::empty().push(p[0]) =~= a);
    lemma_listed_push(a, p[1]);
    lemma_listed_push(a.push(p[1]), p[2]);
    lemma_listed_push(a.push(p[1]).push(p[2]), p[3]);
    lemma_listed_push(a.push(p[1]).push(p[2]).push(p[3]), p[4]);
    lemma_listed_push(a.push(p[1]).push(p[2]).push(p[3]).push(p[4]), p[5]);
    assert(a.push(p[1]).push(p[2]).push(p[3]).push(p[4]).push(p[5]) =~= p);
}

proof fn lemma_documents(docs: Seq<DocumentEntry>) -> (parts: Seq<Seq<u8>>)
    ensures
        documents_json(docs) == listed(parts),
        parts.len() == docs.len(),
        forall|i: int|
            0 <= i < docs.len() ==> reads_value(#[trigger] parts[i], document_tree(docs[i]))
                && parts[i].len() > 0 && parts[i][0] == 123,
    decreases docs.len(),
{
    if docs.len() == 0 {
        Seq::empty()
    } else {
        let before = lemma_documents(docs.drop_last());
        let part = document_json(docs.last());
        law_document_reads_back(docs.last());
        lemma_listed_push(before, part);
        let parts = before.push(part);
        assert(documents_json(docs) =~= listed(parts));
        assert forall|i: int| 0 <= i < docs.len() implies reads_value(
            #[trigger] parts[i],
            document_tree(docs[i]),
        ) && parts[i].len() > 0 && parts[i][0] == 123 by {
            if i < before.len() {
                assert(parts[i] == before[i]);
                assert(docs.drop_last()[i] == docs[i]);
            }
        }
        parts
    }
}

proof fn lemma_frame(members: Seq<u8>, any: bool, key: Seq<u8>, docs: Seq<u8>)
    requires
        !any ==> members.len() == 0,
    ensures
        seq![123u8] + members + (if any {
            seq![44u8]
        } else {
            Seq::empty()
        }) + (key + seq![58u8, 91u8]) + docs + seq![93u8, 125u8] + seq![10u8] == seq![123u8] + (
        if any {
            members + seq![44u8] + (key + seq![58u8] + (seq![91u8] + docs + seq![93u8]))
        } else {
            key + seq![58u8] + (seq![91u8] + docs + seq![93u8])
        }) + seq![125u8] + seq![10u8],
{
    let array = seq![91u8] + docs + seq![93u8];
    if any {
        assert(seq![123u8] + members + seq![44u8] + (key + seq![58u8, 91u8]) + docs + seq![
            93u8,
            125u8,
        ] + seq![10u8] =~= seq![123u8] + (members + seq![44u8] + (key + seq![58u8] + array))
            + seq![125u8] + seq![10u8]);
    } else {
        assert(members =~= Seq::empty());
        assert(seq![123u8] + members + Seq::empty() + (key + seq![58u8, 91u8]) + docs + seq![
            93u8,
            125u8,
        ] + seq![10u8] =~= seq![123u8] + (key + seq![58u8] + array) + seq![125u8] + seq![10u8]);
    }
}

/// The metadata of a submission reads as one object: the members of the header, grouped by their
/// keys, and then its documents in order. A line end stands behind it.
pub proof fn law_metadata_reads_back(events: Seq<SubmissionEvent>, docs: Seq<DocumentEntry>)
    ensures
        exists|members: Seq<(Seq<u8>, Json)>|
            #[trigger] is_grouping(
                members,
                header_members(events, 0, events.len() as int, -1),
            ) && read_value(metadata_text(events, docs)) == Some(
                (
                    Json::Object(
                        members.push(
                            (
                                encode_utf8("documents"@),
                                Json::List(
                                    Seq::new(docs.len(), |i: int| document_tree(docs[i])),
                                ),
                            ),
                        ),
                    ),
                    seq![10u8],
                ),
            ),
{
    let list = header_members(events, 0, events.len() as int, -1);
    let members = members_grouped(list, list.len());
    let at = lemma_grouping(list, list.len());
    assert(list.take(list.len() as int) =~= list);
    assert(is_grouping(members, list));
    let items = Seq::new(docs.len(), |i: int| document_tree(docs[i]));
    let pieces = lemma_documents(docs);
    lemma_list(pieces, items);
    let array = seq![91u8] + documents_json(docs) + seq![93u8];
    let key = encode_utf8("documents"@);
    lemma_member(key, array, Json::List(items));
    let last = json_string(key) + seq![58u8] + array;
    let before = lemma_grouped(list, list.len());
    lemma_listed_push(before, last);
    let parts = before.push(last);
    let all = members.push((key, Json::List(items)));
    assert forall|i: int| 0 <= i < all.len() implies reads_member(
        #[trigger] parts[i],
        all[i],
    ) by {
        if i < before.len() {
            assert(parts[i] == before[i]);
        }
    }
    assert(parts[0].len() > 0 && parts[0][0] == 34) by {
        if before.len() > 0 {
            assert(parts[0] == before[0]);
        }
    }
    lemma_object(parts, all);
    lemma_more_names();
    let text = seq![123u8] + listed(parts) + seq![125u8];
    assert(metadata_text(events, docs) == text + seq![10u8]) by {
        lemma_frame(listed(before), list.len() > 0, json_string(key), documents_json(docs));
    }
    assert(read_value(text + seq![10u8]) == Some((Json::Object(all), seq![10u8])));
}

// ---------------------------------------------------------------------------
// Events
// ---------------------------------------------------------------------------

/// What an event says: its kind, its depth, the key of a value or a section, and the value.
pub struct EventRow {
    pub event_type: SubmissionEventType,
    pub key: Seq<u8>,
    pub value: Seq<u8>,
    pub depth: int,
}

pub open spec fn row_of(e: SubmissionEvent) -> EventRow {
    EventRow {
        event_type: e.event_type,
        key: if e.event_type == SubmissionEventType::SectionEnd {
            Seq::empty()
        } else {
            e.key@
        },
        value: if e.event_type == SubmissionEventType::KeyValue {
            e.value@
        } else {
            Seq::empty()
        },
        depth: e.depth as int,
    }
}

/// The events of a section's members: a value is one event, a section a start, the events of its
/// own members one level deeper, and an end.
pub open spec fn laid_flat(list: Seq<(Seq<u8>, HeaderNode)>, depth: int) -> Seq<EventRow>
    decreases list,
{
    if list.len() == 0 {
        Seq::empty()
    } else {
        let (key, node) = list[0];
        (match node {
            HeaderNode::Text(value) => seq![
                EventRow { event_type: SubmissionEventType::KeyValue, key, value, depth },
            ],
            HeaderNode::Object(members) => seq![
                EventRow {
                    event_type: SubmissionEventType::SectionStart,
                    key,
                    value: Seq::empty(),
                    depth,
                },
            ] + laid_flat(members, depth + 1) + seq![
                EventRow {
                    event_type: SubmissionEventType::SectionEnd,
                    key: Seq::empty(),
                    value: Seq::empty(),
                    depth,
                },
            ],
        }) + laid_flat(list.drop_first(), depth)
    }
}

proof fn lemma_depths(list: Seq<(Seq<u8>, HeaderNode)>, depth: int)
    ensures
        forall|i: int|
            0 <= i < laid_flat(list, depth).len() ==> (#[trigger] laid_flat(list, depth)[i]).depth
                >= depth,
    decreases list,
{
    if list.len() > 0 {
        lemma_depths(list.drop_first(), depth);
        let (key, node) = list[0];
        if let HeaderNode::Object(members) = node {
            lemma_depths(members, depth + 1);
            let inner = laid_flat(members, depth + 1);
            let later = laid_flat(list.drop_first(), depth);
            let all = laid_flat(list, depth);
            assert forall|i: int| 0 <= i < all.len() implies (#[trigger] all[i]).depth >= depth by {
                if 0 < i <= inner.len() {
                    assert(all[i] == inner[i - 1]);
                } else if i > inner.len() + 1 {
                    assert(all[i] == later[i - inner.len() - 2]);
                }
            }
        } else {
            let later = laid_flat(list.drop_first(), depth);
            let all = laid_flat(list, depth);
            assert forall|i: int| 0 <= i < all.len() implies (#[trigger] all[i]).depth >= depth by {
                if i > 0 {
                    assert(all[i] == later[i - 1]);
                }
            }
        }
    }
}

proof fn lemma_end_is(events: Seq<SubmissionEvent>, end: int, depth: int, i: int, stop: int)
    requires
        0 <= i <= stop < end <= events.len(),
        forall|k: int| i <= k < stop ==> (#[trigger] events[k]).depth != depth,
        events[stop].event_type == SubmissionEventType::SectionEnd,
        events[stop].depth == depth,
    ensures
        section_end(events, end, depth, i) == stop,
    decreases stop - i,
{
    if i < stop {
        lemma_end_is(events, end, depth, i + 1, stop);
    }
}

/// Whether the events from the `i`-th on say what the rows say.
spec fn lie_at(rows: Seq<EventRow>, events: Seq<SubmissionEvent>, i: int) -> bool {
    forall|k: int| 0 <= k < rows.len() ==> row_of(events[i + k]) == #[trigger] rows[k]
}

proof fn lemma_laid(
    events: Seq<SubmissionEvent>,
    i: int,
    end: int,
    list: Seq<(Seq<u8>, HeaderNode)>,
    depth: int,
)
    requires
        0 <= i,
        i + laid_flat(list, depth + 1).len() <= end <= events.len(),
        lie_at(laid_flat(list, depth + 1), events, i),
    ensures
        header_members(events, i, end, depth) == list + header_members(
            events,
            i + laid_flat(list, depth + 1).len(),
            end,
            depth,
        ),
    decreases list,
{
    let rows = laid_flat(list, depth + 1);
    if list.len() == 0 {
        assert(list + header_members(events, i, end, depth) =~= header_members(
            events,
            i,
            end,
            depth,
        ));
    } else {
        let (key, node) = list[0];
        let rest = list.drop_first();
        let later = laid_flat(rest, depth + 1);
        let n = rows.len() - later.len();
        assert(row_of(events[i + 0]) == rows[0]);
        assert(lie_at(later, events, i + n)) by {
            assert forall|k: int| 0 <= k < later.len() implies row_of(events[i + n + k])
                == #[trigger] later[k] by {
                assert(rows[n + k] == later[k]);
                assert(row_of(events[i + (n + k)]) == rows[n + k]);
            }
        }
        lemma_laid(events, i + n, end, rest, depth);
        let behind = header_members(events, i + rows.len(), end, depth);
        assert(i + n + later.len() == i + rows.len());
        match node {
            HeaderNode::Text(value) => {
                assert(list + behind =~= seq![(key, HeaderNode::Text(value))] + (rest + behind));
            },
            HeaderNode::Object(members) => {
                let inner = laid_flat(members, depth + 2);
                let stop = i + 1 + inner.len();
                lemma_depths(members, depth + 2);
                assert(lie_at(inner, events, i + 1)) by {
                    assert forall|k: int| 0 <= k < inner.len() implies row_of(events[i + 1 + k])
                        == #[trigger] inner[k] by {
                        assert(rows[1 + k] == inner[k]);
                        assert(row_of(events[i + (1 + k)]) == rows[1 + k]);
                    }
                }
                assert forall|k: int| i + 1 <= k < stop implies (#[trigger] events[k]).depth
                    != depth + 1 by {
                    assert(row_of(events[i + 1 + (k - i - 1)]) == inner[k - i - 1]);
                }
                assert(row_of(events[i + (1 + inner.len())]) == rows[1 + inner.len() as int]);
                lemma_end_is(events, end, depth + 1, i + 1, stop);
                lemma_laid(events, i + 1, stop, members, depth + 1);
                assert(header_members(events, stop, stop, depth + 1) =~= Seq::empty());
                assert(members + Seq::empty() =~= members);
                assert(stop + 1 == i + n);
                assert(list + behind =~= seq![(key, HeaderNode::Object(members))] + (rest
                    + behind));
            },
        }
    }
}

/// The events of a header give back the header: every value stands under its key in its section,
/// and nothing is lost, added or moved.
pub proof fn law_events_give_header(
    events: Seq<SubmissionEvent>,
    list: Seq<(Seq<u8>, HeaderNode)>,
)
    requires
        events.map_values(|e: SubmissionEvent| row_of(e)) == laid_flat(list, 0),
    ensures
        header_members(events, 0, events.len() as int, -1) == list,
{
    let rows = events.map_values(|e: SubmissionEvent| row_of(e));
    assert forall|k: int| 0 <= k < rows.len() implies row_of(events[0 + k])
        == #[trigger] rows[k] by {}
    lemma_laid(events, 0, events.len() as int, list, -1);
    let none = header_members(events, events.len() as int, events.len() as int, -1);
    assert(list + none =~= list);
}

} // verus!
