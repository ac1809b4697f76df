//! The JSON that describes a submission: its header as nested objects, and its documents.
use vstd::prelude::*;
use vstd::utf8::encode_utf8;

use crate::numeral::{digit_char, numeral, padded_numeral, zero_padded};
use crate::sgml::{SubmissionEvent, SubmissionEventType};
use crate::tar::{ascii, push_ascii};
use crate::text::{push_bytes, push_text, same_bytes};

verus! {

// ---------------------------------------------------------------------------
// Model
// ---------------------------------------------------------------------------

/// A header value: a text, or an object whose members keep their order.
pub enum HeaderNode {
    Text(Seq<u8>),
    Object(Seq<(Seq<u8>, HeaderNode)>),
}

/// The first end of a section of the given depth at or behind `i`, or `end`.
pub open spec fn section_end(events: Seq<SubmissionEvent>, end: int, depth: int, i: int) -> int
    decreases end - i,
{
    if i >= end {
        end
    } else if events[i].event_type == SubmissionEventType::SectionEnd && events[i].depth == depth {
        i
    } else {
        section_end(events, end, depth, i + 1)
    }
}

pub proof fn lemma_section_end(events: Seq<SubmissionEvent>, end: int, depth: int, i: int)
    requires
        i <= end,
    ensures
        i <= section_end(events, end, depth, i) <= end,
    decreases end - i,
{
    if i < end {
        lemma_section_end(events, end, depth, i + 1);
    }
}

/// The members that the events `i..end` describe directly inside a section of the given depth.
pub open spec fn header_members(
    events: Seq<SubmissionEvent>,
    i: int,
    end: int,
    depth: int,
) -> Seq<(Seq<u8>, HeaderNode)>
    decreases end - i,
{
    if i >= end {
        Seq::empty()
    } else if events[i].depth != depth + 1 {
        header_members(events, i + 1, end, depth)
    } else {
        match events[i].event_type {
            SubmissionEventType::KeyValue => seq![
                (events[i].key@, HeaderNode::Text(events[i].value@)),
            ] + header_members(events, i + 1, end, depth),
            SubmissionEventType::SectionStart => {
                let stop = section_end(events, end, depth + 1, i + 1);
                proof {
                    lemma_section_end(events, end, depth + 1, i + 1);
                }
                seq![
                    (
                        events[i].key@,
                        HeaderNode::Object(header_members(events, i + 1, stop, depth + 1)),
                    ),
                ] + (if stop < end {
                    header_members(events, stop + 1, end, depth)
                } else {
                    Seq::empty()
                })
            },
            SubmissionEventType::SectionEnd => header_members(events, i + 1, end, depth),
        }
    }
}

/// One byte inside a JSON string.
pub open spec fn json_escape(b: u8) -> Seq<u8> {
    if b == 34 {
        seq![92u8, 34u8]
    } else if b == 92 {
        seq![92u8, 92u8]
    } else if 0x20 <= b <= 0x7f {
        seq![b]
    } else {
        seq![92u8, 117u8] + ascii(zero_padded(numeral(b as nat, 16), 4))
    }
}

pub open spec fn json_escapes(s: Seq<u8>) -> Seq<u8>
    decreases s.len(),
{
    if s.len() == 0 {
        Seq::empty()
    } else {
        json_escapes(s.drop_last()) + json_escape(s.last())
    }
}

/// The bytes as a JSON string, one character per byte.
pub open spec fn json_string(s: Seq<u8>) -> Seq<u8> {
    seq![34u8] + json_escapes(s) + seq![34u8]
}

/// How many of the first `n` members have the key `k`.
pub open spec fn occurrences(list: Seq<(Seq<u8>, HeaderNode)>, k: Seq<u8>, n: nat) -> nat
    decreases n,
{
    if n == 0 || n > list.len() {
        0
    } else if list[n - 1].0 == k {
        occurrences(list, k, (n - 1) as nat) + 1
    } else {
        occurrences(list, k, (n - 1) as nat)
    }
}

/// The values of those of the first `n` members that have the key `k`, with commas between.
pub open spec fn json_group(list: Seq<(Seq<u8>, HeaderNode)>, k: Seq<u8>, n: nat) -> Seq<u8>
    decreases list, 0nat, n,
{
    if n == 0 || n > list.len() {
        Seq::empty()
    } else {
        let earlier = json_group(list, k, (n - 1) as nat);
        if list[n - 1].0 == k {
            earlier + (if occurrences(list, k, (n - 1) as nat) > 0 {
                seq![44u8]
            } else {
                Seq::empty()
            }) + json_node(list[n - 1].1)
        } else {
            earlier
        }
    }
}

/// The first `n` members as JSON: each key once, where it first occurs; the values of a key that
/// occurs more than once as an array.
pub open spec fn json_members(list: Seq<(Seq<u8>, HeaderNode)>, n: nat) -> Seq<u8>
    decreases list, 1nat, n,
{
    if n == 0 || n > list.len() {
        Seq::empty()
    } else {
        let earlier = json_members(list, (n - 1) as nat);
        let (k, v) = list[n - 1];
        if occurrences(list, k, (n - 1) as nat) > 0 {
            earlier
        } else {
            earlier + (if n > 1 {
                seq![44u8]
            } else {
                Seq::empty()
            }) + json_string(k) + seq![58u8] + (if occurrences(list, k, list.len()) > 1 {
                seq![91u8] + json_group(list, k, list.len()) + seq![93u8]
            } else {
                json_node(v)
            })
        }
    }
}

/// A header value as JSON.
pub open spec fn json_node(node: HeaderNode) -> Seq<u8>
    decreases node, 0nat, 0nat,
{
    match node {
        HeaderNode::Text(s) => json_string(s),
        HeaderNode::Object(list) => seq![123u8] + json_members(list, list.len()) + seq![125u8],
    }
}

/// What the metadata says of one document.
pub struct DocumentEntry {
    pub doc_type: Seq<u8>,
    pub sequence: Seq<u8>,
    pub filename: Seq<u8>,
    pub description: Seq<u8>,
    pub start_byte: Seq<char>,
    pub end_byte: Seq<char>,
}

pub open spec fn document_json(d: DocumentEntry) -> Seq<u8> {
    seq![123u8] + encode_utf8("\"type\":"@) + json_string(d.doc_type) + encode_utf8(
        ",\"sequence\":"@,
    ) + json_string(d.sequence) + encode_utf8(",\"filename\":"@) + json_string(d.filename)
        + encode_utf8(",\"description\":"@) + json_string(d.description) + encode_utf8(
        ",\"secsgml_start_byte\":"@,
    ) + json_string(encode_utf8(d.start_byte)) + encode_utf8(",\"secsgml_end_byte\":"@)
        + json_string(encode_utf8(d.end_byte)) + seq![125u8]
}

pub open spec fn documents_json(docs: Seq<DocumentEntry>) -> Seq<u8>
    decreases docs.len(),
{
    if docs.len() == 0 {
        Seq::empty()
    } else {
        documents_json(docs.drop_last()) + (if docs.len() > 1 {
            seq![44u8]
        } else {
            Seq::empty()
        }) + document_json(docs.last())
    }
}

/// The whole metadata: the members of the header, then the documents, then a line end.
pub open spec fn metadata_text(events: Seq<SubmissionEvent>, docs: Seq<DocumentEntry>) -> Seq<u8> {
    let members = header_members(events, 0, events.len() as int, -1);
    seq![123u8] + json_members(members, members.len()) + (if members.len() > 0 {
        seq![44u8]
    } else {
        Seq::empty()
    }) + encode_utf8("\"documents\":["@) + documents_json(docs) + encode_utf8("]}"@) + seq![10u8]
}

/// The value of a hexadecimal digit.
pub open spec fn hex_value(b: u8) -> int {
    if b <= 57 {
        b - 48
    } else {
        b - 55
    }
}

/// The bytes that the inside of a JSON string stands for, one per character.
pub open spec fn json_unescaped(t: Seq<u8>) -> Seq<u8>
    decreases t.len(),
{
    if t.len() == 0 {
        Seq::empty()
    } else if t[0] != 92 {
        seq![t[0]] + json_unescaped(t.skip(1))
    } else if t.len() >= 6 && t[1] == 117 {
        seq![
            (hex_value(t[2]) * 4096 + hex_value(t[3]) * 256 + hex_value(t[4]) * 16 + hex_value(
                t[5],
            )) as u8,
        ] + json_unescaped(t.skip(6))
    } else if t.len() >= 2 {
        seq![t[1]] + json_unescaped(t.skip(2))
    } else {
        Seq::empty()
    }
}

pub proof fn lemma_byte_numeral(b: u8)
    ensures
        zero_padded(numeral(b as nat, 16), 4) == seq![
            '0',
            '0',
            digit_char((b / 16) as nat),
            digit_char((b % 16) as nat),
        ],
{
    reveal_with_fuel(numeral, 2);
    let n = numeral(b as nat, 16);
    if b < 16 {
        assert(n =~= seq![digit_char(b as nat)]);
        assert(digit_char(0) == '0');
    } else {
        assert(numeral((b / 16) as nat, 16) =~= seq![digit_char((b / 16) as nat)]);
        assert(n =~= seq![digit_char((b / 16) as nat), digit_char((b % 16) as nat)]);
    }
    assert(zero_padded(n, 4) =~= seq![
        '0',
        '0',
        digit_char((b / 16) as nat),
        digit_char((b % 16) as nat),
    ]);
}

pub proof fn lemma_escapes_first(s: Seq<u8>)
    requires
        s.len() > 0,
    ensures
        json_escapes(s) == json_escape(s[0]) + json_escapes(s.drop_first()),
    decreases s.len(),
{
    if s.len() == 1 {
        assert(s.drop_last() =~= Seq::empty());
        assert(s.drop_first() =~= Seq::empty());
        assert(json_escapes(s) =~= json_escape(s[0]) + json_escapes(s.drop_first()));
    } else {
        lemma_escapes_first(s.drop_last());
        assert(s.drop_last().drop_first() =~= s.drop_first().drop_last());
        assert(json_escapes(s) =~= json_escape(s[0]) + json_escapes(s.drop_first()));
    }
}

/// What is written into a JSON string is plain ASCII and reads back as the bytes that went in.
pub proof fn law_json_string_reads_back(s: Seq<u8>)
    ensures
        json_unescaped(json_escapes(s)) == s,
        forall|i: int|
            0 <= i < json_escapes(s).len() ==> 0x20 <= #[trigger] json_escapes(s)[i] <= 0x7f,
    decreases s.len(),
{
    if s.len() > 0 {
        let rest = s.drop_first();
        law_json_string_reads_back(rest);
        lemma_escapes_first(s);
        lemma_byte_numeral(s[0]);
        let t = json_escapes(s);
        let e = json_escape(s[0]);
        assert(t.skip(e.len() as int) =~= json_escapes(rest));
        assert(json_unescaped(t) =~= seq![s[0]] + rest);
        assert(seq![s[0]] + rest =~= s);
    }
}

// ---------------------------------------------------------------------------
// Writing
// ---------------------------------------------------------------------------

/// A document of the metadata, as the writer takes it.
pub struct PreparedDocument {
    pub doc_type: Vec<u8>,
    pub sequence: Vec<u8>,
    pub filename: Vec<u8>,
    pub description: Vec<u8>,
    pub start_byte: String,
    pub end_byte: String,
}

impl PreparedDocument {
    pub open spec fn entry(self) -> DocumentEntry {
        DocumentEntry {
            doc_type: self.doc_type@,
            sequence: self.sequence@,
            filename: self.filename@,
            description: self.description@,
            start_byte: self.start_byte@,
            end_byte: self.end_byte@,
        }
    }
}

pub open spec fn entries(docs: Seq<PreparedDocument>) -> Seq<DocumentEntry> {
    docs.map_values(|d: PreparedDocument| d.entry())
}

struct JsonMember {
    idx: usize,
    end_idx: usize,
}

/// The member that an event begins.
spec fn member_node(events: Seq<SubmissionEvent>, m: JsonMember) -> (Seq<u8>, HeaderNode) {
    let e = events[m.idx as int];
    (
        e.key@,
        match e.event_type {
            SubmissionEventType::SectionStart => HeaderNode::Object(
                header_members(events, m.idx + 1, m.end_idx as int, e.depth as int),
            ),
            _ => HeaderNode::Text(e.value@),
        },
    )
}

spec fn member_nodes(
    events: Seq<SubmissionEvent>,
    members: Seq<JsonMember>,
) -> Seq<(Seq<u8>, HeaderNode)> {
    members.map_values(|m: JsonMember| member_node(events, m))
}

spec fn members_within(
    events: Seq<SubmissionEvent>,
    members: Seq<JsonMember>,
    start: int,
    end: int,
) -> bool {
    forall|j: int| #![trigger members[j]]
        0 <= j < members.len() ==> {
            &&& start <= members[j].idx < end
            &&& members[j].end_idx <= end
            &&& events[members[j].idx as int].event_type != SubmissionEventType::SectionEnd
            &&& events[members[j].idx as int].event_type == SubmissionEventType::SectionStart
                ==> members[j].idx < members[j].end_idx
        }
}

/// Writes the metadata of a submission.
pub fn metadata_json(events: &[SubmissionEvent], documents: &[PreparedDocument]) -> (out: Vec<u8>)
    ensures
        out@ == metadata_text(events@, entries(documents@)),
{
    let mut out: Vec<u8> = Vec::new();
    out.push(123);
    let wrote_metadata = write_json_object_members(&mut out, events, 0, events.len(), -1);
    if wrote_metadata {
        out.push(44);
    }
    push_text(&mut out, "\"documents\":[");
    let ghost front = out@;
    let mut idx: usize = 0;
    while idx < documents.len()
        invariant
            idx <= documents@.len(),
            out@ == front + documents_json(entries(documents@).take(idx as int)),
        decreases documents@.len() - idx,
    {
        proof {
            let e = entries(documents@);
            assert(e.take(idx + 1).drop_last() =~= e.take(idx as int));
            assert(e.take(idx + 1).last() == documents@[idx as int].entry());
        }
        if idx > 0 {
            out.push(44);
        }
        write_document_metadata_json(&mut out, &documents[idx]);
        assert(out@ =~= front + documents_json(entries(documents@).take(idx + 1)));
        idx += 1;
    }
    assert(entries(documents@).take(idx as int) =~= entries(documents@));
    push_text(&mut out, "]}");
    out.push(10);
    assert(out@ =~= metadata_text(events@, entries(documents@)));
    out
}

/// The object of one document.
fn document_object(doc: &PreparedDocument) -> (text: Vec<u8>)
    ensures
        text@ == document_json(doc.entry()),
{
    let mut text: Vec<u8> = Vec::new();
    text.push(123);
    assert(text@ =~= seq![123u8]);
    push_text(&mut text, "\"type\":");
    write_json_string(&mut text, &doc.doc_type);
    push_text(&mut text, ",\"sequence\":");
    write_json_string(&mut text, &doc.sequence);
    push_text(&mut text, ",\"filename\":");
    write_json_string(&mut text, &doc.filename);
    push_text(&mut text, ",\"description\":");
    write_json_string(&mut text, &doc.description);
    push_text(&mut text, ",\"secsgml_start_byte\":");
    write_json_string(&mut text, doc.start_byte.as_str().as_bytes());
    push_text(&mut text, ",\"secsgml_end_byte\":");
    write_json_string(&mut text, doc.end_byte.as_str().as_bytes());
    let ghost members = text@;
    text.push(125);
    assert(members.push(125) =~= members + seq![125u8]);
    text
}

/// Appends the object of one document.
pub fn write_document_metadata_json(out: &mut Vec<u8>, doc: &PreparedDocument)
    ensures
        final(out)@ == old(out)@ + document_json(doc.entry()),
{
    let text = document_object(doc);
    push_bytes(out, &text);
}

/// Appends an object with the members that the events `start_idx..end_idx` describe.
pub fn write_json_object_range(
    out: &mut Vec<u8>,
    events: &[SubmissionEvent],
    start_idx: usize,
    end_idx: usize,
    depth: i32,
)
    requires
        start_idx < end_idx ==> end_idx <= events@.len(),
    ensures
        final(out)@ == old(out)@ + json_node(
            HeaderNode::Object(
                header_members(events@, start_idx as int, end_idx as int, depth as int),
            ),
        ),
    decreases end_idx - start_idx, 3nat,
{
    out.push(123);
    write_json_object_members(out, events, start_idx, end_idx, depth);
    out.push(125);
    assert(out@ =~= old(out)@ + json_node(
        HeaderNode::Object(
            header_members(events@, start_idx as int, end_idx as int, depth as int),
        ),
    ));
}

fn collect_members(
    events: &[SubmissionEvent],
    start_idx: usize,
    end_idx: usize,
    depth: i32,
) -> (members: Vec<JsonMember>)
    requires
        start_idx <= end_idx <= events@.len(),
    ensures
        member_nodes(events@, members@) == header_members(
            events@,
            start_idx as int,
            end_idx as int,
            depth as int,
        ),
        members_within(events@, members@, start_idx as int, end_idx as int),
{
    let mut members: Vec<JsonMember> = Vec::new();
    let mut i: usize = start_idx;
    let ghost all = header_members(events@, start_idx as int, end_idx as int, depth as int);
    assert(member_nodes(events@, members@) + all =~= all);
    while i < end_idx
        invariant
            start_idx <= i <= end_idx <= events@.len(),
            member_nodes(events@, members@) + header_members(
                events@,
                i as int,
                end_idx as int,
                depth as int,
            ) == all,
            members_within(events@, members@, start_idx as int, end_idx as int),
        decreases end_idx - i,
    {
        let ghost done = members@;
        if events[i].depth as i64 != depth as i64 + 1 {
            i += 1;
            continue;
        }
        match events[i].event_type {
            SubmissionEventType::KeyValue => {
                let m = JsonMember { idx: i, end_idx: i };
                members.push(m);
                proof {
                    assert(member_nodes(events@, members@) =~= member_nodes(events@, done).push(
                        member_node(events@, m),
                    ));
                    assert(member_nodes(events@, members@) + header_members(
                        events@,
                        i + 1,
                        end_idx as int,
                        depth as int,
                    ) =~= member_nodes(events@, done) + header_members(
                        events@,
                        i as int,
                        end_idx as int,
                        depth as int,
                    ));
                }
                i += 1;
            },
            SubmissionEventType::SectionStart => {
                let stop = find_section_end(events, end_idx, i);
                let m = JsonMember { idx: i, end_idx: stop };
                members.push(m);
                proof {
                    lemma_section_end(events@, end_idx as int, depth + 1, i + 1);
                    assert(member_nodes(events@, members@) =~= member_nodes(events@, done).push(
                        member_node(events@, m),
                    ));
                    let rest = if stop < end_idx { stop + 1 } else { end_idx as int };
                    assert(member_nodes(events@, members@) + header_members(
                        events@,
                        rest,
                        end_idx as int,
                        depth as int,
                    ) =~= member_nodes(events@, done) + header_members(
                        events@,
                        i as int,
                        end_idx as int,
                        depth as int,
                    ));
                }
                if stop < end_idx {
                    i = stop + 1;
                } else {
                    i = end_idx;
                }
            },
            SubmissionEventType::SectionEnd => {
                i += 1;
            },
        }
    }
    assert(member_nodes(events@, members@) + Seq::<(Seq<u8>, HeaderNode)>::empty()
        =~= member_nodes(events@, members@));
    members
}

/// How many of the first `n` members have the key of member `j`.
fn count_key(events: &[SubmissionEvent], members: &Vec<JsonMember>, j: usize, n: usize) -> (count:
    usize)
    requires
        j < members@.len(),
        n <= members@.len(),
        members_within(events@, members@, 0, events@.len() as int),
    ensures
        count == occurrences(
            member_nodes(events@, members@),
            events@[members@[j as int].idx as int].key@,
            n as nat,
        ),
{
    let ghost k = events@[members@[j as int].idx as int].key@;
    let mut count: usize = 0;
    let mut i: usize = 0;
    while i < n
        invariant
            i <= n <= members@.len(),
            j < members@.len(),
            count <= i,
            k == events@[members@[j as int].idx as int].key@,
            members_within(events@, members@, 0, events@.len() as int),
            count == occurrences(member_nodes(events@, members@), k, i as nat),
        decreases n - i,
    {
        assert(member_nodes(events@, members@)[i as int].0
            == events@[members@[i as int].idx as int].key@);
        assert(members@[j as int].idx < events@.len());
        if same_bytes(&events[members[i].idx].key, &events[members[j].idx].key) {
            count += 1;
        }
        i += 1;
    }
    count
}

/// Appends the values of all members with the key of member `j`, with commas between.
fn write_json_group(
    out: &mut Vec<u8>,
    events: &[SubmissionEvent],
    members: &Vec<JsonMember>,
    j: usize,
    Ghost(start): Ghost<int>,
    Ghost(end): Ghost<int>,
)
    requires
        j < members@.len(),
        0 <= start <= end <= events@.len(),
        members_within(events@, members@, start, end),
    ensures
        final(out)@ == old(out)@ + json_group(
            member_nodes(events@, members@),
            events@[members@[j as int].idx as int].key@,
            members@.len(),
        ),
    decreases end - start, 1nat,
{
    let ghost nodes = member_nodes(events@, members@);
    let ghost k = events@[members@[j as int].idx as int].key@;
    let ghost front = out@;
    let mut written: usize = 0;
    let mut i: usize = 0;
    while i < members.len()
        invariant
            i <= members@.len(),
            j < members@.len(),
            0 <= start <= end <= events@.len(),
            members_within(events@, members@, start, end),
            nodes == member_nodes(events@, members@),
            k == events@[members@[j as int].idx as int].key@,
            written <= i,
            written == occurrences(nodes, k, i as nat),
            out@ == front + json_group(nodes, k, i as nat),
        decreases members@.len() - i,
    {
        assert(members@[i as int].idx < events@.len() && members@[j as int].idx < events@.len());
        assert(nodes[i as int] == member_node(events@, members@[i as int]));
        if same_bytes(&events[members[i].idx].key, &events[members[j].idx].key) {
            if written > 0 {
                out.push(44);
            }
            write_json_member_value(out, events, &members[i], Ghost(start), Ghost(end));
            assert(out@ =~= front + json_group(nodes, k, (i + 1) as nat));
            written += 1;
        }
        i += 1;
    }
}

/// Appends the members that the events `start_idx..end_idx` describe; says whether there are any.
pub fn write_json_object_members(
    out: &mut Vec<u8>,
    events: &[SubmissionEvent],
    start_idx: usize,
    end_idx: usize,
    depth: i32,
) -> (wrote: bool)
    requires
        start_idx < end_idx ==> end_idx <= events@.len(),
    ensures
        ({
            let members = header_members(events@, start_idx as int, end_idx as int, depth as int);
            &&& final(out)@ == old(out)@ + json_members(members, members.len())
            &&& wrote == (members.len() > 0)
        }),
    decreases end_idx - start_idx, 2nat,
{
    if start_idx >= end_idx {
        assert(out@ + Seq::<u8>::empty() =~= out@);
        return false;
    }
    let members = collect_members(events, start_idx, end_idx, depth);
    let ghost nodes = member_nodes(events@, members@);
    let ghost front = out@;
    let mut j: usize = 0;
    while j < members.len()
        invariant
            j <= members@.len(),
            start_idx <= end_idx <= events@.len(),
            members_within(events@, members@, start_idx as int, end_idx as int),
            nodes == member_nodes(events@, members@),
            out@ == front + json_members(nodes, j as nat),
        decreases members@.len() - j,
    {
        assert(members@[j as int].idx < events@.len());
        assert(nodes[j as int] == member_node(events@, members@[j as int]));
        let ghost so_far = out@;
        let earlier = count_key(events, &members, j, j);
        if earlier == 0 {
            if j > 0 {
                out.push(44);
            }
            write_json_string(out, &events[members[j].idx].key);
            out.push(58);
            let total = count_key(events, &members, j, members.len());
            if total > 1 {
                out.push(91);
                write_json_group(
                    out,
                    events,
                    &members,
                    j,
                    Ghost(start_idx as int),
                    Ghost(end_idx as int),
                );
                out.push(93);
            } else {
                write_json_member_value(
                    out,
                    events,
                    &members[j],
                    Ghost(start_idx as int),
                    Ghost(end_idx as int),
                );
            }
            assert(out@ =~= front + json_members(nodes, (j + 1) as nat));
        }
        j += 1;
    }
    members.len() > 0
}

/// The first end of the section that begins at `start_idx`, or `end_idx` where none stands before
/// it.
pub fn find_section_end(events: &[SubmissionEvent], end_idx: usize, start_idx: usize) -> (idx:
    usize)
    requires
        start_idx < events@.len(),
    ensures
        ({
            let last = if end_idx < events@.len() {
                end_idx as int
            } else {
                events@.len() as int
            };
            let depth = events@[start_idx as int].depth as int;
            let found = section_end(events@, last, depth, start_idx + 1);
            idx == (if found < last {
                found
            } else {
                end_idx as int
            })
        }),
        start_idx < end_idx <= events@.len() ==> start_idx < idx <= end_idx,
{
    let depth = events[start_idx].depth;
    let last: usize = if end_idx < events.len() {
        end_idx
    } else {
        events.len()
    };
    let mut idx: usize = start_idx + 1;
    while idx < last
        invariant
            start_idx < idx,
            last == (if end_idx < events@.len() {
                end_idx as int
            } else {
                events@.len() as int
            }),
            depth == events@[start_idx as int].depth,
            section_end(events@, last as int, depth as int, start_idx + 1) == section_end(
                events@,
                last as int,
                depth as int,
                idx as int,
            ),
        decreases last - idx,
    {
        if events[idx].event_type == SubmissionEventType::SectionEnd && events[idx].depth == depth {
            return idx;
        }
        idx += 1;
    }
    end_idx
}

fn write_json_member_value(
    out: &mut Vec<u8>,
    events: &[SubmissionEvent],
    member: &JsonMember,
    Ghost(start): Ghost<int>,
    Ghost(end): Ghost<int>,
)
    requires
        0 <= start <= end <= events@.len(),
        start <= member.idx < end,
        member.end_idx <= end,
        events@[member.idx as int].event_type != SubmissionEventType::SectionEnd,
        events@[member.idx as int].event_type == SubmissionEventType::SectionStart ==> member.idx
            < member.end_idx,
    ensures
        final(out)@ == old(out)@ + json_node(member_node(events@, *member).1),
    decreases end - start, 0nat,
{
    match events[member.idx].event_type {
        SubmissionEventType::SectionStart => {
            write_json_object_range(
                out,
                events,
                member.idx + 1,
                member.end_idx,
                events[member.idx].depth,
            );
        },
        _ => {
            write_json_string(out, &events[member.idx].value);
        },
    }
}

/// Appends the bytes as a JSON string.
pub fn write_json_string(out: &mut Vec<u8>, bytes: &[u8])
    ensures
        final(out)@ == old(out)@ + json_string(bytes@),
{
    out.push(34);
    let ghost front = out@;
    let mut i: usize = 0;
    while i < bytes.len()
        invariant
            i <= bytes@.len(),
            out@ == front + json_escapes(bytes@.take(i as int)),
        decreases bytes@.len() - i,
    {
        let ghost so_far = out@;
        let byte = bytes[i];
        if byte == 34 {
            out.push(92);
            out.push(34);
        } else if byte == 92 {
            out.push(92);
            out.push(92);
        } else if 0x20 <= byte && byte <= 0x7f {
            out.push(byte);
        } else {
            out.push(92);
            out.push(117);
            let digits = padded_numeral(byte as u64, 16, 4);
            push_ascii(out, &digits);
        }
        proof {
            assert(out@ =~= so_far + json_escape(byte));
            assert(bytes@.take(i + 1).drop_last() == bytes@.take(i as int));
            assert(out@ =~= front + json_escapes(bytes@.take(i + 1)));
        }
        i += 1;
    }
    assert(bytes@.take(i as int) == bytes@);
    out.push(34);
    assert(out@ =~= old(out)@ + json_string(bytes@));
}

} // verus!
