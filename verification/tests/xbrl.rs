//! XBRL facts.
use secinfra::ordered_map::XbrlMap;
use secinfra::scale::{apply_decimal_scale, scaled_value};
use secinfra::xbrl::{
    construct_simple_xbrl, context_members, facts_of_events, parse_extracted_inline_xbrl,
    parse_inline_xbrl, parse_xbrl, XbrlFact, XbrlFileType,
};
use secinfra::xml::{read_events, XmlEvent};

const INLINE: &[u8] = br#"<html xmlns:ix="x">
<xbrli:context id="c1"><xbrli:entity><xbrli:identifier scheme="s">0000320193</xbrli:identifier>
<xbrli:segment><xbrldi:explicitMember dimension="us-gaap:Axis">aapl:Member</xbrldi:explicitMember>
</xbrli:segment></xbrli:entity>
<xbrli:period><xbrli:startDate>2023-01-01</xbrli:startDate>
<xbrli:endDate>2023-12-31</xbrli:endDate></xbrli:period></xbrli:context>
<xbrli:context id="c2"><xbrli:period><xbrli:instant>2023-12-31</xbrli:instant></xbrli:period>
</xbrli:context>
<p>Revenue of <ix:nonFraction name="us-gaap:Revenues" contextRef="c1" scale="6">1,<b>234</b>.5</ix:nonFraction>
and <ix:nonNumeric name="dei:Name" contextRef="c2">A &amp; B</ix:nonNumeric>
<ix:nonFraction name="us-gaap:Nil" contextRef="c9"/>
<other contextRef="c1">ignored</other></p></html>"#;

fn entries(map: &XbrlMap) -> Vec<(&str, &str)> {
    map.entries().iter().map(|entry| (entry.0.as_str(), entry.1.as_str())).collect()
}

fn map(list: &[(&str, &str)]) -> XbrlMap {
    let mut out = XbrlMap::new();
    for (key, value) in list {
        out.insert(key.to_string(), value.to_string());
    }
    out
}

#[test]
fn inline_facts_have_values_and_contexts() {
    let facts = parse_inline_xbrl(INLINE).unwrap();
    assert_eq!(facts.len(), 3);
    assert_eq!(facts[0].val.as_deref(), Some("1,234.5"));
    assert_eq!(
        entries(&facts[0].attributes),
        vec![("contextRef", "c1"), ("name", "us-gaap:Revenues"), ("scale", "6")]
    );
    assert_eq!(
        entries(facts[0].context.as_ref().unwrap()),
        vec![
            ("_contextref", "c1"),
            ("dimension:us-gaap:Axis", "aapl:Member"),
            ("entity_identifier", "0000320193"),
            ("period_enddate", "2023-12-31"),
            ("period_startdate", "2023-01-01"),
        ]
    );
    assert_eq!(facts[1].val.as_deref(), Some("A & B"));
    assert_eq!(facts[1].context.as_ref().unwrap().get("period_instant").unwrap(), "2023-12-31");
    assert_eq!(facts[2].val, None);
    assert!(facts[2].context.is_none());
}

#[test]
fn extracted_facts_are_named_by_their_element() {
    let xml = br#"<xbrl><context xml:id="d"><period><instant>2024-06-30</instant></period></context>
<us-gaap:Assets contextRef="d" decimals="-3">12<![CDATA[<3]]></us-gaap:Assets>
<dei:Named name="given" contextRef="d"> x </dei:Named><plain>no context</plain></xbrl>"#;
    let facts = parse_extracted_inline_xbrl(xml).unwrap();
    assert_eq!(facts.len(), 2);
    assert_eq!(facts[0].attributes.get("name").unwrap(), "us-gaap:Assets");
    assert_eq!(facts[0].val.as_deref(), Some("12<3"));
    assert_eq!(facts[0].context.as_ref().unwrap().get("_contextref").unwrap(), "d");
    assert_eq!(facts[1].attributes.get("name").unwrap(), "given");
    assert_eq!(facts[1].val.as_deref(), Some("x"));
    let same = parse_xbrl(xml, XbrlFileType::ExtractedInline).unwrap();
    assert_eq!(same.len(), 2);
    assert!(parse_xbrl(xml, XbrlFileType::Inline).unwrap().is_empty());
}

#[test]
fn malformed_documents_are_errors() {
    assert!(parse_inline_xbrl(b"<a><b></a>").is_err());
    assert!(parse_extracted_inline_xbrl(b"<a b=c d></a>").is_err());
    assert!(parse_inline_xbrl(b"<x:nonnumeric name='a'>&undefined;</x:nonnumeric>").is_err());
    assert!(parse_inline_xbrl(b"").unwrap().is_empty());
}

#[test]
fn events_are_read_in_order() {
    let events = read_events(b"<a x='1'> t <b/><![CDATA[c]]><!-- no --></a>", false);
    assert_eq!(events.len(), 7);
    match &events[0] {
        XmlEvent::Start(tag) => {
            assert_eq!(tag.name, b"a");
            let attribute = tag.attributes[0].as_ref().unwrap();
            assert_eq!(attribute.key, b"x");
            assert_eq!(attribute.raw, b"1");
            assert_eq!(attribute.value.as_deref(), Ok("1"));
        }
        _ => panic!("a tag comes first"),
    }
    assert!(matches!(&events[1], XmlEvent::Text(Ok(text)) if text == "t"));
    assert!(matches!(&events[2], XmlEvent::Empty(tag) if tag.name == b"b"));
    assert!(matches!(&events[3], XmlEvent::CData(bytes) if bytes == b"c"));
    assert!(matches!(&events[4], XmlEvent::Other));
    assert!(matches!(&events[5], XmlEvent::End(name) if name == b"a"));
    assert!(matches!(&events[6], XmlEvent::Eof));
    assert!(facts_of_events(&events, XbrlFileType::Inline).unwrap().is_empty());
    let twice = b"<a x='1' x='2'/>";
    let count = |checks: bool| match &read_events(twice, checks)[0] {
        XmlEvent::Empty(tag) => tag.attributes.iter().filter(|a| a.is_ok()).count(),
        _ => 0,
    };
    assert_eq!(count(false), 2);
    assert_eq!(count(true), 1);
}

#[test]
fn records_number_their_contexts() {
    let facts = parse_inline_xbrl(INLINE).unwrap();
    let records = construct_simple_xbrl(77, &facts);
    assert_eq!(records.len(), 3);
    assert_eq!(records[0].accession_number, 77);
    assert_eq!(records[0].context_id, Some(0));
    assert_eq!(records[0].taxonomy, "us-gaap");
    assert_eq!(records[0].name, "Revenues");
    assert_eq!(records[0].value.as_deref(), Some("1234500000"));
    assert_eq!(records[0].period_start_date.as_deref(), Some("2023-01-01"));
    assert_eq!(records[0].period_end_date.as_deref(), Some("2023-12-31"));
    assert_eq!(records[0].members.as_deref(), Some("aapl:Member"));
    assert_eq!(records[1].context_id, Some(1));
    assert_eq!(records[1].period_start_date.as_deref(), Some("2023-12-31"));
    assert_eq!(records[1].period_end_date, None);
    assert_eq!(records[1].members, None);
    assert_eq!(records[2].context_id, None);
    assert_eq!(records[2].value, None);
}

#[test]
fn facts_without_a_full_name_are_left_out() {
    let fact = |name: Option<&str>, context: Option<&str>| XbrlFact {
        val: Some("1".to_string()),
        attributes: match name {
            Some(name) => map(&[("name", name)]),
            None => XbrlMap::new(),
        },
        context: context.map(|id| map(&[("_contextref", id)])),
    };
    let facts = [
        fact(None, None),
        fact(Some("plain"), Some("a")),
        fact(Some(":x"), Some("b")),
        fact(Some("x:"), Some("c")),
        fact(Some("a:b:c"), Some("z")),
        fact(Some("a:d"), Some("y")),
        fact(Some("a:e"), Some("z")),
        fact(Some("a:f"), None),
    ];
    let records = construct_simple_xbrl(1, &facts);
    assert_eq!(
        records.iter().map(|r| (r.name.as_str(), r.context_id)).collect::<Vec<_>>(),
        vec![("b:c", Some(0)), ("d", Some(1)), ("e", Some(0)), ("f", None)]
    );
}

#[test]
fn values_are_scaled_exactly() {
    for (value, scale, expected) in [
        ("1.5", 3, "1500"),
        ("1,234.5", 6, "1234500000"),
        ("123", 0, "123"),
        ("12.30", 1, "123.0"),
        ("5", -2, "0.05"),
        ("-12", 2, "-1200"),
        ("+7", 1, "70"),
        ("-0", 5, "0"),
        ("-0.00", 1, "-0.0"),
        ("007", 0, "7"),
        (" 42 ", 1, "420"),
        (".5", 0, "0.5"),
        ("5.", 0, "5"),
        (".", 0, "0"),
        ("0012.5", -1, "1.25"),
    ] {
        assert_eq!(apply_decimal_scale(value, scale).as_deref(), Some(expected), "{value}");
    }
    for value in ["", "-", "1.2.3", "1e5", "abc", "--1", "(5)"] {
        assert_eq!(apply_decimal_scale(value, 2), None, "{value}");
    }
}

#[test]
fn values_that_are_no_numbers_stay() {
    let three = "3".to_string();
    let word = "x".to_string();
    assert_eq!(scaled_value(None, Some(&three)), None);
    assert_eq!(scaled_value(Some("1,5"), None).as_deref(), Some("1,5"));
    assert_eq!(scaled_value(Some("1,5"), Some(&word)).as_deref(), Some("1,5"));
    assert_eq!(scaled_value(Some("1,5"), Some(&three)).as_deref(), Some("15000"));
    assert_eq!(scaled_value(Some("n/a"), Some(&three)).as_deref(), Some("n/a"));
}

#[test]
fn members_are_joined() {
    assert_eq!(
        context_members(&map(&[("dimension:b", "2"), ("dimension:a", "1"), ("dimension:c", "")])),
        Some("1,2".to_string())
    );
    assert_eq!(
        context_members(&map(&[("explicitmember", "m"), ("dimension:a", "1")])),
        Some("m".to_string())
    );
    assert_eq!(
        context_members(&map(&[
            ("explicitmember", "m"),
            ("entity_segment_explicitmember", "n"),
        ])),
        Some("n".to_string())
    );
    assert_eq!(
        context_members(&map(&[
            ("entity_segment_explicitmember", ""),
            ("explicitmember", "m"),
            ("dimension:a", "1"),
        ])),
        Some("1".to_string())
    );
    assert_eq!(context_members(&map(&[("period_instant", "x")])), None);
}

#[test]
fn maps_are_sorted_and_hold_keys_once() {
    let mut ordered = map(&[("b", "1"), ("a", "2"), ("c", "3"), ("b", "4")]);
    assert_eq!(entries(&ordered), vec![("a", "2"), ("b", "4"), ("c", "3")]);
    ordered.insert("a\u{e9}".to_string(), "5".to_string());
    assert_eq!(entries(&ordered)[1], ("a\u{e9}", "5"));
    assert_eq!(ordered.get("b").map(String::as_str), Some("4"));
    assert!(ordered.get("d").is_none());
    assert!(ordered.contains_key("c"));
    let copy = ordered.clone();
    ordered.insert("c".to_string(), "9".to_string());
    assert_eq!(copy.get("c").map(String::as_str), Some("3"));
    assert_eq!(ordered.duplicate().get("c").map(String::as_str), Some("9"));
}

#[test]
fn scales_add_up() {
    for value in ["1.5", "-12.345", "0", "-0.00", "007", "+3", "1,000.50", ".5", "-0"] {
        for a in [-4, -1, 0, 1, 3, 6] {
            let once = apply_decimal_scale(value, a).unwrap();
            for b in [0, 1, 2, 5] {
                assert_eq!(
                    apply_decimal_scale(&once, b),
                    apply_decimal_scale(value, a + b),
                    "{value} {a} {b}"
                );
            }
        }
    }
    assert_eq!(apply_decimal_scale("5", 1).as_deref(), Some("50"));
    assert_eq!(apply_decimal_scale("50", -1).as_deref(), Some("5.0"));
}

#[test]
fn facts_are_trimmed_and_joined() {
    let document = br#"<html>
<context id="c1"><identifier>  7 </identifier></context>
<context xml:id="c2"><explicitMember>m</explicitMember></context>
<nonFraction name="a" contextRef="c1">
  12 </nonFraction><nonNumeric name="b" contextRef="c2">   </nonNumeric>
<nonNumeric name="c" contextRef="c3">x</nonNumeric><nonNumeric name="d">y</nonNumeric></html>"#;
    let facts = parse_inline_xbrl(document).unwrap();
    let values: Vec<Option<&str>> = facts.iter().map(|fact| fact.val.as_deref()).collect();
    assert_eq!(values, vec![Some("12"), None, Some("x"), Some("y")]);
    for fact in &facts[..2] {
        let context = fact.context.as_ref().unwrap();
        assert_eq!(context.get("_contextref"), fact.attributes.get("contextRef"));
        assert!(context.get("_contextref").is_some());
    }
    assert_eq!(facts[0].context.as_ref().unwrap().get("entity_identifier").unwrap(), "7");
    assert!(facts[2].context.is_none());
    assert!(facts[3].context.is_none());
    assert_eq!(facts.clone(), facts);
}
