//! XML documents as tables.
use indexmap::IndexMap;
use secinfra::xml2tables::mapping::without_bom;
use secinfra::xml2tables::parser::parse_xml_tables_mapped;
use secinfra::xml2tables::paths::{
    current_path, infer_row_boundary, is_at_or_below, join_attribute, normalize_attr_name,
    normalize_path, normalize_path_list, normalize_path_map, normalize_tag,
};
use secinfra::xml2tables::registry::{
    mapping_json_for_document_type, supported_xml_document_types,
};
use secinfra::xml2tables::types::{
    StructuredXmlTableSpec, XmlMappingDocument, XmlPathList, XmlRow, XmlTable, XmlTableSpec,
    XmlTables,
};

fn paths(list: &[(&str, &str)]) -> IndexMap<String, String> {
    list.iter().map(|(path, column)| (path.to_string(), column.to_string())).collect()
}

fn structured() -> StructuredXmlTableSpec {
    StructuredXmlTableSpec {
        columns: IndexMap::new(),
        carry: IndexMap::new(),
        row_path: None,
        context_path: None,
        row_index: None,
        context_index: None,
    }
}

fn mapping(list: Vec<(&str, XmlTableSpec)>) -> XmlMappingDocument {
    list.into_iter().map(|(name, spec)| (name.to_string(), spec)).collect()
}

fn row(row: &XmlRow) -> Vec<(&str, Option<&str>)> {
    row.iter().map(|(column, value)| (column.as_str(), value.as_deref())).collect()
}

#[test]
fn legacy_tables_have_a_row_for_each_common_parent() {
    let xml = b"<Root><Item id='1'><Name>A</Name><Qty>2</Qty></Item>
        <ns:Item id='2'><Name>B</Name></ns:Item><Item><Other>C</Other></Item></Root>";
    let mapping = mapping(vec![(
        "items",
        XmlTableSpec::Legacy(paths(&[
            ("/root/item/name", "name"),
            ("root/item/qty", "quantity"),
            ("/Root/Item/@ID", "id"),
            ("/root/item/missing", "missing"),
        ])),
    )]);
    let tables = parse_xml_tables_mapped(xml, "TEST", &mapping).unwrap();
    assert_eq!(tables.document_type, "TEST");
    assert_eq!(tables.tables.len(), 1);
    let table = &tables.tables[0];
    assert_eq!(table.name, "items");
    assert_eq!(table.columns, vec!["name", "quantity", "id", "_table"]);
    assert_eq!(table.rows.len(), 2);
    assert_eq!(
        row(&table.rows[0]),
        vec![
            ("name", Some("A")),
            ("quantity", Some("2")),
            ("id", Some("1")),
            ("_table", Some("items")),
        ]
    );
    assert_eq!(
        row(&table.rows[1]),
        vec![("name", Some("B")), ("quantity", None), ("id", Some("2")), ("_table", Some("items"))]
    );
}

#[test]
fn contexts_are_numbered_and_carried() {
    let xml = b"<doc><head>H</head>
        <owner><row><v>1</v></row><row><v>2</v></row><label>first</label></owner>
        <owner><label>second</label><row><v>3</v><v>4</v></row></owner></doc>";
    let spec = StructuredXmlTableSpec {
        columns: paths(&[("/doc/owner/row/v", "value")]),
        carry: paths(&[("/doc/head", "head"), ("/doc/owner/label", "label")]),
        row_path: Some(XmlPathList::Many(vec![
            "/doc/none".to_string(),
            "/doc/owner/row".to_string(),
        ])),
        context_path: Some(XmlPathList::One("/doc/owner".to_string())),
        row_index: Some("row".to_string()),
        context_index: Some("owner".to_string()),
    };
    let mapping = mapping(vec![("rows", XmlTableSpec::Structured(spec))]);
    let tables = parse_xml_tables_mapped(xml, "T", &mapping).unwrap();
    let table = &tables.tables[0];
    assert_eq!(table.columns, vec!["value", "head", "label", "row", "owner", "_table"]);
    assert_eq!(table.rows.len(), 3);
    let values: Vec<Vec<Option<&str>>> = table
        .rows
        .iter()
        .map(|r| r.values().map(|value| value.as_deref()).collect())
        .collect();
    assert_eq!(
        values,
        vec![
            vec![Some("1"), Some("H"), Some("first"), Some("1"), Some("1"), Some("rows")],
            vec![Some("2"), Some("H"), Some("first"), Some("2"), Some("1"), Some("rows")],
            vec![Some("3|4"), Some("H"), Some("second"), Some("3"), Some("2"), Some("rows")],
        ]
    );
    for row in &table.rows {
        assert_eq!(row.keys().cloned().collect::<Vec<_>>(), table.columns);
    }
}

#[test]
fn late_carried_values_reach_earlier_rows() {
    let xml = b"<d><r><v>1</v></r><r><v>2</v></r><footer>F</footer></d>";
    let spec = StructuredXmlTableSpec {
        columns: paths(&[("/d/r/v", "v")]),
        carry: paths(&[("/d/footer", "footer")]),
        row_path: Some(XmlPathList::One("/d/r".to_string())),
        ..structured()
    };
    let tables = parse_xml_tables_mapped(
        xml,
        "T",
        &mapping(vec![("t", XmlTableSpec::Structured(spec))]),
    )
    .unwrap();
    assert!(tables.tables[0].rows.iter().all(|r| r["footer"].as_deref() == Some("F")));
}

#[test]
fn tables_without_rows_are_left_out() {
    let xml = b"<d><r><v> </v></r></d>";
    let with_row_path = StructuredXmlTableSpec {
        columns: paths(&[("/d/r/v", "v")]),
        row_path: Some(XmlPathList::One("/d/none".to_string())),
        ..structured()
    };
    let tables = parse_xml_tables_mapped(
        xml,
        "T",
        &mapping(vec![
            ("empty", XmlTableSpec::Legacy(paths(&[("/d/r/v", "v")]))),
            ("unknown", XmlTableSpec::Legacy(paths(&[("/x/y", "v")]))),
            ("no rows", XmlTableSpec::Structured(with_row_path)),
            ("no columns", XmlTableSpec::Structured(structured())),
        ]),
    )
    .unwrap();
    assert!(tables.tables.is_empty());
}

#[test]
fn text_before_the_first_child_counts() {
    let xml = b"<d><r>a<c>x</c>b</r><r><![CDATA[k]]>l</r><r at='&lt;'/></d>";
    let tables = parse_xml_tables_mapped(
        xml,
        "T",
        &mapping(vec![(
            "t",
            XmlTableSpec::Legacy(paths(&[("/d/r", "r"), ("/d/r/@at", "at")])),
        )]),
    )
    .unwrap();
    let rows = &tables.tables[0].rows;
    assert_eq!(rows.len(), 3);
    assert_eq!(rows[0]["r"].as_deref(), Some("a"));
    assert_eq!(rows[1]["r"].as_deref(), Some("kl"));
    assert_eq!(rows[2]["at"].as_deref(), Some("<"));
    assert_eq!(rows[2]["r"], None);
}

#[test]
fn broken_documents_are_errors() {
    let mapping = mapping(vec![("t", XmlTableSpec::Legacy(paths(&[("/d", "d")])))]);
    assert!(parse_xml_tables_mapped(b"<d></e>", "T", &mapping).is_err());
    assert!(parse_xml_tables_mapped(b"<d x></d>", "T", &mapping).is_err());
    assert!(parse_xml_tables_mapped(b"<d x='&no;'></d>", "T", &mapping).is_err());
    assert!(parse_xml_tables_mapped(b"<d>&no;</d>", "T", &mapping).is_err());
    assert!(parse_xml_tables_mapped(b"", "T", &mapping).unwrap().tables.is_empty());
}

#[test]
fn paths_are_normalized() {
    assert_eq!(normalize_path(" A/B "), "/a/b");
    assert_eq!(normalize_path("/A"), "/a");
    assert_eq!(normalize_path("  "), "");
    assert_eq!(normalize_tag(b"ns:Tag"), "tag");
    assert_eq!(normalize_tag(b"Tag"), "tag");
    assert_eq!(normalize_attr_name(b"xsi:Type"), "xsi:type");
    assert_eq!(current_path(&[]), "");
    assert_eq!(current_path(&["a".to_string(), "b".to_string()]), "/a/b");
    assert_eq!(join_attribute("/a", "id"), "/a/@id");
    assert!(is_at_or_below("/a/b", "/a"));
    assert!(is_at_or_below("/a", "/a"));
    assert!(!is_at_or_below("/ab", "/a"));
    assert_eq!(
        normalize_path_list(&Some(XmlPathList::Many(vec![
            "A".to_string(),
            " ".to_string(),
            "/B".to_string(),
        ]))),
        vec!["/a", "/b"]
    );
    assert_eq!(normalize_path_list(&Some(XmlPathList::One(" ".to_string()))), vec![""]);
    assert!(normalize_path_list(&None).is_empty());
    assert_eq!(
        normalize_path_map(&paths(&[("X", "1"), ("y", "2"), ("x", "3")])),
        paths(&[("/x", "3"), ("/y", "2")])
    );
}

#[test]
fn rows_end_where_all_columns_meet() {
    let infer = |list: &[&str]| {
        infer_row_boundary(
            &list.iter().map(|path| (path.to_string(), String::new())).collect::<Vec<_>>(),
        )
    };
    assert_eq!(infer(&["/a/b/c", "/a/b/d"]), "/a/b");
    assert_eq!(infer(&["/a/b/@x", "/a/b"]), "/a/b");
    assert_eq!(infer(&["/a", "/b"]), "");
    assert_eq!(infer(&["/a/b"]), "/a/b");
    assert_eq!(infer(&["//", "/a//b/"]), "/a/b");
    assert_eq!(infer(&[]), "");
}

#[test]
fn every_supported_type_has_a_mapping() {
    let types = supported_xml_document_types();
    assert_eq!(types.len(), 100);
    for document_type in types {
        assert!(mapping_json_for_document_type(document_type).is_some(), "{document_type}");
    }
    assert_eq!(mapping_json_for_document_type("25-NSE/A"), Some("25nse.json"));
    assert_eq!(mapping_json_for_document_type("SBSEF-W"), Some("sbsec.json"));
    assert_eq!(mapping_json_for_document_type("INFORMATION TABLE"), Some("informationtable.json"));
    assert_eq!(mapping_json_for_document_type("10-K"), None);
    assert_eq!(mapping_json_for_document_type(""), None);
}

#[test]
fn byte_order_marks_are_dropped() {
    assert_eq!(without_bom("\u{feff}\u{feff}{}\u{feff}"), "{}\u{feff}");
    assert_eq!(without_bom("{}"), "{}");
}

#[test]
fn amendments_have_the_mapping_of_their_form() {
    let types = supported_xml_document_types();
    let mut amendments = 0;
    for document_type in types {
        if let Some(form) = document_type.strip_suffix("/A") {
            assert!(types.contains(&form), "{form}");
            assert_eq!(
                mapping_json_for_document_type(document_type),
                mapping_json_for_document_type(form),
                "{form}"
            );
            amendments += 1;
        }
    }
    assert_eq!(amendments, 35);
    assert_eq!(mapping_json_for_document_type("4/A"), Some("345.json"));
    assert_eq!(mapping_json_for_document_type("MA-I/A"), Some("mai.json"));
    assert_eq!(mapping_json_for_document_type("MA/A"), Some("ma.json"));
    assert_eq!(mapping_json_for_document_type("25-NSE/A/A"), None);
}

#[test]
fn tables_can_be_copied() {
    let table = XmlTable {
        name: "t".to_string(),
        columns: vec!["a".to_string()],
        rows: vec![IndexMap::from([("a".to_string(), Some("1".to_string()))])],
    };
    let tables = XmlTables { document_type: "D".to_string(), tables: vec![table.clone()] };
    assert_eq!(tables.clone(), tables);
    assert_eq!(tables.tables[0], table);
}

#[test]
fn mappings_can_be_copied() {
    let legacy = XmlTableSpec::Legacy(paths(&[("b/c", "c"), ("b/a", "a")]));
    assert_eq!(legacy.clone(), legacy);
    let spec = XmlTableSpec::Structured(StructuredXmlTableSpec {
        columns: paths(&[("b/c", "c")]),
        carry: paths(&[("b/d", "d")]),
        row_path: Some(XmlPathList::Many(vec!["b".to_string(), "x".to_string()])),
        context_path: Some(XmlPathList::One("a".to_string())),
        row_index: Some("row".to_string()),
        context_index: None,
    });
    assert_eq!(spec.clone(), spec);
    assert_ne!(spec, legacy);
}

#[test]
fn rows_bear_the_name_of_their_table() {
    let xml = b"<r><a><n>1</n><t>x</t></a><b><n> </n></b><c><n>3</n></c></r>";
    let tables = parse_xml_tables_mapped(
        xml,
        "T",
        &mapping(vec![
            ("first", XmlTableSpec::Legacy(paths(&[("/r/a/n", "n"), ("/r/a/t", "_table")]))),
            ("absent", XmlTableSpec::Legacy(paths(&[("/r/z", "n")]))),
            ("blank", XmlTableSpec::Legacy(paths(&[("/r/b/n", "n")]))),
            ("last", XmlTableSpec::Legacy(paths(&[("/r/c/n", "n")]))),
        ]),
    )
    .unwrap();
    let names: Vec<&str> = tables.tables.iter().map(|table| table.name.as_str()).collect();
    assert_eq!(names, vec!["first", "last"]);
    for table in &tables.tables {
        assert_eq!(table.rows.len(), 1);
        for row in &table.rows {
            assert_eq!(row.get("_table").unwrap().as_deref(), Some(table.name.as_str()));
        }
    }
    assert_eq!(tables.tables[0].columns, vec!["n", "_table"]);
}
