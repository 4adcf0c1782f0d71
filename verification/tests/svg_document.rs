use cadagent::parser::svg::{SvgError, SvgParser};
use cadagent::parser::{document_from_nodes, PathCommand, ShapeKind, XmlAttribute, XmlNode};

#[test]
fn svg_shapes_are_read_by_tag() {
    let svg = r#"<svg width="10" height="20"><line x1="0" y1="0" x2="1" y2="1"/><g><path d="M0 0 L1 1"/></g><text x="1">Hi</text><image/></svg>"#;
    let doc = SvgParser::parse_string(svg).unwrap();
    assert_eq!(doc.metadata.width, "10");
    assert_eq!(doc.metadata.height, "20");
    assert_eq!(doc.metadata.view_box, None);
    let kinds: Vec<ShapeKind> = doc.shapes.iter().map(|s| s.kind).collect();
    assert_eq!(kinds, vec![ShapeKind::Line, ShapeKind::Path, ShapeKind::Text]);
    assert_eq!(doc.shapes[0].attributes.len(), 4);
    assert_eq!(doc.shapes[0].attributes[2].name, "x2");
    assert_eq!(doc.shapes[0].attributes[2].value, "1");
    assert_eq!(
        doc.shapes[1].commands,
        vec![
            PathCommand { letter: 'M', relative: false, args: vec!["0".to_string(), "0".to_string()] },
            PathCommand { letter: 'L', relative: false, args: vec!["1".to_string(), "1".to_string()] },
        ]
    );
    assert_eq!(doc.shapes[2].text.as_deref(), Some("Hi"));
}

#[test]
fn svg_size_defaults_and_view_box() {
    let doc = SvgParser::parse_string(r#"<svg viewBox="0 0 5 5"/>"#).unwrap();
    assert_eq!(doc.metadata.width, "0");
    assert_eq!(doc.metadata.height, "0");
    assert_eq!(doc.metadata.view_box.as_deref(), Some("0 0 5 5"));
    assert!(doc.shapes.is_empty());
}

#[test]
fn svg_malformed_xml_is_a_parse_error() {
    match SvgParser::parse_string("<svg><line></svg>") {
        Err(SvgError::ParseError(m)) => assert!(m.starts_with("XML 解析失败：")),
        other => panic!("expected a parse error, got {:?}", other.is_ok()),
    }
}

#[test]
fn svg_document_from_given_nodes() {
    let attr = |n: &str, v: &str| XmlAttribute { name: n.to_string(), namespace: None, value: v.to_string() };
    let nodes = vec![
        XmlNode { is_element: true, tag: "svg".to_string(), attributes: vec![attr("width", "3")], text: None },
        XmlNode { is_element: false, tag: String::new(), attributes: vec![], text: Some("x".to_string()) },
        XmlNode {
            is_element: true,
            tag: "path".to_string(),
            attributes: vec![
                XmlAttribute { name: "d".to_string(), namespace: Some("urn:x".to_string()), value: "M 9 9".to_string() },
                attr("d", "M 1 2 z"),
            ],
            text: None,
        },
    ];
    let doc = document_from_nodes(&nodes);
    assert_eq!(doc.metadata.width, "3");
    assert_eq!(doc.metadata.height, "0");
    assert_eq!(doc.shapes.len(), 1);
    assert_eq!(doc.shapes[0].kind, ShapeKind::Path);
    assert_eq!(doc.shapes[0].commands.len(), 2);
    assert_eq!(doc.shapes[0].commands[0].args, vec!["1".to_string(), "2".to_string()]);
    assert_eq!(doc.shapes[0].commands[1].letter, 'Z');
}
