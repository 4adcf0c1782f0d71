//! Reading an SVG document: the XML is parsed by `roxmltree`; the shapes
//! are picked out of its elements by tag, with their attributes kept as
//! text and the data of each path read into commands.

use super::path_data::{path_commands, path_commands_spec, path_views, PathCmd, PathCommand};
use super::svg::{SvgError, SvgMetadata, SvgParser};
use crate::text::{owned, str_eq};
use vstd::prelude::*;
use vstd::string::StringExecFns;

verus! {

/// An attribute of an XML element: its local name, its namespace when it
/// has one, and its value.
#[derive(Debug, Clone, PartialEq)]
pub struct XmlAttribute {
    pub name: String,
    pub namespace: Option<String>,
    pub value: String,
}

/// A node of an XML document: whether it is an element, its tag name, its
/// attributes and its text.
#[derive(Debug, Clone, PartialEq)]
pub struct XmlNode {
    pub is_element: bool,
    pub tag: String,
    pub attributes: Vec<XmlAttribute>,
    pub text: Option<String>,
}

/// An attribute as character sequences.
pub struct AttrView {
    pub name: Seq<char>,
    pub namespace: Option<Seq<char>>,
    pub value: Seq<char>,
}

/// A node as character sequences.
pub struct NodeView {
    pub is_element: bool,
    pub tag: Seq<char>,
    pub attributes: Seq<AttrView>,
    pub text: Option<Seq<char>>,
}

/// The characters of an optional string.
pub open spec fn opt_chars(o: Option<String>) -> Option<Seq<char>> {
    match o {
        Some(s) => Some(s@),
        None => None,
    }
}

impl View for XmlAttribute {
    type V = AttrView;

    open spec fn view(&self) -> AttrView {
        AttrView { name: self.name@, namespace: opt_chars(self.namespace), value: self.value@ }
    }
}

/// The views of attributes.
pub open spec fn attr_views(v: Seq<XmlAttribute>) -> Seq<AttrView> {
    v.map_values(|a: XmlAttribute| a@)
}

impl View for XmlNode {
    type V = NodeView;

    open spec fn view(&self) -> NodeView {
        NodeView {
            is_element: self.is_element,
            tag: self.tag@,
            attributes: attr_views(self.attributes@),
            text: opt_chars(self.text),
        }
    }
}

/// The views of nodes.
pub open spec fn node_views(v: Seq<XmlNode>) -> Seq<NodeView> {
    v.map_values(|n: XmlNode| n@)
}

/// The nodes `roxmltree` reads from a document, in document order from its
/// root element on, or its error text when the document is not well-formed
/// XML.
pub uninterp spec fn xml_parse(content: Seq<char>) -> Result<Seq<NodeView>, Seq<char>>;

/// `roxmltree::Document::parse` with the default options, then the
/// descendants of the root element (the root element first), each with its
/// kind, tag name, attributes and text; the error's `Display` text when
/// parsing fails. Its result is named, not described.
#[verifier::external_body]
fn xml_nodes(content: &str) -> (r: Result<Vec<XmlNode>, String>)
    ensures
        match r {
            Ok(v) => xml_parse(content@) == Ok::<Seq<NodeView>, Seq<char>>(node_views(v@)),
            Err(e) => xml_parse(content@) == Err::<Seq<NodeView>, Seq<char>>(e@),
        },
{
    let doc = roxmltree::Document::parse(content).map_err(|e| e.to_string())?;
    Ok(doc.root_element().descendants().map(|n| XmlNode {
        is_element: n.is_element(),
        tag: n.tag_name().name().to_string(),
        attributes: n.attributes().map(|a| XmlAttribute {
            name: a.name().to_string(),
            namespace: a.namespace().map(|s| s.to_string()),
            value: a.value().to_string(),
        }).collect(),
        text: n.text().map(|t| t.to_string()),
    }).collect())
}

/// The kinds of shape an SVG document is read for.
#[derive(Debug, Clone, Copy, PartialEq, Eq)]
pub enum ShapeKind {
    Line,
    Rect,
    Circle,
    Ellipse,
    Polygon,
    Polyline,
    Path,
    Text,
}

/// The shape kind of an element's tag; `None` for other elements (groups,
/// definitions, images and the like), which are skipped.
pub open spec fn shape_kind(tag: Seq<char>) -> Option<ShapeKind> {
    if tag == "line"@ {
        Some(ShapeKind::Line)
    } else if tag == "rect"@ {
        Some(ShapeKind::Rect)
    } else if tag == "circle"@ {
        Some(ShapeKind::Circle)
    } else if tag == "ellipse"@ {
        Some(ShapeKind::Ellipse)
    } else if tag == "polygon"@ {
        Some(ShapeKind::Polygon)
    } else if tag == "polyline"@ {
        Some(ShapeKind::Polyline)
    } else if tag == "path"@ {
        Some(ShapeKind::Path)
    } else if tag == "text"@ {
        Some(ShapeKind::Text)
    } else {
        None
    }
}

/// The value of the first attribute named `name` that has no namespace.
pub open spec fn attribute_value(attrs: Seq<AttrView>, name: Seq<char>) -> Option<Seq<char>>
    decreases attrs.len(),
{
    if attrs.len() == 0 {
        None
    } else if attrs[0].name == name && attrs[0].namespace is None {
        Some(attrs[0].value)
    } else {
        attribute_value(attrs.drop_first(), name)
    }
}

/// A shape read from a document: its kind, its attributes, its text and,
/// for a path, the commands of its `d` attribute.
#[derive(Debug, Clone, PartialEq)]
pub struct SvgShape {
    pub kind: ShapeKind,
    pub attributes: Vec<XmlAttribute>,
    pub text: Option<String>,
    pub commands: Vec<PathCommand>,
}

/// A shape as plain values.
pub struct ShapeView {
    pub kind: ShapeKind,
    pub attributes: Seq<AttrView>,
    pub text: Option<Seq<char>>,
    pub commands: Seq<PathCmd>,
}

impl View for SvgShape {
    type V = ShapeView;

    open spec fn view(&self) -> ShapeView {
        ShapeView {
            kind: self.kind,
            attributes: attr_views(self.attributes@),
            text: opt_chars(self.text),
            commands: path_views(self.commands@),
        }
    }
}

/// The shape an element node gives, if its tag names one.
pub open spec fn shape_of(n: NodeView) -> Option<ShapeView> {
    if !n.is_element {
        None
    } else {
        match shape_kind(n.tag) {
            None => None,
            Some(k) => Some(
                ShapeView {
                    kind: k,
                    attributes: n.attributes,
                    text: n.text,
                    commands: if k == ShapeKind::Path {
                        match attribute_value(n.attributes, "d"@) {
                            Some(d) => path_commands_spec(d),
                            None => Seq::empty(),
                        }
                    } else {
                        Seq::empty()
                    },
                },
            ),
        }
    }
}

/// The shapes of the nodes, in order.
pub open spec fn shapes_of(nodes: Seq<NodeView>) -> Seq<ShapeView>
    decreases nodes.len(),
{
    if nodes.len() == 0 {
        Seq::empty()
    } else {
        let rest = shapes_of(nodes.drop_last());
        match shape_of(nodes.last()) {
            Some(s) => rest.push(s),
            None => rest,
        }
    }
}

/// The size attributes of the root element, the first node: `width` and
/// `height` ("0" when absent) and `viewBox`.
pub open spec fn metadata_of(nodes: Seq<NodeView>) -> (Seq<char>, Seq<char>, Option<Seq<char>>) {
    let attrs = if nodes.len() > 0 {
        nodes[0].attributes
    } else {
        Seq::empty()
    };
    (
        match attribute_value(attrs, "width"@) {
            Some(w) => w,
            None => "0"@,
        },
        match attribute_value(attrs, "height"@) {
            Some(h) => h,
            None => "0"@,
        },
        attribute_value(attrs, "viewBox"@),
    )
}

/// The shapes and size attributes read from an SVG document.
#[derive(Debug, Clone)]
pub struct SvgDocument {
    pub shapes: Vec<SvgShape>,
    pub metadata: SvgMetadata,
}

/// The views of shapes.
pub open spec fn shape_views(v: Seq<SvgShape>) -> Seq<ShapeView> {
    v.map_values(|s: SvgShape| s@)
}

/// The document's contents match the nodes it was read from.
pub open spec fn document_matches(doc: SvgDocument, nodes: Seq<NodeView>) -> bool {
    let m = metadata_of(nodes);
    &&& shape_views(doc.shapes@) == shapes_of(nodes)
    &&& doc.metadata.width@ == m.0
    &&& doc.metadata.height@ == m.1
    &&& opt_chars(doc.metadata.view_box) == m.2
}

fn copy_opt(o: &Option<String>) -> (r: Option<String>)
    ensures
        opt_chars(r) == opt_chars(*o),
{
    match o {
        Some(s) => Some(owned(s.as_str())),
        None => None,
    }
}

fn copy_attributes(v: &Vec<XmlAttribute>) -> (r: Vec<XmlAttribute>)
    ensures
        attr_views(r@) == attr_views(v@),
{
    let mut out: Vec<XmlAttribute> = Vec::new();
    let mut k: usize = 0;
    while k < v.len()
        invariant
            k <= v@.len(),
            attr_views(out@) == attr_views(v@.take(k as int)),
        decreases v@.len() - k,
    {
        let a = &v[k];
        let ghost o0 = attr_views(out@);
        out.push(XmlAttribute { name: owned(a.name.as_str()), namespace: copy_opt(&a.namespace), value: owned(a.value.as_str()) });
        proof {
            assert(attr_views(out@) =~= o0.push(a@));
            assert(attr_views(v@.take(k + 1)) =~= attr_views(v@.take(k as int)).push(v@[k as int]@));
        }
        k = k + 1;
    }
    proof {
        assert(v@.take(v@.len() as int) =~= v@);
    }
    out
}

/// The value of the first attribute named `name` with no namespace.
fn find_attribute(attrs: &Vec<XmlAttribute>, name: &str) -> (r: Option<String>)
    ensures
        opt_chars(r) == attribute_value(attr_views(attrs@), name@),
{
    let mut k: usize = 0;
    proof {
        assert(attr_views(attrs@).skip(0) =~= attr_views(attrs@));
    }
    while k < attrs.len()
        invariant
            k <= attrs@.len(),
            attribute_value(attr_views(attrs@), name@) == attribute_value(
                attr_views(attrs@).skip(k as int),
                name@,
            ),
        decreases attrs@.len() - k,
    {
        let a = &attrs[k];
        proof {
            let s = attr_views(attrs@).skip(k as int);
            assert(s[0] == a@);
            assert(s.drop_first() =~= attr_views(attrs@).skip(k + 1));
        }
        if str_eq(a.name.as_str(), name) && a.namespace.is_none() {
            return Some(owned(a.value.as_str()));
        }
        k = k + 1;
    }
    proof {
        assert(attr_views(attrs@).skip(k as int) =~= Seq::<AttrView>::empty());
    }
    None
}

/// The shape kind of a tag.
fn kind_of_tag(tag: &str) -> (r: Option<ShapeKind>)
    ensures
        r == shape_kind(tag@),
{
    if str_eq(tag, "line") {
        Some(ShapeKind::Line)
    } else if str_eq(tag, "rect") {
        Some(ShapeKind::Rect)
    } else if str_eq(tag, "circle") {
        Some(ShapeKind::Circle)
    } else if str_eq(tag, "ellipse") {
        Some(ShapeKind::Ellipse)
    } else if str_eq(tag, "polygon") {
        Some(ShapeKind::Polygon)
    } else if str_eq(tag, "polyline") {
        Some(ShapeKind::Polyline)
    } else if str_eq(tag, "path") {
        Some(ShapeKind::Path)
    } else if str_eq(tag, "text") {
        Some(ShapeKind::Text)
    } else {
        None
    }
}

/// The shapes and size attributes of a document whose XML nodes are
/// `nodes`, the root element first: every element whose tag names a shape
/// (`line`, `rect`, `circle`, `ellipse`, `polygon`, `polyline`, `path`,
/// `text`) gives one, in document order, with its attributes and text as
/// written; a path also gets the commands of its `d` attribute.
pub fn document_from_nodes(nodes: &Vec<XmlNode>) -> (doc: SvgDocument)
    ensures
        document_matches(doc, node_views(nodes@)),
{
    let ghost nv = node_views(nodes@);
    let mut shapes: Vec<SvgShape> = Vec::new();
    let mut k: usize = 0;
    while k < nodes.len()
        invariant
            k <= nodes@.len(),
            nv == node_views(nodes@),
            shape_views(shapes@) == shapes_of(nv.take(k as int)),
        decreases nodes@.len() - k,
    {
        let n = &nodes[k];
        let ghost s0 = shape_views(shapes@);
        proof {
            assert(nv.take(k + 1).drop_last() =~= nv.take(k as int));
            assert(nv.take(k + 1).last() == n@);
        }
        if n.is_element {
            if let Some(kind) = kind_of_tag(n.tag.as_str()) {
                let commands = if matches!(kind, ShapeKind::Path) {
                    match find_attribute(&n.attributes, "d") {
                        Some(d) => path_commands(d.as_str()),
                        None => Vec::new(),
                    }
                } else {
                    Vec::new()
                };
                proof {
                    assert(path_views(Seq::<PathCommand>::empty()) =~= Seq::<PathCmd>::empty());
                }
                let shape = SvgShape {
                    kind,
                    attributes: copy_attributes(&n.attributes),
                    text: copy_opt(&n.text),
                    commands,
                };
                shapes.push(shape);
                proof {
                    assert(shape_views(shapes@) =~= s0.push(shape_of(n@).unwrap()));
                }
            }
        }
        k = k + 1;
    }
    proof {
        assert(nv.take(nodes@.len() as int) =~= nv);
    }
    let (width, height, view_box) = if nodes.len() > 0 {
        let a = &nodes[0].attributes;
        (find_attribute(a, "width"), find_attribute(a, "height"), find_attribute(a, "viewBox"))
    } else {
        let empty: Vec<XmlAttribute> = Vec::new();
        proof {
            assert(attr_views(empty@) =~= Seq::<AttrView>::empty());
        }
        (find_attribute(&empty, "width"), find_attribute(&empty, "height"), find_attribute(&empty, "viewBox"))
    };
    let width = match width {
        Some(w) => w,
        None => "0".to_owned(),
    };
    let height = match height {
        Some(h) => h,
        None => "0".to_owned(),
    };
    SvgDocument { shapes, metadata: SvgMetadata { width, height, view_box } }
}

/// The error of a document that is not well-formed XML, given the parser's
/// error text.
pub fn xml_error(e: &str) -> (r: SvgError)
    ensures
        r matches SvgError::ParseError(m) && m@ == "XML 解析失败："@ + e@,
{
    let mut m = "XML 解析失败：".to_owned();
    m.append(e);
    SvgError::ParseError(m)
}

impl SvgParser {
    /// Reads an SVG document from its text: the shapes of its elements and
    /// the size attributes of its root (see `document_from_nodes`); a text
    /// that is not well-formed XML is refused with the parser's message.
    pub fn parse_string(content: &str) -> (r: Result<SvgDocument, SvgError>)
        ensures
            match xml_parse(content@) {
                Ok(nodes) => r matches Ok(doc) && document_matches(doc, nodes),
                Err(e) => r matches Err(SvgError::ParseError(m)) && m@ == "XML 解析失败："@ + e,
            },
    {
        match xml_nodes(content) {
            Ok(nodes) => Ok(document_from_nodes(&nodes)),
            Err(e) => Err(xml_error(e.as_str())),
        }
    }
}

} // verus!
