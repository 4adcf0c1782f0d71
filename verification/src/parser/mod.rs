//! The CAD file parsers' own logic: metadata, error kinds, text cleanup for
//! DXF, the record structure of STEP and IGES files (header, data and
//! entity records, parameter lists, entity references) and the safety
//! screen for SVG.

pub mod dxf;
pub mod iges;
pub mod params;
pub mod parser_common;
pub mod path_data;
pub mod step;
pub mod svg;
pub mod svg_document;

pub use dxf::{clean_mtext_formatting, DxfError, DxfParser};
pub use parser_common::CadMetadata;
pub use path_data::{path_commands, PathCommand};
pub use svg_document::{document_from_nodes, ShapeKind, SvgDocument, SvgShape, XmlAttribute, XmlNode};
pub use svg::{
    validate_svg_security, SvgError, SvgMetadata, SvgParser, SvgRenderError,
};
