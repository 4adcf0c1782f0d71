//! Metadata shared by the CAD file parsers.

use vstd::prelude::*;

verus! {

/// Metadata read from a CAD file's header: where the model comes from and
/// its units.
#[derive(Debug, Clone)]
pub struct CadMetadata {
    /// Model name or title.
    pub name: Option<String>,
    /// Author or creator.
    pub author: Option<String>,
    /// Organization.
    pub organization: Option<String>,
    /// Creation timestamp.
    pub creation_date: Option<String>,
    /// Last modification timestamp.
    pub modification_date: Option<String>,
    /// Software that created the file.
    pub source_software: Option<String>,
    /// Target software or version.
    pub target_software: Option<String>,
    /// Units, such as "mm", "inch" or "m".
    pub units: Option<String>,
}

impl Default for CadMetadata {
    /// Metadata with every field absent.
    fn default() -> (m: CadMetadata)
        ensures
            m.name is None,
            m.author is None,
            m.organization is None,
            m.creation_date is None,
            m.modification_date is None,
            m.source_software is None,
            m.target_software is None,
            m.units is None,
    {
        CadMetadata {
            name: None,
            author: None,
            organization: None,
            creation_date: None,
            modification_date: None,
            source_software: None,
            target_software: None,
            units: None,
        }
    }
}

} // verus!
