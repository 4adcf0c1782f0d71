use cadagent::parser::CadMetadata;

#[test]
fn test_metadata_default() {
    let metadata = CadMetadata::default();
    assert!(metadata.name.is_none());
    assert!(metadata.author.is_none());
    assert!(metadata.organization.is_none());
    assert!(metadata.creation_date.is_none());
    assert!(metadata.modification_date.is_none());
    assert!(metadata.source_software.is_none());
    assert!(metadata.target_software.is_none());
    assert!(metadata.units.is_none());
}

#[test]
fn test_metadata_clone() {
    let metadata1 = CadMetadata {
        name: Some("Test Model".to_string()),
        author: Some("John Doe".to_string()),
        units: Some("mm".to_string()),
        ..Default::default()
    };
    let metadata2 = metadata1.clone();

    assert_eq!(metadata1.name, metadata2.name);
    assert_eq!(metadata1.author, metadata2.author);
    assert_eq!(metadata1.units, metadata2.units);
}

#[test]
fn test_metadata_debug_display() {
    let metadata = CadMetadata {
        name: Some("Test".to_string()),
        ..Default::default()
    };
    assert!(format!("{:?}", metadata).contains("Test"));
}

#[test]
fn test_metadata_with_all_fields() {
    let metadata = CadMetadata {
        name: Some("Test Model".to_string()),
        author: Some("John Doe".to_string()),
        organization: Some("Test Org".to_string()),
        creation_date: Some("2024-01-01".to_string()),
        modification_date: Some("2024-01-02".to_string()),
        source_software: Some("CAD Software v1.0".to_string()),
        target_software: Some("CAD Software v2.0".to_string()),
        units: Some("mm".to_string()),
    };

    assert_eq!(metadata.name, Some("Test Model".to_string()));
    assert_eq!(metadata.author, Some("John Doe".to_string()));
    assert_eq!(metadata.organization, Some("Test Org".to_string()));
    assert_eq!(metadata.creation_date, Some("2024-01-01".to_string()));
    assert_eq!(metadata.modification_date, Some("2024-01-02".to_string()));
    assert_eq!(
        metadata.source_software,
        Some("CAD Software v1.0".to_string())
    );
    assert_eq!(
        metadata.target_software,
        Some("CAD Software v2.0".to_string())
    );
    assert_eq!(metadata.units, Some("mm".to_string()));
}
