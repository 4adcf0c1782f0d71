use cadagent::parser::step::{
    data_records, data_section_sliceable, entity_head_sliceable, header_entries_sliceable,
    parse_edge_curve, parse_edge_loop, parse_entity_head, parse_face_bound, parse_header,
    parse_manifold_solid_brep, parse_parameters, StepFormatError,
};
use cadagent::parser::CadMetadata;

const MINIMAL: &str = "ISO-10303-21;
HEADER;
FILE_DESCRIPTION(('Test file'),'2;1');
FILE_NAME('test.step','2024-01-01',('Author'),('Organization'),'Software','Version','');
ENDSEC;
DATA;
#1 = CARTESIAN_POINT((1.0, 2.0));
#2 = CARTESIAN_POINT((3.0, 4.0));
ENDSEC;
END-ISO-10303-21;";

fn strings(v: &[&str]) -> Vec<String> {
    v.iter().map(|s| s.to_string()).collect()
}

#[test]
fn step_header_gives_name_and_description() {
    assert!(header_entries_sliceable(MINIMAL));
    let mut meta = CadMetadata::default();
    assert!(parse_header(MINIMAL, &mut meta).is_ok());
    assert_eq!(meta.name, Some("test.step".to_string()));
    assert_eq!(meta.source_software, Some("'Test file'),'2;1'".to_string()));
    assert_eq!(meta.units, None);
    assert_eq!(meta.author, None);
}

#[test]
fn step_header_errors() {
    let mut meta = CadMetadata::default();
    let e = parse_header("INVALID CONTENT", &mut meta).unwrap_err();
    assert!(matches!(e, StepFormatError::MissingHeader));
    assert_eq!(e.message(), "缺少 HEADER 段");
    let e = parse_header("HEADER; FILE_NAME('a');", &mut meta).unwrap_err();
    assert!(matches!(e, StepFormatError::MissingHeaderEnd));
    assert_eq!(e.message(), "缺少 HEADER 结束标记");
    assert_eq!(meta.name, None);
}

#[test]
fn step_header_without_entries_keeps_metadata() {
    let mut meta = CadMetadata::default();
    meta.name = Some("kept".to_string());
    assert!(parse_header("HEADER;ENDSEC;", &mut meta).is_ok());
    assert_eq!(meta.name, Some("kept".to_string()));
    assert_eq!(meta.source_software, None);
}

#[test]
fn step_header_name_needs_two_quotes() {
    let mut meta = CadMetadata::default();
    assert!(parse_header("HEADER;FILE_NAME('open);ENDSEC;", &mut meta).is_ok());
    assert_eq!(meta.name, None);
}

#[test]
fn step_header_sliceability() {
    assert!(!header_entries_sliceable("HEADER;FILE_DESCRIPTION);ENDSEC;"));
    assert!(!header_entries_sliceable("HEADER;FILE_NAMEé'a');ENDSEC;"));
    assert!(header_entries_sliceable("no header at all"));
}

#[test]
fn step_data_records_of_minimal_file() {
    assert!(data_section_sliceable(MINIMAL));
    let records = data_records(MINIMAL).unwrap();
    assert_eq!(
        records,
        vec![
            (1usize, "CARTESIAN_POINT((1.0, 2.0));".to_string()),
            (2usize, "CARTESIAN_POINT((3.0, 4.0));".to_string()),
        ]
    );
}

#[test]
fn step_data_errors() {
    let e = data_records("ISO-10303-21;HEADER;ENDSEC;").unwrap_err();
    assert!(matches!(e, StepFormatError::MissingData));
    assert_eq!(e.message(), "缺少 DATA 段");
    let e = data_records("HEADER;ENDSEC;\nDATA;\n#1 = X(1);\n").unwrap_err();
    assert!(matches!(e, StepFormatError::MissingDataEnd));
}

#[test]
fn step_data_skips_lines_without_instance_numbers() {
    let text = "DATA;\n#7 = LINE(#1,#2);\n  # 8 = X(1);\nfoo = BAR(1);\n#x = Y(2);\n#9=Z();\nENDSEC;";
    let records = data_records(text).unwrap();
    assert_eq!(
        records,
        vec![
            (7usize, "LINE(#1,#2);".to_string()),
            (8usize, "X(1);".to_string()),
            (9usize, "Z();".to_string()),
        ]
    );
}

#[test]
fn step_data_sliceability() {
    assert!(data_section_sliceable("DATAxé\nENDSEC"));
    assert!(!data_section_sliceable("DATAxyé\nENDSEC"));
    assert!(!data_section_sliceable("DATA"));
    assert!(data_section_sliceable("nothing here"));
}

#[test]
fn step_entity_heads() {
    let (ty, params) = parse_entity_head("  CARTESIAN_POINT((1.0, 2.0));; ").unwrap();
    assert_eq!(ty, "CARTESIAN_POINT");
    assert_eq!(params, "(1.0, 2.0)");
    let e = parse_entity_head("NOPAREN;").unwrap_err();
    assert!(matches!(&e, StepFormatError::InvalidEntity(d) if d == "NOPAREN"));
    assert_eq!(e.message(), "无效的实体格式：NOPAREN");
    assert!(!entity_head_sliceable("A("));
    assert!(!entity_head_sliceable("A(xé"));
    assert!(entity_head_sliceable("A(é)"));
}

#[test]
fn step_parameter_lists() {
    assert_eq!(parse_parameters("#2, #3, #4"), strings(&["#2", "#3", "#4"]));
    assert_eq!(
        parse_parameters("'a,b', (1.0, 2.0), .T."),
        strings(&["'a,b'", "(1.0, 2.0)", ".T."])
    );
    assert_eq!(parse_parameters("\"x,y\""), strings(&["\"x", "y\""]));
}

#[test]
fn step_edge_loops() {
    let params = parse_parameters("#2, #3, #4");
    let (ids, orientations) = parse_edge_loop(&params);
    assert_eq!(ids, vec![2, 3, 4]);
    assert_eq!(orientations, vec![true, true, true]);
    let (ids, orientations) = parse_edge_loop(&strings(&["#5", ".F.", "#x", ".T.", "junk"]));
    assert_eq!(ids, vec![5]);
    assert_eq!(orientations, vec![true, false, true]);
}

#[test]
fn step_edge_curves_and_face_bounds() {
    assert_eq!(parse_edge_curve(&strings(&["#1", " #2 ", "x"])), (Some(1), Some(2), None));
    assert_eq!(parse_edge_curve(&strings(&["#1"])), (Some(1), None, None));
    assert_eq!(parse_face_bound(&strings(&["#5", ".F."])), (Some(5), false));
    assert_eq!(parse_face_bound(&strings(&["#5"])), (Some(5), true));
    assert_eq!(parse_face_bound(&strings(&["5", " .T. "])), (None, true));
}

#[test]
fn step_manifold_solid_breps() {
    let (refs, boundaries) =
        parse_manifold_solid_brep(&strings(&["#10", "(#1,#2)", "foo", "#x", "#11"]));
    assert_eq!(refs, vec![10, 11]);
    assert_eq!(boundaries, 1);
}
