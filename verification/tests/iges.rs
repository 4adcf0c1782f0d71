use cadagent::parser::iges::{
    entity_records, entity_records_sliceable, global_section_sliceable, parse_global,
    parse_iges_parameters,
};
use cadagent::parser::CadMetadata;

fn section_line(area: &str, tag: char, seq: usize) -> String {
    format!("{:<72}{}{:>7}", area, tag, seq)
}

fn global_text(units: &str) -> String {
    let params = format!("a0,a1,a2,a3,a4,a5,a6,a7,a8,a9,a10,a11,a12, NAME ,a14, SOFT ,{},a17", units);
    format!(
        "{}\n{}\n",
        section_line("start", 'S', 1),
        section_line(&params, 'G', 1)
    )
}

#[test]
fn test_parse_iges_parameters() {
    let params = parse_iges_parameters("1, 2, 3, 4");
    assert_eq!(params, vec!["1", "2", "3", "4"]);

    let params = parse_iges_parameters("'string', 1, 2");
    assert_eq!(params, vec!["'string'", "1", "2"]);
}

#[test]
fn iges_parameters_quote_with_double_quotes_too() {
    assert_eq!(parse_iges_parameters("\"a,b\", (1,2),3,"), vec!["\"a,b\"", "(1,2)", "3"]);
}

#[test]
fn iges_global_section_fields() {
    let text = global_text("2");
    assert!(global_section_sliceable(&text));
    let mut meta = CadMetadata::default();
    parse_global(&text, &mut meta);
    assert_eq!(meta.name, Some("NAME".to_string()));
    assert_eq!(meta.source_software, Some("SOFT".to_string()));
    assert_eq!(meta.units, Some("mm".to_string()));
}

#[test]
fn iges_units_flags() {
    for (flag, unit) in [("1", "inches"), ("2", "mm"), ("3", "meters"), ("4", "unknown"), (" 3 ", "meters")] {
        let mut meta = CadMetadata::default();
        parse_global(&global_text(flag), &mut meta);
        assert_eq!(meta.units, Some(unit.to_string()));
    }
}

#[test]
fn iges_short_global_lines_are_ignored() {
    let mut meta = CadMetadata::default();
    parse_global("a,b,c   G", &mut meta);
    assert_eq!(meta.name, None);
    let few = section_line("a0,a1,a2,a3,a4,a5,a6,a7,a8,a9,a10,a11,a12,N", 'G', 1);
    parse_global(&few, &mut meta);
    assert_eq!(meta.name, Some("N".to_string()));
    assert_eq!(meta.source_software, None);
    assert_eq!(meta.units, None);
}

#[test]
fn iges_global_sliceability() {
    let mut line = "x".repeat(71);
    line.push('é');
    line.push('G');
    line.push_str("0000001");
    assert!(!global_section_sliceable(&line));
    assert!(global_section_sliceable("no global section"));
}

#[test]
fn iges_entity_records_pair_directory_and_parameter_lines() {
    let text = format!(
        "{}\n{}\n{}\n{}\n{}\n{}\n",
        section_line("start", 'S', 1),
        section_line(&format!("{:>8}", 110), 'D', 1),
        section_line("110,0.0,0.0,0.0,1.0,1.0,0.0;", 'P', 1),
        section_line("     abc", 'D', 3),
        section_line(&format!("{:>8}", 116), 'D', 5),
        section_line("116,1.0,2.0,0.0;", 'P', 2),
    );
    assert!(entity_records_sliceable(&text));
    let records = entity_records(&text);
    assert_eq!(records.len(), 2);
    assert_eq!(records[0].0, 110);
    assert_eq!(records[0].1, format!("{:<72}", "110,0.0,0.0,0.0,1.0,1.0,0.0;"));
    assert_eq!(records[1].0, 116);
    assert_eq!(records[1].1.trim_end(), "116,1.0,2.0,0.0;");
}

#[test]
fn iges_directory_line_without_parameter_line() {
    let text = format!(
        "{}\n{}\n",
        section_line(&format!("{:>8}", 110), 'D', 1),
        section_line("not a parameter line", 'S', 2),
    );
    assert!(entity_records(&text).is_empty());
    let lone = section_line(&format!("{:>8}", 110), 'D', 1);
    assert!(entity_records(&lone).is_empty());
}
