use cadagent::parser::svg::skip_whitespace_and_commas;
use cadagent::parser::svg::{check_svg_content, validate_svg_security, SvgRenderError};

#[test]
fn test_svg_security_script_tag() {
    let malicious_svg = r#"<svg>
            <script>alert('XSS')</script>
            <rect x="0" y="0" width="100" height="100" />
        </svg>"#;

    let result = validate_svg_security(malicious_svg);
    assert!(result.is_err());
    assert!(result.unwrap_err().message().contains("script"));
}

#[test]
fn test_svg_security_javascript_url() {
    let malicious_svg = r#"<svg>
            <rect x="0" y="0" width="100" height="100" onclick="javascript:alert('XSS')" />
        </svg>"#;

    let result = validate_svg_security(malicious_svg);
    assert!(result.is_err());
    assert!(result.unwrap_err().message().contains("javascript"));
}

#[test]
fn test_svg_security_entity_expansion() {
    let malicious_svg = r#"<!DOCTYPE svg [
            <!ENTITY lol "lol">
            <!ENTITY lol1 "&lol;&lol;&lol;&lol;&lol;&lol;&lol;&lol;&lol;&lol;">
        ]>
        <svg>&lol1;</svg>"#;

    let result = validate_svg_security(malicious_svg);
    assert!(result.is_err());
    assert!(result.unwrap_err().message().contains("实体"));
}

#[test]
fn test_svg_security_file_size() {
    let large_svg = format!("<svg>{}</svg>", "a".repeat(11 * 1024 * 1024));

    let result = validate_svg_security(&large_svg);
    assert!(result.is_err());
    assert!(result.unwrap_err().message().contains("过大"));
}

#[test]
fn test_svg_security_valid() {
    let valid_svg = r#"<svg width="100" height="100">
            <rect x="0" y="0" width="100" height="100" fill="blue" />
        </svg>"#;

    let result = validate_svg_security(valid_svg);
    assert!(result.is_ok());
}

#[test]
fn test_svg_security_data_url() {
    let malicious_svg = r#"<svg>
            <image href="data:text/html,<script>alert('XSS')</script>" />
        </svg>"#;

    let result = validate_svg_security(malicious_svg);
    assert!(result.is_err());
    let err_msg = result.unwrap_err().message();
    assert!(err_msg.contains("data:text/html") || err_msg.contains("SVG 安全检测"));
}

#[test]
fn test_svg_security_entity_ref_count() {
    let svg_with_many_refs = format!("<svg>{}</svg>", "&amp;".repeat(1001));

    let result = validate_svg_security(&svg_with_many_refs);
    assert!(result.is_err());
    assert!(result.unwrap_err().message().contains("实体引用数量过多"));
}

fn security_message(r: Result<(), SvgRenderError>) -> String {
    match r {
        Err(SvgRenderError::Security(m)) => m,
        other => panic!("expected a security refusal, got {:?}", other),
    }
}

#[test]
fn svg_script_tag_in_upper_case_is_refused() {
    let m = security_message(validate_svg_security("<svg><SCRIPT>x</SCRIPT></svg>"));
    assert_eq!(m, "SVG 安全检测：不允许使用 <script> 标签");
}

#[test]
fn svg_reference_count_message_has_the_number() {
    let doc = format!("<svg>{}</svg>", "&".repeat(1234));
    let m = security_message(validate_svg_security(&doc));
    assert_eq!(m, "SVG 安全检测：实体引用数量过多（1234），可能存在实体扩展攻击");
    let ok = format!("<svg>{}</svg>", "&".repeat(1000));
    assert!(validate_svg_security(&ok).is_ok());
}

#[test]
fn svg_entity_after_doctype_section_is_allowed() {
    let doc = "<!DOCTYPE svg><svg><!ENTITY x></svg>";
    assert!(validate_svg_security(doc).is_ok());
}

#[test]
fn svg_check_uses_the_given_lowercase_form() {
    let m = security_message(check_svg_content("<svg/>", "javascript:"));
    assert_eq!(m, "SVG 安全检测：不允许使用 javascript: URL");
    assert!(check_svg_content("<svg/>", "<svg/>").is_ok());
}

#[test]
fn svg_render_error_messages() {
    assert_eq!(SvgRenderError::InvalidSize.message(), "无效的图像尺寸");
    assert_eq!(SvgRenderError::NotImplemented.message(), "功能尚未实现");
    assert_eq!(
        SvgRenderError::ParseError("bad".to_string()).message(),
        "SVG 解析失败：bad"
    );
    assert_eq!(SvgRenderError::Security("s".to_string()).message(), "安全错误：s");
    assert_eq!(SvgRenderError::PngError("p".to_string()).message(), "PNG 保存失败：p");
}

#[test]
fn path_separators_are_skipped() {
    let d: Vec<char> = "M 10, 20 ,\t30".chars().collect();
    assert_eq!(skip_whitespace_and_commas(&d, 0), 0);
    assert_eq!(skip_whitespace_and_commas(&d, 1), 2);
    assert_eq!(skip_whitespace_and_commas(&d, 4), 6);
    assert_eq!(skip_whitespace_and_commas(&d, 8), 11);
    assert_eq!(skip_whitespace_and_commas(&d, d.len()), d.len());
}

#[test]
fn svg_entity_doctype_after_other_markup_is_refused() {
    let doc = r#"<?xml version="1.0"?><!DOCTYPE svg [<!ENTITY x "y">]><svg/>"#;
    match validate_svg_security(doc) {
        Err(SvgRenderError::Security(m)) => assert_eq!(m, "SVG 安全检测：不允许在 DOCTYPE 中定义实体"),
        _ => panic!("expected a security refusal"),
    }
    let odd = "<svg><!DOCTYPE x [<!ENTITY a 'b'>]>";
    assert!(validate_svg_security(odd).is_err());
    let scripted = "<svg><!DOCTYPE x [<!ENTITY a 'b'>]><script>x</script>";
    assert!(validate_svg_security(scripted).unwrap_err().message().contains("script"));
    assert!(validate_svg_security("<svg></svg>").is_ok());
}
