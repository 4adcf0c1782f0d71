use cadagent::parser::clean_mtext_formatting;

#[test]
fn mtext_paragraph_breaks_become_newlines() {
    assert_eq!(clean_mtext_formatting("Line1\\PLine2"), "Line1\nLine2");
}

#[test]
fn mtext_font_codes_are_removed_with_their_argument() {
    assert_eq!(clean_mtext_formatting("{\\fArial|b0;Hello}"), "Hello");
    assert_eq!(clean_mtext_formatting("{\\fArial;Hello}"), "Hello");
    assert_eq!(clean_mtext_formatting("\\H2.5;\\C1;Red"), "Red");
}

#[test]
fn mtext_stray_semicolons_and_braces_are_dropped() {
    assert_eq!(clean_mtext_formatting("a;b;;c"), "abc");
    assert_eq!(clean_mtext_formatting("{x}"), "x");
}

#[test]
fn mtext_plain_text_is_unchanged() {
    assert_eq!(clean_mtext_formatting("Hello World"), "Hello World");
    assert_eq!(clean_mtext_formatting(""), "");
}

#[test]
fn mtext_simple_codes_are_dropped() {
    assert_eq!(clean_mtext_formatting("\\X\\l\\r\\Lx\\l"), "x");
    assert_eq!(clean_mtext_formatting("\\q1;x"), "x");
}

#[test]
fn mtext_escaped_backslash_is_kept() {
    assert_eq!(clean_mtext_formatting("\\\\PP"), "\\PP");
    assert_eq!(clean_mtext_formatting("end\\"), "end\\");
}

#[test]
fn mtext_unterminated_argument_runs_to_the_end() {
    assert_eq!(clean_mtext_formatting("ab\\fArial"), "ab");
}
