use cadagent::records::{
    char_width, find_chars, parse_u16, parse_usize, split_fields, split_lines, strip_char_chars,
    utf8_len_at_least,
};

fn chars(s: &str) -> Vec<char> {
    s.chars().collect()
}

fn texts(v: Vec<Vec<char>>) -> Vec<String> {
    v.into_iter().map(|l| l.into_iter().collect()).collect()
}

#[test]
fn lines_follow_str_lines() {
    for text in ["a\r\nb\n\nc", "a\r", "\n", "", "x\ny\n", "a\rb\r\n"] {
        let expected: Vec<String> = text.lines().map(|l| l.to_string()).collect();
        assert_eq!(texts(split_lines(&chars(text))), expected);
    }
}

#[test]
fn fields_follow_str_split() {
    for text in [",a,,b", "", "abc", "a,", ","] {
        let expected: Vec<String> = text.split(',').map(|l| l.to_string()).collect();
        assert_eq!(texts(split_fields(&chars(text), ',')), expected);
    }
}

#[test]
fn unsigned_numbers_follow_from_str() {
    for text in ["+65535", "65536", "-1", "+", "", "007", "12a", " 1"] {
        assert_eq!(parse_u16(&chars(text)), text.parse::<u16>().ok());
        assert_eq!(parse_usize(&chars(text)), text.parse::<usize>().ok());
    }
    assert_eq!(parse_usize(&chars("4294967296")), "4294967296".parse::<usize>().ok());
}

#[test]
fn utf8_widths() {
    assert_eq!(char_width('a'), 1);
    assert_eq!(char_width('é'), 2);
    assert_eq!(char_width('中'), 3);
    assert_eq!(char_width('😀'), 4);
    assert!(utf8_len_at_least(&chars("中中"), 6));
    assert!(!utf8_len_at_least(&chars("中中"), 7));
}

#[test]
fn searches_and_strips() {
    let s = chars("abcabc");
    assert_eq!(find_chars(&s, &chars("bc"), 0), Some(1));
    assert_eq!(find_chars(&s, &chars("bc"), 2), Some(4));
    assert_eq!(find_chars(&s, &chars("bd"), 0), None);
    let stripped: String = strip_char_chars(&chars("((x))"), '(').into_iter().collect();
    assert_eq!(stripped, "x))");
    let all: String = strip_char_chars(&chars("(((("), '(').into_iter().collect();
    assert_eq!(all, "");
}
