use aproman::text;

#[test]
fn line_spans_split_like_str_lines() {
    for s in ["", "a", "a\n", "a\r\nb", "a\n\nb\r", "\n", "x\r\r\n"] {
        let cs: Vec<char> = s.chars().collect();
        let spans = text::line_spans(&cs);
        let got: Vec<String> = spans.iter().map(|&(a, b)| cs[a..b].iter().collect()).collect();
        let want: Vec<String> = s.lines().map(String::from).collect();
        assert_eq!(want, got, "{s:?}");
    }
}

#[test]
fn whitespace_matches_char_is_whitespace() {
    for u in 0..0x3100u32 {
        if let Some(c) = char::from_u32(u) {
            assert_eq!(c.is_whitespace(), text::is_space_char(c), "{u:x}");
        }
    }
}

#[test]
fn decimal_rendering() {
    let mut s = String::new();
    text::push_int_decimal(&mut s, i64::MIN);
    assert_eq!(i64::MIN.to_string(), s);
    let mut s = String::new();
    text::push_decimal(&mut s, 0);
    text::push_decimal(&mut s, 1207);
    assert_eq!("01207", s);
}
