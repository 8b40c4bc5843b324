use daily_puzzles::text::{parse_u32, parse_u32_or_zero, split_char, trim_chars};

fn chars(s: &str) -> Vec<char> {
    s.chars().collect()
}

#[test]
fn test_parse_u32_plain_and_signed() {
    assert_eq!(parse_u32(&chars("0")), Some(0));
    assert_eq!(parse_u32(&chars("467")), Some(467));
    assert_eq!(parse_u32(&chars("+35")), Some(35));
    assert_eq!(parse_u32(&chars("4294967295")), Some(u32::MAX));
    assert_eq!(parse_u32(&chars("")), None);
    assert_eq!(parse_u32(&chars("+")), None);
    assert_eq!(parse_u32(&chars("12a")), None);
    assert_eq!(parse_u32(&chars("4294967296")), None);
    assert_eq!(parse_u32(&chars("99999999999999999999")), None);
}

#[test]
fn test_parse_u32_or_zero_defaults() {
    assert_eq!(parse_u32_or_zero(&chars("20")), 20);
    assert_eq!(parse_u32_or_zero(&chars("x")), 0);
    assert_eq!(parse_u32_or_zero(&chars("")), 0);
}

#[test]
fn test_split_char_pieces() {
    let parts = split_char(&chars("a,bb,,c"), ',');
    let views: Vec<String> = parts.iter().map(|p| p.iter().collect()).collect();
    assert_eq!(views, vec!["a", "bb", "", "c"]);
    let whole = split_char(&chars("abc"), ';');
    assert_eq!(whole.len(), 1);
    assert_eq!(whole[0], chars("abc"));
}

#[test]
fn test_trim_chars_edges() {
    assert_eq!(trim_chars(&chars("  1 blue \t")), chars("1 blue"));
    assert_eq!(trim_chars(&chars("   ")), chars(""));
    assert_eq!(trim_chars(&chars("x")), chars("x"));
}
