use amadeus::parse::{lines_of, parse_unsigned, split_fields4, trim};

fn chars(s: &str) -> Vec<char> {
    s.chars().collect()
}

fn text(v: &[char]) -> String {
    v.iter().collect()
}

#[test]
fn lines_split_like_str_lines() {
    let ls = lines_of(&chars("a\r\nb\n\nc"));
    let got: Vec<String> = ls.iter().map(|l| text(l)).collect();
    assert_eq!(got, vec!["a", "b", "", "c"]);
    assert_eq!(lines_of(&chars("x\n")).len(), 1);
    assert_eq!(lines_of(&chars("")).len(), 0);
    let last = lines_of(&chars("y\r"));
    assert_eq!(text(&last[0]), "y\r");
}

#[test]
fn trim_removes_outer_white_space() {
    assert_eq!(text(&trim(&chars("  a b \t\n"))), "a b");
    assert_eq!(text(&trim(&chars("   "))), "");
}

#[test]
fn fields_need_three_commas() {
    let (a, b, c, d) = split_fields4(&chars("1,a,b,c,d")).unwrap();
    assert_eq!((text(&a), text(&b), text(&c), text(&d)), ("1".into(), "a".into(), "b".into(), "c,d".into()));
    assert!(split_fields4(&chars("1,2,3")).is_none());
}

#[test]
fn unsigned_numbers_parse_like_from_str_radix() {
    assert_eq!(parse_unsigned(&chars("+42"), 10, u32::MAX as u128), Some(42));
    assert_eq!(parse_unsigned(&chars("4294967295"), 10, u32::MAX as u128), Some(4294967295));
    assert_eq!(parse_unsigned(&chars("4294967296"), 10, u32::MAX as u128), None);
    assert_eq!(parse_unsigned(&chars(""), 10, u32::MAX as u128), None);
    assert_eq!(parse_unsigned(&chars("+"), 10, u32::MAX as u128), None);
    assert_eq!(parse_unsigned(&chars("-1"), 10, u32::MAX as u128), None);
    assert_eq!(parse_unsigned(&chars("ff"), 16, u128::MAX), Some(255));
    assert_eq!(parse_unsigned(&chars("FF"), 16, u128::MAX), Some(255));
    assert_eq!(parse_unsigned(&chars("fg"), 16, u128::MAX), None);
    let big = "1".repeat(33);
    assert_eq!(parse_unsigned(&chars(&big), 16, u128::MAX), None);
}
