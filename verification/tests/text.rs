use openworkers_conformance::text::{
    chars_of, contains_text, decimal_string, digit_char, lines_of, owned, push_decimal, push_padded, push_repeated,
    push_str, same_text, string_of, text_le_exec,
};

#[test]
fn lines_of_splits_like_str_lines() {
    let got: Vec<String> = lines_of("a\r\nb\n\nc").iter().map(|l| l.iter().collect()).collect();
    assert_eq!(got, vec!["a", "b", "", "c"]);
    assert_eq!(lines_of("x\n").len(), 1);
    assert!(lines_of("").is_empty());
    assert_eq!(lines_of("\n").len(), 1);
}

#[test]
fn decimal_writes_base_ten() {
    assert_eq!(decimal_string(0), "0");
    assert_eq!(decimal_string(1234567890), "1234567890");
    assert_eq!(decimal_string(u128::MAX), u128::MAX.to_string());
    let mut s = owned("n=");
    push_decimal(&mut s, 42);
    assert_eq!(s, "n=42");
    assert_eq!(digit_char(7), '7');
}

#[test]
fn padding_and_repeats() {
    let mut s = String::new();
    push_padded(&mut s, "ab", 5);
    push_str(&mut s, "|");
    push_padded(&mut s, "toolong", 3);
    push_repeated(&mut s, '-', 3);
    assert_eq!(s, "ab   |toolong---");
    let mut t = String::new();
    push_padded(&mut t, "é", 3);
    assert_eq!(t, "é  ");
}

#[test]
fn contains_same_and_order() {
    assert!(contains_text("request_text", "text"));
    assert!(contains_text("abc", ""));
    assert!(!contains_text("ab", "abc"));
    assert!(!contains_text("response", "request"));
    assert!(same_text("a", "a"));
    assert!(!same_text("a", "b"));
    assert!(text_le_exec("a", "b"));
    assert!(text_le_exec("a", "a"));
    assert!(text_le_exec("ab", "b"));
    assert!(text_le_exec("B", "a"));
    assert!(!text_le_exec("b", "ab"));
    assert!(text_le_exec("z", "é"));
    assert!(text_le_exec("", ""));
}

#[test]
fn chars_round_trip() {
    let v = chars_of("héllo");
    assert_eq!(v.len(), 5);
    assert_eq!(string_of(&v), "héllo");
}
