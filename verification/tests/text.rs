use wikidex::text::{
    char_utf8_len, decimal_chars, replace_chars, signed_decimal_chars, trim_chars,
};

fn chars(s: &str) -> Vec<char> {
    s.chars().collect()
}

fn string(v: Vec<char>) -> String {
    v.into_iter().collect()
}

#[test]
fn decimal_notation() {
    assert_eq!(string(decimal_chars(0)), "0");
    assert_eq!(string(decimal_chars(9)), "9");
    assert_eq!(string(decimal_chars(10)), "10");
    assert_eq!(string(decimal_chars(u64::MAX)), "18446744073709551615");
    assert_eq!(string(signed_decimal_chars(-42)), "-42");
    assert_eq!(string(signed_decimal_chars(i64::MIN)), "-9223372036854775808");
    assert_eq!(string(signed_decimal_chars(7)), "7");
}

#[test]
fn trimming_unicode_white_space() {
    assert_eq!(string(trim_chars(&chars(" \t\n a b \u{3000}\u{85}"))), "a b");
    assert_eq!(string(trim_chars(&chars("   "))), "");
    assert_eq!(string(trim_chars(&chars("x"))), "x");
    assert_eq!(string(trim_chars(&chars("\u{a0}x\u{2028}"))), "x");
}

#[test]
fn replacing_all_occurrences() {
    assert_eq!(string(replace_chars(&chars("aaa"), &chars("aa"), &chars("b"))), "ba");
    assert_eq!(string(replace_chars(&chars("1 and 1"), &chars("1"), &chars("one"))), "one and one");
    assert_eq!(string(replace_chars(&chars("none"), &chars("x"), &chars("y"))), "none");
}

#[test]
fn utf8_widths() {
    assert_eq!(char_utf8_len('a'), 1);
    assert_eq!(char_utf8_len('é'), 2);
    assert_eq!(char_utf8_len('€'), 3);
    assert_eq!(char_utf8_len('😀'), 4);
}
