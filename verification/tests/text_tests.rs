use rust_dictionary::numbers::{
    i64_to_string, parse_i64, parse_trimmed_bool, parse_u16, trim, u128_to_string,
};
use rust_dictionary::text::{
    chars_of, compare_keys, contains, ends_with, join, split, starts_with, string_of, KeyOrder,
};

fn c(s: &str) -> Vec<char> {
    s.chars().collect()
}

#[test]
fn chars_round_trip() {
    let v = chars_of("ñandú");
    assert_eq!(v, vec!['ñ', 'a', 'n', 'd', 'ú']);
    assert_eq!(string_of(&v), "ñandú");
}

#[test]
fn prefix_suffix_infix() {
    assert!(starts_with(&c("casa"), &c("cas")));
    assert!(!starts_with(&c("cas"), &c("casa")));
    assert!(starts_with(&c("casa"), &c("")));
    assert!(ends_with(&c("casa"), &c("asa")));
    assert!(!ends_with(&c("casa"), &c("cas")));
    assert!(contains(&c("casada"), &c("sad")));
    assert!(!contains(&c("casada"), &c("dac")));
    assert!(contains(&c(""), &c("")));
}

#[test]
fn keys_compare_by_code_point() {
    assert_eq!(compare_keys(&c("casa"), &c("caso")), KeyOrder::Less);
    assert_eq!(compare_keys(&c("cas"), &c("casa")), KeyOrder::Less);
    assert_eq!(compare_keys(&c("casa"), &c("casa")), KeyOrder::Equal);
    assert_eq!(compare_keys(&c("canción"), &c("cancion")), KeyOrder::Greater);
    assert_eq!(compare_keys(&c("B"), &c("a")), KeyOrder::Less);
}

#[test]
fn split_and_join_meanings() {
    assert_eq!(split("uno#dos#tres", '#'), vec!["uno", "dos", "tres"]);
    assert_eq!(split("", '#'), vec![""]);
    assert_eq!(split("#", '#'), vec!["", ""]);
    assert_eq!(split("a#", '#'), vec!["a", ""]);
    let parts = vec!["uno".to_string(), "dos".to_string()];
    assert_eq!(join(&parts, '#'), "uno#dos");
    assert_eq!(join(&Vec::new(), '#'), "");
    for s in ["", "#", "a##b", "x#y#"] {
        assert_eq!(join(&split(s, '#'), '#'), s);
    }
}

#[test]
fn decimal_text_of_numbers() {
    assert_eq!(u128_to_string(0), "0");
    assert_eq!(u128_to_string(1700000000123), "1700000000123");
    assert_eq!(u128_to_string(u128::MAX), u128::MAX.to_string());
    assert_eq!(i64_to_string(-42), "-42");
    assert_eq!(i64_to_string(i64::MIN), "-9223372036854775808");
    assert_eq!(i64_to_string(i64::MAX), "9223372036854775807");
}

#[test]
fn parse_numbers_as_std_does() {
    assert_eq!(parse_u16("8000"), Some(8000));
    assert_eq!(parse_u16("+65535"), Some(65535));
    assert_eq!(parse_u16("65536"), None);
    assert_eq!(parse_u16("-0"), None);
    assert_eq!(parse_u16(""), None);
    assert_eq!(parse_u16("+"), None);
    assert_eq!(parse_u16(" 80"), None);
    assert_eq!(parse_i64("-9223372036854775808"), Some(i64::MIN));
    assert_eq!(parse_i64("9223372036854775807"), Some(i64::MAX));
    assert_eq!(parse_i64("9223372036854775808"), None);
    assert_eq!(parse_i64("-"), None);
    assert_eq!(parse_i64("+5"), Some(5));
    assert_eq!(parse_i64("-0"), Some(0));
    assert_eq!(parse_i64("1e3"), None);
    for s in ["0", "+7", "-13", "99999999999999999999", "-x", "007"] {
        assert_eq!(parse_i64(s), s.parse::<i64>().ok());
        assert_eq!(parse_u16(s), s.parse::<u16>().ok());
    }
}

#[test]
fn decimal_round_trip() {
    for n in [i64::MIN, -1, 0, 1, 100, 100000, i64::MAX] {
        assert_eq!(parse_i64(&i64_to_string(n)), Some(n));
    }
}

#[test]
fn trim_and_flags() {
    assert_eq!(trim(&c(" \t x y \u{3000}\n")), c("x y"));
    assert_eq!(trim(&c("   ")), c(""));
    assert_eq!(parse_trimmed_bool(" true\n"), Some(true));
    assert_eq!(parse_trimmed_bool("false"), Some(false));
    assert_eq!(parse_trimmed_bool("True"), None);
    assert_eq!(parse_trimmed_bool(""), None);
}
