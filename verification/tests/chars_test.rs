//! Tests of the character-level helpers.

use abctool::chars::{
    i32_to_string, parse_u32, parse_usize, string_from_chars, string_to_chars, trim_chars,
    u32_to_string,
};

fn chars(s: &str) -> Vec<char> {
    s.chars().collect()
}

#[test]
fn numbers_parse_as_std_does() {
    assert_eq!(parse_u32(&chars("12")), Some(12));
    assert_eq!(parse_u32(&chars("+0")), Some(0));
    assert_eq!(parse_u32(&chars("4294967295")), Some(u32::MAX));
    assert_eq!(parse_u32(&chars("4294967296")), None);
    assert_eq!(parse_u32(&chars("")), None);
    assert_eq!(parse_u32(&chars("+")), None);
    assert_eq!(parse_u32(&chars("-1")), None);
    assert_eq!(parse_u32(&chars("1 ")), None);
    assert_eq!(parse_usize(&chars("007")), Some(7));
    assert_eq!(parse_usize(&chars("18446744073709551616")), None);
    for s in ["0", "+5", "123456", "x", "", "99999999999"] {
        assert_eq!(parse_u32(&chars(s)), s.parse::<u32>().ok());
        assert_eq!(parse_usize(&chars(s)), s.parse::<usize>().ok());
    }
}

#[test]
fn numbers_print_as_std_does() {
    for n in [0u32, 7, 10, 4096, u32::MAX] {
        assert_eq!(u32_to_string(n), n.to_string());
    }
    for n in [0i32, -1, 42, -120, i32::MIN, i32::MAX] {
        assert_eq!(i32_to_string(n), n.to_string());
    }
}

#[test]
fn strings_and_characters() {
    assert_eq!(string_to_chars("hé"), vec!['h', 'é']);
    assert_eq!(string_from_chars(&['a', 'ß']), "aß");
    assert_eq!(trim_chars(&chars("  a b \n")), "a b");
    assert_eq!(trim_chars(&chars(" \t ")), "");
}

#[test]
fn printed_numbers_read_back() {
    for n in [0u32, 9, 10, 99, 100, 65535, u32::MAX] {
        let text: Vec<char> = u32_to_string(n).chars().collect();
        assert_eq!(parse_u32(&text), Some(n));
    }
}
