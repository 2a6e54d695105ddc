use sigma_info::number::{parse_i32, parse_u64};
use sigma_info::text::{chars_less, chars_of, string_of, trim_chars};

fn chars(s: &str) -> Vec<char> {
    s.chars().collect()
}

#[test]
fn parse_i32_matches_std() {
    for s in ["0", "-0", "+0", "42", "-42", "+42", "2147483647", "-2147483648", "2147483648", "-2147483649", "", "+", "-", "--1", "1a", " 1", "1 ", "٣"] {
        assert_eq!(parse_i32(&chars(s)), s.parse::<i32>().ok(), "input {:?}", s);
    }
}

#[test]
fn parse_u64_matches_std() {
    for s in ["0", "+0", "-0", "18446744073709551615", "18446744073709551616", "", "+", "-1", "007", "1_000"] {
        assert_eq!(parse_u64(&chars(s)), s.parse::<u64>().ok(), "input {:?}", s);
    }
}

#[test]
fn trim_matches_std() {
    for s in ["", "  ", " a ", "\u{2003}x\u{2029}", "\u{200b}y", "a b", "\t\n\r z \u{85}"] {
        assert_eq!(string_of(&trim_chars(&chars_of(s))), s.trim(), "input {:?}", s);
    }
}

#[test]
fn lexicographic_order_matches_string_order() {
    let words = ["", "a", "b", "ab", "Ab", "é", "z", "aa", "Zulu", "Alpha"];
    for x in words {
        for y in words {
            assert_eq!(chars_less(&chars(x), &chars(y)), x < y, "{:?} < {:?}", x, y);
        }
    }
}
