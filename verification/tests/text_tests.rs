use jackynet::text::{
    chars_lt, join_prefix, padded_decimal_string, parse_i32_chars, parse_u64_str, split_on,
    split_words, string_from_chars, to_chars, trim_str,
};

fn words_of(s: &str) -> Vec<String> {
    split_words(&to_chars(s)).iter().map(|w| w.iter().collect()).collect()
}

#[test]
fn trim_removes_unicode_white_space_at_both_ends() {
    assert_eq!(trim_str("  \t abc def \n").as_str(), "abc def");
    assert_eq!(trim_str("\u{3000}x\u{a0}").as_str(), "x");
    assert_eq!(trim_str("   ").as_str(), "");
}

#[test]
fn split_keeps_empty_pieces() {
    let pieces = split_on(&to_chars("a::b:"), ':');
    let texts: Vec<String> = pieces.iter().map(|p| p.iter().collect()).collect();
    assert_eq!(texts, vec!["a", "", "b", ""]);
}

#[test]
fn split_whitespace_drops_empty_words() {
    assert_eq!(words_of("  firefox/12/1000   0.5\t1.25  "), vec!["firefox/12/1000", "0.5", "1.25"]);
    assert!(words_of(" \t ").is_empty());
}

#[test]
fn join_prefix_puts_one_separator_between_words() {
    let ws = split_words(&to_chars("my app/3/1 1 2"));
    let joined: String = join_prefix(&ws, 2, ' ').iter().collect();
    assert_eq!(joined, "my app/3/1");
}

#[test]
fn u64_parsing_follows_std() {
    for s in ["0", "+7", "18446744073709551615", "", "+", "-1", "18446744073709551616", " 1", "1a"] {
        assert_eq!(parse_u64_str(s), s.parse::<u64>().ok(), "input {:?}", s);
    }
}

#[test]
fn i32_parsing_follows_std() {
    for s in ["0", "-0", "+15", "-2147483648", "2147483647", "2147483648", "-2147483649", "-", "x"] {
        assert_eq!(parse_i32_chars(&to_chars(s)), s.parse::<i32>().ok(), "input {:?}", s);
    }
}

#[test]
fn padded_decimal_matches_format() {
    assert_eq!(padded_decimal_string(7, 4).as_str(), format!("{:04}", 7));
    assert_eq!(padded_decimal_string(-5, 4).as_str(), format!("{:04}", -5));
    assert_eq!(padded_decimal_string(12345, 2).as_str(), "12345");
    assert_eq!(padded_decimal_string(i64::MIN, 0).as_str(), i64::MIN.to_string());
    assert_eq!(padded_decimal_string(0, 0).as_str(), "0");
}

#[test]
fn lexicographic_order_matches_string_order() {
    let pairs = [("2024-05-01", "2024-05-02"), ("2024-05", "2024-05-01"), ("b", "a"), ("?", "2024"), ("", "")];
    for (a, b) in pairs {
        assert_eq!(chars_lt(&to_chars(a), &to_chars(b)), a < b, "{:?} < {:?}", a, b);
    }
}

#[test]
fn string_from_chars_round_trips() {
    let v = to_chars("héllo");
    assert_eq!(string_from_chars(&v).as_str(), "héllo");
}
