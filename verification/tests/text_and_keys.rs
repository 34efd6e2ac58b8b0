use listening_stats::keys::{identity_key_of, track_key_of, track_label_of};
use listening_stats::parse_genres;
use listening_stats::text::{
    char_code, char_is_whitespace, chars_before, clone_texts, digit, parse_decimal_u64,
    parse_radix_u64, parse_unsigned_u64, spaces_to_underscores, text_before, to_chars,
};

#[test]
fn identity_key_lowers_and_underscores() {
    assert_eq!(identity_key_of("Artist X"), "csv_artist_x");
    assert_eq!(identity_key_of("The  Two Spaces"), "csv_the__two_spaces");
    assert_eq!(identity_key_of(""), "csv_");
    assert_eq!(identity_key_of("ÅNGSTRÖM Band"), "csv_ångström_band");
}

#[test]
fn names_that_differ_in_case_share_a_key() {
    assert_eq!(identity_key_of("artist x"), identity_key_of("ARTIST X"));
    assert_eq!(identity_key_of("artist_x"), identity_key_of("Artist X"));
}

#[test]
fn track_key_joins_track_and_artist() {
    assert_eq!(track_label_of("Song A", "Artist X"), "Song A - Artist X");
    assert_eq!(track_key_of("Song A", "Artist X"), "csv_song_a_-_artist_x");
}

#[test]
fn genres_are_split_trimmed_and_filtered() {
    assert_eq!(parse_genres("pop, rock ,, indie pop "), vec!["pop", "rock", "indie pop"]);
    assert_eq!(parse_genres("pop"), vec!["pop"]);
    assert_eq!(parse_genres(""), Vec::<String>::new());
    assert_eq!(parse_genres(" , ,\t"), Vec::<String>::new());
    assert_eq!(parse_genres(",a,"), vec!["a"]);
    assert_eq!(parse_genres("\u{2003}k-pop\u{00a0},j-pop\n"), vec!["k-pop", "j-pop"]);
}

#[test]
fn decimal_numbers_are_read_exactly() {
    assert_eq!(parse_decimal_u64("0"), Some(0));
    assert_eq!(parse_decimal_u64("200000"), Some(200_000));
    assert_eq!(parse_decimal_u64("+5"), Some(5));
    assert_eq!(parse_decimal_u64("007"), Some(7));
    assert_eq!(parse_decimal_u64("18446744073709551615"), Some(u64::MAX));
    assert_eq!(parse_decimal_u64("18446744073709551616"), None);
    assert_eq!(parse_decimal_u64("99999999999999999999999"), None);
    assert_eq!(parse_decimal_u64(""), None);
    assert_eq!(parse_decimal_u64("+"), None);
    assert_eq!(parse_decimal_u64("-5"), None);
    assert_eq!(parse_decimal_u64("12a"), None);
    assert_eq!(parse_decimal_u64(" 5"), None);
    assert_eq!(parse_decimal_u64("1.5"), None);
    assert_eq!(parse_decimal_u64("٣"), None);
}

#[test]
fn texts_are_ordered_by_code_point() {
    assert!(text_before("a", "b"));
    assert!(!text_before("b", "a"));
    assert!(!text_before("same", "same"));
    assert!(text_before("", "a"));
    assert!(!text_before("a", ""));
    assert!(text_before("abc", "abcd"));
    assert!(text_before("Z", "a"));
    assert!(text_before("z", "é"));
    assert!(text_before("é", "\u{10000}"));
    for (a, b) in [("csv_a", "csv_b"), ("x", "x"), ("é", "z"), ("ab", "a")] {
        assert_eq!(text_before(a, b), a < b);
    }
}

#[test]
fn characters_are_taken_one_by_one() {
    assert_eq!(to_chars("aé\u{10000}"), vec!['a', 'é', '\u{10000}']);
    assert_eq!(to_chars(""), Vec::<char>::new());
    assert_eq!(char_code('A'), 65);
    assert!(chars_before(&vec!['a'], &vec!['a', 'b']));
    let texts = vec![String::from("x"), String::from("y")];
    assert_eq!(clone_texts(&texts), texts);
}

#[test]
fn white_space_is_the_unicode_property() {
    for code in 0..=0x10FFFFu32 {
        if let Some(c) = char::from_u32(code) {
            assert_eq!(char_is_whitespace(c), c.is_whitespace(), "U+{:04X}", code);
        }
    }
    assert!(char_is_whitespace(' '));
    assert!(char_is_whitespace('\u{3000}'));
    assert!(!char_is_whitespace('\u{200B}'));
    assert!(!char_is_whitespace('_'));
}

#[test]
fn spaces_become_underscores() {
    assert_eq!(spaces_to_underscores("Artist X"), "Artist_X");
    assert_eq!(spaces_to_underscores(" a  b "), "_a__b_");
    assert_eq!(spaces_to_underscores(""), "");
    assert_eq!(spaces_to_underscores("   "), "___");
    assert_eq!(spaces_to_underscores("no-space"), "no-space");
    assert_eq!(spaces_to_underscores("tab\there é ü"), "tab\there_é_ü");
    for text in ["Artist X", " a  b ", "é ü \u{10000} z", "x\u{a0}y z"] {
        assert_eq!(spaces_to_underscores(text), text.replace(' ', "_"));
    }
}

#[test]
fn numbers_are_read_in_base_ten_or_sixteen() {
    assert_eq!(parse_unsigned_u64("200000"), Some(200_000));
    assert_eq!(parse_unsigned_u64("+7"), Some(7));
    assert_eq!(parse_unsigned_u64("0"), Some(0));
    assert_eq!(parse_unsigned_u64("0x1F"), Some(31));
    assert_eq!(parse_unsigned_u64("0x1f"), Some(31));
    assert_eq!(parse_unsigned_u64("0x+a"), Some(10));
    assert_eq!(parse_unsigned_u64("0xffffffffffffffff"), Some(u64::MAX));
    assert_eq!(parse_unsigned_u64("0x10000000000000000"), None);
    assert_eq!(parse_unsigned_u64("0x"), None);
    assert_eq!(parse_unsigned_u64("0X1F"), None);
    assert_eq!(parse_unsigned_u64("0xg"), None);
    assert_eq!(parse_unsigned_u64("1F"), None);
    assert_eq!(parse_unsigned_u64("+0x1"), None);
    assert_eq!(parse_unsigned_u64(""), None);
    for text in ["0", "42", "+42", "0x2a", "0x", "x", "0x-1", "18446744073709551616", "0x0"] {
        let expected = match text.strip_prefix("0x") {
            Some(digits) => u64::from_str_radix(digits, 16).ok(),
            None => text.parse::<u64>().ok(),
        };
        assert_eq!(parse_unsigned_u64(text), expected, "{}", text);
    }
    assert_eq!(parse_radix_u64(&vec!['z', '1', '0', '1'], 1, 2), Some(5));
    assert_eq!(parse_radix_u64(&vec!['2'], 0, 2), None);
    assert_eq!(digit('7'), 7);
    assert_eq!(digit('b'), 11);
    assert_eq!(digit('Z'), 35);
    assert_eq!(digit('-'), 36);
}
