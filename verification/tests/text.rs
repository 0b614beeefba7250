use bili_add_on::text::{
    bytes_eq, contains_char, contains_text, ends_with, parse_unsigned, replace, split, split_once,
    starts_with, str_eq, write_decimal,
};

#[test]
fn texts_split_as_the_standard_library_splits_them() {
    for s in ["", ",", "a,b", "a,,b,", "中,文", "abc"] {
        let want: Vec<String> = s.split(',').map(String::from).collect();
        assert_eq!(split(s, ','), want);
        let want = s.split_once(',').map(|(a, b)| (a.to_string(), b.to_string()));
        assert_eq!(split_once(s, ','), want);
        assert_eq!(contains_char(s, ','), s.contains(','));
    }
}

#[test]
fn texts_are_searched_as_the_standard_library_does() {
    for s in ["", "abc", "aaa", "aabaab", "中文字", "a{}b{}"] {
        for part in ["a", "aa", "ab", "文", "{}", "abcd"] {
            assert_eq!(contains_text(s, part), s.contains(part));
            assert_eq!(starts_with(s, part), s.starts_with(part));
            assert_eq!(ends_with(s, part), s.ends_with(part));
            assert_eq!(replace(s, part, "x中"), s.replace(part, "x中"));
            assert_eq!(str_eq(s, part), s == part);
            assert_eq!(bytes_eq(s.as_bytes(), part.as_bytes()), s == part);
        }
    }
}

#[test]
fn numbers_are_read_as_the_standard_library_reads_them() {
    for s in [
        "", "0", "7", "+7", "-7", "007", "18446744073709551615", "18446744073709551616", "1 ", "x",
        "+", "١",
    ] {
        assert_eq!(parse_unsigned(s, u64::MAX), s.parse::<u64>().ok(), "{s:?}");
        assert_eq!(
            parse_unsigned(s, u32::MAX as u64),
            s.parse::<u32>().ok().map(u64::from),
            "{s:?}"
        );
    }
}

#[test]
fn written_numbers_read_back() {
    for n in [0, 9, 10, 99, 100, 12345, u64::MAX] {
        assert_eq!(write_decimal(n), n.to_string());
        assert_eq!(parse_unsigned(&write_decimal(n), u64::MAX), Some(n));
    }
}
