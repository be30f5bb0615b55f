use sudokoo_linux::numbers::{parse_signed, parse_unsigned, read_i64, read_u64, to_decimal};
use sudokoo_linux::text::{characters, is_white, trimmed, word_at};
use sudokoo_linux::trailing_number;

const SAMPLES: [&str; 30] = [
    "", "0", "7", "00", "007", "+7", "++7", "+", "-", "-7", "-0", "+-7", "7+", "12a", "a", "F", "fF",
    "4294967295", "4294967296", "18446744073709551615", "18446744073709551616",
    "99999999999999999999999", "9223372036854775807", "9223372036854775808",
    "-9223372036854775808", "-9223372036854775809", " 7", "7 ", "٣", "1_000",
];

#[test]
fn names_order_numerically_not_lexically() {
    let mut names = ["hidraw10", "hidraw2", "hidraw1"];
    names.sort_by_key(|n| trailing_number(n));
    assert_eq!(names, ["hidraw1", "hidraw2", "hidraw10"]);
    assert_eq!(trailing_number("hwmon6"), 6);
    assert_eq!(trailing_number("nonsense"), u32::MAX);
}

#[test]
fn names_with_something_after_the_number_have_none() {
    assert_eq!(trailing_number("hidraw12a"), u32::MAX);
    assert_eq!(trailing_number("a1b2"), u32::MAX);
    assert_eq!(trailing_number(""), u32::MAX);
    assert_eq!(trailing_number("007"), 7);
    assert_eq!(trailing_number("n4294967295"), u32::MAX);
    assert_eq!(trailing_number("n4294967296"), u32::MAX);
    assert_eq!(trailing_number("n4294967294"), u32::MAX - 1);
}

#[test]
fn numerals_read_as_the_system_reads_them() {
    for s in SAMPLES {
        let c = characters(s);
        assert_eq!(parse_unsigned(&c, 10, u64::MAX), s.parse::<u64>().ok(), "{s:?}");
        assert_eq!(
            parse_unsigned(&c, 10, u32::MAX as u64),
            s.parse::<u32>().ok().map(|n| n as u64),
            "{s:?}"
        );
        assert_eq!(
            parse_unsigned(&c, 16, u32::MAX as u64),
            u32::from_str_radix(s, 16).ok().map(|n| n as u64),
            "{s:?}"
        );
        assert_eq!(parse_signed(&c), s.parse::<i64>().ok(), "{s:?}");
    }
}

#[test]
fn number_files_may_have_white_space_around_the_number() {
    assert_eq!(read_u64("52125\n"), Some(52125));
    assert_eq!(read_u64(" \t7\r\n"), Some(7));
    assert_eq!(read_u64("7 8"), None);
    assert_eq!(read_u64("\n"), None);
    assert_eq!(read_i64("-5000\n"), Some(-5000));
    assert_eq!(read_i64("\u{3000}12\u{a0}"), Some(12));
}

#[test]
fn decimals_read_back() {
    for n in [0, 1, 9, 10, 64, 99, 100, 12345, u64::MAX - 1, u64::MAX] {
        assert_eq!(to_decimal(n), n.to_string());
        assert_eq!(read_u64(&to_decimal(n)), Some(n));
    }
}

#[test]
fn white_space_is_that_of_the_system() {
    for c in '\u{0}'..=char::MAX {
        assert_eq!(is_white(c), c.is_whitespace(), "{c:?}");
    }
}

#[test]
fn trimming_and_fields_are_those_of_the_system() {
    for s in ["", " ", "a", " a b ", "\u{2003}x\u{2028}y ", "cpu  1 2\t3", "a\u{b}b", "\u{85}q\u{85}"] {
        let c = characters(s);
        let t: String = trimmed(&c).iter().collect();
        assert_eq!(t, s.trim());
        let mut words: Vec<String> = Vec::new();
        let mut from = 0;
        while let Some((a, b)) = word_at(&c, from) {
            words.push(c[a..b].iter().collect());
            from = b;
        }
        assert_eq!(words, s.split_whitespace().collect::<Vec<_>>());
    }
}
