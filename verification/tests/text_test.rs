use gbspacklib::numeral::{decimal_of, digit_for, digit_of, hex6_of, parse_natural, parse_number};
use gbspacklib::text::{
    append, begins_with, chars_of, find_sep, has, matches_at, nth_field, same, slice_of, split,
    split_lines, string_of,
};

fn chars(s: &str) -> Vec<char> {
    s.chars().collect()
}

fn strings(parts: Vec<Vec<char>>) -> Vec<String> {
    parts.iter().map(|p| p.iter().collect()).collect()
}

#[test]
fn characters_and_back() {
    assert_eq!(chars_of("a\u{e9}\u{2014}z"), vec!['a', '\u{e9}', '\u{2014}', 'z']);
    assert_eq!(chars_of(""), Vec::<char>::new());
    assert_eq!(string_of(&chars("a\u{e9}\u{2014}z")), "a\u{e9}\u{2014}z");
    assert_eq!(string_of(&vec![]), "");
}

#[test]
fn part_of_a_text() {
    assert_eq!(slice_of(&chars("abcdef"), 2, 4), chars("cd"));
    assert_eq!(slice_of(&chars("abcdef"), 0, 6), chars("abcdef"));
    assert_eq!(slice_of(&chars("abcdef"), 3, 3), chars(""));
    let mut text = chars("ab");
    append(&mut text, &chars("cd"));
    assert_eq!(text, chars("abcd"));
}

#[test]
fn pattern_at_a_position() {
    let text = chars("abcabc");
    assert!(matches_at(&text, &chars("bc"), 1));
    assert!(matches_at(&text, &chars("bc"), 4));
    assert!(!matches_at(&text, &chars("bc"), 0));
    assert!(!matches_at(&text, &chars("bc"), 5));
    assert!(!matches_at(&text, &chars("bc"), 7));
    assert!(matches_at(&text, &chars(""), 6));
    assert!(!matches_at(&text, &chars(""), 7));
    assert!(same(&text, &chars("abcabc")));
    assert!(!same(&text, &chars("abcabd")));
    assert!(!same(&text, &chars("abcab")));
    assert!(same(&chars(""), &chars("")));
    assert!(begins_with(&text, &chars("abc")));
    assert!(!begins_with(&text, &chars("bc")));
    assert!(!begins_with(&chars("ab"), &chars("abc")));
}

#[test]
fn pattern_somewhere() {
    assert!(has(&chars("xxA _CODE_1"), &chars("A _CODE_")));
    assert!(has(&chars("abc"), &chars("c")));
    assert!(has(&chars("abc"), &chars("")));
    assert!(has(&chars(""), &chars("")));
    assert!(!has(&chars("abc"), &chars("abcd")));
    assert!(!has(&chars("abc"), &chars("ac")));
}

#[test]
fn fields_of_a_text() {
    let text = chars("A _CODE_3 size 8");
    assert_eq!(find_sep(&text, ' ', 0), 1);
    assert_eq!(find_sep(&text, ' ', 2), 9);
    assert_eq!(find_sep(&text, ' ', 15), 16);
    assert_eq!(nth_field(&text, ' ', 0), Some(chars("A")));
    assert_eq!(nth_field(&text, ' ', 1), Some(chars("_CODE_3")));
    assert_eq!(nth_field(&text, ' ', 3), Some(chars("8")));
    assert_eq!(nth_field(&text, ' ', 4), None);
    assert_eq!(nth_field(&chars(""), ' ', 0), Some(chars("")));
    assert_eq!(nth_field(&chars(""), ' ', 1), None);
    assert_eq!(nth_field(&chars("a  b"), ' ', 1), Some(chars("")));
    assert_eq!(nth_field(&chars("a "), ' ', 1), Some(chars("")));
    assert_eq!(strings(split(&chars("1:7F3,2:00F"), ',')), vec!["1:7F3", "2:00F"]);
    assert_eq!(strings(split(&chars(""), ',')), vec![""]);
    assert_eq!(strings(split(&chars(",a,,"), ',')), vec!["", "a", "", ""]);
}

#[test]
fn lines_of_a_text() {
    for text in [
        "",
        "a",
        "a\n",
        "a\nb",
        "a\r\nb\r\n",
        "\n",
        "\n\n",
        "a\r",
        "a\r\r\nb",
        "\r\n",
        "a\n\nb\n",
    ] {
        let expected: Vec<String> = text.lines().map(|l| l.to_string()).collect();
        assert_eq!(strings(split_lines(&chars(text))), expected);
    }
}

#[test]
fn digits() {
    assert_eq!(digit_of('7', 10), Some(7));
    assert_eq!(digit_of('a', 10), None);
    assert_eq!(digit_of('a', 16), Some(10));
    assert_eq!(digit_of('F', 16), Some(15));
    assert_eq!(digit_of('g', 16), None);
    assert_eq!(digit_of('/', 16), None);
    assert_eq!(digit_of(':', 16), None);
    assert_eq!(digit_of('\u{663}', 10), None);
    assert_eq!(digit_for(0), '0');
    assert_eq!(digit_for(9), '9');
    assert_eq!(digit_for(10), 'A');
    assert_eq!(digit_for(15), 'F');
}

#[test]
fn numbers_read() {
    for text in [
        "0", "8", "ff", "FF", "+12", "0012", "4294967295", "4294967296", "ffffffff", "100000000",
        "", "+", "-1", "++1", "1 ", " 1", "12x", "99999999999999999999",
    ] {
        assert_eq!(parse_number(&chars(text), 10), text.parse::<u32>().ok());
        assert_eq!(
            parse_number(&chars(text), 16),
            u32::from_str_radix(text, 16).ok()
        );
    }
    assert_eq!(parse_natural(&chars("2047"), 10, 2048), Some(2047));
    assert_eq!(parse_natural(&chars("2048"), 10, 2048), Some(2048));
    assert_eq!(parse_natural(&chars("99999999999999999999"), 10, 2048), Some(2048));
    assert_eq!(parse_natural(&chars("999999x"), 10, 2048), None);
    assert_eq!(parse_natural(&chars(""), 10, 2048), None);
}

#[test]
fn numbers_written() {
    for n in [0u32, 1, 9, 10, 255, 4096, 16384, 0xFFFFFF, 0x1000000, u32::MAX] {
        assert_eq!(decimal_of(n), chars(&format!("{}", n)));
        assert_eq!(hex6_of(n), chars(&format!("{:06X}", n)));
    }
}
