use puzzle_solvers::text::{characters, field_numbers, parse_number, space, split_fields};

fn chars(s: &str) -> Vec<char> {
    s.chars().collect()
}

fn number(s: &str, lo: i64, hi: i64) -> Option<i64> {
    let c = chars(s);
    parse_number(&c, 0, c.len(), lo, hi)
}

const I32: (i64, i64) = (i32::MIN as i64, i32::MAX as i64);

#[test]
fn characters_of_a_text() {
    assert_eq!(characters("a\u{e9} 1"), vec!['a', '\u{e9}', ' ', '1']);
    assert_eq!(characters(""), Vec::<char>::new());
}

#[test]
fn white_space_is_what_the_standard_library_calls_so() {
    for u in 0..0x3100u32 {
        if let Some(c) = char::from_u32(u) {
            assert_eq!(space(c), c.is_whitespace(), "U+{:04X}", u);
        }
    }
}

#[test]
fn fields_are_runs_between_white_space() {
    assert_eq!(split_fields(&chars("  ab  c\td ")), vec![(2, 4), (6, 7), (8, 9)]);
    assert_eq!(split_fields(&chars("abc")), vec![(0, 3)]);
    assert_eq!(split_fields(&chars("")), vec![]);
    assert_eq!(split_fields(&chars(" \t\r\n")), vec![]);
    assert_eq!(split_fields(&chars("1\u{a0}2")), vec![(0, 1), (2, 3)]);
}

#[test]
fn fields_agree_with_split_whitespace() {
    for line in ["7 8 9", "  x1  y22 ", "\t-5\t+6\n", "a", " ", "12 34\u{2003}56"] {
        let c = chars(line);
        let found: Vec<String> =
            split_fields(&c).iter().map(|(a, b)| c[*a..*b].iter().collect()).collect();
        let expected: Vec<String> = line.split_whitespace().map(|f| f.to_string()).collect();
        assert_eq!(found, expected);
    }
}

#[test]
fn numbers_in_decimal_notation() {
    assert_eq!(number("123", I32.0, I32.1), Some(123));
    assert_eq!(number("-45", I32.0, I32.1), Some(-45));
    assert_eq!(number("+7", I32.0, I32.1), Some(7));
    assert_eq!(number("0", I32.0, I32.1), Some(0));
    assert_eq!(number("-0", I32.0, I32.1), Some(0));
    assert_eq!(number("007", I32.0, I32.1), Some(7));
    assert_eq!(number("2147483647", I32.0, I32.1), Some(2147483647));
    assert_eq!(number("-2147483648", I32.0, I32.1), Some(-2147483648));
}

#[test]
fn what_is_no_number() {
    for s in ["", "-", "+", "12a", "a12", "1 2", "--1", "+-1", "1.5", "2147483648", "-2147483649",
        "99999999999999999999999999", "\u{663}"]
    {
        assert_eq!(number(s, I32.0, I32.1), None, "{:?}", s);
        assert_eq!(s.parse::<i32>().ok(), None, "{:?}", s);
    }
}

#[test]
fn numbers_agree_with_the_standard_library() {
    for s in ["1", "-1", "+1", "32767", "32768", "-32768", "-32769", "0000", "+0", "4x", ""] {
        let expected = s.parse::<i16>().ok().map(|v| v as i64);
        assert_eq!(number(s, i16::MIN as i64, i16::MAX as i64), expected, "{:?}", s);
    }
}

#[test]
fn numbers_within_a_part_of_the_text() {
    let c = chars("ab-12cd");
    assert_eq!(parse_number(&c, 2, 5, -100, 100), Some(-12));
    assert_eq!(parse_number(&c, 3, 5, -100, 100), Some(12));
    assert_eq!(parse_number(&c, 3, 5, -10, 10), None);
    assert_eq!(parse_number(&c, 2, 6, -100, 100), None);
    assert_eq!(parse_number(&c, 3, 3, -100, 100), None);
}

#[test]
fn numbers_among_the_fields() {
    assert_eq!(field_numbers("3 x 4 99999999999 -5", 0), vec![3, 4, -5]);
    assert_eq!(field_numbers("3 x 4 99999999999 -5", 1), vec![4, -5]);
    assert_eq!(field_numbers("3 x 4", 3), Vec::<i32>::new());
    assert_eq!(field_numbers("3 x 4", 9), Vec::<i32>::new());
    assert_eq!(field_numbers("", 0), Vec::<i32>::new());
    assert_eq!(field_numbers("", 1), Vec::<i32>::new());
}
