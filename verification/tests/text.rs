use intcomputer::text::{
    chars_of, copy_range, line_bounds, lines_of, parse_program, parse_signed, parse_unsigned,
    position_of, push_number, push_text, remove_all, same_name, split_bounds, strip_end_bound,
    strip_start_bound, trim_bounds, whitespace,
};

fn chars(s: &str) -> Vec<char> {
    s.chars().collect()
}

#[test]
fn characters_are_listed_in_order() {
    assert_eq!(chars_of("a,b"), vec!['a', ',', 'b']);
    assert_eq!(chars_of(""), Vec::<char>::new());
    assert_eq!(chars_of("é█"), vec!['é', '█']);
}

#[test]
fn split_yields_one_more_piece_than_separators() {
    let text = chars("R75,D30,,U7,");
    assert_eq!(
        split_bounds(&text, 0, text.len(), ','),
        vec![(0, 3), (4, 7), (8, 8), (9, 11), (12, 12)]
    );
    assert_eq!(split_bounds(&text, 1, 3, ','), vec![(1, 3)]);
    assert_eq!(split_bounds(&text, 5, 5, ','), vec![(5, 5)]);
    assert_eq!(split_bounds(&text, 3, 4, ','), vec![(3, 3), (4, 4)]);
}

#[test]
fn trim_sets_white_space_aside() {
    let text = chars(" \t\n ab c\r\n");
    assert_eq!(trim_bounds(&text, 0, text.len()), (4, 8));
    assert_eq!(trim_bounds(&text, 0, 3), (3, 3));
    assert_eq!(trim_bounds(&text, 4, 8), (4, 8));
    let text = chars("\u{a0}\u{2003}x\u{3000}\u{85}");
    assert_eq!(trim_bounds(&text, 0, text.len()), (2, 3));
}

#[test]
fn white_space_is_what_the_standard_library_calls_so() {
    for code in 0..0x3100u32 {
        if let Some(c) = char::from_u32(code) {
            assert_eq!(whitespace(c), c.is_whitespace(), "U+{:04X}", code);
        }
    }
    assert!(!whitespace('\u{feff}'));
    assert!(!whitespace('\u{10ffff}'));
}

#[test]
fn strip_sets_repeated_characters_aside() {
    let text = chars("<<a<>>");
    assert_eq!(strip_start_bound(&text, 0, text.len(), '<'), 2);
    assert_eq!(strip_end_bound(&text, 2, text.len(), '>'), 4);
    assert_eq!(strip_start_bound(&text, 0, 2, '<'), 2);
    assert_eq!(strip_end_bound(&text, 4, 6, '>'), 4);
    assert_eq!(strip_start_bound(&text, 0, text.len(), 'x'), 0);
}

#[test]
fn unsigned_numbers_are_read_up_to_the_limit() {
    let read = |s: &str, limit: u64| {
        let text = chars(s);
        parse_unsigned(&text, 0, text.len(), limit)
    };
    assert_eq!(read("0", 10), Some(0));
    assert_eq!(read("75", 100), Some(75));
    assert_eq!(read("+75", 75), Some(75));
    assert_eq!(read("0075", 75), Some(75));
    assert_eq!(read("76", 75), None);
    assert_eq!(read("", 75), None);
    assert_eq!(read("+", 75), None);
    assert_eq!(read("-1", 75), None);
    assert_eq!(read("7a", 75), None);
    assert_eq!(read(" 7", 75), None);
    assert_eq!(read("9", 3), None);
    assert_eq!(read("18446744073709551615", u64::MAX), Some(u64::MAX));
    assert_eq!(read("18446744073709551616", u64::MAX), None);
    assert_eq!(read("99999999999999999999999", u64::MAX), None);
    assert_eq!(read("٣", 75), None);
}

#[test]
fn signed_numbers_are_read_over_the_whole_range() {
    let read = |s: &str| {
        let text = chars(s);
        parse_signed(&text, 0, text.len())
    };
    assert_eq!(read("0"), Some(0));
    assert_eq!(read("-0"), Some(0));
    assert_eq!(read("-19"), Some(-19));
    assert_eq!(read("+19"), Some(19));
    assert_eq!(read("1125899906842624"), Some(1125899906842624));
    assert_eq!(read("9223372036854775807"), Some(i64::MAX));
    assert_eq!(read("9223372036854775808"), None);
    assert_eq!(read("-9223372036854775808"), Some(i64::MIN));
    assert_eq!(read("-9223372036854775809"), None);
    assert_eq!(read(""), None);
    assert_eq!(read("-"), None);
    assert_eq!(read("--1"), None);
    assert_eq!(read("1-"), None);
    assert_eq!(read("1 "), None);
    let text = chars("x=-12,");
    assert_eq!(parse_signed(&text, 2, 5), Some(-12));
}

#[test]
fn signed_numbers_agree_with_the_standard_library() {
    for s in ["7", "-7", "+7", "007", "-", "+", "", "1e3", "0x10", "12345678901234567890", " 1"] {
        let text = chars(s);
        assert_eq!(parse_signed(&text, 0, text.len()), s.parse::<i64>().ok(), "{:?}", s);
        assert_eq!(parse_unsigned(&text, 0, text.len(), u64::MAX), s.parse::<u64>().ok(), "{:?}", s);
    }
}

#[test]
fn program_text_is_read_cell_by_cell() {
    assert_eq!(parse_program("1,0,0,0,99"), Some(vec![1, 0, 0, 0, 99]));
    assert_eq!(parse_program("109,-19,+4\n"), Some(vec![109, -19, 4]));
    assert_eq!(parse_program("  42 "), Some(vec![42]));
    assert_eq!(parse_program(""), None);
    assert_eq!(parse_program("1,,2"), None);
    assert_eq!(parse_program("1, 2"), None);
    assert_eq!(parse_program("1,2,"), None);
    assert_eq!(parse_program("1,x"), None);
    assert_eq!(parse_program("9223372036854775808"), None);
}

#[test]
fn numbers_are_written_with_padding() {
    let write = |v: i64, width: usize| {
        let mut out = vec!['>'];
        push_number(&mut out, v, width);
        out.into_iter().collect::<String>()
    };
    assert_eq!(write(0, 0), ">0");
    assert_eq!(write(0, 3), ">  0");
    assert_eq!(write(-1, 3), "> -1");
    assert_eq!(write(-10, 3), ">-10");
    assert_eq!(write(1234, 3), ">1234");
    assert_eq!(write(i64::MIN, 3), ">-9223372036854775808");
    assert_eq!(write(i64::MAX, 21), ">  9223372036854775807");
    for v in [-1000, -999, -100, -99, -10, -9, -1, 0, 1, 9, 10, 99, 100, 999, 1000] {
        assert_eq!(write(v, 3), format!(">{:3}", v));
    }
}

#[test]
fn text_is_appended() {
    let mut out = vec!['a'];
    push_text(&mut out, "bc");
    push_text(&mut out, "");
    push_text(&mut out, "é");
    assert_eq!(out, vec!['a', 'b', 'c', 'é']);
}

#[test]
fn lines_end_at_line_feeds() {
    for text in [
        "",
        "\n",
        "a",
        "a\n",
        "a\nb",
        "a\r\nb\r\n",
        "foo\nbar\n\r\nbaz\r",
        "\n\n",
        "\r",
        "\r\n",
        "a\r\r\nb",
        "R8,U5\nU7,R6\n",
    ] {
        let expected: Vec<String> = text.lines().map(|l| l.to_string()).collect();
        assert_eq!(lines_of(text), expected, "{:?}", text);
    }
    let text = chars("ab\r\ncd\n");
    assert_eq!(line_bounds(&text), vec![(0, 2), (4, 6)]);
}

#[test]
fn names_are_found_by_their_characters() {
    let names = vec![chars("COM"), chars("B"), chars(""), chars("B")];
    assert_eq!(position_of(&names, &chars("COM")), Some(0));
    assert_eq!(position_of(&names, &chars("B")), Some(1));
    assert_eq!(position_of(&names, &chars("")), Some(2));
    assert_eq!(position_of(&names, &chars("CO")), None);
    assert_eq!(position_of(&vec![], &chars("B")), None);
    assert!(same_name(&chars("abc"), &chars("abc")));
    assert!(!same_name(&chars("abc"), &chars("abd")));
    assert!(!same_name(&chars("abc"), &chars("ab")));
    assert_eq!(copy_range(&chars("hello"), 1, 3), chars("el"));
    assert_eq!(copy_range(&chars("hello"), 2, 2), chars(""));
}

#[test]
fn characters_are_removed() {
    assert_eq!(remove_all(&chars("7 A, 1 B => 1 C,"), ','), chars("7 A 1 B => 1 C"));
    assert_eq!(remove_all(&chars(",,,"), ','), chars(""));
    assert_eq!(remove_all(&chars("abc"), ','), chars("abc"));
}
