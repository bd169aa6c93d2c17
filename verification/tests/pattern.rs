use game_of_life::parse_line;
use game_of_life::pattern::is_space_char;
use game_of_life::parse_pattern;
use game_of_life::Point;

#[test]
fn parse_pattern_of_empty_text_is_empty() {
    assert!(parse_pattern("").is_empty());
    assert!(parse_pattern("\n").is_empty());
    assert!(parse_pattern("\n\n  \n").is_empty());
}

#[test]
fn parse_pattern_reads_one_point() {
    let points = parse_pattern("(1,2)\n");
    assert_eq!(points.len(), 1);
    assert_eq!(points[0], Point::new(1, 2));
}

#[test]
fn parse_pattern_reads_multiple_points() {
    let points = parse_pattern("(1,2)\n(3,4)\n(5,6)\n");
    assert_eq!(points.len(), 3);
    assert_eq!(points[0], Point::new(1, 2));
    assert_eq!(points[1], Point::new(3, 4));
    assert_eq!(points[2], Point::new(5, 6));
}

#[test]
fn parse_pattern_ignores_lines_with_invalid_format() {
    let points = parse_pattern("(1,2)\ninvalid\n(3,4)\n");
    assert_eq!(points.len(), 2);
    assert_eq!(points[0], Point::new(1, 2));
    assert_eq!(points[1], Point::new(3, 4));
}

#[test]
fn parse_pattern_ignores_invalid_numbers() {
    let points = parse_pattern("(1,2)\n(a,b)\n(3,4)\n");
    assert_eq!(points.len(), 2);
    assert_eq!(points[0], Point::new(1, 2));
    assert_eq!(points[1], Point::new(3, 4));
}

#[test]
fn parse_pattern_can_handle_extra_whitespace() {
    let points = parse_pattern("  (1, 2)  \n\t(3,4)\t\n");
    assert_eq!(points.len(), 2);
    assert_eq!(points[0], Point::new(1, 2));
    assert_eq!(points[1], Point::new(3, 4));
}

#[test]
fn parse_pattern_keeps_order_and_duplicates() {
    let points = parse_pattern("(9,9)\n(1,1)\n(9,9)\n(0,5)");
    assert_eq!(
        points,
        vec![Point::new(9, 9), Point::new(1, 1), Point::new(9, 9), Point::new(0, 5)]
    );
}

#[test]
fn parse_pattern_reads_last_line_without_line_feed() {
    assert_eq!(parse_pattern("(1,2)\n(3,4)"), vec![Point::new(1, 2), Point::new(3, 4)]);
    assert_eq!(parse_pattern("(7,8)"), vec![Point::new(7, 8)]);
}

#[test]
fn parse_pattern_reads_lines_that_end_in_carriage_return() {
    assert_eq!(
        parse_pattern("(1,2)\r\n(3,4)\r\n"),
        vec![Point::new(1, 2), Point::new(3, 4)]
    );
}

#[test]
fn parse_pattern_is_the_lines_read_one_by_one() {
    let lines = ["(1,2)", "", "x", "(3 , 4)", "(5,6", "7,8", "(,)", " ( 9,10 ) "];
    let mut one_by_one = Vec::new();
    for line in lines {
        if let Some(p) = parse_line(line) {
            one_by_one.push(p);
        }
    }
    assert_eq!(parse_pattern(&lines.join("\n")), one_by_one);
    assert_eq!(
        one_by_one,
        vec![Point::new(1, 2), Point::new(3, 4), Point::new(7, 8), Point::new(9, 10)]
    );
    // Reading two texts one after the other is reading them joined.
    let first = "(1,1)\nbad\n(2,2)\n";
    let second = "(3,3)\n\n(4,4)";
    let mut both = parse_pattern(first);
    both.extend(parse_pattern(second));
    assert_eq!(parse_pattern(&format!("{}{}", first, second)), both);
}

#[test]
fn parse_pattern_skipping_a_bad_line_does_not_shift_the_rest() {
    let with_bad = parse_pattern("(1,2)\n(3,4)\nnot a cell\n(5,6)\n(7,8)\n");
    let without = parse_pattern("(1,2)\n(3,4)\n(5,6)\n(7,8)\n");
    assert_eq!(with_bad, without);
    assert_eq!(with_bad[2], Point::new(5, 6));
}

#[test]
fn parse_line_reads_a_record() {
    assert_eq!(parse_line("(1,2)"), Some(Point::new(1, 2)));
    assert_eq!(parse_line("(0,0)"), Some(Point::new(0, 0)));
    assert_eq!(parse_line("(65535,65535)"), Some(Point::new(65535, 65535)));
    assert_eq!(parse_line("(007,0010)"), Some(Point::new(7, 10)));
    assert_eq!(parse_line("(12,345)"), Some(Point::new(12, 345)));
}

#[test]
fn parse_line_accepts_record_without_parentheses() {
    assert_eq!(parse_line("1,2"), Some(Point::new(1, 2)));
    assert_eq!(parse_line("  31 ,\t4 "), Some(Point::new(31, 4)));
}

#[test]
fn parse_line_strips_one_enclosing_pair_only() {
    assert_eq!(parse_line("((1,2))"), None);
    assert_eq!(parse_line("(1,2"), None);
    assert_eq!(parse_line("1,2)"), None);
    assert_eq!(parse_line(")1,2("), None);
    assert_eq!(parse_line("(1,2))"), None);
    assert_eq!(parse_line("()"), None);
    assert_eq!(parse_line("("), None);
}

#[test]
fn parse_line_trims_white_space_around_record_and_numbers() {
    assert_eq!(parse_line(" \t (1,2) \r"), Some(Point::new(1, 2)));
    assert_eq!(parse_line("( 1 , 2 )"), Some(Point::new(1, 2)));
    assert_eq!(parse_line("(\t1\t,\t2\t)"), Some(Point::new(1, 2)));
    // White space beyond ASCII counts too.
    assert_eq!(parse_line("\u{a0}(1,\u{2003}2)\u{3000}"), Some(Point::new(1, 2)));
    assert_eq!(parse_line("\u{85}(\u{1680}1,2\u{2028})\u{205f}"), Some(Point::new(1, 2)));
    // White space inside a number does not.
    assert_eq!(parse_line("(1 2,3)"), None);
    // Neither does white space between the parenthesis and the line's end
    // once the pair is stripped: it is trimmed with the number.
    assert_eq!(parse_line("(1,2 )"), Some(Point::new(1, 2)));
    // A character that only looks like a blank is not white space.
    assert_eq!(parse_line("\u{200b}(1,2)"), None);
}

#[test]
fn parse_line_needs_exactly_two_fields() {
    assert_eq!(parse_line(""), None);
    assert_eq!(parse_line("   "), None);
    assert_eq!(parse_line("(1)"), None);
    assert_eq!(parse_line("(1,2,3)"), None);
    assert_eq!(parse_line("(1,,2)"), None);
    assert_eq!(parse_line("(,)"), None);
    assert_eq!(parse_line("(1,)"), None);
    assert_eq!(parse_line("(,2)"), None);
    assert_eq!(parse_line("invalid"), None);
}

#[test]
fn parse_line_needs_numbers_that_fit() {
    assert_eq!(parse_line("(65536,0)"), None);
    assert_eq!(parse_line("(0,65536)"), None);
    assert_eq!(parse_line("(99999999999999999999999,1)"), None);
    assert_eq!(parse_line("(000000000000000000000065535,1)"), Some(Point::new(65535, 1)));
    assert_eq!(parse_line("(-1,2)"), None);
    assert_eq!(parse_line("(1.5,2)"), None);
    assert_eq!(parse_line("(a,b)"), None);
    assert_eq!(parse_line("(0x10,2)"), None);
    assert_eq!(parse_line("(\u{661},2)"), None);
}

#[test]
fn parse_line_accepts_a_plus_sign() {
    assert_eq!(parse_line("(+1,+2)"), Some(Point::new(1, 2)));
    assert_eq!(parse_line("(+,2)"), None);
    assert_eq!(parse_line("(++1,2)"), None);
    assert_eq!(parse_line("(+ 1,2)"), None);
    assert_eq!(parse_line("(1+,2)"), None);
}

#[test]
fn parse_line_agrees_with_the_standard_number_parser() {
    let fields = [
        "0", "1", "+0", "+65535", "65535", "65536", "655350", "065535", "", "+", "-", "-0",
        "12a", "a12", "1_000", "٣", "99999", "100000", " 5",
    ];
    for left in fields {
        for right in ["3", "+4", "x"] {
            let line = format!("({},{})", left, right);
            let expected = match (left.trim().parse::<u16>(), right.trim().parse::<u16>()) {
                (Ok(x), Ok(y)) => Some(Point::new(x, y)),
                _ => None,
            };
            assert_eq!(parse_line(&line), expected, "{}", line);
        }
    }
}

#[test]
fn is_space_char_is_unicode_white_space() {
    for code in 0u32..=0x10_ffff {
        if let Some(c) = char::from_u32(code) {
            assert_eq!(is_space_char(c), c.is_whitespace(), "U+{:04X}", code);
        }
    }
}

#[test]
fn parse_line_reads_every_cell_as_written() {
    for x in [0u16, 1, 9, 10, 99, 100, 4095, 9999, 10000, 65534, 65535] {
        for y in [0u16, 7, 10, 255, 65535] {
            assert_eq!(parse_line(&format!("({},{})", x, y)), Some(Point::new(x, y)));
        }
    }
}
