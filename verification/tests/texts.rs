use mac_cleaner::text::{
    align_left, align_right, chars_of, decimal_text, is_white_space, paint, parse_number,
    push_repeated, same_text, split_chars, text_of, trim, BOLD, CYAN, DIM, GREEN, RED, RESET,
    REVERSE, YELLOW,
};

fn chars(text: &str) -> Vec<char> {
    text.chars().collect()
}

#[test]
fn white_space_is_that_of_unicode() {
    for c in '\0'..=char::MAX {
        assert_eq!(is_white_space(c), c.is_whitespace(), "{c:?}");
    }
}

#[test]
fn trimming_takes_white_space_off_both_ends() {
    for sample in ["", " ", "a", " a ", "\t a b \n", "\u{3000}x\u{2003}", " \r\n", "a  "] {
        assert_eq!(trim(&chars(sample)), chars(sample.trim()), "{sample:?}");
    }
}

#[test]
fn numbers_are_read_as_std_reads_them() {
    for sample in [
        "", "0", "7", "007", "+7", "+", "-1", " 1", "1 ", "12a", "++1", "18446744073709551615",
        "18446744073709551616", "99999999999999999999999", "0000000000000000000000005", "\u{663}",
        "1_000", "+0",
    ] {
        assert_eq!(parse_number(&chars(sample)), sample.parse::<usize>().ok(), "{sample:?}");
    }
}

#[test]
fn a_written_number_reads_back() {
    for n in [0u64, 1, 9, 10, 99, 100, 12345, u32::MAX as u64, u64::MAX] {
        assert_eq!(decimal_text(n), n.to_string());
        assert_eq!(parse_number(&chars(&decimal_text(n))), Some(n as usize));
    }
}

#[test]
fn text_is_filled_up_to_a_width() {
    assert_eq!(align_right("ab", 5), "   ab");
    assert_eq!(align_left("ab", 5), "ab   ");
    assert_eq!(align_right("\u{e9}\u{1f4c1}", 3), " \u{e9}\u{1f4c1}");
    assert_eq!(align_right("abcdef", 3), "abcdef");
    assert_eq!(align_left("abcdef", 3), "abcdef");
    let mut out = String::from("<");
    push_repeated(&mut out, '=', 3);
    push_repeated(&mut out, 'x', 0);
    assert_eq!(out, "<===");
}

#[test]
fn styles_are_switched_on_and_off() {
    assert_eq!(paint(BOLD, "x"), "\x1b[1mx\x1b[0m");
    assert_eq!(paint(DIM, "x"), "\x1b[2mx\x1b[0m");
    assert_eq!(paint(CYAN, "x"), "\x1b[36mx\x1b[0m");
    assert_eq!(paint(YELLOW, "x"), "\x1b[33mx\x1b[0m");
    assert_eq!(paint(GREEN, "x"), "\x1b[32mx\x1b[0m");
    assert_eq!(paint(RED, "x"), "\x1b[31mx\x1b[0m");
    assert_eq!(paint(REVERSE, "x"), "\x1b[7mx\x1b[0m");
    assert_eq!(RESET, "\x1b[0m");
}

#[test]
fn text_is_split_at_commas() {
    for sample in ["", ",", "1", "1,2", " 1 ,, 2,", "a,\u{e9},c"] {
        let expected: Vec<Vec<char>> = sample.split(',').map(chars).collect();
        assert_eq!(split_chars(&chars(sample), ','), expected, "{sample:?}");
    }
}

#[test]
fn text_and_characters_turn_into_each_other() {
    for sample in ["", "abc", "\u{1f4c1} \u{2713}"] {
        assert_eq!(chars_of(sample), chars(sample));
        assert_eq!(text_of(&chars(sample)), sample);
        assert!(same_text(sample, sample));
    }
    assert!(!same_text("abc", "abd"));
    assert!(!same_text("abc", "ab"));
}
