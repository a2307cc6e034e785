use driver_indexer::text::{
    chars_of, find, read_value_after, remove_all, slice, stands_at, string_of, strip_blanks,
};

fn text(s: &str) -> Vec<char> {
    chars_of(s)
}

#[test]
fn chars_and_strings_convert_both_ways() {
    let chars = chars_of("Gr\u{f6}\u{df}e \u{ae} \u{65e5}\u{672c}");
    assert_eq!(chars.len(), 10);
    assert_eq!(chars[2], '\u{f6}');
    assert_eq!(string_of(&chars), "Gr\u{f6}\u{df}e \u{ae} \u{65e5}\u{672c}");
    assert_eq!(string_of(&Vec::new()), "");
}

#[test]
fn strip_blanks_takes_out_spaces_and_tabs() {
    assert_eq!(string_of(&strip_blanks(&text("Class = Net\t; x\n"))), "Class=Net;x\n");
}

#[test]
fn strip_blanks_keeps_line_ends_and_other_white_space() {
    assert_eq!(
        string_of(&strip_blanks(&text(" a\r\n\tb\u{a0}c\u{c} "))),
        "a\r\nb\u{a0}c\u{c}"
    );
    assert_eq!(string_of(&strip_blanks(&text(" \t \t"))), "");
    assert_eq!(string_of(&strip_blanks(&text(""))), "");
}

#[test]
fn stands_at_compares_at_a_position() {
    let t = text("Provider=%Msft%");
    assert!(stands_at(&t, 0, &text("Provider=")));
    assert!(stands_at(&t, 9, &text("%Msft%")));
    assert!(!stands_at(&t, 1, &text("Provider=")));
    assert!(!stands_at(&t, 10, &text("%Msft%")));
    assert!(stands_at(&t, 15, &text("")));
    assert!(!stands_at(&t, 16, &text("")));
}

#[test]
fn find_gives_the_first_position_from_a_start() {
    let t = text("a=1\nb=2\na=3\n");
    assert_eq!(find(&t, &text("a="), 0), Some(0));
    assert_eq!(find(&t, &text("a="), 1), Some(8));
    assert_eq!(find(&t, &text("a="), 9), None);
    assert_eq!(find(&t, &text("c="), 0), None);
    assert_eq!(find(&t, &text("\n"), 0), Some(3));
    assert_eq!(find(&t, &text(""), 12), Some(12));
    assert_eq!(find(&t, &text(""), 13), None);
    assert_eq!(find(&t, &text("a=1\nb=2\na=3\nx"), 0), None);
}

#[test]
fn remove_all_takes_out_each_occurrence() {
    assert_eq!(string_of(&remove_all(&text("a(R)b(R)"), &text("(R)"))), "ab");
    assert_eq!(string_of(&remove_all(&text("(R)"), &text("(R)"))), "");
    assert_eq!(string_of(&remove_all(&text("abc"), &text("(R)"))), "abc");
    assert_eq!(string_of(&remove_all(&text(""), &text("(R)"))), "");
}

#[test]
fn remove_all_goes_from_the_left_without_overlap() {
    assert_eq!(string_of(&remove_all(&text("aaa"), &text("aa"))), "a");
    assert_eq!(string_of(&remove_all(&text("aaaa"), &text("aa"))), "");
    assert_eq!(string_of(&remove_all(&text("ababa"), &text("aba"))), "ba");
}

#[test]
fn remove_all_does_not_look_at_what_it_joined() {
    assert_eq!(string_of(&remove_all(&text("(R(R))"), &text("(R)"))), "(R)");
}

#[test]
fn remove_all_with_an_empty_pattern_changes_nothing() {
    assert_eq!(string_of(&remove_all(&text("abc"), &text(""))), "abc");
}

#[test]
fn slice_copies_a_range() {
    let t = text("0123456789");
    assert_eq!(string_of(&slice(&t, 2, 5)), "234");
    assert_eq!(string_of(&slice(&t, 0, 10)), "0123456789");
    assert_eq!(string_of(&slice(&t, 7, 7)), "");
}

#[test]
fn value_after_runs_to_the_line_feed() {
    let t = text("x=1\nProvider=%Msft%\r\nProvider=other\n");
    assert_eq!(read_value_after(&t, &text("Provider=")), Some(text("%Msft%\r")));
    assert_eq!(read_value_after(&t, &text("x=")), Some(text("1")));
}

#[test]
fn value_after_runs_to_the_end_where_no_line_feed_follows() {
    let t = text("x=1\nProvider=Acme");
    assert_eq!(read_value_after(&t, &text("Provider=")), Some(text("Acme")));
    assert_eq!(read_value_after(&text("Provider="), &text("Provider=")), Some(text("")));
}

#[test]
fn value_after_is_none_without_the_key() {
    let t = text("x=1\ny=2\n");
    assert_eq!(read_value_after(&t, &text("Provider=")), None);
    assert_eq!(read_value_after(&text(""), &text("Provider=")), None);
}
