use soft_wrap::width::{
    checked_display_width_from, checked_display_width_to, display_width_from, display_width_to,
};

#[test]
fn tab_leads_to_next_stop() {
    assert_eq!(display_width_to("\t", 0, 4), 4);
    assert_eq!(display_width_to("\t", 3, 4), 4);
    assert_eq!(display_width_to("\t", 4, 4), 8);
    assert_eq!(display_width_to("a\tb", 0, 4), 5);
    assert_eq!(display_width_to("a\tb\t", 2, 8), 16);
}

#[test]
fn tab_of_length_zero_takes_no_column() {
    assert_eq!(display_width_to("a\tb", 0, 0), 2);
}

#[test]
fn wide_and_combining_characters() {
    assert_eq!(display_width_to("犬", 0, 4), 2);
    assert_eq!(display_width_to("ab犬猫", 1, 4), 7);
    assert_eq!(display_width_to("e\u{301}", 0, 4), 1);
    assert_eq!(display_width_to("\u{ad}", 0, 4), 0);
}

#[test]
fn characters_below_no_break_space() {
    for code in 0u32..0xa0 {
        let c = char::from_u32(code).unwrap();
        let expected = if c == '\t' || (' '..='~').contains(&c) { 1 } else { 0 };
        assert_eq!(display_width_to(&c.to_string(), 0, 1), expected, "{c:?}");
    }
}

#[test]
fn width_is_counted_from_the_start_column() {
    assert_eq!(display_width_from("a\tb", 0, 4), 5);
    assert_eq!(display_width_from("\t", 3, 4), 1);
    assert_eq!(display_width_from("abc", 7, 4), 3);
    assert_eq!(display_width_from("", 7, 4), 0);
}

#[test]
fn columns_add_up() {
    let (a, b) = ("ab\t犬", "\tcd");
    let whole = format!("{a}{b}");
    let middle = display_width_to(a, 3, 4);
    assert_eq!(middle, 10);
    assert_eq!(display_width_to(&whole, 3, 4), display_width_to(b, middle, 4));
    assert_eq!(display_width_to(&whole, 3, 4), 14);
}

#[test]
fn columns_that_cannot_be_counted() {
    let max = usize::MAX;
    assert_eq!(checked_display_width_to("ab", 3, 4), Some(5));
    assert_eq!(checked_display_width_to("ab", max - 2, 4), Some(max));
    assert_eq!(checked_display_width_to("ab", max - 1, 4), None);
    assert_eq!(checked_display_width_to("\u{301}", max, 4), Some(max));
    assert_eq!(checked_display_width_to("\t", max, 4), None);
    assert_eq!(checked_display_width_to("\t", max, 0), Some(max));
    assert_eq!(checked_display_width_from("a\tb", 3, 4), Some(6));
    assert_eq!(checked_display_width_from("ab", max - 2, 4), Some(2));
    assert_eq!(checked_display_width_from("ab", max - 1, 4), None);
}
