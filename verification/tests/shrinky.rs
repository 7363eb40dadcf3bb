use kill_desktop::shrinky::{pop_char, shorten_string_to, str_display_width, try_shorten_string_to};

#[test]
fn shrink() {
    assert_eq!("hell", shorten_string_to("hello", 4));
    let tokyo = "東京";
    assert_eq!(6, tokyo.len());
    assert_eq!(tokyo, shorten_string_to(tokyo, 4));
    assert_eq!("東", shorten_string_to(tokyo, 3));
    assert_eq!("東", shorten_string_to(tokyo, 2));
    assert_eq!("", shorten_string_to(tokyo, 1));
    assert_eq!("", shorten_string_to(tokyo, 0));

    let unicode_11 = "\u{1F975}";
    assert_eq!(unicode_11, shorten_string_to(unicode_11, 2));
    assert_eq!("", shorten_string_to(unicode_11, 0));
}

#[test]
fn width_of_strings() {
    assert_eq!(Some(0), str_display_width(""));
    assert_eq!(Some(5), str_display_width("hello"));
    assert_eq!(Some(4), str_display_width("東京"));
    assert_eq!(Some(2), str_display_width("東"));
    // A control character has no display width.
    assert_eq!(None, str_display_width("a\u{7}b"));
}

#[test]
fn pop_char_drops_last() {
    assert_eq!("", pop_char(""));
    assert_eq!("hell", pop_char("hello"));
    assert_eq!("東", pop_char("東京"));
    assert_eq!("", pop_char("\u{1F975}"));
}

#[test]
fn try_shorten_reports_undefined_width() {
    assert_eq!(Some("hell"), try_shorten_string_to("hello", 4));
    assert_eq!(None, try_shorten_string_to("a\u{7}b", 4));
}

#[test]
fn shrink_two_column_emoji_cannot_fit_one_column() {
    assert_eq!(Some(2), str_display_width("\u{1F975}"));
    assert_eq!("", shorten_string_to("\u{1F975}", 1));
}

#[test]
fn shorten_empty_and_exact() {
    assert_eq!("", shorten_string_to("", 0));
    assert_eq!("abc", shorten_string_to("abc", 3));
    assert_eq!("ab", shorten_string_to("abc", 2));
}
