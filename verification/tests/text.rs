use prosemirror::model::util::{from, split_at_utf16, to};
use prosemirror::model::Text;
use prosemirror::util::{then_some, EitherOrBoth};

#[test]
fn text_join_adds_lengths() {
    let a = Text::from("a\u{1F60A}".to_string());
    let b = Text::from("bc".to_string());
    let j = a.join(&b);
    assert_eq!(j.as_str(), "a\u{1F60A}bc");
    assert_eq!(j.len_utf16(), 5);
}

#[test]
fn text_counts_utf16_units() {
    assert_eq!(Text::from(String::new()).len_utf16(), 0);
    assert_eq!(Text::from("héllo".to_string()).len_utf16(), 5);
    assert_eq!(Text::from("\u{1F60A}\u{1F60A}".to_string()).len_utf16(), 4);
}

#[test]
fn text_removes_one_trailing_newline() {
    let mut t = Text::from("code\n\n".to_string());
    t.remove_last_newline();
    assert_eq!(t.as_str(), "code\n");
    assert_eq!(t.len_utf16(), 5);
    let mut u = Text::from("code".to_string());
    u.remove_last_newline();
    assert_eq!(u.as_str(), "code");
}

#[test]
fn split_at_utf16_counts_code_units() {
    assert_eq!(split_at_utf16("hello", 2), ("he", "llo"));
    assert_eq!(split_at_utf16("a\u{1F60A}b", 3), ("a\u{1F60A}", "b"));
    assert_eq!(split_at_utf16("a\u{1F60A}b", 0), ("", "a\u{1F60A}b"));
    assert_eq!(split_at_utf16("abc", 3), ("abc", ""));
    assert_eq!(split_at_utf16("abc", 7), ("abc", ""));
}

#[test]
fn range_helpers_give_the_ends() {
    assert_eq!(from(&(3..7)), 3);
    assert_eq!(to(&(3..7), 100), 7);
}

#[test]
fn either_or_both_sides() {
    let both: EitherOrBoth<u8, u8> = EitherOrBoth::Both(1, 2);
    let left: EitherOrBoth<u8, u8> = EitherOrBoth::Left(3);
    let right: EitherOrBoth<u8, u8> = EitherOrBoth::Right(4);
    assert_eq!(both.left(), Some(&1));
    assert_eq!(both.right(), Some(&2));
    assert_eq!(*both.right_or_left(), 2);
    assert_eq!(left.left(), Some(&3));
    assert_eq!(left.right(), None);
    assert_eq!(*left.right_or_left(), 3);
    assert_eq!(right.left(), None);
    assert_eq!(right.right(), Some(&4));
    assert_eq!(*right.right_or_left(), 4);
}

#[test]
fn then_some_follows_the_flag() {
    assert_eq!(then_some(true, 5), Some(5));
    assert_eq!(then_some(false, 5), None);
}
