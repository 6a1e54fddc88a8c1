use markright::paragraph::{self, Bullet, List, Number};
use markright::widget::rich_editor::list::{count_ordinal, marker_text, nth_alpha, to_roman};

#[test]
fn alpha_numbering() {
    assert_eq!(nth_alpha(1, false), "a");
    assert_eq!(nth_alpha(26, false), "z");
    assert_eq!(nth_alpha(27, false), "aa");
    assert_eq!(nth_alpha(28, false), "ab");
    assert_eq!(nth_alpha(1, true), "A");
}

#[test]
fn roman_numbering() {
    assert_eq!(to_roman(1, false), "i");
    assert_eq!(to_roman(4, false), "iv");
    assert_eq!(to_roman(9, false), "ix");
    assert_eq!(to_roman(14, false), "xiv");
    assert_eq!(to_roman(42, true), "XLII");
    assert_eq!(to_roman(2024, true), "MMXXIV");
}

#[test]
fn ordinal_counting() {
    let styles = vec![
        paragraph::Style {
            list: Some(List::Bullet(Bullet::Disc)),
            level: 0,
            ..Default::default()
        },
        paragraph::Style {
            list: Some(List::Bullet(Bullet::Disc)),
            level: 0,
            ..Default::default()
        },
        paragraph::Style {
            list: Some(List::Bullet(Bullet::Disc)),
            level: 1,
            ..Default::default()
        },
        paragraph::Style {
            list: Some(List::Bullet(Bullet::Disc)),
            level: 0,
            ..Default::default()
        },
    ];

    assert_eq!(count_ordinal(&styles, 0), 1);
    assert_eq!(count_ordinal(&styles, 1), 2);
    assert_eq!(count_ordinal(&styles, 2), 1); // nested, resets
    assert_eq!(count_ordinal(&styles, 3), 3); // back to level 0
}

#[test]
fn ordinal_resets_after_plain_paragraph() {
    let item = paragraph::Style { list: Some(List::Ordered(Number::Arabic)), level: 1 };
    let plain = paragraph::Style::default();
    let styles = vec![item, item, plain, item];
    assert_eq!(count_ordinal(&styles, 1), 2);
    assert_eq!(count_ordinal(&styles, 3), 1);
}

#[test]
fn alpha_and_roman_edge_values() {
    assert_eq!(nth_alpha(0, false), "");
    assert_eq!(nth_alpha(52, false), "az");
    assert_eq!(nth_alpha(53, true), "BA");
    assert_eq!(nth_alpha(702, false), "zz");
    assert_eq!(nth_alpha(703, false), "aaa");
    assert_eq!(to_roman(0, false), "");
    assert_eq!(to_roman(3999, true), "MMMCMXCIX");
    assert_eq!(to_roman(40, false), "xl");
    assert_eq!(to_roman(90, true), "XC");
    assert_eq!(to_roman(400, false), "cd");
}

#[test]
fn marker_text_for_each_list_kind() {
    assert_eq!(marker_text(&List::Bullet(Bullet::Disc), 1), "\u{2022}");
    assert_eq!(marker_text(&List::Bullet(Bullet::Circle), 1), "\u{25E6}");
    assert_eq!(marker_text(&List::Bullet(Bullet::Square), 1), "\u{25AA}");
    assert_eq!(marker_text(&List::Bullet(Bullet::Custom('-')), 4), "-");
    assert_eq!(marker_text(&List::Ordered(Number::Arabic), 12), "12.");
    assert_eq!(marker_text(&List::Ordered(Number::LowerAlpha), 3), "c.");
    assert_eq!(marker_text(&List::Ordered(Number::UpperAlpha), 27), "AA.");
    assert_eq!(marker_text(&List::Ordered(Number::LowerRoman), 4), "iv.");
    assert_eq!(marker_text(&List::Ordered(Number::UpperRoman), 9), "IX.");
}
