use markright::paragraph::{
    backspace_list_style, dedent_list, indent_list, insert_pasted_paragraphs, merge_paragraphs,
    remove_merged_paragraphs, set_list, set_paragraph, split_paragraph, Bullet, List, Number, Style,
    MAX_LEVEL,
};

fn bullet_for(level: u8) -> Bullet {
    match level % 3 {
        0 => Bullet::Disc,
        1 => Bullet::Circle,
        _ => Bullet::Square,
    }
}

fn number_for(level: u8) -> Number {
    match level % 3 {
        0 => Number::Arabic,
        1 => Number::LowerAlpha,
        _ => Number::LowerRoman,
    }
}

fn style(list: Option<List>, level: u8) -> Style {
    Style { list, level }
}

#[test]
fn set_list_enters_list_at_level_one() {
    let mut s = Style::default();
    set_list(&mut s, Some(List::Bullet(Bullet::Disc)));
    assert_eq!(s, style(Some(List::Bullet(Bullet::Disc)), 1));
}

#[test]
fn set_list_same_kind_toggles_off_at_any_level() {
    let mut s = style(Some(List::Bullet(Bullet::Circle)), 3);
    set_list(&mut s, Some(List::Bullet(Bullet::Disc)));
    assert_eq!(s, style(None, 0));
    let mut s = style(Some(List::Ordered(Number::UpperRoman)), 1);
    set_list(&mut s, Some(List::Ordered(Number::Arabic)));
    assert_eq!(s, style(None, 0));
}

#[test]
fn set_list_other_kind_keeps_level() {
    let mut s = style(Some(List::Bullet(Bullet::Disc)), 2);
    set_list(&mut s, Some(List::Ordered(Number::Arabic)));
    assert_eq!(s, style(Some(List::Ordered(Number::Arabic)), 2));
}

#[test]
fn set_list_none_leaves_level() {
    let mut s = style(Some(List::Bullet(Bullet::Disc)), 2);
    set_list(&mut s, None);
    assert_eq!(s, style(None, 2));
}

#[test]
fn indent_list_item_rechooses_marker() {
    let mut s = style(Some(List::Bullet(Bullet::Disc)), 1);
    indent_list(&mut s, bullet_for, number_for);
    assert_eq!(s, style(Some(List::Bullet(Bullet::Circle)), 2));
    let mut s = style(Some(List::Ordered(Number::Arabic)), 2);
    indent_list(&mut s, bullet_for, number_for);
    assert_eq!(s, style(Some(List::Ordered(Number::LowerRoman)), 3));
}

#[test]
fn indent_plain_text() {
    let mut s = style(None, 0);
    indent_list(&mut s, bullet_for, number_for);
    assert_eq!(s, style(None, 1));
}

#[test]
fn indent_stops_at_max_level() {
    let mut s = style(Some(List::Bullet(Bullet::Square)), MAX_LEVEL);
    indent_list(&mut s, bullet_for, number_for);
    assert_eq!(s, style(Some(List::Bullet(Bullet::Square)), MAX_LEVEL));
    let mut s = style(None, MAX_LEVEL);
    indent_list(&mut s, bullet_for, number_for);
    assert_eq!(s, style(None, 8));
}

#[test]
fn dedent_nested_item_rechooses_marker() {
    let mut s = style(Some(List::Bullet(Bullet::Square)), 3);
    dedent_list(&mut s, bullet_for, number_for);
    assert_eq!(s, style(Some(List::Bullet(Bullet::Circle)), 2));
}

#[test]
fn dedent_base_item_leaves_list() {
    let mut s = style(Some(List::Ordered(Number::Arabic)), 1);
    dedent_list(&mut s, bullet_for, number_for);
    assert_eq!(s, style(None, 0));
}

#[test]
fn dedent_plain_text_stops_at_zero() {
    let mut s = style(None, 2);
    dedent_list(&mut s, bullet_for, number_for);
    assert_eq!(s, style(None, 1));
    let mut s = style(None, 0);
    dedent_list(&mut s, bullet_for, number_for);
    assert_eq!(s, style(None, 0));
}

#[test]
fn backspace_outside_list_and_indent_is_none() {
    assert_eq!(backspace_list_style(&style(None, 0), bullet_for, number_for), None);
}

#[test]
fn backspace_base_item_leaves_list() {
    let s = style(Some(List::Bullet(Bullet::Disc)), 1);
    assert_eq!(backspace_list_style(&s, bullet_for, number_for), Some(style(None, 0)));
}

#[test]
fn backspace_nested_item_moves_up() {
    let s = style(Some(List::Ordered(Number::Arabic)), 3);
    assert_eq!(
        backspace_list_style(&s, bullet_for, number_for),
        Some(style(Some(List::Ordered(Number::LowerAlpha)), 2))
    );
}

#[test]
fn backspace_indented_text_dedents() {
    let s = style(None, 2);
    assert_eq!(backspace_list_style(&s, bullet_for, number_for), Some(style(None, 1)));
}

#[test]
fn indent_then_dedent_restores_level_and_kind() {
    for start in [style(None, 0), style(None, 3), style(Some(List::Bullet(Bullet::Disc)), 1), style(Some(List::Ordered(Number::Arabic)), 4)] {
        let mut s = start;
        indent_list(&mut s, bullet_for, number_for);
        dedent_list(&mut s, bullet_for, number_for);
        assert_eq!(s.level, start.level);
        assert_eq!(
            matches!(s.list, Some(List::Bullet(_))),
            matches!(start.list, Some(List::Bullet(_)))
        );
        assert_eq!(
            matches!(s.list, Some(List::Ordered(_))),
            matches!(start.list, Some(List::Ordered(_)))
        );
    }
}

#[test]
fn delete_range_drops_paragraphs_of_merged_lines() {
    let mut paras = vec![10, 11, 12, 13, 14];
    remove_merged_paragraphs(&mut paras, 1, 3);
    assert_eq!(paras, vec![10, 11, 14]);
    let mut paras = vec![10, 11, 12];
    remove_merged_paragraphs(&mut paras, 1, 7);
    assert_eq!(paras, vec![10, 11]);
    let mut paras = vec![10, 11, 12];
    remove_merged_paragraphs(&mut paras, 2, 2);
    assert_eq!(paras, vec![10, 11, 12]);
}

#[test]
fn paste_adds_a_paragraph_per_new_line() {
    let mut paras = vec![10, 11, 12];
    insert_pasted_paragraphs(&mut paras, 0, 3, 0);
    assert_eq!(paras, vec![10, 0, 0, 11, 12]);
    let mut paras = vec![10, 11];
    insert_pasted_paragraphs(&mut paras, 5, 2, 0);
    assert_eq!(paras, vec![10, 11, 0]);
    let mut paras = vec![10, 11];
    insert_pasted_paragraphs(&mut paras, 0, 1, 0);
    assert_eq!(paras, vec![10, 11]);
}

#[test]
fn merge_drops_next_paragraph() {
    let mut paras = vec![10, 11, 12];
    merge_paragraphs(&mut paras, 1);
    assert_eq!(paras, vec![10, 11]);
    merge_paragraphs(&mut paras, 1);
    assert_eq!(paras, vec![10, 11]);
}

#[test]
fn split_inserts_new_paragraph_after_line() {
    let mut paras = vec![style(Some(List::Bullet(Bullet::Disc)), 1), style(None, 0)];
    split_paragraph(&mut paras, 0, style(Some(List::Bullet(Bullet::Disc)), 1), Style::default());
    assert_eq!(
        paras,
        vec![style(Some(List::Bullet(Bullet::Disc)), 1), style(Some(List::Bullet(Bullet::Disc)), 1), style(None, 0)]
    );
    let mut paras = vec![7];
    split_paragraph(&mut paras, 3, 9, 0);
    assert_eq!(paras, vec![7, 0, 0, 0, 9]);
}

#[test]
fn set_paragraph_grows_list_when_needed() {
    let mut paras = vec![1, 2];
    set_paragraph(&mut paras, 1, 5, 0);
    assert_eq!(paras, vec![1, 5]);
    set_paragraph(&mut paras, 4, 8, 0);
    assert_eq!(paras, vec![1, 5, 0, 0, 8]);
}

#[test]
fn paragraphs_stay_one_per_line() {
    let lines = 6;
    let mut paras = vec![0u8; lines];
    remove_merged_paragraphs(&mut paras, 1, 3);
    assert_eq!(paras.len(), lines - 2);
    insert_pasted_paragraphs(&mut paras, 0, 4, 0);
    assert_eq!(paras.len(), lines - 2 + 3);
    merge_paragraphs(&mut paras, 2);
    assert_eq!(paras.len(), lines);
    split_paragraph(&mut paras, 5, 1, 0);
    assert_eq!(paras.len(), lines + 1);
}
