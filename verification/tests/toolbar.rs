use markright::toolbar::HeadingOption;

#[test]
fn heading_option_round_trips() {
    for option in HeadingOption::ALL {
        let level = option.to_level();
        let back = HeadingOption::from_level(level);
        assert_eq!(option, back);
    }
}

#[test]
fn heading_option_display() {
    assert_eq!(HeadingOption::Normal.to_string(), "Normal");
    assert_eq!(HeadingOption::H1.to_string(), "Heading 1");
    assert_eq!(HeadingOption::H6.to_string(), "Heading 6");
}

#[test]
fn heading_option_from_unknown_level_is_normal() {
    assert_eq!(HeadingOption::from_level(Some(7)), HeadingOption::Normal);
    assert_eq!(HeadingOption::from_level(Some(0)), HeadingOption::Normal);
}

#[test]
fn heading_levels_map_to_options() {
    assert_eq!(HeadingOption::from_level(None), HeadingOption::Normal);
    assert_eq!(HeadingOption::from_level(Some(3)), HeadingOption::H3);
    assert_eq!(HeadingOption::H4.to_level(), Some(4));
    assert_eq!(HeadingOption::Normal.to_level(), None);
    assert_eq!(HeadingOption::H3.to_string(), "Heading 3");
}
