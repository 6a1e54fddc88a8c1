use markright::shortcuts::{detect_patterns, MarkdownAction};


#[test]
fn detect_bold_pattern() {
    let actions = detect_patterns("**bold**");
    assert_eq!(actions.len(), 1);
    assert_eq!(
        actions[0],
        MarkdownAction::Bold {
            content: 2..6,
            markers: vec![0..2, 6..8],
        }
    );
}

#[test]
fn detect_italic_pattern() {
    let actions = detect_patterns("*italic*");
    assert_eq!(actions.len(), 1);
    assert_eq!(
        actions[0],
        MarkdownAction::Italic {
            content: 1..7,
            markers: vec![0..1, 7..8],
        }
    );
}

#[test]
fn detect_bold_italic_pattern() {
    let actions = detect_patterns("***bold italic***");
    assert_eq!(actions.len(), 1);
    assert_eq!(
        actions[0],
        MarkdownAction::BoldItalic {
            content: 3..14,
            markers: vec![0..3, 14..17],
        }
    );
}

#[test]
fn detect_code_pattern() {
    let actions = detect_patterns("`code`");
    assert_eq!(actions.len(), 1);
    assert_eq!(
        actions[0],
        MarkdownAction::Code {
            content: 1..5,
            markers: vec![0..1, 5..6],
        }
    );
}

#[test]
fn detect_heading_1() {
    let actions = detect_patterns("# Hello");
    assert_eq!(actions.len(), 1);
    assert_eq!(
        actions[0],
        MarkdownAction::Heading {
            level: 1,
            marker: 0..2,
        }
    );
}

#[test]
fn detect_heading_3() {
    let actions = detect_patterns("### Hello");
    assert_eq!(actions.len(), 1);
    assert_eq!(
        actions[0],
        MarkdownAction::Heading {
            level: 3,
            marker: 0..4,
        }
    );
}

#[test]
fn no_match_on_unclosed() {
    let actions = detect_patterns("**unclosed");
    assert!(actions.is_empty());
}

#[test]
fn no_heading_without_space() {
    let actions = detect_patterns("#nospace");
    assert!(actions.is_empty());
}

#[test]
fn mixed_patterns() {
    let actions = detect_patterns("**bold** and *italic*");
    assert_eq!(actions.len(), 2);
    assert_eq!(
        actions[0],
        MarkdownAction::Bold {
            content: 2..6,
            markers: vec![0..2, 6..8],
        }
    );
    assert_eq!(
        actions[1],
        MarkdownAction::Italic {
            content: 14..20,
            markers: vec![13..14, 20..21],
        }
    );
}

#[test]
fn code_prevents_inner_bold() {
    let actions = detect_patterns("`**not bold**`");
    assert_eq!(actions.len(), 1);
    assert_eq!(
        actions[0],
        MarkdownAction::Code {
            content: 1..13,
            markers: vec![0..1, 13..14],
        }
    );
}

#[test]
fn empty_content_not_matched() {
    let actions = detect_patterns("****");
    assert!(actions.is_empty());
}

#[test]
fn heading_level_6() {
    let actions = detect_patterns("###### Tiny heading");
    assert_eq!(actions.len(), 1);
    assert_eq!(
        actions[0],
        MarkdownAction::Heading {
            level: 6,
            marker: 0..7,
        }
    );
}

#[test]
fn seven_hashes_not_a_heading() {
    let actions = detect_patterns("####### Not a heading");
    assert!(actions.is_empty());
}

#[test]
fn shortcuts_bold_with_surrounding_text() {
    let actions = detect_patterns("hello **world** there");
    assert_eq!(actions.len(), 1);
    assert_eq!(
        actions[0],
        MarkdownAction::Bold {
            content: 8..13,
            markers: vec![6..8, 13..15],
        }
    );
}

#[test]
fn shortcuts_multiple_code_spans() {
    let actions = detect_patterns("`a` and `b`");
    assert_eq!(actions.len(), 2);
    assert_eq!(
        actions[0],
        MarkdownAction::Code {
            content: 1..2,
            markers: vec![0..1, 2..3],
        }
    );
    assert_eq!(
        actions[1],
        MarkdownAction::Code {
            content: 9..10,
            markers: vec![8..9, 10..11],
        }
    );
}

#[test]
fn single_asterisk_not_italic() {
    // A lone asterisk with no closing should produce nothing.
    let actions = detect_patterns("*");
    assert!(actions.is_empty());
}

#[test]
fn empty_code_span_not_matched() {
    let actions = detect_patterns("``");
    assert!(actions.is_empty());
}

#[test]
fn detected_markers_sit_right_around_their_content() {
    let line = "a `x` **b** *c* ***d***";
    let bytes = line.as_bytes();
    for a in detect_patterns(line) {
        let (content, markers, ch, m) = match a {
            MarkdownAction::Code { content, markers } => (content, markers, b'`', 1),
            MarkdownAction::Italic { content, markers } => (content, markers, b'*', 1),
            MarkdownAction::Bold { content, markers } => (content, markers, b'*', 2),
            MarkdownAction::BoldItalic { content, markers } => (content, markers, b'*', 3),
            MarkdownAction::Heading { .. } => panic!("no heading expected"),
        };
        assert!(content.start < content.end);
        assert_eq!(markers, vec![content.start - m..content.start, content.end..content.end + m]);
        assert!(bytes[content.start - m..content.start].iter().all(|&x| x == ch));
        assert!(bytes[content.end..content.end + m].iter().all(|&x| x == ch));
    }
    assert_eq!(detect_patterns(line).len(), 4);
}

#[test]
fn no_byte_is_a_marker_of_two_patterns() {
    let line = "*a `b*` c* **d** `**` ***e*** *`";
    let mut seen = vec![false; line.len()];
    for a in detect_patterns(line) {
        let markers = match a {
            MarkdownAction::Code { markers, .. }
            | MarkdownAction::Italic { markers, .. }
            | MarkdownAction::Bold { markers, .. }
            | MarkdownAction::BoldItalic { markers, .. } => markers,
            MarkdownAction::Heading { .. } => panic!("no heading expected"),
        };
        for r in markers {
            for q in r {
                assert!(!seen[q], "byte {q} in two markers");
                seen[q] = true;
            }
        }
    }
}
