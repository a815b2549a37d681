use dpc_common::grouping::{get_indent, group, GroupKind};
use dpc_common::parse::errors::{IndentationErrorKind, ParseError};
use dpc_common::parse::Reader;
use dpc_common::span::Span;

fn texts<'a>(text: &'a str, groups: &[(std::ops::Range<usize>, GroupKind)]) -> Vec<(&'a str, GroupKind)> {
    groups.iter().map(|(r, k)| (&text[r.clone()], *k)).collect()
}

fn indentation_error(text: &str, offset: usize, indent: usize) -> (Span, IndentationErrorKind) {
    match group(text, offset, indent) {
        Err(ParseError::Indentation(e)) => (e.span, e.kind),
        other => panic!("expected an indentation error, got {:?}", other),
    }
}

#[test]
fn group_splits_commands_and_comments() {
    let text = "say a\n# note\n\nexecute run\n  say b\n\n  say c\n   \ntp 1 2 3";
    let groups = group(text, 0, 0).unwrap();
    assert_eq!(
        texts(text, &groups),
        vec![
            ("say a", GroupKind::Command),
            ("# note", GroupKind::Comment),
            ("execute run\n  say b\n\n  say c", GroupKind::Command),
            ("tp 1 2 3", GroupKind::Command),
        ]
    );
}

#[test]
fn group_covers_everything_but_blank_lines() {
    let text = "\n  \nsay a\n\n#c\nnext\n\n  more\nlast\n   \n";
    let groups = group(text, 0, 0).unwrap();
    let mut covered = vec![false; text.len()];
    let mut previous_end = 0;
    for (range, _) in &groups {
        assert!(range.start >= previous_end);
        assert!(range.start < range.end);
        assert!(range.start == 0 || text.as_bytes()[range.start - 1] == b'\n');
        assert!(range.end == text.len() || text.as_bytes()[range.end] == b'\n');
        previous_end = range.end + 1;
        for i in range.clone() {
            covered[i] = true;
        }
    }
    for (i, byte) in text.bytes().enumerate() {
        assert!(covered[i] || byte == b' ' || byte == b'\n');
    }
    let lines: Vec<&str> = text.split('\n').filter(|l| !l.trim_matches(' ').is_empty()).collect();
    let regrouped: Vec<&str> = groups
        .iter()
        .flat_map(|(r, _)| text[r.clone()].split('\n'))
        .filter(|l| !l.trim_matches(' ').is_empty())
        .collect();
    assert_eq!(lines, regrouped);
    assert_eq!(lines, vec!["say a", "#c", "next", "  more", "last"]);
}

#[test]
fn group_of_blank_text_is_empty() {
    assert_eq!(group("", 0, 0).unwrap(), vec![]);
    assert_eq!(group("\n\n   \n", 0, 0).unwrap(), vec![]);
    assert_eq!(group("say a\n", 6, 0).unwrap(), vec![]);
}

#[test]
fn group_starts_at_the_offset_with_the_common_indent() {
    let text = "execute run\n  say a\n    deeper\n  # note\n  say b\n";
    let groups = group(text, 12, 2).unwrap();
    assert_eq!(
        texts(text, &groups),
        vec![
            ("  say a\n    deeper", GroupKind::Command),
            ("  # note", GroupKind::Comment),
            ("  say b", GroupKind::Command),
        ]
    );
    assert_eq!(groups[0].0, 12..30);
    assert_eq!(
        indentation_error("x\n  # note\n    deeper\n", 2, 2),
        (Span::new(11, 21), IndentationErrorKind::InvalidIndentation)
    );
}

#[test]
fn group_takes_an_indented_comment_into_the_command() {
    let text = "say a\n  # still the command\nsay b";
    let groups = group(text, 0, 0).unwrap();
    assert_eq!(
        texts(text, &groups),
        vec![("say a\n  # still the command", GroupKind::Command), ("say b", GroupKind::Command)]
    );
}

#[test]
fn group_rejects_other_whitespace_in_the_indentation() {
    assert_eq!(
        indentation_error("say a\n\tsay b\n", 0, 0),
        (Span::new(6, 12), IndentationErrorKind::MixedWhitespace)
    );
    assert_eq!(
        indentation_error("say a\r\n  \r\n", 0, 0),
        (Span::new(7, 10), IndentationErrorKind::MixedWhitespace)
    );
    assert_eq!(
        indentation_error(" \u{a0}say", 0, 0),
        (Span::new(0, 6), IndentationErrorKind::MixedWhitespace)
    );
}

#[test]
fn group_rejects_lines_off_the_grid() {
    assert_eq!(
        indentation_error("  say a\n", 0, 0),
        (Span::new(0, 7), IndentationErrorKind::InvalidIndentation)
    );
    assert_eq!(
        indentation_error("# note\n  say a\n", 0, 0),
        (Span::new(7, 14), IndentationErrorKind::InvalidIndentation)
    );
    assert_eq!(
        indentation_error("x\n  say a\n say b\n", 2, 2),
        (Span::new(10, 16), IndentationErrorKind::InvalidIndentation)
    );
}

#[test]
fn get_indent_counts_the_spaces_before_the_cursor() {
    let text = "execute run\n  say a\nx \n    y";
    assert_eq!(get_indent(&Reader::with_pos(text, 14)), Some((12, 2)));
    assert_eq!(get_indent(&Reader::with_pos(text, 12)), Some((12, 0)));
    assert_eq!(get_indent(&Reader::with_pos(text, 13)), Some((12, 1)));
    assert_eq!(get_indent(&Reader::with_pos(text, 16)), None);
    assert_eq!(get_indent(&Reader::with_pos(text, 0)), None);
    assert_eq!(get_indent(&Reader::with_pos(text, 8)), None);
    assert_eq!(get_indent(&Reader::with_pos(text, 22)), None);
    assert_eq!(get_indent(&Reader::with_pos(text, 27)), Some((23, 4)));
    assert_eq!(get_indent(&Reader::with_pos("   x", 3)), None);
}
