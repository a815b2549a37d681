use dpc_common::parse::Reader;
use dpc_common::text::{char_is_whitespace, char_width, is_boundary, str_eq, to_chars};

#[test]
fn reader_starts_at_the_first_character() {
    let reader = Reader::new("ab");
    assert_eq!(reader.get_pos(), 0);
    assert_eq!(reader.peek(), Some('a'));
    assert_eq!(reader.peek2(), Some('b'));
    assert!(reader.has_more());
    assert_eq!(reader.get_src(), "ab");
    assert_eq!(reader.remaining_src(), "ab");
    assert_eq!(reader.get_next_pos(), 1);
}

#[test]
fn reader_on_empty_text_has_nothing() {
    let mut reader = Reader::new("");
    assert_eq!(reader.peek(), None);
    assert_eq!(reader.peek2(), None);
    assert!(!reader.has_more());
    assert_eq!(reader.get_next_pos(), 0);
    reader.advance();
    assert_eq!(reader.get_pos(), 0);
    assert_eq!(reader.remaining_src(), "");
}

#[test]
fn reader_steps_over_whole_characters() {
    let mut reader = Reader::new("aé€😀z");
    let mut seen = Vec::new();
    let mut offsets = Vec::new();
    while let Some(c) = reader.peek() {
        seen.push(c);
        offsets.push(reader.get_pos());
        reader.advance();
    }
    assert_eq!(seen, vec!['a', 'é', '€', '😀', 'z']);
    assert_eq!(offsets, vec![0, 1, 3, 6, 10]);
    assert_eq!(reader.get_pos(), 11);
    assert!(!reader.has_more());
}

#[test]
fn reader_peek2_sees_the_character_after_a_wide_one() {
    let reader = Reader::new("€x");
    assert_eq!(reader.peek(), Some('€'));
    assert_eq!(reader.get_next_pos(), 3);
    assert_eq!(reader.peek2(), Some('x'));
    let last = Reader::with_pos("€x", 3);
    assert_eq!(last.peek(), Some('x'));
    assert_eq!(last.peek2(), None);
}

#[test]
fn reader_with_range_ends_at_the_end_of_the_range() {
    let mut reader = Reader::with_range("say hello world", 4..9);
    assert_eq!(reader.get_src(), "say hello");
    assert_eq!(reader.get_pos(), 4);
    assert_eq!(reader.read_literal(), "hello");
    assert!(!reader.has_more());
}

#[test]
fn reader_set_pos_moves_the_cursor() {
    let mut reader = Reader::new("abc def");
    reader.set_pos(4);
    assert_eq!(reader.get_pos(), 4);
    assert_eq!(reader.peek(), Some('d'));
    assert_eq!(reader.remaining_src(), "def");
    reader.set_pos(7);
    assert_eq!(reader.peek(), None);
}

#[test]
fn reader_skip_takes_a_prefix_or_nothing() {
    let mut reader = Reader::new("execute run");
    assert!(!reader.skip("run"));
    assert_eq!(reader.get_pos(), 0);
    assert!(reader.skip("execute"));
    assert_eq!(reader.get_pos(), 7);
    assert!(!reader.skip(" run and more"));
    assert_eq!(reader.get_pos(), 7);
    assert!(reader.skip(""));
    assert_eq!(reader.get_pos(), 7);
    assert!(reader.skip(" run"));
    assert!(!reader.has_more());
}

#[test]
fn reader_skip_whitespace_knows_all_kinds_of_whitespace() {
    let mut reader = Reader::new(" \t\r\n\u{a0}\u{2003}\u{3000}x ");
    reader.skip_whitespace();
    assert_eq!(reader.peek(), Some('x'));
    assert_eq!(reader.get_pos(), 12);
    reader.skip_whitespace();
    assert_eq!(reader.get_pos(), 12);
}

#[test]
fn reader_reads_until_and_while() {
    let mut reader = Reader::new("abc123 rest");
    let letters = reader.read_while(|c: char| c.is_ascii_alphabetic());
    assert_eq!(letters, "abc");
    let range = reader.read_span_while(|c: char| c.is_ascii_digit());
    assert_eq!(range, 3..6);
    let none = reader.read_until(|c: char| c == ' ');
    assert_eq!(none, "");
    reader.advance();
    let range = reader.read_range_until(|c: char| c == 't');
    assert_eq!(range, 7..10);
    let tail = reader.read_until(|_c: char| false);
    assert_eq!(tail, "t");
    assert!(!reader.has_more());
}

#[test]
fn reader_reads_words() {
    let mut reader = Reader::new("tp  ~1\n");
    assert_eq!(reader.read_literal(), "tp");
    assert_eq!(reader.read_literal(), "");
    reader.skip_whitespace();
    assert_eq!(reader.read_word_range(), 4..6);
    assert_eq!(reader.peek(), Some('\n'));
}

#[test]
fn reader_parse_with_span_gives_the_range_stepped_over() {
    let mut reader = Reader::new("abc def");
    let (range, word) = reader.parse_with_span(|r: &mut Reader| r.read_literal().len());
    assert_eq!(range, 0..3);
    assert_eq!(word, 3);
    reader.skip_whitespace();
    let ok: Result<(std::ops::Range<usize>, char), ()> =
        reader.try_parse_with_span(|r: &mut Reader| {
            let c = r.peek().ok_or(())?;
            r.advance();
            Ok(c)
        });
    assert_eq!(ok, Ok((4..5, 'd')));
    let failed: Result<(std::ops::Range<usize>, char), u8> =
        reader.try_parse_with_span(|r: &mut Reader| {
            r.advance();
            Err(7)
        });
    assert_eq!(failed, Err(7));
    assert_eq!(reader.get_pos(), 6);
}

#[test]
fn text_helpers_agree_with_the_standard_library() {
    for c in ['a', ' ', '\n', '\t', '\u{b}', '\u{c}', '\r', '\u{85}', '\u{a0}', '\u{1680}',
        '\u{2000}', '\u{200a}', '\u{200b}', '\u{2028}', '\u{2029}', '\u{202f}', '\u{205f}',
        '\u{3000}', '\u{feff}', 'é', '€', '😀', '\u{7f}', '\u{80}', '\u{7ff}', '\u{800}',
        '\u{ffff}', '\u{10000}']
    {
        assert_eq!(char_is_whitespace(c), c.is_whitespace(), "{:?}", c);
        assert_eq!(char_width(c), c.len_utf8(), "{:?}", c);
    }
    assert!(str_eq("abc", "abc"));
    assert!(!str_eq("abc", "abd"));
    assert!(!str_eq("abc", "ab"));
    assert!(str_eq("", ""));
    assert_eq!(to_chars("a€b"), vec!['a', '€', 'b']);
    assert!(is_boundary("a€b", 0));
    assert!(is_boundary("a€b", 1));
    assert!(!is_boundary("a€b", 2));
    assert!(!is_boundary("a€b", 3));
    assert!(is_boundary("a€b", 4));
    assert!(is_boundary("a€b", 5));
    assert!(!is_boundary("a€b", 6));
}
