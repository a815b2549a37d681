use dpc_common::arguments::ChatColor;
use dpc_common::intern::{Interner, StaticInterner, Symbol};
use dpc_common::parse::argument::primitives::{
    integer_from_chars, is_decimal_chars, parse_bool, parse_double, parse_float, parse_integer,
    parse_text, trimmed_end_pos,
};
use dpc_common::parse::argument::{angle, color, coords};
use dpc_common::parse::argument::{
    Argument, Coordinates, Double, Float, Integer, Numeral, StringKind, Text,
};
use dpc_common::parse::cst::ArgumentValue;
use dpc_common::parse::errors::{ErrorList, ParseError};
use dpc_common::parse::Reader;
use dpc_common::span::Span;

fn spans(errors: &ErrorList) -> Vec<Span> {
    errors.as_slice().iter().map(|e| e.get_span()).collect()
}

fn chars(text: &str) -> Vec<char> {
    text.chars().collect()
}

#[test]
fn parse_bool_reads_true_and_false() {
    let mut errors = ErrorList::new();
    let mut reader = Reader::new("true false");
    assert_eq!(parse_bool(&mut reader, &mut errors).value, Some(true));
    assert_eq!(reader.get_pos(), 4);
    reader.skip_whitespace();
    assert_eq!(parse_bool(&mut reader, &mut errors).value, Some(false));
    assert!(errors.is_empty());
}

#[test]
fn parse_bool_reports_other_words() {
    for word in ["True", "tru", "truee", "1", "", "falsé"] {
        let mut errors = ErrorList::new();
        let text = format!("{} x", word);
        let mut reader = Reader::new(&text);
        assert_eq!(parse_bool(&mut reader, &mut errors).value, None);
        assert_eq!(reader.get_pos(), word.len());
        assert_eq!(errors.len(), 1);
        assert!(matches!(errors.get(0), Some(ParseError::ParseBool(_))));
        assert_eq!(spans(&errors), vec![Span::new(0, word.len())]);
    }
}

#[test]
fn integers_are_read_in_decimal_notation() {
    assert_eq!(integer_from_chars(&chars("0")), Some(0));
    assert_eq!(integer_from_chars(&chars("-0")), Some(0));
    assert_eq!(integer_from_chars(&chars("0042")), Some(42));
    assert_eq!(integer_from_chars(&chars("-17")), Some(-17));
    assert_eq!(integer_from_chars(&chars("2147483647")), Some(i32::MAX));
    assert_eq!(integer_from_chars(&chars("-2147483648")), Some(i32::MIN));
    assert_eq!(integer_from_chars(&chars("2147483648")), None);
    assert_eq!(integer_from_chars(&chars("-2147483649")), None);
    assert_eq!(integer_from_chars(&chars("99999999999999999999999999")), None);
    assert_eq!(integer_from_chars(&chars("000000000000000000000000001")), Some(1));
    for bad in ["", "-", "--1", "1-", "1.0", ".", "+1", "1 ", "a", "１"] {
        assert_eq!(integer_from_chars(&chars(bad)), None, "{:?}", bad);
    }
    for text in ["0", "-0", "12", "-2147483648", "2147483648", "", "-", "1.5", "007"] {
        assert_eq!(integer_from_chars(&chars(text)), text.parse::<i32>().ok(), "{:?}", text);
    }
}

#[test]
fn decimal_numerals_are_what_the_standard_library_reads_as_numbers() {
    for text in ["0", "1.5", "-1.5", ".5", "-.5", "5.", "-5.", "007.250", "", "-", ".", "-.",
        "1.2.3", "--1", "1-", "1-2", "..", "1..", "123456789012345678901234567890.5"]
    {
        assert_eq!(is_decimal_chars(&chars(text)), text.parse::<f64>().is_ok(), "{:?}", text);
        assert_eq!(is_decimal_chars(&chars(text)), text.parse::<f32>().is_ok(), "{:?}", text);
    }
    for text in ["1e5", "inf", "nan", "+1", "1,5", "１"] {
        assert!(!is_decimal_chars(&chars(text)), "{:?}", text);
    }
}

#[test]
fn parse_integer_reports_what_is_no_integer() {
    let mut errors = ErrorList::new();
    let mut reader = Reader::new("12 -7 1.5 x");
    assert_eq!(parse_integer(&mut reader, &mut errors), Integer::new(12));
    reader.skip_whitespace();
    assert_eq!(parse_integer(&mut reader, &mut errors).value, Some(-7));
    assert!(errors.is_empty());
    reader.skip_whitespace();
    assert_eq!(parse_integer(&mut reader, &mut errors).value, None);
    reader.skip_whitespace();
    assert_eq!(parse_integer(&mut reader, &mut errors).value, None);
    assert_eq!(spans(&errors), vec![Span::new(6, 9), Span::new(10, 11)]);
    assert!(errors.as_slice().iter().all(|e| matches!(e, ParseError::ParseInteger(_))));
    assert_eq!(Integer::zero().value, Some(0));
}

#[test]
fn parse_float_and_double_keep_the_place_of_the_numeral() {
    let text = "1.5 -2 abc 3.";
    let mut errors = ErrorList::new();
    let mut reader = Reader::new(text);
    let first = parse_float(&mut reader, &mut errors);
    assert_eq!(first, Float::new(Numeral::Written(Span::new(0, 3))));
    reader.skip_whitespace();
    let second = parse_double(&mut reader, &mut errors);
    assert_eq!(second, Double::new(Numeral::Written(Span::new(4, 6))));
    assert!(errors.is_empty());
    reader.skip_whitespace();
    assert_eq!(parse_float(&mut reader, &mut errors).value, None);
    assert!(matches!(errors.get(0), Some(ParseError::ParseFloat(_))));
    reader.set_pos(7);
    assert_eq!(parse_double(&mut reader, &mut errors).value, None);
    assert!(matches!(errors.get(1), Some(ParseError::ParseDouble(_))));
    assert_eq!(spans(&errors), vec![Span::new(7, 10), Span::new(7, 10)]);
    reader.skip_whitespace();
    assert_eq!(parse_double(&mut reader, &mut errors).value, Some(Numeral::Written(Span::new(11, 13))));
    match first.value {
        Some(Numeral::Written(span)) => {
            assert_eq!(text[span.as_range()].parse::<f32>(), Ok(1.5f32))
        }
        other => panic!("expected a written numeral, got {:?}", other),
    }
    assert_eq!(Float::zero().value, Some(Numeral::Zero));
    assert_eq!(Double::zero().value, Some(Numeral::Zero));
}

#[test]
fn greedy_phrases_take_the_rest_without_trailing_whitespace() {
    let mut interner = StaticInterner::new();
    let mut errors = ErrorList::new();
    let mut reader = Reader::with_pos("say  hello  world \n ", 4);
    assert_eq!(trimmed_end_pos(&reader), 17);
    let text = parse_text(&mut reader, &mut interner, &mut errors, StringKind::GreedyPhrase);
    assert_eq!(text, Ok(Text { value: Some(Symbol(1)), is_quotable: false }));
    assert_eq!(interner.resolve(Symbol(1)), Some(" hello  world"));
    assert_eq!(reader.get_pos(), 20);
    assert!(errors.is_empty());
    let empty = Reader::new("   ");
    assert_eq!(trimmed_end_pos(&empty), 0);
}

#[test]
fn quoted_strings_end_at_the_matching_quote() {
    let mut interner = StaticInterner::new();
    let mut errors = ErrorList::new();
    let text = r#""a \" b\\" 'c "d" e' rest"#;
    let mut reader = Reader::new(text);
    let first = parse_text(&mut reader, &mut interner, &mut errors, StringKind::QuotablePhrase);
    assert_eq!(first, Ok(Text { value: Some(Symbol(1)), is_quotable: true }));
    assert_eq!(interner.resolve(Symbol(1)), Some(r#"a \" b\\"#));
    assert_eq!(reader.get_pos(), 10);
    reader.skip_whitespace();
    let second = parse_text(&mut reader, &mut interner, &mut errors, StringKind::QuotablePhrase);
    assert_eq!(second, Ok(Text { value: Some(Symbol(2)), is_quotable: true }));
    assert_eq!(interner.resolve(Symbol(2)), Some(r#"c "d" e"#));
    assert_eq!(reader.get_pos(), 20);
    assert!(errors.is_empty());
}

#[test]
fn quoted_single_words_are_read_and_reported() {
    let mut interner = StaticInterner::new();
    let mut errors = ErrorList::new();
    let mut reader = Reader::new("\"word\" x");
    let text = parse_text(&mut reader, &mut interner, &mut errors, StringKind::SingleWord);
    assert_eq!(text, Ok(Text { value: Some(Symbol(1)), is_quotable: true }));
    assert_eq!(interner.resolve(Symbol(1)), Some("word"));
    assert_eq!(errors.len(), 1);
    assert!(matches!(errors.get(0), Some(ParseError::QuotedSingleWord(_))));
    assert_eq!(spans(&errors), vec![Span::new(0, 6)]);
}

#[test]
fn unterminated_strings_are_errors() {
    for text in ["\"open", "'open\\'", "\"", "\"a\\"] {
        let mut interner = StaticInterner::new();
        let mut errors = ErrorList::new();
        let mut reader = Reader::new(text);
        let result = parse_text(&mut reader, &mut interner, &mut errors, StringKind::QuotablePhrase);
        assert_eq!(result, Ok(Text { value: None, is_quotable: true }));
        assert_eq!(errors.len(), 1);
        match errors.get(0) {
            Some(ParseError::UnterminatedString(e)) => assert_eq!(e.span, Span::new(0, text.len())),
            other => panic!("expected an unterminated string, got {:?}", other),
        }
        assert_eq!(reader.get_pos(), text.len());
        assert_eq!(interner.len(), 0);
    }
}

#[test]
fn unquoted_strings_allow_few_characters() {
    let mut interner = StaticInterner::new();
    let mut errors = ErrorList::new();
    let mut reader = Reader::new("aZ09_-.+ a:b é");
    let first = parse_text(&mut reader, &mut interner, &mut errors, StringKind::SingleWord);
    assert_eq!(first, Ok(Text { value: Some(Symbol(1)), is_quotable: false }));
    assert_eq!(interner.resolve(Symbol(1)), Some("aZ09_-.+"));
    reader.skip_whitespace();
    let second = parse_text(&mut reader, &mut interner, &mut errors, StringKind::QuotablePhrase);
    assert_eq!(second, Ok(Text { value: None, is_quotable: false }));
    reader.skip_whitespace();
    let third = parse_text(&mut reader, &mut interner, &mut errors, StringKind::SingleWord);
    assert_eq!(third, Ok(Text { value: None, is_quotable: false }));
    assert_eq!(spans(&errors), vec![Span::new(9, 12), Span::new(13, 15)]);
    assert!(errors.as_slice().iter().all(|e| matches!(e, ParseError::InvalidStringChars(_))));
    assert_eq!(interner.len(), 1);
    let fourth = parse_text(&mut reader, &mut interner, &mut errors, StringKind::SingleWord);
    assert_eq!(fourth, Ok(Text { value: Some(Symbol(2)), is_quotable: false }));
    assert_eq!(interner.resolve(Symbol(2)), Some(""));
}

#[test]
fn angles_may_be_relative() {
    let mut errors = ErrorList::new();
    let mut reader = Reader::new("~ ~1.5 90 ~x");
    let a = angle::parse(&mut reader, &mut errors);
    assert!(a.relative);
    assert_eq!(a.value.value, Some(Numeral::Zero));
    assert_eq!(reader.get_pos(), 1);
    reader.skip_whitespace();
    let b = angle::parse(&mut reader, &mut errors);
    assert!(b.relative);
    assert_eq!(b.value.value, Some(Numeral::Written(Span::new(3, 6))));
    reader.skip_whitespace();
    let c = angle::parse(&mut reader, &mut errors);
    assert!(!c.relative);
    assert_eq!(c.value.value, Some(Numeral::Written(Span::new(7, 9))));
    assert!(errors.is_empty());
    reader.skip_whitespace();
    let d = angle::parse(&mut reader, &mut errors);
    assert!(d.relative);
    assert_eq!(d.value.value, None);
    assert_eq!(spans(&errors), vec![Span::new(11, 12)]);
    let e = angle::parse(&mut reader, &mut errors);
    assert!(!e.relative);
    assert_eq!(e.value.value, Some(Numeral::Zero));
}

#[test]
fn colors_are_read_by_name() {
    let mut errors = ErrorList::new();
    let mut reader = Reader::new("Dark_Red mauve");
    assert_eq!(color::parse(&mut reader, &mut errors).color, Some(ChatColor::DarkRed));
    assert!(errors.is_empty());
    reader.skip_whitespace();
    assert_eq!(color::parse(&mut reader, &mut errors).color, None);
    assert!(matches!(errors.get(0), Some(ParseError::InvalidColor(_))));
    assert_eq!(spans(&errors), vec![Span::new(9, 14)]);
}

#[test]
fn local_coordinates_start_with_carets() {
    let mut errors = ErrorList::new();
    let mut reader = Reader::new("^1 ^ ^-2.5 rest");
    match coords::parse_vec3(&mut reader, &mut errors) {
        Coordinates::Local(axes) => {
            assert_eq!(axes[0].value, Some(Numeral::Written(Span::new(1, 2))));
            assert_eq!(axes[1].value, Some(Numeral::Zero));
            assert_eq!(axes[2].value, Some(Numeral::Written(Span::new(6, 10))));
        }
        other => panic!("expected local coordinates, got {:?}", other),
    }
    assert_eq!(reader.get_pos(), 10);
    assert!(errors.is_empty());
}

#[test]
fn local_coordinates_report_what_is_missing_or_mixed() {
    let mut errors = ErrorList::new();
    let mut reader = Reader::new("^1 ~2 3");
    match coords::parse_block_pos(&mut reader, &mut errors) {
        Coordinates::Local(axes) => {
            assert_eq!(axes[0].value, Some(Numeral::Written(Span::new(1, 2))));
            assert_eq!(axes[1].value, Some(Numeral::Written(Span::new(4, 5))));
            assert_eq!(axes[2].value, Some(Numeral::Written(Span::new(6, 7))));
        }
        other => panic!("expected local coordinates, got {:?}", other),
    }
    assert_eq!(errors.len(), 2);
    assert!(matches!(errors.get(0), Some(ParseError::MixedCoordinates(_))));
    assert!(matches!(errors.get(1), Some(ParseError::ExpectedLocalCoordinate(_))));
    assert_eq!(spans(&errors), vec![Span::new(3, 4), Span::new(6, 7)]);

    let mut errors = ErrorList::new();
    let mut reader = Reader::new("^ ^1  ");
    match coords::parse_vec3(&mut reader, &mut errors) {
        Coordinates::Local(axes) => {
            assert_eq!(axes[0].value, Some(Numeral::Zero));
            assert_eq!(axes[1].value, Some(Numeral::Written(Span::new(3, 4))));
            assert_eq!(axes[2].value, Some(Numeral::Zero));
        }
        other => panic!("expected local coordinates, got {:?}", other),
    }
    assert_eq!(errors.len(), 1);
    assert!(matches!(errors.get(0), Some(ParseError::IncompleteLocalCoordinates(_))));
    assert_eq!(spans(&errors), vec![Span::new(0, 6)]);
    assert_eq!(reader.get_pos(), 6);
}

#[test]
fn world_coordinates_may_be_relative() {
    let mut errors = ErrorList::new();
    let mut reader = Reader::new("~1.5 2 ~");
    match coords::parse_block_pos(&mut reader, &mut errors) {
        Coordinates::World(axes) => {
            assert!(axes[0].relative);
            assert_eq!(axes[0].value.value, Some(Numeral::Written(Span::new(1, 4))));
            assert!(!axes[1].relative);
            assert_eq!(axes[1].value.value, Some(Numeral::Integer(2)));
            assert!(axes[2].relative);
            assert_eq!(axes[2].value.value, Some(Numeral::Zero));
        }
        other => panic!("expected world coordinates, got {:?}", other),
    }
    assert!(errors.is_empty());

    let mut errors = ErrorList::new();
    let mut reader = Reader::new("1.5 2");
    match coords::parse_block_pos(&mut reader, &mut errors) {
        Coordinates::World(axes) => {
            assert_eq!(axes[0].value.value, None);
            assert_eq!(axes[1].value.value, Some(Numeral::Integer(2)));
            assert_eq!(axes[2].value.value, Some(Numeral::Zero));
        }
        other => panic!("expected world coordinates, got {:?}", other),
    }
    assert_eq!(errors.len(), 2);
    assert!(matches!(errors.get(0), Some(ParseError::ParseInteger(_))));
    assert!(matches!(errors.get(1), Some(ParseError::IncompleteLocalCoordinates(_))));
    assert_eq!(spans(&errors), vec![Span::new(0, 3), Span::new(0, 5)]);
}

#[test]
fn vectors_and_column_positions_read_doubles() {
    let mut errors = ErrorList::new();
    let mut reader = Reader::new("1.5 ~2");
    match coords::parse_vec2(&mut reader, &mut errors) {
        Coordinates::World(axes) => {
            assert_eq!(axes[0].value.value, Some(Numeral::Written(Span::new(0, 3))));
            assert!(axes[1].relative);
            assert_eq!(axes[1].value.value, Some(Numeral::Written(Span::new(5, 6))));
        }
        other => panic!("expected world coordinates, got {:?}", other),
    }
    let mut reader = Reader::new("^1 ^2");
    assert!(matches!(coords::parse_vec2(&mut reader, &mut errors), Coordinates::Local(_)));
    assert!(errors.is_empty());
    let mut reader = Reader::new("^1 2");
    match coords::parse_column_pos(&mut reader, &mut errors) {
        Coordinates::World(axes) => {
            assert!(!axes[0].relative);
            assert_eq!(axes[0].value.value, Some(Numeral::Written(Span::new(1, 2))));
            assert_eq!(axes[1].value.value, Some(Numeral::Written(Span::new(3, 4))));
        }
        other => panic!("expected world coordinates, got {:?}", other),
    }
    assert_eq!(errors.len(), 1);
    assert!(matches!(errors.get(0), Some(ParseError::MixedCoordinates(_))));
}

#[test]
fn arguments_are_parsed_by_their_category() {
    let mut interner = StaticInterner::new();
    let cases: Vec<(Argument, &str)> = vec![
        (Argument::Bool, "true"),
        (Argument::Integer { min: 0, max: 9 }, "5"),
        (Argument::Float { min: 0, max: 0 }, "5.5"),
        (Argument::Double { min: 0, max: 0 }, "5.5"),
        (Argument::String(StringKind::SingleWord), "word"),
        (Argument::Angle, "~5"),
        (Argument::BlockPos, "1 2 3"),
        (Argument::ColumnPos, "1 2"),
        (Argument::Vec2, "1 2"),
        (Argument::Vec3, "1 2 3"),
        (Argument::Color, "red"),
    ];
    for (kind, text) in cases {
        let mut errors = ErrorList::new();
        let mut reader = Reader::new(text);
        let value = kind.parse(&mut reader, &mut interner, &mut errors).unwrap();
        assert!(errors.is_empty(), "{:?}", kind);
        assert_eq!(reader.get_pos(), text.len(), "{:?}", kind);
        let fits = match (&kind, &value) {
            (Argument::Bool, ArgumentValue::Boolean(_)) => true,
            (Argument::Integer { .. }, ArgumentValue::Integer(_)) => true,
            (Argument::Float { .. }, ArgumentValue::Float(_)) => true,
            (Argument::Double { .. }, ArgumentValue::Double(_)) => true,
            (Argument::String(_), ArgumentValue::String(_)) => true,
            (Argument::Angle, ArgumentValue::Angle(_)) => true,
            (Argument::BlockPos, ArgumentValue::Coordinates3(_)) => true,
            (Argument::Vec3, ArgumentValue::Coordinates3(_)) => true,
            (Argument::ColumnPos, ArgumentValue::Coordinates2(_)) => true,
            (Argument::Vec2, ArgumentValue::Coordinates2(_)) => true,
            (Argument::Color, ArgumentValue::Color(_)) => true,
            _ => false,
        };
        assert!(fits, "{:?} gave {:?}", kind, value);
    }
}

#[test]
fn categories_without_a_parser_step_over_a_word() {
    let mut interner = StaticInterner::new();
    for kind in [
        Argument::NbtPath,
        Argument::Entity { single: true, players_only: false },
        Argument::Resource { registry: "minecraft:item".to_string() },
        Argument::Time { min: 0 },
    ] {
        let mut errors = ErrorList::new();
        let mut reader = Reader::new("@e[type=cow] rest");
        match kind.parse(&mut reader, &mut interner, &mut errors) {
            Err(ParseError::UnsupportedArgument(e)) => assert_eq!(e.span, Span::new(0, 12)),
            other => panic!("expected an unsupported argument, got {:?}", other),
        }
        assert_eq!(reader.get_pos(), 12);
        assert!(errors.is_empty());
        assert_eq!(kind.clone().parse(&mut Reader::new(""), &mut interner, &mut errors).is_err(), true);
    }
}
