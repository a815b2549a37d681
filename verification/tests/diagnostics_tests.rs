use std::sync::Arc;

use dpc_common::diagnostics::{Diagnostic, Label, Level};
use dpc_common::parse::emit::{
    bool_diagnostic, contains_whitespace, invalid_literal_diagnostic, likely_literal, list_items,
    number_diagnostic, sorted_names, str_le, surrounded,
};
use dpc_common::parse::errors::{
    EmitDiagnostic, ErrorList, ExpectedLocalCoordinateError, IncompleteLocalCoordinatesError,
    IndentationError, IndentationErrorKind, InvalidColorError, InvalidLiteralError,
    InvalidStringCharsError, MixedCoordiantesError, ParseBoolError, ParseDoubleError, ParseError,
    ParseFloatError, ParseIntegerError, QuotedSingleWordError, SymbolsExhaustedError,
    TooManyArgumentsError, UnsupportedArgumentError, UnterminatedStringError,
};
use dpc_common::parse::ParseContext;
use dpc_common::source::SourceFile;
use dpc_common::span::Span;
use dpc_common::{BuildNodeId, BuildTree, Node, ParsingTree};

fn schema() -> ParsingTree {
    let mut tree = BuildTree::new();
    for name in ["tellraw", "say", "tell", "teleport", "tp"] {
        tree.insert(BuildNodeId::root(), Node::literal(name));
    }
    tree.into_parsing_tree()
}

fn labels(diagnostic: &Diagnostic) -> Vec<(Span, String)> {
    diagnostic.labels().iter().map(|l| (l.span(), l.message().to_string())).collect()
}

fn notes(diagnostic: &Diagnostic) -> Vec<(Level, String)> {
    diagnostic.sub().iter().map(|s| (s.level(), s.message().to_string())).collect()
}

#[test]
fn diagnostics_are_built_step_by_step() {
    let span = Span::new(2, 5);
    let plain = Diagnostic::new(Level::Info, span, "note this");
    assert_eq!(plain.level(), Level::Info);
    assert_eq!(plain.span(), span);
    assert_eq!(plain.message(), "note this");
    assert!(plain.labels().is_empty());
    assert!(plain.sub().is_empty());
    assert_eq!(Diagnostic::error(span, "bad").level(), Level::Error);
    assert_eq!(Diagnostic::warn(span, "careful").level(), Level::Warn);
    let label = Label::new(Span::new(3, 4), "here");
    assert_eq!(label.span(), Span::new(3, 4));
    assert_eq!(label.message(), "here");
    let full = Diagnostic::error(span, "bad")
        .with_label(label)
        .with_sub(Level::Info, "first")
        .with_help("second")
        .with_label(Label::new(span, "there"));
    assert_eq!(full.message(), "bad");
    assert_eq!(
        labels(&full),
        vec![(Span::new(3, 4), "here".to_string()), (span, "there".to_string())]
    );
    assert_eq!(
        notes(&full),
        vec![(Level::Info, "first".to_string()), (Level::Help, "second".to_string())]
    );
}

#[test]
fn lists_are_joined_with_a_last_delimiter() {
    let items = |names: &[&str]| names.iter().map(|s| s.to_string()).collect::<Vec<String>>();
    assert_eq!(list_items(&items(&[]), ", ", " or "), "");
    assert_eq!(list_items(&items(&["a"]), ", ", " or "), "a");
    assert_eq!(list_items(&items(&["a", "b"]), ", ", " or "), "a or b");
    assert_eq!(list_items(&items(&["a", "b", "c"]), ", ", " or "), "a, b or c");
    assert_eq!(list_items(&items(&["a", "b", "c", "d"]), "; ", " and "), "a; b; c and d");
    assert_eq!(surrounded("`", "say", "`"), "`say`");
    assert_eq!(surrounded("", "", ""), "");
}

#[test]
fn names_are_sorted_byte_by_byte() {
    let names = vec!["tp", "say", "Tell", "", "tell", "sayer", "é", "say", "z"];
    let sorted = sorted_names(&names);
    let mut expected = names.clone();
    expected.sort();
    assert_eq!(sorted, expected);
    assert_eq!(sorted, vec!["", "Tell", "say", "say", "sayer", "tell", "tp", "z", "é"]);
    assert_eq!(sorted_names(&Vec::new()), Vec::<&str>::new());
    for a in &names {
        for b in &names {
            assert_eq!(str_le(a, b), a <= b, "{:?} {:?}", a, b);
        }
    }
}

#[test]
fn the_most_similar_name_is_the_likely_one() {
    let names = vec!["say", "teleport", "tell", "tellraw", "tp"];
    assert_eq!(likely_literal(&names, "tel"), Some(2));
    assert_eq!(likely_literal(&names, "teleprt"), Some(1));
    assert_eq!(likely_literal(&names, "tellraw"), Some(3));
    assert_eq!(likely_literal(&names, "sya"), Some(0));
    assert_eq!(likely_literal(&names, "frobnicate"), None);
    assert_eq!(likely_literal(&names, "sa"), Some(0));
    assert_eq!(likely_literal(&names, "t"), None);
    assert_eq!(likely_literal(&Vec::new(), "say"), None);
    assert_eq!(likely_literal(&vec!["ab", "ac"], "a"), None);
    assert_eq!(likely_literal(&vec!["abcx", "abcy"], "abc"), Some(1));
    assert_eq!(likely_literal(&vec!["abcd", "abc"], "abc"), Some(1));
    assert_eq!(likely_literal(&vec!["abc", "abcd"], "abc"), Some(0));
}

#[test]
fn an_empty_name_is_like_an_empty_input() {
    assert_eq!(likely_literal(&vec!["say", ""], ""), Some(1));
    assert_eq!(likely_literal(&vec!["", "say", ""], ""), Some(2));
    assert_eq!(likely_literal(&vec!["say"], ""), None);
    assert_eq!(likely_literal(&vec![""], "say"), None);
}

#[test]
fn whitespace_is_found_in_texts() {
    assert!(contains_whitespace("a b"));
    assert!(contains_whitespace("a\u{3000}"));
    assert!(contains_whitespace("\n"));
    assert!(!contains_whitespace("a_b"));
    assert!(!contains_whitespace(""));
}

#[test]
fn diagnostics_for_values_name_what_was_expected() {
    let span = Span::new(1, 4);
    let boolean = bool_diagnostic(span, "TRUE", "FALSE");
    assert_eq!(boolean.message(), "Invalid boolean");
    assert_eq!(boolean.level(), Level::Error);
    assert_eq!(labels(&boolean), vec![(span, "Expected either `TRUE` or `FALSE`".to_string())]);
    let number = number_diagnostic(span, "Invalid integer", "Expected an ", "integer");
    assert_eq!(number.message(), "Invalid integer");
    assert_eq!(labels(&number), vec![(span, "Expected an integer".to_string())]);
    let shown = vec!["`a`".to_string(), "`b`".to_string(), "`c`".to_string()];
    let without = invalid_literal_diagnostic(span, &shown, None);
    assert_eq!(without.message(), "Invalid literal");
    assert_eq!(labels(&without), vec![(span, "Expected one of `a`, `b` or `c`".to_string())]);
    assert!(without.sub().is_empty());
    let with = invalid_literal_diagnostic(span, &shown, Some("`b`"));
    assert_eq!(notes(&with), vec![(Level::Help, "Did you mean `b`?".to_string())]);
}

#[test]
fn every_error_has_its_diagnostic() {
    let source = SourceFile::new(None, "tel me more\n".to_string());
    let ctx = ParseContext::new(&source, Arc::new(schema()));
    let span = Span::new(0, 3);
    let simple: Vec<(ParseError, &str, Option<&str>)> = vec![
        (
            ParseError::Indentation(IndentationError { span, kind: IndentationErrorKind::MixedWhitespace }),
            "Indentation error",
            Some("Must only use spaces for indentation"),
        ),
        (
            ParseError::Indentation(IndentationError { span, kind: IndentationErrorKind::InvalidIndentation }),
            "Indentation error",
            Some("Invalid indentation"),
        ),
        (
            ParseError::UnterminatedString(UnterminatedStringError { span }),
            "Unterminated string",
            Some("Missing closing quotation mark"),
        ),
        (
            ParseError::InvalidStringChars(InvalidStringCharsError { span }),
            "Invalid characters in string",
            None,
        ),
        (
            ParseError::QuotedSingleWord(QuotedSingleWordError { span }),
            "Cannot quote single-word strings",
            Some("This string must not be quoted"),
        ),
        (
            ParseError::IncompleteLocalCoordinates(IncompleteLocalCoordinatesError { span }),
            "Incomplete local coordinates",
            None,
        ),
        (
            ParseError::ExpectedLocalCoordinate(ExpectedLocalCoordinateError { span }),
            "Expected local coordinate",
            None,
        ),
        (
            ParseError::MixedCoordinates(MixedCoordiantesError { span }),
            "Cannot mix world and local coordinates",
            None,
        ),
        (
            ParseError::InvalidColor(InvalidColorError { span }),
            "Invalid color",
            Some("Expected the name of a chat color"),
        ),
        (
            ParseError::UnsupportedArgument(UnsupportedArgumentError { span }),
            "Unsupported argument",
            Some("Arguments of this kind cannot be read yet"),
        ),
        (
            ParseError::SymbolsExhausted(SymbolsExhaustedError { span }),
            "Too many different strings",
            None,
        ),
        (
            ParseError::TooManyArguments(TooManyArgumentsError { span: Span::new(4, 11) }),
            "Too many arguments",
            Some("These arguments were not expected"),
        ),
        (
            ParseError::TooManyArguments(TooManyArgumentsError { span: Span::new(7, 11) }),
            "Too many arguments",
            Some("This argument was not expected"),
        ),
    ];
    for (error, title, label) in simple {
        let diagnostic = error.emit(&ctx);
        assert_eq!(diagnostic.level(), Level::Error);
        assert_eq!(diagnostic.span(), error.get_span());
        assert_eq!(diagnostic.message(), title);
        let expected: Vec<(Span, String)> =
            label.iter().map(|l| (error.get_span(), l.to_string())).collect();
        assert_eq!(labels(&diagnostic), expected);
        assert!(diagnostic.sub().is_empty());
    }
    let painted: Vec<(ParseError, &str, Vec<&str>)> = vec![
        (ParseError::ParseBool(ParseBoolError { span }), "Invalid boolean", vec!["Expected either `", "true", "` or `", "false", "`"]),
        (ParseError::ParseDouble(ParseDoubleError { span }), "Invalid double", vec!["Expected a ", "double"]),
        (ParseError::ParseFloat(ParseFloatError { span }), "Invalid float", vec!["Expected a ", "float"]),
        (ParseError::ParseInteger(ParseIntegerError { span }), "Invalid integer", vec!["Expected an ", "integer"]),
    ];
    for (error, title, pieces) in painted {
        let diagnostic = error.emit(&ctx);
        assert_eq!(diagnostic.message(), title);
        let found = labels(&diagnostic);
        assert_eq!(found.len(), 1);
        assert_eq!(found[0].0, span);
        let mut rest = found[0].1.as_str();
        for piece in pieces {
            let at = rest.find(piece).unwrap();
            rest = &rest[at + piece.len()..];
        }
    }
}

#[test]
fn an_invalid_literal_lists_the_literals_and_suggests_one() {
    let source = SourceFile::new(None, "tel me more\nxyzzy\n".to_string());
    let tree = schema();
    let roots = tree.num_roots;
    let ctx = ParseContext::new(&source, Arc::new(tree));
    let error = InvalidLiteralError { span: Span::new(0, 3), valid_literals: 0..roots };
    let diagnostic = error.emit(&ctx);
    assert_eq!(diagnostic.message(), "Invalid literal");
    assert_eq!(diagnostic.span(), Span::new(0, 3));
    let found = labels(&diagnostic);
    assert_eq!(found.len(), 1);
    let mut rest = found[0].1.as_str();
    for piece in ["Expected one of `", "say", "`, `", "teleport", "`, `", "tell", "`, `", "tellraw", "` or `", "tp", "`"] {
        let at = rest.find(piece).unwrap();
        rest = &rest[at + piece.len()..];
    }
    let help = notes(&diagnostic);
    assert_eq!(help.len(), 1);
    assert_eq!(help[0].0, Level::Help);
    assert!(help[0].1.starts_with("Did you mean `"));
    assert!(help[0].1.ends_with("`?"));
    assert!(help[0].1.contains("tell"));
    assert!(!help[0].1.contains("tellraw"));
    let far = InvalidLiteralError { span: Span::new(12, 17), valid_literals: 0..roots };
    assert!(far.emit(&ctx).sub().is_empty());
    let few = InvalidLiteralError { span: Span::new(12, 17), valid_literals: 1..2 };
    let listed = labels(&few.emit(&ctx));
    assert!(listed[0].1.starts_with("Expected one of `"));
    assert!(!listed[0].1.contains(" or "));
    let mut errors = ErrorList::new();
    errors.push(ParseError::InvalidLiteral(far));
    assert_eq!(errors.len(), 1);
    assert!(errors.get(1).is_none());
}
