use std::sync::Arc;

use dpc_common::intern::Interner;
use dpc_common::parse::argument::{Argument, Coordinates, Numeral, StringKind};
use dpc_common::parse::cst::{ArgumentValue, Block, Command, Item};
use dpc_common::parse::errors::ParseError;
use dpc_common::parse::ParseContext;
use dpc_common::source::SourceFile;
use dpc_common::span::Span;
use dpc_common::{BuildNodeId, BuildTree, Node, ParsingTree};

fn schema(message: StringKind) -> ParsingTree {
    let mut tree = BuildTree::new();
    let say = tree.insert(BuildNodeId::root(), Node::literal("say"));
    tree.insert(say, Node::argument("message", Argument::String(message)).executable());
    let tp = tree.insert(BuildNodeId::root(), Node::literal("tp"));
    tree.insert(tp, Node::argument("x", Argument::BlockPos).executable());
    let execute = tree.insert(BuildNodeId::root(), Node::literal("execute"));
    let run = tree.insert(execute, Node::literal("run"));
    tree.insert(run, Node::block());
    tree.into_parsing_tree()
}

fn parse(tree: ParsingTree, text: &str) -> (Result<Block, ParseError>, Vec<String>) {
    let source = SourceFile::new(None, text.to_string());
    let mut ctx = ParseContext::new(&source, Arc::new(tree));
    let block = ctx.parse();
    let mut strings = Vec::new();
    let mut id = 1;
    while let Some(s) = ctx.interner.resolve(dpc_common::intern::Symbol(id)) {
        strings.push(s.to_string());
        id += 1;
    }
    (block, strings)
}

fn only_command(block: &Block) -> &Command {
    assert_eq!(block.items.len(), 1);
    match &block.items[0] {
        Item::Command(command) => command,
        Item::Comment(_) => panic!("expected a command"),
    }
}

fn node_name(tree: &ParsingTree, idx: usize) -> String {
    tree.get_node(idx).unwrap().name().to_string()
}

#[test]
fn say_takes_the_rest_of_the_line() {
    let tree = schema(StringKind::GreedyPhrase);
    let (block, strings) = parse(schema(StringKind::GreedyPhrase), "say hello world\n");
    let block = block.unwrap();
    let command = only_command(&block);
    assert!(command.error.is_none());
    assert_eq!(command.args.len(), 2);
    assert!(matches!(command.args[0].value, ArgumentValue::Literal));
    assert_eq!(command.args[0].span, Span::new(0, 3));
    assert_eq!(node_name(&tree, command.args[0].lin_node_id), "say");
    assert!(command.args[0].errors.is_empty());
    match &command.args[1].value {
        ArgumentValue::String(text) => {
            assert!(!text.is_quotable);
            let symbol = text.value.unwrap();
            assert_eq!(strings[symbol.get() as usize - 1], "hello world");
        }
        other => panic!("expected a string, got {:?}", other),
    }
    assert_eq!(command.args[1].span, Span::new(4, 15));
    assert!(command.args[1].errors.is_empty());
    assert_eq!(strings, vec!["hello world".to_string()]);
}

#[test]
fn tp_reads_three_absolute_block_coordinates() {
    let (block, _) = parse(schema(StringKind::GreedyPhrase), "tp 1 2 3\n");
    let block = block.unwrap();
    let command = only_command(&block);
    assert!(command.error.is_none());
    assert_eq!(command.args.len(), 2);
    assert!(matches!(command.args[0].value, ArgumentValue::Literal));
    match &command.args[1].value {
        ArgumentValue::Coordinates3(Coordinates::World(axes)) => {
            for (axis, expected) in axes.iter().zip([1, 2, 3]) {
                assert_eq!(axis.value.value, Some(Numeral::Integer(expected)));
                assert!(!axis.relative);
            }
        }
        other => panic!("expected world coordinates, got {:?}", other),
    }
    assert!(command.args[1].errors.is_empty());
    assert_eq!(command.args[1].span, Span::new(3, 8));
}

#[test]
fn tp_reports_a_local_mark_among_world_coordinates() {
    let (block, _) = parse(schema(StringKind::GreedyPhrase), "tp ~ ^ 3\n");
    let block = block.unwrap();
    let command = only_command(&block);
    assert_eq!(command.args.len(), 2);
    let argument = &command.args[1];
    match &argument.value {
        ArgumentValue::Coordinates3(Coordinates::World(axes)) => {
            assert!(axes[0].relative);
            assert_eq!(axes[0].value.value, Some(Numeral::Zero));
            assert!(!axes[1].relative);
            assert!(!axes[2].relative);
            assert_eq!(axes[2].value.value, Some(Numeral::Integer(3)));
        }
        other => panic!("expected world coordinates, got {:?}", other),
    }
    let mixed: Vec<&ParseError> = argument
        .errors
        .as_slice()
        .iter()
        .filter(|e| matches!(e, ParseError::MixedCoordinates(_)))
        .collect();
    assert_eq!(mixed.len(), 1);
    assert_eq!(mixed[0].get_span(), Span::new(5, 6));
}

#[test]
fn tp_reports_coordinates_cut_short() {
    let (block, _) = parse(schema(StringKind::GreedyPhrase), "tp 1\n");
    let block = block.unwrap();
    let command = only_command(&block);
    assert_eq!(command.args.len(), 2);
    let argument = &command.args[1];
    match &argument.value {
        ArgumentValue::Coordinates3(Coordinates::World(axes)) => {
            assert_eq!(axes[0].value.value, Some(Numeral::Integer(1)));
            assert_eq!(axes[1].value.value, Some(Numeral::Zero));
            assert!(!axes[1].relative);
            assert_eq!(axes[2].value.value, Some(Numeral::Zero));
            assert!(!axes[2].relative);
        }
        other => panic!("expected world coordinates, got {:?}", other),
    }
    assert_eq!(argument.errors.len(), 1);
    match argument.errors.get(0).unwrap() {
        ParseError::IncompleteLocalCoordinates(e) => assert_eq!(e.span, Span::new(3, 4)),
        other => panic!("expected incomplete coordinates, got {:?}", other),
    }
}

#[test]
fn execute_run_takes_an_indented_block() {
    let tree = schema(StringKind::GreedyPhrase);
    let text = "execute run\n  say a\n  say b\n";
    let (block, strings) = parse(schema(StringKind::GreedyPhrase), text);
    let block = block.unwrap();
    let command = only_command(&block);
    assert!(command.error.is_none());
    assert_eq!(command.args.len(), 3);
    assert_eq!(node_name(&tree, command.args[0].lin_node_id), "execute");
    assert_eq!(node_name(&tree, command.args[1].lin_node_id), "run");
    assert_eq!(command.args[0].span, Span::new(0, 7));
    assert_eq!(command.args[1].span, Span::new(8, 11));
    let inner = match &command.args[2].value {
        ArgumentValue::Block(inner) => inner,
        other => panic!("expected a block, got {:?}", other),
    };
    assert_eq!(command.args[2].span, Span::new(12, 27));
    assert_eq!(inner.items.len(), 2);
    let mut said = Vec::new();
    for item in &inner.items {
        match item {
            Item::Command(c) => {
                assert!(c.error.is_none());
                assert_eq!(c.args.len(), 2);
                assert_eq!(node_name(&tree, c.args[0].lin_node_id), "say");
                match &c.args[1].value {
                    ArgumentValue::String(t) => {
                        said.push(strings[t.value.unwrap().get() as usize - 1].clone())
                    }
                    other => panic!("expected a string, got {:?}", other),
                }
            }
            Item::Comment(_) => panic!("expected a command"),
        }
    }
    assert_eq!(said, vec!["a".to_string(), "b".to_string()]);
}

#[test]
fn an_open_quote_marks_the_string_argument() {
    for kind in [StringKind::QuotablePhrase, StringKind::SingleWord] {
        let tree = schema(kind);
        let (block, strings) = parse(schema(kind), "say \"open\n");
        let block = block.unwrap();
        let command = only_command(&block);
        assert!(command.error.is_none());
        assert_eq!(command.args.len(), 2);
        assert!(matches!(command.args[0].value, ArgumentValue::Literal));
        assert_eq!(node_name(&tree, command.args[0].lin_node_id), "say");
        assert_eq!(command.args[1].span, Span::new(4, 9));
        assert_eq!(node_name(&tree, command.args[1].lin_node_id), "message");
        match &command.args[1].value {
            ArgumentValue::String(text) => {
                assert_eq!(text.value, None);
                assert!(text.is_quotable);
            }
            other => panic!("expected a string, got {:?}", other),
        }
        let errors = command.args[1].errors.as_slice();
        assert_eq!(errors.len(), 1);
        match &errors[0] {
            ParseError::UnterminatedString(e) => assert_eq!(e.span, Span::new(4, 9)),
            other => panic!("expected an unterminated string, got {:?}", other),
        }
        assert!(strings.is_empty());
    }
}

#[test]
fn a_greedy_phrase_takes_an_open_quote_as_text() {
    let (block, strings) = parse(schema(StringKind::GreedyPhrase), "say \"open\n");
    let block = block.unwrap();
    let command = only_command(&block);
    assert!(command.error.is_none());
    assert_eq!(command.args.len(), 2);
    assert!(command.args[1].errors.is_empty());
    assert_eq!(strings, vec!["\"open".to_string()]);
}

#[test]
fn an_unknown_word_is_an_invalid_literal() {
    let mut build = BuildTree::new();
    build.insert(BuildNodeId::root(), Node::literal("say"));
    build.insert(BuildNodeId::root(), Node::literal("tp"));
    let tree = build.into_parsing_tree();
    assert_eq!(tree.num_roots, 2);
    let (block, _) = parse(tree, "frobnicate\n");
    let block = block.unwrap();
    let command = only_command(&block);
    assert!(command.args.is_empty());
    match &command.error {
        Some(ParseError::InvalidLiteral(e)) => {
            assert_eq!(e.span, Span::new(0, 10));
            assert_eq!(e.valid_literals, 0..2);
        }
        other => panic!("expected an invalid literal, got {:?}", other),
    }
}
