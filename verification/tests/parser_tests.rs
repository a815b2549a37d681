use std::sync::Arc;

use dpc_common::intern::{Interner, StaticInterner, Symbol};
use dpc_common::parse::argument::{Argument, StringKind};
use dpc_common::parse::cst::{
    walk_angle, walk_argument, walk_block, walk_command, walk_item, Argument as CstArgument,
    ArgumentValue, Block, Command, Item, Visitor,
};
use dpc_common::parse::argument::{
    Angle, Boolean, Color, Coordinates, Double, Float, Integer, Numeral, Text,
};
use dpc_common::parse::errors::{ErrorList, IndentationErrorKind, ParseError};
use dpc_common::parse::{ParseContext, Reader};
use dpc_common::parser::parse_source;
use dpc_common::source::SourceFile;
use dpc_common::span::Span;
use dpc_common::{BuildNodeId, BuildTree, Node, ParsingTree};

fn rich_schema() -> ParsingTree {
    let mut tree = BuildTree::new();
    let root = BuildNodeId::root();
    let say = tree.insert(root, Node::literal("say"));
    tree.insert(say, Node::argument("message", Argument::String(StringKind::GreedyPhrase)).executable());
    let tp = tree.insert(root, Node::literal("tp"));
    tree.insert(tp, Node::argument("x", Argument::BlockPos).executable());
    let execute = tree.insert(root, Node::literal("execute"));
    let run = tree.insert(execute, Node::literal("run"));
    tree.insert(run, Node::block());
    let if_node = tree.insert(execute, Node::literal("if"));
    let flag = tree.insert(if_node, Node::argument("flag", Argument::Bool));
    tree.redirect(flag, execute);
    let set = tree.insert(root, Node::literal("set"));
    tree.insert(set, Node::argument("number", Argument::Integer { min: 0, max: 0 }).executable());
    tree.insert(set, Node::argument("word", Argument::String(StringKind::SingleWord)).executable());
    let pick = tree.insert(root, Node::literal("pick"));
    tree.insert(pick, Node::argument("phrase", Argument::String(StringKind::QuotablePhrase)));
    tree.insert(pick, Node::argument("truth", Argument::Bool));
    let name = tree.insert(root, Node::literal("name"));
    let who = tree.insert(name, Node::argument("who", Argument::String(StringKind::QuotablePhrase)));
    tree.insert(who, Node::argument("age", Argument::Integer { min: 0, max: 0 }).executable());
    let select = tree.insert(root, Node::literal("select"));
    tree.insert(select, Node::argument("target", Argument::Entity { single: true, players_only: false }));
    tree.insert(root, Node::literal("stop").executable());
    assert!(tree.can_lower());
    let lowered = tree.into_parsing_tree();
    assert!(!lowered.has_root_block());
    lowered
}

fn parse_text(text: &str) -> (Result<Block, ParseError>, StaticInterner) {
    let tree = rich_schema();
    let mut interner = StaticInterner::new();
    let block = parse_source(&tree, text, &mut interner);
    (block, interner)
}

fn commands(block: &Block) -> Vec<&Command> {
    block
        .items
        .iter()
        .filter_map(|item| match item {
            Item::Command(c) => Some(c),
            Item::Comment(_) => None,
        })
        .collect()
}

fn names(tree: &ParsingTree, command: &Command) -> Vec<String> {
    command
        .args
        .iter()
        .map(|a| tree.get_node(a.lin_node_id).unwrap().name().to_string())
        .collect()
}

fn check_command(text: &str, start: usize, end: usize, command: &Command) {
    let is_space = |range: std::ops::Range<usize>| text[range].chars().all(char::is_whitespace);
    let mut from = start;
    for argument in &command.args {
        assert!(from <= argument.span.start, "arguments overlap in {:?}", text);
        assert!(argument.span.start <= argument.span.end && argument.span.end <= end);
        assert!(is_space(from..argument.span.start));
        for error in argument.errors.as_slice() {
            assert!(argument.span.contains_span(&error.get_span()));
        }
        if let ArgumentValue::Block(inner) = &argument.value {
            check_block_locality(inner);
        }
        from = argument.span.end;
    }
    match &command.error {
        Some(error) => assert!(from <= error.get_span().start),
        None => assert!(is_space(from..end)),
    }
}

fn check_block_locality(block: &Block) {
    for command in commands(block) {
        let mut last_end = 0;
        for argument in &command.args {
            for error in argument.errors.as_slice() {
                assert!(argument.span.contains_span(&error.get_span()));
            }
            if let ArgumentValue::Block(inner) = &argument.value {
                check_block_locality(inner);
            }
            last_end = argument.span.end;
        }
        if let Some(error) = &command.error {
            assert!(last_end <= error.get_span().start);
        }
    }
}

#[test]
fn comments_and_commands_come_in_source_order() {
    let tree = rich_schema();
    let (block, interner) = parse_text("# first\nsay one\n\n# second\nstop\nsay two\n");
    let block = block.unwrap();
    assert_eq!(block.items.len(), 5);
    assert!(matches!(block.items[0], Item::Comment(span) if span == Span::new(0, 7)));
    assert!(matches!(block.items[2], Item::Comment(span) if span == Span::new(17, 25)));
    let found = commands(&block);
    assert_eq!(names(&tree, found[0]), vec!["say", "message"]);
    assert_eq!(names(&tree, found[1]), vec!["stop"]);
    assert_eq!(names(&tree, found[2]), vec!["say", "message"]);
    assert_eq!(interner.resolve(Symbol(1)), Some("one"));
    assert_eq!(interner.resolve(Symbol(2)), Some("two"));
    assert_eq!(interner.len(), 2);
}

#[test]
fn input_behind_the_last_argument_is_one_too_many() {
    let (block, _) = parse_text("stop now and here  \n");
    let block = block.unwrap();
    let found = commands(&block);
    assert_eq!(found[0].args.len(), 1);
    match &found[0].error {
        Some(ParseError::TooManyArguments(e)) => assert_eq!(e.span, Span::new(5, 17)),
        other => panic!("expected too many arguments, got {:?}", other),
    }
}

#[test]
fn the_candidate_without_errors_is_chosen() {
    let tree = rich_schema();
    let (block, interner) = parse_text("set abc\nset 12\nset a:b\n");
    let block = block.unwrap();
    let found = commands(&block);
    assert_eq!(names(&tree, found[0]), vec!["set", "word"]);
    assert!(found[0].args[1].errors.is_empty());
    assert!(found[0].error.is_none());
    assert_eq!(names(&tree, found[1]), vec!["set", "word"]);
    assert!(matches!(found[1].args[1].value, ArgumentValue::String(_)));
    assert_eq!(names(&tree, found[2]), vec!["set", "word"]);
    assert_eq!(found[2].args[1].errors.len(), 1);
    assert!(matches!(
        found[2].args[1].errors.get(0),
        Some(ParseError::InvalidStringChars(_))
    ));
    assert_eq!(interner.resolve(Symbol(1)), Some("abc"));
    assert_eq!(interner.resolve(Symbol(2)), Some("12"));
    assert_eq!(interner.len(), 2);
}

#[test]
fn an_argument_with_errors_is_chosen_over_an_error() {
    for entity_first in [false, true] {
        let mut build = BuildTree::new();
        let find = build.insert(BuildNodeId::root(), Node::literal("find"));
        let entity = Argument::Entity { single: true, players_only: false };
        if entity_first {
            build.insert(find, Node::argument("target", entity));
            build.insert(find, Node::argument("truth", Argument::Bool));
        } else {
            build.insert(find, Node::argument("truth", Argument::Bool));
            build.insert(find, Node::argument("target", entity));
        }
        let tree = build.into_parsing_tree();
        let mut interner = StaticInterner::new();
        let block = parse_source(&tree, "find maybe\n", &mut interner).unwrap();
        let found = commands(&block);
        assert_eq!(names(&tree, found[0]), vec!["find", "truth"]);
        assert_eq!(found[0].args[1].errors.len(), 1);
        assert!(matches!(found[0].args[1].errors.get(0), Some(ParseError::ParseBool(_))));
        assert!(found[0].error.is_none());
    }
}

#[test]
fn an_open_quote_leaves_an_argument_with_an_error() {
    let tree = rich_schema();
    let (block, interner) = parse_text("pick \"open\npick 'closed'\npick true\nname \"Al 7\n");
    let block = block.unwrap();
    let found = commands(&block);
    assert_eq!(found[0].args.len(), 2);
    assert_eq!(found[0].args[1].errors.len(), 1);
    assert!(found[0].error.is_none());
    assert_eq!(names(&tree, found[1]), vec!["pick", "phrase"]);
    assert!(found[1].args[1].errors.is_empty());
    assert_eq!(names(&tree, found[2]), vec!["pick", "truth"]);
    assert!(matches!(
        found[2].args[1].value,
        ArgumentValue::Boolean(Boolean { value: Some(true) })
    ));
    assert_eq!(names(&tree, found[3]), vec!["name", "who"]);
    assert_eq!(found[3].args[1].span, Span::new(40, 45));
    assert!(matches!(
        found[3].args[1].value,
        ArgumentValue::String(Text { value: None, is_quotable: true })
    ));
    match found[3].args[1].errors.get(0) {
        Some(ParseError::UnterminatedString(e)) => assert_eq!(e.span, Span::new(40, 45)),
        other => panic!("expected an unterminated string, got {:?}", other),
    }
    assert!(found[3].error.is_none());
    assert_eq!(interner.resolve(Symbol(1)), Some("closed"));
    assert_eq!(interner.resolve(Symbol(2)), Some("true"));
    assert_eq!(interner.len(), 2);
}

#[test]
fn a_redirect_goes_on_with_the_children_of_its_target() {
    let tree = rich_schema();
    let (block, _) = parse_text("execute if true if false run say done\n");
    let block = block.unwrap();
    let found = commands(&block);
    assert_eq!(
        names(&tree, found[0]),
        vec!["execute", "if", "flag", "if", "flag", "run", "{BLOCK}"]
    );
    assert!(found[0].error.is_none());
    let inner = match &found[0].args[6].value {
        ArgumentValue::Block(inner) => inner,
        other => panic!("expected a block, got {:?}", other),
    };
    assert_eq!(found[0].args[6].span, Span::new(29, 37));
    let said = commands(inner);
    assert_eq!(said.len(), 1);
    assert_eq!(names(&tree, said[0]), vec!["say", "message"]);
    assert_eq!(said[0].args[0].span, Span::new(29, 32));
}

#[test]
fn a_block_may_nest_blocks() {
    let tree = rich_schema();
    let text = "execute run\n  execute run\n    say deep\n    stop\n  say shallow\nstop\n";
    let (block, _) = parse_text(text);
    let block = block.unwrap();
    let found = commands(&block);
    assert_eq!(found.len(), 2);
    assert_eq!(names(&tree, found[1]), vec!["stop"]);
    let outer = match &found[0].args[2].value {
        ArgumentValue::Block(inner) => commands(inner),
        other => panic!("expected a block, got {:?}", other),
    };
    assert_eq!(outer.len(), 2);
    assert_eq!(names(&tree, outer[1]), vec!["say", "message"]);
    let inner = match &outer[0].args[2].value {
        ArgumentValue::Block(inner) => commands(inner),
        other => panic!("expected a block, got {:?}", other),
    };
    assert_eq!(inner.len(), 2);
    assert_eq!(names(&tree, inner[0]), vec!["say", "message"]);
    assert_eq!(names(&tree, inner[1]), vec!["stop"]);
    assert_eq!(inner[1].args[0].span, Span::new(43, 47));
}

#[test]
fn bad_indentation_inside_a_block_ends_the_command() {
    let (block, _) = parse_text("execute run\n  say a\n\tsay b\nstop\n");
    match block {
        Err(ParseError::Indentation(e)) => {
            assert_eq!(e.kind, IndentationErrorKind::MixedWhitespace);
            assert_eq!(e.span, Span::new(20, 26));
        }
        other => panic!("expected an indentation error, got {:?}", other),
    }
    let (block, _) = parse_text("execute run\n    say a\n  say b\nstop\n");
    let block = block.unwrap();
    let found = commands(&block);
    assert_eq!(found.len(), 2);
    assert_eq!(found[0].args.len(), 2);
    match &found[0].error {
        Some(ParseError::Indentation(e)) => {
            assert_eq!(e.kind, IndentationErrorKind::InvalidIndentation);
            assert_eq!(e.span, Span::new(22, 29));
        }
        other => panic!("expected an indentation error, got {:?}", other),
    }
}

#[test]
fn an_argument_may_follow_a_quote_directly() {
    let tree = rich_schema();
    let (block, interner) = parse_text("name \"Al\"7\nname 'Bo' 8\n");
    let block = block.unwrap();
    let found = commands(&block);
    assert_eq!(names(&tree, found[0]), vec!["name", "who", "age"]);
    assert_eq!(found[0].args[1].span, Span::new(5, 9));
    assert_eq!(found[0].args[2].span, Span::new(9, 10));
    assert!(matches!(
        found[0].args[2].value,
        ArgumentValue::Integer(Integer { value: Some(7) })
    ));
    assert_eq!(names(&tree, found[1]), vec!["name", "who", "age"]);
    assert_eq!(interner.resolve(Symbol(1)), Some("Al"));
    assert_eq!(interner.resolve(Symbol(2)), Some("Bo"));
}

#[test]
fn a_category_without_a_parser_ends_the_command() {
    let (block, _) = parse_text("select @e[type=cow] more\n");
    let block = block.unwrap();
    let found = commands(&block);
    assert_eq!(found[0].args.len(), 1);
    match &found[0].error {
        Some(ParseError::UnsupportedArgument(e)) => assert_eq!(e.span, Span::new(7, 19)),
        other => panic!("expected an unsupported argument, got {:?}", other),
    }
}

#[test]
fn errors_lie_where_they_belong_and_arguments_cover_the_command() {
    let tree = rich_schema();
    let texts = [
        "say hello world",
        "  say   spaced   out  ",
        "tp 1 2 3",
        "tp ~ ^ 3",
        "tp 1",
        "tp ^1 ~2 x",
        "tp 1.5 a",
        "set a:b",
        "set",
        "stop now",
        "frobnicate the thing",
        "pick \"open",
        "pick 'a b' c",
        "name \"Al\"7 8",
        "execute if maybe run say x",
        "execute run say x",
        "execute run\n  say a\n  tp 1\n  bogus\n",
        "execute run\n    say a\n  say b",
        "select @e",
        "sày €",
    ];
    for text in texts {
        let mut interner = StaticInterner::new();
        if let Some(command) = tree.parse_command(Reader::new(text), &mut interner) {
            check_command(text, 0, text.len(), &command);
        } else {
            panic!("no command in {:?}", text);
        }
    }
    let mut interner = StaticInterner::new();
    assert!(tree.parse_command(Reader::new("  \n "), &mut interner).is_none());
    assert!(tree.parse_children(Reader::new(""), 0..tree.num_roots, &mut interner).is_none());
}

#[test]
fn nothing_is_read_where_only_whitespace_is_left() {
    let tree = rich_schema();
    let mut interner = StaticInterner::new();
    let count = tree.nodes.len();
    for text in ["", " ", "  \n ", "run  \n\t "] {
        let start = if text.starts_with("run") { 3 } else { 0 };
        for range in [0..0, 0..tree.num_roots, 0..count, count..count, 3..1] {
            let reader = Reader::with_pos(text, start);
            assert!(tree.parse_children(reader, range, &mut interner).is_none());
        }
        for i in 0..count {
            let range = tree.nodes[i].children.clone();
            let reader = Reader::with_pos(text, start);
            assert!(tree.parse_children(reader, range, &mut interner).is_none());
        }
    }
    assert_eq!(interner.len(), 0);
}

#[test]
fn parse_commands_reads_a_block_at_its_indentation() {
    let tree = rich_schema();
    let mut interner = StaticInterner::new();
    let text = "x\n  say a\n  stop\n";
    let block = tree.parse_commands(Reader::with_pos(text, 2), 2, &mut interner).unwrap();
    let found = commands(&block);
    assert_eq!(found.len(), 2);
    assert_eq!(names(&tree, found[0]), vec!["say", "message"]);
    assert_eq!(found[0].args[0].span, Span::new(4, 7));
    assert_eq!(names(&tree, found[1]), vec!["stop"]);
    assert!(tree.parse_commands(Reader::with_pos(text, 2), 0, &mut interner).is_err());
}

#[test]
fn a_context_parses_its_source_with_its_own_interner() {
    let source = SourceFile::new(None, "say a\nsay b\nsay a\n".to_string());
    let tree = Arc::new(rich_schema());
    let mut ctx = ParseContext::new(&source, Arc::clone(&tree));
    let block = ctx.parse().unwrap();
    assert_eq!(commands(&block).len(), 3);
    assert_eq!(ctx.interner.len(), 2);
    let again = tree.parse(&mut ctx).unwrap();
    assert_eq!(commands(&again).len(), 3);
    assert_eq!(ctx.interner.len(), 2);
    let symbols: Vec<Option<Symbol>> = commands(&again)
        .iter()
        .map(|c| match &c.args[1].value {
            ArgumentValue::String(t) => t.value,
            _ => None,
        })
        .collect();
    assert_eq!(symbols, vec![Some(Symbol(1)), Some(Symbol(2)), Some(Symbol(1))]);
}

struct Recorder {
    seen: Vec<String>,
}

impl Visitor for Recorder {
    fn visit_comment(&mut self, comment: &Span) {
        self.seen.push(format!("comment {}..{}", comment.start, comment.end));
    }
    fn visit_boolean(&mut self, boolean: &Boolean) {
        self.seen.push(format!("boolean {:?}", boolean.value));
    }
    fn visit_integer(&mut self, integer: &Integer) {
        self.seen.push(format!("integer {:?}", integer.value));
    }
    fn visit_float(&mut self, float: &Float) {
        self.seen.push(format!("float {:?}", float.value));
    }
    fn visit_double(&mut self, double: &Double) {
        self.seen.push(format!("double {:?}", double.value));
    }
    fn visit_string(&mut self, string: &Text) {
        self.seen.push(format!("string {:?}", string.value.map(|s| s.get())));
    }
    fn visit_angle(&mut self, angle: &Angle) {
        self.seen.push(format!("angle {}", angle.relative));
    }
    fn visit_coordinates2(&mut self, _coordinates: &Coordinates<2>) {
        self.seen.push("coordinates2".to_string());
    }
    fn visit_coordinates3(&mut self, _coordinates: &Coordinates<3>) {
        self.seen.push("coordinates3".to_string());
    }
    fn visit_color(&mut self, color: &Color) {
        self.seen.push(format!("color {:?}", color.color));
    }
    fn visit_parse_error(&mut self, error: &ParseError) {
        let span = error.get_span();
        self.seen.push(format!("error {}..{}", span.start, span.end));
    }
}

#[test]
fn a_visitor_is_shown_values_and_errors_in_order() {
    let text = "# note\nset 12\ntp 1\nexecute run\n  pick maybe\n  frobnicate\nstop now\n";
    let (block, _) = parse_text(text);
    let block = block.unwrap();
    let mut recorder = Recorder { seen: Vec::new() };
    walk_block(&mut recorder, &block);
    assert_eq!(
        recorder.seen,
        vec![
            "comment 0..6",
            "string Some(1)",
            "coordinates3",
            "error 17..18",
            "string Some(2)",
            "error 46..56",
            "error 62..65",
        ]
    );
    let mut single = Recorder { seen: Vec::new() };
    walk_item(&mut single, &block.items[0]);
    assert_eq!(single.seen, vec!["comment 0..6"]);
    let command = match &block.items[2] {
        Item::Command(c) => c,
        Item::Comment(_) => panic!("expected a command"),
    };
    let mut of_command = Recorder { seen: Vec::new() };
    walk_command(&mut of_command, command);
    assert_eq!(of_command.seen, vec!["coordinates3", "error 17..18"]);
    let mut of_argument = Recorder { seen: Vec::new() };
    walk_argument(&mut of_argument, &command.args[0]);
    assert!(of_argument.seen.is_empty());
    let argument = CstArgument {
        span: Span::new(0, 0),
        lin_node_id: 0,
        value: ArgumentValue::Double(Double::new(Numeral::Integer(3))),
        errors: ErrorList::new(),
    };
    assert!(!argument.has_errors());
    walk_argument(&mut of_argument, &argument);
    assert_eq!(of_argument.seen, vec!["double Some(Integer(3))"]);
    let mut of_angle = Recorder { seen: Vec::new() };
    walk_angle(&mut of_angle, &Angle { value: Float::zero(), relative: true });
    assert_eq!(of_angle.seen, vec!["float Some(Zero)"]);
}
