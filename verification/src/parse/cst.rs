//! The concrete syntax tree of a command script.

use super::argument::coords::CoordinatesView;
use super::argument::{Angle, Boolean, Color, Coordinates, Double, Float, Integer, Text};
use super::errors::{ErrorList, ParseError};
use crate::span::Span;
use vstd::prelude::*;

verus! {

/// A command or a comment.
#[derive(Debug)]
pub enum Item {
    Command(Command),
    Comment(Span),
}

/// A command: the arguments that were read, and the error that ended the
/// command early, if one did.
#[derive(Debug)]
pub struct Command {
    pub args: Vec<Argument>,
    pub error: Option<ParseError>,
}

/// One argument of a command: where it stands, the schema node it was read
/// against, its value, and the errors found in it.
#[derive(Debug)]
pub struct Argument {
    pub span: Span,
    pub lin_node_id: usize,
    pub value: ArgumentValue,
    pub errors: ErrorList,
}

/// The value of an argument.
#[derive(Debug)]
pub enum ArgumentValue {
    Literal,
    Block(Block),
    Boolean(Boolean),
    Integer(Integer),
    Float(Float),
    Double(Double),
    String(Text),
    Angle(Angle),
    Coordinates2(Coordinates<2>),
    Coordinates3(Coordinates<3>),
    Color(Color),
}

/// A sequence of commands and comments.
#[derive(Debug)]
pub struct Block {
    pub items: Vec<Item>,
}

/// What an [`Item`] holds.
pub enum ItemView {
    Command(CommandView),
    Comment(Span),
}

/// What a [`Command`] holds.
pub struct CommandView {
    pub args: Seq<ArgumentView>,
    pub error: Option<ParseError>,
}

/// What an [`Argument`] holds.
pub struct ArgumentView {
    pub span: Span,
    pub lin_node_id: usize,
    pub value: ValueView,
    pub errors: Seq<ParseError>,
}

/// What an [`ArgumentValue`] holds.
pub enum ValueView {
    Literal,
    Block(BlockView),
    Boolean(Boolean),
    Integer(Integer),
    Float(Float),
    Double(Double),
    String(Text),
    Angle(Angle),
    Coordinates2(CoordinatesView),
    Coordinates3(CoordinatesView),
    Color(Color),
}

/// What a [`Block`] holds.
pub struct BlockView {
    pub items: Seq<ItemView>,
}

impl View for Item {
    type V = ItemView;

    open spec fn view(&self) -> ItemView
        decreases self,
    {
        match *self {
            Item::Command(command) => ItemView::Command(command.view()),
            Item::Comment(span) => ItemView::Comment(span),
        }
    }
}

impl View for Command {
    type V = CommandView;

    open spec fn view(&self) -> CommandView
        decreases self,
    {
        CommandView {
            args: Seq::new(
                self.args@.len(),
                |i: int|
                    if 0 <= i < self.args@.len() {
                        self.args@[i].view()
                    } else {
                        arbitrary()
                    },
            ),
            error: self.error,
        }
    }
}

impl View for Argument {
    type V = ArgumentView;

    open spec fn view(&self) -> ArgumentView
        decreases self,
    {
        ArgumentView {
            span: self.span,
            lin_node_id: self.lin_node_id,
            value: self.value.view(),
            errors: self.errors@,
        }
    }
}

impl View for ArgumentValue {
    type V = ValueView;

    open spec fn view(&self) -> ValueView
        decreases self,
    {
        match *self {
            ArgumentValue::Literal => ValueView::Literal,
            ArgumentValue::Block(block) => ValueView::Block(block.view()),
            ArgumentValue::Boolean(v) => ValueView::Boolean(v),
            ArgumentValue::Integer(v) => ValueView::Integer(v),
            ArgumentValue::Float(v) => ValueView::Float(v),
            ArgumentValue::Double(v) => ValueView::Double(v),
            ArgumentValue::String(v) => ValueView::String(v),
            ArgumentValue::Angle(v) => ValueView::Angle(v),
            ArgumentValue::Coordinates2(v) => ValueView::Coordinates2(v@),
            ArgumentValue::Coordinates3(v) => ValueView::Coordinates3(v@),
            ArgumentValue::Color(v) => ValueView::Color(v),
        }
    }
}

impl View for Block {
    type V = BlockView;

    open spec fn view(&self) -> BlockView
        decreases self,
    {
        BlockView {
            items: Seq::new(
                self.items@.len(),
                |i: int|
                    if 0 <= i < self.items@.len() {
                        self.items@[i].view()
                    } else {
                        arbitrary()
                    },
            ),
        }
    }
}

impl Argument {
    /// Whether errors were found in the argument.
    pub fn has_errors(&self) -> (r: bool)
        ensures
            r == (self@.errors.len() > 0),
    {
        !self.errors.is_empty()
    }
}

/// What a visitor is shown, in the order in which it is shown.
pub enum VisitEvent {
    Comment(Span),
    Boolean(Boolean),
    Integer(Integer),
    Float(Float),
    Double(Double),
    String(Text),
    Angle(Angle),
    Coordinates2(CoordinatesView),
    Coordinates3(CoordinatesView),
    Color(Color),
    Error(ParseError),
}

/// What a visitor is shown of a sequence of errors.
pub open spec fn error_events(errors: Seq<ParseError>) -> Seq<VisitEvent> {
    Seq::new(errors.len(), |i: int| VisitEvent::Error(errors[i]))
}

/// What a visitor is shown of an argument: its value, where it is more
/// than a literal, then its errors. Of a block it is shown the items.
pub open spec fn argument_events(a: ArgumentView) -> Seq<VisitEvent>
    decreases a,
{
    (match a.value {
        ValueView::Literal => Seq::empty(),
        ValueView::Block(block) => block_events(block, block.items.len()),
        ValueView::Boolean(v) => seq![VisitEvent::Boolean(v)],
        ValueView::Integer(v) => seq![VisitEvent::Integer(v)],
        ValueView::Float(v) => seq![VisitEvent::Float(v)],
        ValueView::Double(v) => seq![VisitEvent::Double(v)],
        ValueView::String(v) => seq![VisitEvent::String(v)],
        ValueView::Angle(v) => seq![VisitEvent::Angle(v)],
        ValueView::Coordinates2(v) => seq![VisitEvent::Coordinates2(v)],
        ValueView::Coordinates3(v) => seq![VisitEvent::Coordinates3(v)],
        ValueView::Color(v) => seq![VisitEvent::Color(v)],
    }) + error_events(a.errors)
}

/// What a visitor is shown of the first `n` arguments of a command.
pub open spec fn arguments_events(c: CommandView, n: nat) -> Seq<VisitEvent>
    decreases c, n,
{
    if n == 0 || n > c.args.len() {
        Seq::empty()
    } else {
        arguments_events(c, (n - 1) as nat) + argument_events(c.args[n - 1])
    }
}

/// What a visitor is shown of a command: its arguments, then its error.
pub open spec fn command_events(c: CommandView) -> Seq<VisitEvent>
    decreases c, c.args.len() + 1,
{
    arguments_events(c, c.args.len()) + (match c.error {
        Some(e) => seq![VisitEvent::Error(e)],
        None => Seq::empty(),
    })
}

/// What a visitor is shown of an item.
pub open spec fn item_events(item: ItemView) -> Seq<VisitEvent>
    decreases item,
{
    match item {
        ItemView::Command(c) => command_events(c),
        ItemView::Comment(span) => seq![VisitEvent::Comment(span)],
    }
}

/// What a visitor is shown of the first `n` items of a block.
pub open spec fn block_events(block: BlockView, n: nat) -> Seq<VisitEvent>
    decreases block, n,
{
    if n == 0 || n > block.items.len() {
        Seq::empty()
    } else {
        block_events(block, (n - 1) as nat) + item_events(block.items[n - 1])
    }
}

/// A visitor of syntax trees: it is shown the comments, the values and
/// the errors of a tree, and keeps account of what it was shown.
pub trait Visitor: Sized {
    /// What the visitor was shown so far, for a visitor that keeps account.
    open spec fn seen(&self) -> Seq<VisitEvent> {
        Seq::empty()
    }

    fn visit_comment(&mut self, comment: &Span)
        ensures
            final(self).seen() == old(self).seen().push(VisitEvent::Comment(*comment)),
    ;

    fn visit_boolean(&mut self, boolean: &Boolean)
        ensures
            final(self).seen() == old(self).seen().push(VisitEvent::Boolean(*boolean)),
    ;

    fn visit_integer(&mut self, integer: &Integer)
        ensures
            final(self).seen() == old(self).seen().push(VisitEvent::Integer(*integer)),
    ;

    fn visit_float(&mut self, float: &Float)
        ensures
            final(self).seen() == old(self).seen().push(VisitEvent::Float(*float)),
    ;

    fn visit_double(&mut self, double: &Double)
        ensures
            final(self).seen() == old(self).seen().push(VisitEvent::Double(*double)),
    ;

    fn visit_string(&mut self, string: &Text)
        ensures
            final(self).seen() == old(self).seen().push(VisitEvent::String(*string)),
    ;

    fn visit_angle(&mut self, angle: &Angle)
        ensures
            final(self).seen() == old(self).seen().push(VisitEvent::Angle(*angle)),
    ;

    fn visit_coordinates2(&mut self, coordinates: &Coordinates<2>)
        ensures
            final(self).seen() == old(self).seen().push(VisitEvent::Coordinates2(coordinates@)),
    ;

    fn visit_coordinates3(&mut self, coordinates: &Coordinates<3>)
        ensures
            final(self).seen() == old(self).seen().push(VisitEvent::Coordinates3(coordinates@)),
    ;

    fn visit_color(&mut self, color: &Color)
        ensures
            final(self).seen() == old(self).seen().push(VisitEvent::Color(*color)),
    ;

    fn visit_parse_error(&mut self, error: &ParseError)
        ensures
            final(self).seen() == old(self).seen().push(VisitEvent::Error(*error)),
    ;
}

/// Shows `visitor` the item.
pub fn walk_item<V: Visitor>(visitor: &mut V, item: &Item)
    ensures
        final(visitor).seen() == old(visitor).seen() + item_events(item@),
    decreases item,
{
    match item {
        Item::Command(command) => walk_command(visitor, command),
        Item::Comment(comment) => {
            visitor.visit_comment(comment);
            proof {
                assert(old(visitor).seen().push(VisitEvent::Comment(*comment)) =~= old(
                    visitor,
                ).seen() + item_events(item@));
            }
        },
    }
}

/// Shows `visitor` the arguments of the command, then its error.
pub fn walk_command<V: Visitor>(visitor: &mut V, command: &Command)
    ensures
        final(visitor).seen() == old(visitor).seen() + command_events(command@),
    decreases command,
{
    let ghost view = command@;
    let mut i: usize = 0;
    proof {
        assert(old(visitor).seen() + arguments_events(view, 0) =~= old(visitor).seen());
    }
    while i < command.args.len()
        invariant
            i <= command.args@.len(),
            view == command@,
            view.args.len() == command.args@.len(),
            visitor.seen() == old(visitor).seen() + arguments_events(view, i as nat),
        decreases command.args@.len() - i,
    {
        let ghost before = visitor.seen();
        walk_argument(visitor, &command.args[i]);
        proof {
            assert(view.args[i as int] == command.args@[i as int]@);
            assert(before + argument_events(view.args[i as int]) =~= old(visitor).seen()
                + arguments_events(view, (i + 1) as nat));
        }
        i += 1;
    }
    let ghost before = visitor.seen();
    match &command.error {
        Some(error) => {
            visitor.visit_parse_error(error);
            proof {
                assert(before.push(VisitEvent::Error(*error)) =~= old(visitor).seen()
                    + command_events(view));
            }
        },
        None => {
            proof {
                assert(before =~= old(visitor).seen() + command_events(view));
            }
        },
    }
}

/// Shows `visitor` the value of the argument, then its errors.
pub fn walk_argument<V: Visitor>(visitor: &mut V, argument: &Argument)
    ensures
        final(visitor).seen() == old(visitor).seen() + argument_events(argument@),
    decreases argument,
{
    let ghost start = visitor.seen();
    match &argument.value {
        ArgumentValue::Literal => {
            proof {
                assert(start + Seq::<VisitEvent>::empty() =~= start);
            }
        },
        ArgumentValue::Block(block) => walk_block(visitor, block),
        ArgumentValue::Boolean(v) => {
            visitor.visit_boolean(v);
            proof {
                assert(start.push(VisitEvent::Boolean(*v)) =~= start + seq![VisitEvent::Boolean(*v)]);
            }
        },
        ArgumentValue::Integer(v) => {
            visitor.visit_integer(v);
            proof {
                assert(start.push(VisitEvent::Integer(*v)) =~= start + seq![VisitEvent::Integer(*v)]);
            }
        },
        ArgumentValue::Float(v) => {
            visitor.visit_float(v);
            proof {
                assert(start.push(VisitEvent::Float(*v)) =~= start + seq![VisitEvent::Float(*v)]);
            }
        },
        ArgumentValue::Double(v) => {
            visitor.visit_double(v);
            proof {
                assert(start.push(VisitEvent::Double(*v)) =~= start + seq![VisitEvent::Double(*v)]);
            }
        },
        ArgumentValue::String(v) => {
            visitor.visit_string(v);
            proof {
                assert(start.push(VisitEvent::String(*v)) =~= start + seq![VisitEvent::String(*v)]);
            }
        },
        ArgumentValue::Angle(v) => {
            visitor.visit_angle(v);
            proof {
                assert(start.push(VisitEvent::Angle(*v)) =~= start + seq![VisitEvent::Angle(*v)]);
            }
        },
        ArgumentValue::Coordinates2(v) => {
            visitor.visit_coordinates2(v);
            proof {
                assert(start.push(VisitEvent::Coordinates2(v@)) =~= start + seq![
                    VisitEvent::Coordinates2(v@),
                ]);
            }
        },
        ArgumentValue::Coordinates3(v) => {
            visitor.visit_coordinates3(v);
            proof {
                assert(start.push(VisitEvent::Coordinates3(v@)) =~= start + seq![
                    VisitEvent::Coordinates3(v@),
                ]);
            }
        },
        ArgumentValue::Color(v) => {
            visitor.visit_color(v);
            proof {
                assert(start.push(VisitEvent::Color(*v)) =~= start + seq![VisitEvent::Color(*v)]);
            }
        },
    }
    let ghost valued = visitor.seen();
    let errors = argument.errors.as_slice();
    let mut i: usize = 0;
    proof {
        assert(error_events(errors@.subrange(0, 0)) =~= Seq::<VisitEvent>::empty());
        assert(valued + Seq::<VisitEvent>::empty() =~= valued);
    }
    while i < errors.len()
        invariant
            i <= errors@.len(),
            visitor.seen() == valued + error_events(errors@.subrange(0, i as int)),
        decreases errors@.len() - i,
    {
        let ghost before = visitor.seen();
        visitor.visit_parse_error(&errors[i]);
        proof {
            assert(error_events(errors@.subrange(0, i + 1)) =~= error_events(
                errors@.subrange(0, i as int),
            ).push(VisitEvent::Error(errors@[i as int])));
            assert(before.push(VisitEvent::Error(errors@[i as int])) =~= valued + error_events(
                errors@.subrange(0, i + 1),
            ));
        }
        i += 1;
    }
    proof {
        assert(errors@.subrange(0, errors@.len() as int) =~= errors@);
        assert(visitor.seen() =~= start + argument_events(argument@));
    }
}

/// Shows `visitor` the items of the block, one after the other.
pub fn walk_block<V: Visitor>(visitor: &mut V, block: &Block)
    ensures
        final(visitor).seen() == old(visitor).seen() + block_events(
            block@,
            block@.items.len(),
        ),
    decreases block,
{
    let ghost view = block@;
    let mut i: usize = 0;
    proof {
        assert(old(visitor).seen() + block_events(view, 0) =~= old(visitor).seen());
    }
    while i < block.items.len()
        invariant
            i <= block.items@.len(),
            view == block@,
            view.items.len() == block.items@.len(),
            visitor.seen() == old(visitor).seen() + block_events(view, i as nat),
        decreases block.items@.len() - i,
    {
        let ghost before = visitor.seen();
        walk_item(visitor, &block.items[i]);
        proof {
            assert(view.items[i as int] == block.items@[i as int]@);
            assert(before + item_events(view.items[i as int]) =~= old(visitor).seen()
                + block_events(view, (i + 1) as nat));
        }
        i += 1;
    }
}

/// Shows `visitor` the number of the angle.
pub fn walk_angle<V: Visitor>(visitor: &mut V, angle: &Angle)
    ensures
        final(visitor).seen() == old(visitor).seen().push(VisitEvent::Float(angle.value)),
{
    visitor.visit_float(&angle.value);
}

} // verus!
