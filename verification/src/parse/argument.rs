//! The categories of typed arguments and their parsers.

use crate::intern::{Interner, StaticInterner};
use crate::parse::cst::{ArgumentValue, ValueView};
use crate::parse::errors::{ErrorList, ParseError, UnsupportedArgumentError};
use crate::parse::reader::Reader;
use crate::span::Span;
use crate::text::word_end;
use vstd::prelude::*;
use vstd::string::*;

pub mod angle;
pub mod color;
pub mod coords;
pub mod extent;
pub mod primitives;

pub use angle::Angle;
pub use color::Color;
pub use coords::{Coordinates, WorldCoordinate};
pub use primitives::{Boolean, Double, Float, Integer, Numeral, Text};

verus! {

/// How much of the input a string argument takes.
#[derive(Debug, Clone, Copy, PartialEq, Eq, Structural)]
pub enum StringKind {
    /// One unquoted word.
    SingleWord,
    /// One word, or a quoted phrase.
    QuotablePhrase,
    /// Everything up to the end of the command.
    GreedyPhrase,
}

/// The bit pattern of the least finite double-precision number.
pub const DOUBLE_MIN: u64 = 0xFFEF_FFFF_FFFF_FFFF;

/// The bit pattern of the greatest finite double-precision number.
pub const DOUBLE_MAX: u64 = 0x7FEF_FFFF_FFFF_FFFF;

/// The bit pattern of the least finite single-precision number.
pub const FLOAT_MIN: u32 = 0xFF7F_FFFF;

/// The bit pattern of the greatest finite single-precision number.
pub const FLOAT_MAX: u32 = 0x7F7F_FFFF;

/// The category of a typed argument, with the parameters that the schema
/// gives it.
#[derive(Debug)]
#[allow(inconsistent_fields)]
pub enum Argument {
    Bool,
    /// A double-precision number; the bounds are IEEE 754 bit patterns.
    Double { min: u64, max: u64 },
    /// A single-precision number; the bounds are IEEE 754 bit patterns.
    Float { min: u32, max: u32 },
    Integer { min: i32, max: i32 },
    String(StringKind),
    Angle,
    BlockPos,
    BlockPredicate,
    BlockState,
    Color,
    ColumnPos,
    Component,
    Dimension,
    Entity { single: bool, players_only: bool },
    EntityAnchor,
    Function,
    GameProfile,
    Gamemode,
    Heightmap,
    IntRange,
    ItemPredicate,
    ItemSlot,
    ItemSlots,
    ItemStack,
    LootModifier,
    LootPredicate,
    LootTable,
    Message,
    NbtCompoundTag,
    NbtPath,
    NbtTag,
    Objective,
    ObjectiveCriteria,
    Operation,
    Particle,
    Resource { registry: String },
    ResourceKey { registry: String },
    ResourceLocation,
    ResourceOrTag { registry: String },
    ResourceOrTagKey { registry: String },
    Rotation,
    ScoreHolder { single: bool },
    ScoreboardSlot,
    Style,
    Swizzle,
    Team,
    TemplateMirror,
    TemplateRotation,
    Time { min: i32 },
    Vec2,
    Vec3,
}

impl Clone for Argument {
    fn clone(&self) -> (r: Self)
        ensures
            r == *self,
    {
        match self {
            Argument::Bool => Argument::Bool,
            Argument::Double { min, max } => Argument::Double { min: *min, max: *max },
            Argument::Float { min, max } => Argument::Float { min: *min, max: *max },
            Argument::Integer { min, max } => Argument::Integer { min: *min, max: *max },
            Argument::String(kind) => Argument::String(*kind),
            Argument::Angle => Argument::Angle,
            Argument::BlockPos => Argument::BlockPos,
            Argument::BlockPredicate => Argument::BlockPredicate,
            Argument::BlockState => Argument::BlockState,
            Argument::Color => Argument::Color,
            Argument::ColumnPos => Argument::ColumnPos,
            Argument::Component => Argument::Component,
            Argument::Dimension => Argument::Dimension,
            Argument::Entity { single, players_only } => Argument::Entity {
                single: *single,
                players_only: *players_only,
            },
            Argument::EntityAnchor => Argument::EntityAnchor,
            Argument::Function => Argument::Function,
            Argument::GameProfile => Argument::GameProfile,
            Argument::Gamemode => Argument::Gamemode,
            Argument::Heightmap => Argument::Heightmap,
            Argument::IntRange => Argument::IntRange,
            Argument::ItemPredicate => Argument::ItemPredicate,
            Argument::ItemSlot => Argument::ItemSlot,
            Argument::ItemSlots => Argument::ItemSlots,
            Argument::ItemStack => Argument::ItemStack,
            Argument::LootModifier => Argument::LootModifier,
            Argument::LootPredicate => Argument::LootPredicate,
            Argument::LootTable => Argument::LootTable,
            Argument::Message => Argument::Message,
            Argument::NbtCompoundTag => Argument::NbtCompoundTag,
            Argument::NbtPath => Argument::NbtPath,
            Argument::NbtTag => Argument::NbtTag,
            Argument::Objective => Argument::Objective,
            Argument::ObjectiveCriteria => Argument::ObjectiveCriteria,
            Argument::Operation => Argument::Operation,
            Argument::Particle => Argument::Particle,
            Argument::Resource { registry } => Argument::Resource { registry: registry.clone() },
            Argument::ResourceKey { registry } => Argument::ResourceKey {
                registry: registry.clone(),
            },
            Argument::ResourceLocation => Argument::ResourceLocation,
            Argument::ResourceOrTag { registry } => Argument::ResourceOrTag {
                registry: registry.clone(),
            },
            Argument::ResourceOrTagKey { registry } => Argument::ResourceOrTagKey {
                registry: registry.clone(),
            },
            Argument::Rotation => Argument::Rotation,
            Argument::ScoreHolder { single } => Argument::ScoreHolder { single: *single },
            Argument::ScoreboardSlot => Argument::ScoreboardSlot,
            Argument::Style => Argument::Style,
            Argument::Swizzle => Argument::Swizzle,
            Argument::Team => Argument::Team,
            Argument::TemplateMirror => Argument::TemplateMirror,
            Argument::TemplateRotation => Argument::TemplateRotation,
            Argument::Time { min } => Argument::Time { min: *min },
            Argument::Vec2 => Argument::Vec2,
            Argument::Vec3 => Argument::Vec3,
        }
    }
}

} // verus!


verus! {

/// What an argument parser made of the input: the value it read or the
/// error that stopped it, the errors it found besides, the offset at which
/// it stopped, and the strings that the interner holds afterwards.
pub struct ArgOutcome {
    pub result: Result<ValueView, ParseError>,
    pub errors: Seq<ParseError>,
    pub end: int,
    pub strings: Seq<Seq<char>>,
}

/// The outcome of a parser that cannot fail and does not intern.
pub open spec fn plain_outcome<V>(
    made: primitives::Outcome<V>,
    value: ValueView,
    strings: Seq<Seq<char>>,
) -> ArgOutcome {
    ArgOutcome { result: Ok(value), errors: made.errors, end: made.end, strings }
}

/// The outcome of an argument category that has no parser: the word at
/// `pos` is stepped over and reported.
pub open spec fn unsupported_outcome(b: Seq<u8>, pos: int, strings: Seq<Seq<char>>) -> ArgOutcome {
    ArgOutcome {
        result: Err(
            ParseError::UnsupportedArgument(
                UnsupportedArgumentError { span: primitives::word_span(b, pos) },
            ),
        ),
        errors: Seq::empty(),
        end: word_end(b, pos),
        strings,
    }
}

/// What [`Argument::parse`] makes of the input at `pos` for an argument of
/// category `kind`, with an interner that holds `strings`.
pub open spec fn argument_outcome(
    kind: Argument,
    b: Seq<u8>,
    pos: int,
    strings: Seq<Seq<char>>,
) -> ArgOutcome {
    match kind {
        Argument::Bool => {
            let made = primitives::bool_outcome(b, pos);
            plain_outcome(made, ValueView::Boolean(made.value), strings)
        },
        Argument::Integer { .. } => {
            let made = primitives::integer_outcome(b, pos);
            plain_outcome(made, ValueView::Integer(made.value), strings)
        },
        Argument::Float { .. } => {
            let made = primitives::float_outcome(b, pos);
            plain_outcome(made, ValueView::Float(made.value), strings)
        },
        Argument::Double { .. } => {
            let made = primitives::double_outcome(b, pos);
            plain_outcome(made, ValueView::Double(made.value), strings)
        },
        Argument::String(string_kind) => {
            let made = primitives::text_outcome(b, pos, string_kind, strings);
            ArgOutcome {
                result: match made.result {
                    Ok(text) => Ok(ValueView::String(text)),
                    Err(e) => Err(e),
                },
                errors: made.errors,
                end: made.end,
                strings: made.strings,
            }
        },
        Argument::Angle => {
            let made = angle::angle_outcome(b, pos);
            plain_outcome(made, ValueView::Angle(made.value), strings)
        },
        Argument::BlockPos => {
            let made = coords::coordinates_outcome(b, pos, 3, true);
            plain_outcome(made, ValueView::Coordinates3(made.value), strings)
        },
        Argument::Color => {
            let made = color::color_outcome(b, pos);
            plain_outcome(made, ValueView::Color(made.value), strings)
        },
        Argument::ColumnPos => {
            let made = coords::world_outcome(b, pos, 2, false);
            plain_outcome(made, ValueView::Coordinates2(made.value), strings)
        },
        Argument::Vec2 => {
            let made = coords::coordinates_outcome(b, pos, 2, false);
            plain_outcome(made, ValueView::Coordinates2(made.value), strings)
        },
        Argument::Vec3 => {
            let made = coords::coordinates_outcome(b, pos, 3, false);
            plain_outcome(made, ValueView::Coordinates3(made.value), strings)
        },
        _ => unsupported_outcome(b, pos, strings),
    }
}

/// What a parse result holds.
pub open spec fn result_view(r: Result<ArgumentValue, ParseError>) -> Result<ValueView, ParseError> {
    match r {
        Ok(value) => Ok(value@),
        Err(e) => Err(e),
    }
}

impl Argument {
    /// Reads an argument of this category at the cursor. Errors that leave a
    /// value are added to `errors`; an error that leaves none is returned.
    /// A category without a parser steps over one word and returns an error.
    pub fn parse(
        &self,
        reader: &mut Reader,
        interner: &mut StaticInterner,
        errors: &mut ErrorList,
    ) -> (r: Result<ArgumentValue, ParseError>)
        requires
            old(reader).wf(),
            old(interner).valid(),
        ensures
            final(reader).wf(),
            final(interner).valid(),
            final(reader).text() == old(reader).text(),
            final(reader).position() == argument_outcome(
                *self,
                old(reader).text(),
                old(reader).position(),
                old(interner).strings(),
            ).end,
            result_view(r) == argument_outcome(
                *self,
                old(reader).text(),
                old(reader).position(),
                old(interner).strings(),
            ).result,
            final(errors)@ == old(errors)@ + argument_outcome(
                *self,
                old(reader).text(),
                old(reader).position(),
                old(interner).strings(),
            ).errors,
            final(interner).strings() == argument_outcome(
                *self,
                old(reader).text(),
                old(reader).position(),
                old(interner).strings(),
            ).strings,
    {
        match self {
            Argument::Bool => Ok(ArgumentValue::Boolean(primitives::parse_bool(reader, errors))),
            Argument::Integer { .. } => Ok(
                ArgumentValue::Integer(primitives::parse_integer(reader, errors)),
            ),
            Argument::Float { .. } => Ok(ArgumentValue::Float(primitives::parse_float(reader, errors))),
            Argument::Double { .. } => Ok(
                ArgumentValue::Double(primitives::parse_double(reader, errors)),
            ),
            Argument::String(kind) => {
                match primitives::parse_text(reader, interner, errors, *kind) {
                    Ok(text) => Ok(ArgumentValue::String(text)),
                    Err(e) => Err(e),
                }
            },
            Argument::Angle => Ok(ArgumentValue::Angle(angle::parse(reader, errors))),
            Argument::BlockPos => Ok(
                ArgumentValue::Coordinates3(coords::parse_block_pos(reader, errors)),
            ),
            Argument::Color => Ok(ArgumentValue::Color(color::parse(reader, errors))),
            Argument::ColumnPos => Ok(
                ArgumentValue::Coordinates2(coords::parse_column_pos(reader, errors)),
            ),
            Argument::Vec2 => Ok(ArgumentValue::Coordinates2(coords::parse_vec2(reader, errors))),
            Argument::Vec3 => Ok(ArgumentValue::Coordinates3(coords::parse_vec3(reader, errors))),
            _ => {
                let start = reader.get_pos();
                let _ = reader.read_word_range();
                proof {
                    assert(old(errors)@ + Seq::<ParseError>::empty() =~= old(errors)@);
                }
                Err(
                    ParseError::UnsupportedArgument(
                        UnsupportedArgumentError { span: Span::new(start, reader.get_pos()) },
                    ),
                )
            },
        }
    }
}

} // verus!
