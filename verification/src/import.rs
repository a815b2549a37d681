//! Building a schema tree from the catalogue of commands, given as plain
//! values.

use crate::build_tree::{
    children_in, find_path, lemma_find_path_kept, names_of, redirect_in, with_redirect, BuildNode,
    BuildNodeId, BuildTree, NO_NODE,
};
use crate::node::{Node, NodeKind};
use crate::parse::argument::{Argument, StringKind, DOUBLE_MAX, DOUBLE_MIN, FLOAT_MAX, FLOAT_MIN};
use crate::text::{byte_len, str_eq};
use vstd::prelude::*;
use vstd::string::*;
use vstd::utf8::encode_utf8;

verus! {

/// A value of the catalogue, as far as the schema reads it: what it is as
/// an integer, as the bits of a double-precision and of a single-precision
/// number, and as a string, each absent where the value is none.
#[derive(Debug)]
pub struct PropertyValue {
    pub integer: Option<i64>,
    pub double_bits: Option<u64>,
    pub float_bits: Option<u32>,
    pub text: Option<String>,
}

/// The properties of an argument node, by name.
#[derive(Debug)]
pub struct Properties {
    pub entries: Vec<(String, PropertyValue)>,
}

/// What a node of the catalogue is.
#[derive(Debug)]
pub enum SchemaKind {
    Root,
    Literal,
    Argument { parser: String, properties: Properties },
}

/// A node of the catalogue with its children, by name.
#[derive(Debug)]
pub struct SchemaNode {
    pub kind: SchemaKind,
    pub children: Vec<(String, SchemaNode)>,
    pub executable: bool,
    pub redirect: Vec<String>,
}

/// Why a catalogue is no schema.
#[derive(Debug, Clone, Copy, PartialEq, Eq, Structural)]
pub enum ImportError {
    /// The outermost node is no root.
    RootExpected,
    /// The root is executable.
    RootExecutable,
    /// The root redirects.
    RootRedirect,
    /// A root is the child of another node.
    NestedRoot,
    /// An argument names a parser that the schema does not know.
    UnknownParser,
    /// A property is not of the kind that its parser reads.
    InvalidProperty,
    /// A parser that needs a registry has none.
    MissingRegistry,
    /// A name is longer than a node can hold.
    NameTooLong,
    /// The schema has more nodes than a tree can hold.
    TooManyNodes,
    /// A redirect names a path that leads to no node.
    UnknownRedirectTarget,
    /// A redirect leads to its own node or to a redirecting node, or its
    /// node has children or is itself the target of a redirect.
    InvalidRedirect,
}

/// The position of the first entry of `entries` that goes by `key`.
pub open spec fn position_of(entries: Seq<(String, PropertyValue)>, key: Seq<char>) -> Option<int>
    decreases entries.len(),
{
    if entries.len() == 0 {
        None
    } else if entries[0].0@ == key {
        Some(0)
    } else {
        match position_of(entries.drop_first(), key) {
            Some(i) => Some(i + 1),
            None => None,
        }
    }
}

impl Properties {
    /// The value of the property `key`, if there is one.
    pub open spec fn value_of(&self, key: Seq<char>) -> Option<PropertyValue> {
        match position_of(self.entries@, key) {
            Some(i) => Some(self.entries@[i].1),
            None => None,
        }
    }

    /// Computes [`Properties::value_of`].
    pub fn get(&self, key: &str) -> (r: Option<&PropertyValue>)
        ensures
            match r {
                Some(v) => self.value_of(key@) == Some(*v),
                None => self.value_of(key@) is None,
            },
    {
        let ghost all = self.entries@;
        let mut i: usize = 0;
        proof {
            assert(all.subrange(0, all.len() as int) =~= all);
        }
        while i < self.entries.len()
            invariant
                all == self.entries@,
                i <= all.len(),
                position_of(all, key@) == match position_of(
                    all.subrange(i as int, all.len() as int),
                    key@,
                ) {
                    Some(k) => Some(k + i),
                    None => None,
                },
            decreases all.len() - i,
        {
            let ghost rest = all.subrange(i as int, all.len() as int);
            proof {
                assert(rest[0] == all[i as int]);
                assert(rest.drop_first() =~= all.subrange(i + 1, all.len() as int));
            }
            if str_eq(self.entries[i].0.as_str(), key) {
                return Some(&self.entries[i].1);
            }
            i += 1;
        }
        None
    }
}

/// The text of a property; nothing where the property is absent; an error
/// where it is no string.
pub open spec fn text_property(properties: Properties, key: Seq<char>) -> Result<
    Option<Seq<char>>,
    ImportError,
> {
    match properties.value_of(key) {
        None => Ok(None),
        Some(v) => match v.text {
            Some(s) => Ok(Some(s@)),
            None => Err(ImportError::InvalidProperty),
        },
    }
}

/// The parameterless category that the parser `parser` stands for.
pub open spec fn plain_argument(parser: Seq<char>) -> Option<Argument> {
    if parser == "brigadier:bool"@ {
        Some(Argument::Bool)
    } else if parser == "minecraft:angle"@ {
        Some(Argument::Angle)
    } else if parser == "minecraft:block_pos"@ {
        Some(Argument::BlockPos)
    } else if parser == "minecraft:block_predicate"@ {
        Some(Argument::BlockPredicate)
    } else if parser == "minecraft:block_state"@ {
        Some(Argument::BlockState)
    } else if parser == "minecraft:color"@ {
        Some(Argument::Color)
    } else if parser == "minecraft:column_pos"@ {
        Some(Argument::ColumnPos)
    } else if parser == "minecraft:component"@ {
        Some(Argument::Component)
    } else if parser == "minecraft:dimension"@ {
        Some(Argument::Dimension)
    } else if parser == "minecraft:entity_anchor"@ {
        Some(Argument::EntityAnchor)
    } else if parser == "minecraft:function"@ {
        Some(Argument::Function)
    } else if parser == "minecraft:game_profile"@ {
        Some(Argument::GameProfile)
    } else if parser == "minecraft:gamemode"@ {
        Some(Argument::Gamemode)
    } else if parser == "minecraft:heightmap"@ {
        Some(Argument::Heightmap)
    } else if parser == "minecraft:int_range"@ {
        Some(Argument::IntRange)
    } else if parser == "minecraft:item_predicate"@ {
        Some(Argument::ItemPredicate)
    } else if parser == "minecraft:item_slot"@ {
        Some(Argument::ItemSlot)
    } else if parser == "minecraft:item_slots"@ {
        Some(Argument::ItemSlots)
    } else if parser == "minecraft:item_stack"@ {
        Some(Argument::ItemStack)
    } else if parser == "minecraft:loot_modifier"@ {
        Some(Argument::LootModifier)
    } else if parser == "minecraft:loot_predicate"@ {
        Some(Argument::LootPredicate)
    } else if parser == "minecraft:loot_table"@ {
        Some(Argument::LootTable)
    } else if parser == "minecraft:message"@ {
        Some(Argument::Message)
    } else if parser == "minecraft:nbt_compound_tag"@ {
        Some(Argument::NbtCompoundTag)
    } else if parser == "minecraft:nbt_path"@ {
        Some(Argument::NbtPath)
    } else if parser == "minecraft:nbt_tag"@ {
        Some(Argument::NbtTag)
    } else if parser == "minecraft:objective"@ {
        Some(Argument::Objective)
    } else if parser == "minecraft:objective_criteria"@ {
        Some(Argument::ObjectiveCriteria)
    } else if parser == "minecraft:operation"@ {
        Some(Argument::Operation)
    } else if parser == "minecraft:particle"@ {
        Some(Argument::Particle)
    } else if parser == "minecraft:resource_location"@ {
        Some(Argument::ResourceLocation)
    } else if parser == "minecraft:rotation"@ {
        Some(Argument::Rotation)
    } else if parser == "minecraft:scoreboard_slot"@ {
        Some(Argument::ScoreboardSlot)
    } else if parser == "minecraft:style"@ {
        Some(Argument::Style)
    } else if parser == "minecraft:swizzle"@ {
        Some(Argument::Swizzle)
    } else if parser == "minecraft:team"@ {
        Some(Argument::Team)
    } else if parser == "minecraft:template_mirror"@ {
        Some(Argument::TemplateMirror)
    } else if parser == "minecraft:template_rotation"@ {
        Some(Argument::TemplateRotation)
    } else if parser == "minecraft:vec2"@ {
        Some(Argument::Vec2)
    } else if parser == "minecraft:vec3"@ {
        Some(Argument::Vec3)
    } else {
        None
    }
}

/// Computes [`plain_argument`].
fn plain_argument_of(parser: &str) -> (r: Option<Argument>)
    ensures
        r == plain_argument(parser@),
{
    if str_eq(parser, "brigadier:bool") {
        Some(Argument::Bool)
    } else if str_eq(parser, "minecraft:angle") {
        Some(Argument::Angle)
    } else if str_eq(parser, "minecraft:block_pos") {
        Some(Argument::BlockPos)
    } else if str_eq(parser, "minecraft:block_predicate") {
        Some(Argument::BlockPredicate)
    } else if str_eq(parser, "minecraft:block_state") {
        Some(Argument::BlockState)
    } else if str_eq(parser, "minecraft:color") {
        Some(Argument::Color)
    } else if str_eq(parser, "minecraft:column_pos") {
        Some(Argument::ColumnPos)
    } else if str_eq(parser, "minecraft:component") {
        Some(Argument::Component)
    } else if str_eq(parser, "minecraft:dimension") {
        Some(Argument::Dimension)
    } else if str_eq(parser, "minecraft:entity_anchor") {
        Some(Argument::EntityAnchor)
    } else if str_eq(parser, "minecraft:function") {
        Some(Argument::Function)
    } else if str_eq(parser, "minecraft:game_profile") {
        Some(Argument::GameProfile)
    } else if str_eq(parser, "minecraft:gamemode") {
        Some(Argument::Gamemode)
    } else if str_eq(parser, "minecraft:heightmap") {
        Some(Argument::Heightmap)
    } else if str_eq(parser, "minecraft:int_range") {
        Some(Argument::IntRange)
    } else if str_eq(parser, "minecraft:item_predicate") {
        Some(Argument::ItemPredicate)
    } else if str_eq(parser, "minecraft:item_slot") {
        Some(Argument::ItemSlot)
    } else if str_eq(parser, "minecraft:item_slots") {
        Some(Argument::ItemSlots)
    } else if str_eq(parser, "minecraft:item_stack") {
        Some(Argument::ItemStack)
    } else if str_eq(parser, "minecraft:loot_modifier") {
        Some(Argument::LootModifier)
    } else if str_eq(parser, "minecraft:loot_predicate") {
        Some(Argument::LootPredicate)
    } else if str_eq(parser, "minecraft:loot_table") {
        Some(Argument::LootTable)
    } else if str_eq(parser, "minecraft:message") {
        Some(Argument::Message)
    } else if str_eq(parser, "minecraft:nbt_compound_tag") {
        Some(Argument::NbtCompoundTag)
    } else if str_eq(parser, "minecraft:nbt_path") {
        Some(Argument::NbtPath)
    } else if str_eq(parser, "minecraft:nbt_tag") {
        Some(Argument::NbtTag)
    } else if str_eq(parser, "minecraft:objective") {
        Some(Argument::Objective)
    } else if str_eq(parser, "minecraft:objective_criteria") {
        Some(Argument::ObjectiveCriteria)
    } else if str_eq(parser, "minecraft:operation") {
        Some(Argument::Operation)
    } else if str_eq(parser, "minecraft:particle") {
        Some(Argument::Particle)
    } else if str_eq(parser, "minecraft:resource_location") {
        Some(Argument::ResourceLocation)
    } else if str_eq(parser, "minecraft:rotation") {
        Some(Argument::Rotation)
    } else if str_eq(parser, "minecraft:scoreboard_slot") {
        Some(Argument::ScoreboardSlot)
    } else if str_eq(parser, "minecraft:style") {
        Some(Argument::Style)
    } else if str_eq(parser, "minecraft:swizzle") {
        Some(Argument::Swizzle)
    } else if str_eq(parser, "minecraft:team") {
        Some(Argument::Team)
    } else if str_eq(parser, "minecraft:template_mirror") {
        Some(Argument::TemplateMirror)
    } else if str_eq(parser, "minecraft:template_rotation") {
        Some(Argument::TemplateRotation)
    } else if str_eq(parser, "minecraft:vec2") {
        Some(Argument::Vec2)
    } else if str_eq(parser, "minecraft:vec3") {
        Some(Argument::Vec3)
    } else {
        None
    }
}

/// Whether an amount is `single`: nothing or `multiple` is not, `single`
/// is, anything else is an error.
pub open spec fn single_amount(properties: Properties) -> Result<bool, ImportError> {
    match text_property(properties, "amount"@) {
        Err(e) => Err(e),
        Ok(None) => Ok(false),
        Ok(Some(s)) => if s == "multiple"@ {
            Ok(false)
        } else if s == "single"@ {
            Ok(true)
        } else {
            Err(ImportError::InvalidProperty)
        },
    }
}

/// Whether only players are meant: nothing or `entities` means no,
/// `players` means yes, anything else is an error.
pub open spec fn players_only(properties: Properties) -> Result<bool, ImportError> {
    match text_property(properties, "type"@) {
        Err(e) => Err(e),
        Ok(None) => Ok(false),
        Ok(Some(s)) => if s == "entities"@ {
            Ok(false)
        } else if s == "players"@ {
            Ok(true)
        } else {
            Err(ImportError::InvalidProperty)
        },
    }
}

/// The kind of a string argument: nothing or `word` is a single word,
/// `phrase` a quotable phrase, `greedy` a greedy phrase, anything else an
/// error.
pub open spec fn string_kind(properties: Properties) -> Result<StringKind, ImportError> {
    match text_property(properties, "type"@) {
        Err(e) => Err(e),
        Ok(None) => Ok(StringKind::SingleWord),
        Ok(Some(s)) => if s == "word"@ {
            Ok(StringKind::SingleWord)
        } else if s == "phrase"@ {
            Ok(StringKind::QuotablePhrase)
        } else if s == "greedy"@ {
            Ok(StringKind::GreedyPhrase)
        } else {
            Err(ImportError::InvalidProperty)
        },
    }
}

/// An integer bound: `default` where the property is absent, the low 32
/// bits of its integer where it is one, else an error.
pub open spec fn integer_bound(properties: Properties, key: Seq<char>, default: i32) -> Result<
    i32,
    ImportError,
> {
    match properties.value_of(key) {
        None => Ok(default),
        Some(v) => match v.integer {
            Some(n) => Ok(n as i32),
            None => Err(ImportError::InvalidProperty),
        },
    }
}

/// A double-precision bound: `default` where the property is absent, its
/// bits where it is a number, else an error.
pub open spec fn double_bound(properties: Properties, key: Seq<char>, default: u64) -> Result<
    u64,
    ImportError,
> {
    match properties.value_of(key) {
        None => Ok(default),
        Some(v) => match v.double_bits {
            Some(bits) => Ok(bits),
            None => Err(ImportError::InvalidProperty),
        },
    }
}

/// A single-precision bound: `default` where the property is absent, its
/// bits where it is a number, else an error.
pub open spec fn float_bound(properties: Properties, key: Seq<char>, default: u32) -> Result<
    u32,
    ImportError,
> {
    match properties.value_of(key) {
        None => Ok(default),
        Some(v) => match v.float_bits {
            Some(bits) => Ok(bits),
            None => Err(ImportError::InvalidProperty),
        },
    }
}

/// The registry of a resource parser; an error where it is absent or no
/// string.
pub open spec fn registry_of(properties: Properties) -> Result<Seq<char>, ImportError> {
    match properties.value_of("registry"@) {
        None => Err(ImportError::MissingRegistry),
        Some(v) => match v.text {
            Some(s) => Ok(s@),
            None => Err(ImportError::InvalidProperty),
        },
    }
}

/// The first of two errors, where there is one; else the two values.
pub open spec fn both<A, B>(first: Result<A, ImportError>, second: Result<B, ImportError>) -> Result<
    (A, B),
    ImportError,
> {
    match first {
        Err(e) => Err(e),
        Ok(a) => match second {
            Err(e) => Err(e),
            Ok(b) => Ok((a, b)),
        },
    }
}

/// `r` is the argument category that the parser `parser` with the
/// properties `properties` stands for, or the error in them.
pub open spec fn is_param(
    parser: Seq<char>,
    properties: Properties,
    r: Result<Argument, ImportError>,
) -> bool {
    if parser == "brigadier:double"@ {
        match both(
            double_bound(properties, "min"@, DOUBLE_MIN),
            double_bound(properties, "max"@, DOUBLE_MAX),
        ) {
            Ok((min, max)) => r == Ok::<Argument, ImportError>(Argument::Double { min, max }),
            Err(e) => r == Err::<Argument, ImportError>(e),
        }
    } else if parser == "brigadier:float"@ {
        match both(
            float_bound(properties, "min"@, FLOAT_MIN),
            float_bound(properties, "max"@, FLOAT_MAX),
        ) {
            Ok((min, max)) => r == Ok::<Argument, ImportError>(Argument::Float { min, max }),
            Err(e) => r == Err::<Argument, ImportError>(e),
        }
    } else if parser == "brigadier:integer"@ {
        match both(
            integer_bound(properties, "min"@, i32::MIN),
            integer_bound(properties, "max"@, i32::MAX),
        ) {
            Ok((min, max)) => r == Ok::<Argument, ImportError>(Argument::Integer { min, max }),
            Err(e) => r == Err::<Argument, ImportError>(e),
        }
    } else if parser == "brigadier:string"@ {
        match string_kind(properties) {
            Ok(kind) => r == Ok::<Argument, ImportError>(Argument::String(kind)),
            Err(e) => r == Err::<Argument, ImportError>(e),
        }
    } else if parser == "minecraft:entity"@ {
        match both(single_amount(properties), players_only(properties)) {
            Ok((single, players)) => r == Ok::<Argument, ImportError>(
                Argument::Entity { single, players_only: players },
            ),
            Err(e) => r == Err::<Argument, ImportError>(e),
        }
    } else if parser == "minecraft:score_holder"@ {
        match single_amount(properties) {
            Ok(single) => r == Ok::<Argument, ImportError>(Argument::ScoreHolder { single }),
            Err(e) => r == Err::<Argument, ImportError>(e),
        }
    } else if parser == "minecraft:time"@ {
        match integer_bound(properties, "min"@, 0) {
            Ok(min) => r == Ok::<Argument, ImportError>(Argument::Time { min }),
            Err(e) => r == Err::<Argument, ImportError>(e),
        }
    } else if parser == "minecraft:resource"@ {
        match registry_of(properties) {
            Ok(name) => r matches Ok(Argument::Resource { registry }) && registry@ == name,
            Err(e) => r == Err::<Argument, ImportError>(e),
        }
    } else if parser == "minecraft:resource_key"@ {
        match registry_of(properties) {
            Ok(name) => r matches Ok(Argument::ResourceKey { registry }) && registry@ == name,
            Err(e) => r == Err::<Argument, ImportError>(e),
        }
    } else if parser == "minecraft:resource_or_tag"@ {
        match registry_of(properties) {
            Ok(name) => r matches Ok(Argument::ResourceOrTag { registry }) && registry@ == name,
            Err(e) => r == Err::<Argument, ImportError>(e),
        }
    } else if parser == "minecraft:resource_or_tag_key"@ {
        match registry_of(properties) {
            Ok(name) => r matches Ok(Argument::ResourceOrTagKey { registry }) && registry@
                == name,
            Err(e) => r == Err::<Argument, ImportError>(e),
        }
    } else {
        match plain_argument(parser) {
            Some(argument) => r == Ok::<Argument, ImportError>(argument),
            None => r == Err::<Argument, ImportError>(ImportError::UnknownParser),
        }
    }
}

/// Computes [`text_property`].
fn get_text<'a>(properties: &'a Properties, key: &str) -> (r: Result<Option<&'a str>, ImportError>)
    ensures
        match r {
            Ok(Some(s)) => text_property(*properties, key@) == Ok::<
                Option<Seq<char>>,
                ImportError,
            >(Some(s@)),
            Ok(None) => text_property(*properties, key@) == Ok::<Option<Seq<char>>, ImportError>(
                None,
            ),
            Err(e) => text_property(*properties, key@) == Err::<Option<Seq<char>>, ImportError>(e),
        },
{
    match properties.get(key) {
        None => Ok(None),
        Some(v) => match &v.text {
            Some(s) => Ok(Some(s.as_str())),
            None => Err(ImportError::InvalidProperty),
        },
    }
}

/// Computes [`single_amount`].
fn get_single(properties: &Properties) -> (r: Result<bool, ImportError>)
    ensures
        r == single_amount(*properties),
{
    match get_text(properties, "amount") {
        Err(e) => Err(e),
        Ok(None) => Ok(false),
        Ok(Some(s)) => if str_eq(s, "multiple") {
            Ok(false)
        } else if str_eq(s, "single") {
            Ok(true)
        } else {
            Err(ImportError::InvalidProperty)
        },
    }
}

/// Computes [`players_only`].
fn get_players_only(properties: &Properties) -> (r: Result<bool, ImportError>)
    ensures
        r == players_only(*properties),
{
    match get_text(properties, "type") {
        Err(e) => Err(e),
        Ok(None) => Ok(false),
        Ok(Some(s)) => if str_eq(s, "entities") {
            Ok(false)
        } else if str_eq(s, "players") {
            Ok(true)
        } else {
            Err(ImportError::InvalidProperty)
        },
    }
}

/// Computes [`string_kind`].
fn get_string_kind(properties: &Properties) -> (r: Result<StringKind, ImportError>)
    ensures
        r == string_kind(*properties),
{
    match get_text(properties, "type") {
        Err(e) => Err(e),
        Ok(None) => Ok(StringKind::SingleWord),
        Ok(Some(s)) => if str_eq(s, "word") {
            Ok(StringKind::SingleWord)
        } else if str_eq(s, "phrase") {
            Ok(StringKind::QuotablePhrase)
        } else if str_eq(s, "greedy") {
            Ok(StringKind::GreedyPhrase)
        } else {
            Err(ImportError::InvalidProperty)
        },
    }
}

/// Computes [`integer_bound`].
fn get_integer(properties: &Properties, key: &str, default: i32) -> (r: Result<i32, ImportError>)
    ensures
        r == integer_bound(*properties, key@, default),
{
    match properties.get(key) {
        None => Ok(default),
        Some(v) => match v.integer {
            Some(n) => Ok(
                #[verifier::truncate]
                (n as i32),
            ),
            None => Err(ImportError::InvalidProperty),
        },
    }
}

/// Computes [`double_bound`].
fn get_double(properties: &Properties, key: &str, default: u64) -> (r: Result<u64, ImportError>)
    ensures
        r == double_bound(*properties, key@, default),
{
    match properties.get(key) {
        None => Ok(default),
        Some(v) => match v.double_bits {
            Some(bits) => Ok(bits),
            None => Err(ImportError::InvalidProperty),
        },
    }
}

/// Computes [`float_bound`].
fn get_float(properties: &Properties, key: &str, default: u32) -> (r: Result<u32, ImportError>)
    ensures
        r == float_bound(*properties, key@, default),
{
    match properties.get(key) {
        None => Ok(default),
        Some(v) => match v.float_bits {
            Some(bits) => Ok(bits),
            None => Err(ImportError::InvalidProperty),
        },
    }
}

/// Computes [`registry_of`].
fn get_registry(properties: &Properties) -> (r: Result<String, ImportError>)
    ensures
        match r {
            Ok(s) => registry_of(*properties) == Ok::<Seq<char>, ImportError>(s@),
            Err(e) => registry_of(*properties) == Err::<Seq<char>, ImportError>(e),
        },
{
    match properties.get("registry") {
        None => Err(ImportError::MissingRegistry),
        Some(v) => match &v.text {
            Some(s) => Ok(s.clone()),
            None => Err(ImportError::InvalidProperty),
        },
    }
}

/// The argument category that the parser `parser` with the properties
/// `properties` stands for.
pub fn construct_param(parser: &str, properties: &Properties) -> (r: Result<Argument, ImportError>)
    ensures
        is_param(parser@, *properties, r),
{
    if str_eq(parser, "brigadier:double") {
        let min = get_double(properties, "min", DOUBLE_MIN);
        let max = get_double(properties, "max", DOUBLE_MAX);
        match (min, max) {
            (Err(e), _) => Err(e),
            (Ok(_), Err(e)) => Err(e),
            (Ok(min), Ok(max)) => Ok(Argument::Double { min, max }),
        }
    } else if str_eq(parser, "brigadier:float") {
        let min = get_float(properties, "min", FLOAT_MIN);
        let max = get_float(properties, "max", FLOAT_MAX);
        match (min, max) {
            (Err(e), _) => Err(e),
            (Ok(_), Err(e)) => Err(e),
            (Ok(min), Ok(max)) => Ok(Argument::Float { min, max }),
        }
    } else if str_eq(parser, "brigadier:integer") {
        let min = get_integer(properties, "min", i32::MIN);
        let max = get_integer(properties, "max", i32::MAX);
        match (min, max) {
            (Err(e), _) => Err(e),
            (Ok(_), Err(e)) => Err(e),
            (Ok(min), Ok(max)) => Ok(Argument::Integer { min, max }),
        }
    } else if str_eq(parser, "brigadier:string") {
        match get_string_kind(properties) {
            Ok(kind) => Ok(Argument::String(kind)),
            Err(e) => Err(e),
        }
    } else if str_eq(parser, "minecraft:entity") {
        let single = get_single(properties);
        let players_only = get_players_only(properties);
        match (single, players_only) {
            (Err(e), _) => Err(e),
            (Ok(_), Err(e)) => Err(e),
            (Ok(single), Ok(players_only)) => Ok(Argument::Entity { single, players_only }),
        }
    } else if str_eq(parser, "minecraft:score_holder") {
        match get_single(properties) {
            Ok(single) => Ok(Argument::ScoreHolder { single }),
            Err(e) => Err(e),
        }
    } else if str_eq(parser, "minecraft:time") {
        match get_integer(properties, "min", 0) {
            Ok(min) => Ok(Argument::Time { min }),
            Err(e) => Err(e),
        }
    } else if str_eq(parser, "minecraft:resource") {
        match get_registry(properties) {
            Ok(registry) => Ok(Argument::Resource { registry }),
            Err(e) => Err(e),
        }
    } else if str_eq(parser, "minecraft:resource_key") {
        match get_registry(properties) {
            Ok(registry) => Ok(Argument::ResourceKey { registry }),
            Err(e) => Err(e),
        }
    } else if str_eq(parser, "minecraft:resource_or_tag") {
        match get_registry(properties) {
            Ok(registry) => Ok(Argument::ResourceOrTag { registry }),
            Err(e) => Err(e),
        }
    } else if str_eq(parser, "minecraft:resource_or_tag_key") {
        match get_registry(properties) {
            Ok(registry) => Ok(Argument::ResourceOrTagKey { registry }),
            Err(e) => Err(e),
        }
    } else {
        match plain_argument_of(parser) {
            Some(argument) => Ok(argument),
            None => Err(ImportError::UnknownParser),
        }
    }
}

/// `node` is the schema node for the child `schema` that goes by `name`.
pub open spec fn node_matches(node: Node, name: Seq<char>, schema: SchemaNode) -> bool {
    &&& node.wf()
    &&& node.executable == schema.executable
    &&& node.usable
    &&& match schema.kind {
        SchemaKind::Root => false,
        SchemaKind::Literal => node.kind matches NodeKind::Literal(held) && held@ == name,
        SchemaKind::Argument { parser, properties } => node.kind matches NodeKind::Argument {
            name: held,
            arg,
        } && held@ == name && is_param(parser@, properties, Ok(arg)),
    }
}

/// The children `list` of a node of the catalogue stand in the arena as
/// the first children of the node at `id`, the last of the list first, each
/// with its own children below it, all at positions in `[lo, hi)`. A child
/// that redirects has no children.
pub open spec fn imported(
    arena: Seq<BuildNode>,
    id: int,
    list: Seq<(String, SchemaNode)>,
    lo: int,
    hi: int,
) -> bool
    decreases list,
{
    &&& children_in(arena, id).len() >= list.len()
    &&& forall|k: int|
        0 <= k < list.len() ==> {
            &&& lo <= (#[trigger] children_in(arena, id)[list.len() - 1 - k]) < hi
            &&& hi <= arena.len()
            &&& node_matches(
                arena[children_in(arena, id)[list.len() - 1 - k] as int].node,
                list[k].0@,
                list[k].1,
            )
            &&& imported(
                arena,
                children_in(arena, id)[list.len() - 1 - k] as int,
                list[k].1.children@,
                lo,
                hi,
            )
            &&& children_in(arena, children_in(arena, id)[list.len() - 1 - k] as int).len()
                == list[k].1.children@.len()
        }
}

/// What was imported stays imported where the arena keeps the nodes in
/// `[lo, hi)` and the children of `id`, also with a wider range.
pub proof fn lemma_imported_frame(
    a: Seq<BuildNode>,
    b: Seq<BuildNode>,
    id: int,
    list: Seq<(String, SchemaNode)>,
    lo: int,
    hi: int,
    lo2: int,
    hi2: int,
)
    requires
        imported(a, id, list, lo, hi),
        lo2 <= lo,
        hi <= hi2 <= b.len(),
        hi <= a.len(),
        children_in(b, id) == children_in(a, id),
        forall|c: int|
            lo <= c < hi ==> (#[trigger] b[c]).node == a[c].node && children_in(b, c)
                == children_in(a, c),
    ensures
        imported(b, id, list, lo2, hi2),
    decreases list,
{
    assert forall|k: int| 0 <= k < list.len() implies {
        &&& lo2 <= (#[trigger] children_in(b, id)[list.len() - 1 - k]) < hi2
        &&& hi2 <= b.len()
        &&& node_matches(
            b[children_in(b, id)[list.len() - 1 - k] as int].node,
            list[k].0@,
            list[k].1,
        )
        &&& imported(
            b,
            children_in(b, id)[list.len() - 1 - k] as int,
            list[k].1.children@,
            lo2,
            hi2,
        )
        &&& children_in(b, children_in(b, id)[list.len() - 1 - k] as int).len()
            == list[k].1.children@.len()
    } by {
        let c = children_in(a, id)[list.len() - 1 - k] as int;
        assert(lo <= c < hi);
        assert(b[c].node == a[c].node);
        lemma_imported_frame(a, b, c, list[k].1.children@, lo, hi, lo2, hi2);
    }
}

/// A schema node can be made for the child `schema` that goes by `name`:
/// the name is not too long to hold, the child is no root, and its parser
/// and properties, where it has them, stand for an argument category.
pub open spec fn makeable(name: Seq<char>, schema: SchemaNode) -> bool {
    &&& encode_utf8(name).len() <= usize::MAX / 2
    &&& match schema.kind {
        SchemaKind::Root => false,
        SchemaKind::Literal => true,
        SchemaKind::Argument { parser, properties } => exists|arg: Argument| #[trigger]
            is_param(parser@, properties, Ok(arg)),
    }
}

/// The schema node for the child `schema` that goes by `name`.
fn make_node(name: &str, schema: &SchemaNode) -> (r: Result<Node, ImportError>)
    ensures
        r is Ok <==> makeable(name@, *schema),
        match r {
            Ok(node) => node_matches(node, name@, *schema),
            Err(e) => e == ImportError::NestedRoot || e == ImportError::NameTooLong || (
            schema.kind matches SchemaKind::Argument { parser, properties } && is_param(
                parser@,
                properties,
                Err(e),
            )),
        },
{
    if byte_len(name) > usize::MAX / 2 {
        return Err(ImportError::NameTooLong);
    }
    let node = match &schema.kind {
        SchemaKind::Root => {
            return Err(ImportError::NestedRoot);
        },
        SchemaKind::Literal => Node::literal(name),
        SchemaKind::Argument { parser, properties } => {
            match construct_param(parser.as_str(), properties) {
                Ok(param) => Node::argument(name, param),
                Err(e) => {
                    return Err(e);
                },
            }
        },
    };
    if schema.executable {
        Ok(node.executable())
    } else {
        Ok(node)
    }
}

/// The nodes of the arena before `size`, apart from the children of the
/// node at `parent`, are what they were.
pub open spec fn kept(before: Seq<BuildNode>, after: Seq<BuildNode>, size: int, parent: int) -> bool {
    &&& size <= before.len() <= after.len()
    &&& forall|other: int|
        #![trigger after[other]]
        #![trigger redirect_in(after, other)]
        #![trigger children_in(after, other)]
        0 <= other < size ==> {
            &&& after[other].node == before[other].node
            &&& redirect_in(after, other) == redirect_in(before, other)
            &&& other != parent ==> children_in(after, other) == children_in(before, other)
        }
}

/// Keeping twice is keeping.
proof fn lemma_kept_trans(
    a: Seq<BuildNode>,
    b: Seq<BuildNode>,
    c: Seq<BuildNode>,
    size: int,
    parent: int,
    later: int,
)
    requires
        kept(a, b, size, parent),
        kept(b, c, b.len() as int, later),
        size <= later || later == parent,
    ensures
        kept(a, c, size, parent),
{
    assert forall|other: int|
        #![trigger c[other]]
        #![trigger redirect_in(c, other)]
        #![trigger children_in(c, other)]
        0 <= other < size implies {
        &&& c[other].node == a[other].node
        &&& redirect_in(c, other) == redirect_in(a, other)
        &&& other != parent ==> children_in(c, other) == children_in(a, other)
    } by {
        assert(b[other].node == a[other].node);
        assert(c[other].node == b[other].node);
    }
}

/// No node from `lo` on redirects.
pub open spec fn fresh_plain(arena: Seq<BuildNode>, lo: int) -> bool {
    forall|other: int| lo <= other < arena.len() ==> #[trigger] redirect_in(arena, other) is None
}

/// Every noted redirect belongs to a node of the arena at or after
/// `origin`.
pub open spec fn noted(redirects: Seq<(BuildNodeId, &Vec<String>)>, origin: int, size: int) -> bool {
    forall|e: int| 0 <= e < redirects.len() ==> origin <= (#[trigger] redirects[e]).0.idx() < size
}

/// The names that a redirect path holds.
pub open spec fn path_names(path: Seq<String>) -> Seq<Seq<char>> {
    Seq::new(path.len(), |i: int| path[i]@)
}

/// The noted redirects `after` are those of `before`, followed by redirects
/// of nodes in `[lo, hi)`.
pub open spec fn grown(
    before: Seq<(BuildNodeId, &Vec<String>)>,
    after: Seq<(BuildNodeId, &Vec<String>)>,
    lo: int,
    hi: int,
) -> bool {
    &&& before.len() <= after.len()
    &&& forall|e: int| 0 <= e < before.len() ==> #[trigger] after[e] == before[e]
    &&& forall|e: int|
        before.len() <= e < after.len() ==> lo <= (#[trigger] after[e]).0.idx() < hi
}

/// What is noted for the node at `id` is what its redirect path asks for:
/// the path itself, or nothing where the path is empty.
pub open spec fn entry_for(
    redirects: Seq<(BuildNodeId, &Vec<String>)>,
    id: int,
    path: Seq<String>,
) -> bool {
    if path.len() > 0 {
        exists|e: int|
            0 <= e < redirects.len() && (#[trigger] redirects[e]).0.idx() == id && redirects[e].1@
                == path
    } else {
        forall|e: int| 0 <= e < redirects.len() ==> (#[trigger] redirects[e]).0.idx() != id
    }
}

/// For every node imported for `list` under the node at `id`, the noted
/// redirects hold what its redirect path asks for.
pub open spec fn marked(
    arena: Seq<BuildNode>,
    id: int,
    list: Seq<(String, SchemaNode)>,
    redirects: Seq<(BuildNodeId, &Vec<String>)>,
) -> bool
    decreases list,
{
    forall|k: int|
        0 <= k < list.len() ==> {
            &&& entry_for(
                redirects,
                (#[trigger] children_in(arena, id)[list.len() - 1 - k]) as int,
                list[k].1.redirect@,
            )
            &&& marked(
                arena,
                children_in(arena, id)[list.len() - 1 - k] as int,
                list[k].1.children@,
                redirects,
            )
        }
}

/// What is noted stays noted where the arena keeps the children of the
/// nodes in `[lo, hi)` and of `id`, and the redirects noted since belong to
/// nodes outside `[lo, hi)`.
pub proof fn lemma_marked_frame(
    a: Seq<BuildNode>,
    b: Seq<BuildNode>,
    id: int,
    list: Seq<(String, SchemaNode)>,
    lo: int,
    hi: int,
    before: Seq<(BuildNodeId, &Vec<String>)>,
    after: Seq<(BuildNodeId, &Vec<String>)>,
)
    requires
        imported(a, id, list, lo, hi),
        marked(a, id, list, before),
        children_in(b, id) == children_in(a, id),
        forall|c: int| lo <= c < hi ==> #[trigger] children_in(b, c) == children_in(a, c),
        before.len() <= after.len(),
        forall|e: int| 0 <= e < before.len() ==> #[trigger] after[e] == before[e],
        forall|e: int|
            before.len() <= e < after.len() ==> !(lo <= (#[trigger] after[e]).0.idx() < hi),
    ensures
        marked(b, id, list, after),
    decreases list,
{
    assert forall|k: int| 0 <= k < list.len() implies {
        &&& entry_for(
            after,
            (#[trigger] children_in(b, id)[list.len() - 1 - k]) as int,
            list[k].1.redirect@,
        )
        &&& marked(b, children_in(b, id)[list.len() - 1 - k] as int, list[k].1.children@, after)
    } by {
        let c = children_in(a, id)[list.len() - 1 - k] as int;
        assert(lo <= c < hi);
        assert(entry_for(before, c, list[k].1.redirect@));
        lemma_entry_frame(before, after, c, list[k].1.redirect@, lo, hi);
        lemma_marked_frame(a, b, c, list[k].1.children@, lo, hi, before, after);
    }
}

/// What is noted for a node in `[lo, hi)` stays so where the redirects
/// noted since belong to nodes outside `[lo, hi)`.
pub proof fn lemma_entry_frame(
    before: Seq<(BuildNodeId, &Vec<String>)>,
    after: Seq<(BuildNodeId, &Vec<String>)>,
    id: int,
    path: Seq<String>,
    lo: int,
    hi: int,
)
    requires
        entry_for(before, id, path),
        lo <= id < hi,
        before.len() <= after.len(),
        forall|e: int| 0 <= e < before.len() ==> #[trigger] after[e] == before[e],
        forall|e: int|
            before.len() <= e < after.len() ==> !(lo <= (#[trigger] after[e]).0.idx() < hi),
    ensures
        entry_for(after, id, path),
{
    if path.len() > 0 {
        let e = choose|e: int|
            0 <= e < before.len() && (#[trigger] before[e]).0.idx() == id && before[e].1@ == path;
        assert(after[e] == before[e]);
    } else {
        assert forall|e: int| 0 <= e < after.len() implies (#[trigger] after[e]).0.idx() != id by {
            if e < before.len() {
                assert(after[e] == before[e]);
                assert(before[e].0.idx() != id);
            }
        }
    }
}

/// The node at `id` redirects as `path` asks: to the node that the path
/// reaches from the root, or not at all where the path is empty.
pub open spec fn leads(arena: Seq<BuildNode>, id: int, path: Seq<String>) -> bool {
    if path.len() > 0 {
        redirect_in(arena, id) matches Some(target) && find_path(arena, 0, path_names(path))
            == Some(target)
    } else {
        redirect_in(arena, id) is None
    }
}

/// Every node imported for `list` under the node at `id` redirects as the
/// catalogue asks.
pub open spec fn redirected(arena: Seq<BuildNode>, id: int, list: Seq<(String, SchemaNode)>) -> bool
    decreases list,
{
    forall|k: int|
        0 <= k < list.len() ==> {
            &&& leads(
                arena,
                (#[trigger] children_in(arena, id)[list.len() - 1 - k]) as int,
                list[k].1.redirect@,
            )
            &&& redirected(
                arena,
                children_in(arena, id)[list.len() - 1 - k] as int,
                list[k].1.children@,
            )
        }
}

/// The noted redirect `entry` has been carried out.
pub open spec fn applied(arena: Seq<BuildNode>, entry: (BuildNodeId, &Vec<String>)) -> bool {
    redirect_in(arena, entry.0.idx()) matches Some(target) && find_path(
        arena,
        0,
        path_names(entry.1@),
    ) == Some(target)
}

/// The node at `id` does not redirect, or one of the first `done` noted
/// redirects is its own.
pub open spec fn plain_or_noted(
    arena: Seq<BuildNode>,
    redirects: Seq<(BuildNodeId, &Vec<String>)>,
    done: int,
    id: int,
) -> bool {
    redirect_in(arena, id) is None || exists|e: int|
        0 <= e < done && (#[trigger] redirects[e]).0.idx() == id
}

/// Once every noted redirect has been carried out, and no other node in
/// `[lo, hi)` redirects, the nodes imported for `list` redirect as the
/// catalogue asks.
pub proof fn lemma_redirected(
    built: Seq<BuildNode>,
    arena: Seq<BuildNode>,
    id: int,
    list: Seq<(String, SchemaNode)>,
    lo: int,
    hi: int,
    redirects: Seq<(BuildNodeId, &Vec<String>)>,
)
    requires
        imported(built, id, list, lo, hi),
        marked(built, id, list, redirects),
        children_in(arena, id) == children_in(built, id),
        forall|c: int| lo <= c < hi ==> #[trigger] children_in(arena, c) == children_in(built, c),
        forall|e: int| 0 <= e < redirects.len() ==> applied(arena, #[trigger] redirects[e]),
        forall|c: int| lo <= c < hi ==> #[trigger] plain_or_noted(arena, redirects, redirects.len() as int, c),
    ensures
        redirected(arena, id, list),
    decreases list,
{
    assert forall|k: int| 0 <= k < list.len() implies {
        &&& leads(
            arena,
            (#[trigger] children_in(arena, id)[list.len() - 1 - k]) as int,
            list[k].1.redirect@,
        )
        &&& redirected(arena, children_in(arena, id)[list.len() - 1 - k] as int, list[k].1.children@)
    } by {
        let c = children_in(built, id)[list.len() - 1 - k] as int;
        let path = list[k].1.redirect@;
        assert(lo <= c < hi);
        assert(entry_for(redirects, c, path));
        if path.len() > 0 {
            let e = choose|e: int|
                0 <= e < redirects.len() && (#[trigger] redirects[e]).0.idx() == c
                    && redirects[e].1@ == path;
            assert(applied(arena, redirects[e]));
        } else {
            assert(plain_or_noted(arena, redirects, redirects.len() as int, c));
        }
        lemma_redirected(built, arena, c, list[k].1.children@, lo, hi, redirects);
    }
}

/// A schema node can be made for every node of the catalogue in and below
/// `list`.
pub open spec fn all_makeable(list: Seq<(String, SchemaNode)>) -> bool
    decreases list,
{
    forall|k: int|
        0 <= k < list.len() ==> makeable((#[trigger] list[k]).0@, list[k].1) && all_makeable(
            list[k].1.children@,
        )
}

/// No node of the catalogue in or below `list` has a redirect path.
pub open spec fn no_redirects(list: Seq<(String, SchemaNode)>) -> bool
    decreases list,
{
    forall|k: int|
        0 <= k < list.len() ==> (#[trigger] list[k]).1.redirect@.len() == 0 && no_redirects(
            list[k].1.children@,
        )
}

/// The number of nodes of the catalogue in and below the first `n` of
/// `list`.
pub open spec fn node_count(list: Seq<(String, SchemaNode)>, n: int) -> int
    decreases list, n,
{
    if n <= 0 || n > list.len() {
        0
    } else {
        node_count(list, n - 1) + 1 + node_count(
            list[n - 1].1.children@,
            list[n - 1].1.children@.len() as int,
        )
    }
}

/// The number of nodes of the catalogue in and below `list`.
pub open spec fn total(list: Seq<(String, SchemaNode)>) -> int {
    node_count(list, list.len() as int)
}

/// The first `n` of a list hold at least `n` nodes, and the nodes below
/// them grow in number with `n`.
pub proof fn lemma_node_count(list: Seq<(String, SchemaNode)>, m: int, n: int)
    requires
        0 <= m <= n <= list.len(),
    ensures
        0 <= m <= node_count(list, m),
        node_count(list, m) - m <= node_count(list, n) - n,
    decreases list, n,
{
    if n > 0 {
        let below = list[n - 1].1.children@;
        lemma_node_count(below, 0, below.len() as int);
        if m < n {
            lemma_node_count(list, m, n - 1);
        } else {
            lemma_node_count(list, n - 1, n - 1);
        }
    }
}

/// A noted redirect: the position of the node that redirects and the
/// names of its path.
pub type Noted = (int, Seq<Seq<char>>);

/// The redirects noted, each as the position of its node and the names of
/// its path.
pub open spec fn queue_view(redirects: Seq<(BuildNodeId, &Vec<String>)>) -> Seq<Noted> {
    Seq::new(redirects.len(), |e: int| (redirects[e].0.idx(), path_names(redirects[e].1@)))
}

/// The positions of the nodes imported for `list` under the node at `id`,
/// in the order of `list`.
pub open spec fn child_ids(arena: Seq<BuildNode>, id: int, list: Seq<(String, SchemaNode)>) -> Seq<
    int,
> {
    Seq::new(list.len(), |k: int| children_in(arena, id)[list.len() - 1 - k] as int)
}

/// The redirects of the first `n` nodes of `list`, which stand at the
/// positions `ids`, in the order of `list`.
pub open spec fn noted_siblings(ids: Seq<int>, list: Seq<(String, SchemaNode)>, n: int) -> Seq<Noted>
    decreases n,
{
    if n <= 0 || n > list.len() {
        Seq::empty()
    } else if list[n - 1].1.redirect@.len() > 0 {
        noted_siblings(ids, list, n - 1).push((ids[n - 1], path_names(list[n - 1].1.redirect@)))
    } else {
        noted_siblings(ids, list, n - 1)
    }
}

/// The redirects of all nodes below the first `n` nodes of `list`, which
/// stand at the positions `ids`: for one node after the other, those of its
/// children, then those of all that is below them.
pub open spec fn noted_below(
    arena: Seq<BuildNode>,
    ids: Seq<int>,
    list: Seq<(String, SchemaNode)>,
    n: int,
) -> Seq<Noted>
    decreases list, n,
{
    if n <= 0 || n > list.len() {
        Seq::empty()
    } else {
        let sub = list[n - 1].1.children@;
        let under = child_ids(arena, ids[n - 1], sub);
        noted_below(arena, ids, list, n - 1) + (noted_siblings(under, sub, sub.len() as int)
            + noted_below(arena, under, sub, sub.len() as int))
    }
}

/// The redirects of the nodes imported for `list` under the node at `id`,
/// in the order in which they are carried out: those of the nodes of `list`
/// first, then those of all that is below them.
pub open spec fn queue_in(arena: Seq<BuildNode>, id: int, list: Seq<(String, SchemaNode)>) -> Seq<
    Noted,
> {
    noted_siblings(child_ids(arena, id, list), list, list.len() as int) + noted_below(
        arena,
        child_ids(arena, id, list),
        list,
        list.len() as int,
    )
}

/// The redirects below imported nodes stay the same where the arena keeps
/// the children of those nodes and of the nodes in `[lo, hi)`.
pub proof fn lemma_below_frame(
    a: Seq<BuildNode>,
    b: Seq<BuildNode>,
    ids: Seq<int>,
    list: Seq<(String, SchemaNode)>,
    n: int,
    lo: int,
    hi: int,
)
    requires
        0 <= n <= list.len(),
        ids.len() == list.len(),
        forall|k: int|
            0 <= k < n ==> #[trigger] imported(a, ids[k], list[k].1.children@, lo, hi)
                && children_in(b, ids[k]) == children_in(a, ids[k]),
        forall|c: int| lo <= c < hi ==> #[trigger] children_in(b, c) == children_in(a, c),
    ensures
        noted_below(b, ids, list, n) == noted_below(a, ids, list, n),
    decreases list, n,
{
    if n > 0 {
        lemma_below_frame(a, b, ids, list, n - 1, lo, hi);
        let sub = list[n - 1].1.children@;
        let under = child_ids(a, ids[n - 1], sub);
        assert(imported(a, ids[n - 1], sub, lo, hi));
        assert(child_ids(b, ids[n - 1], sub) =~= under);
        assert forall|k: int| 0 <= k < sub.len() implies #[trigger] imported(
            a,
            under[k],
            sub[k].1.children@,
            lo,
            hi,
        ) && children_in(b, under[k]) == children_in(a, under[k]) by {
            let c = children_in(a, ids[n - 1])[sub.len() - 1 - k];
            assert(lo <= c < hi);
            assert(under[k] == c as int);
        }
        lemma_below_frame(a, b, under, sub, sub.len() as int, lo, hi);
    }
}

/// What becomes of the arena when the noted redirects from the `i`th on are
/// carried out one after the other: the arena in which each node redirects
/// to the node that its path reaches at its turn, or the error of the first
/// redirect that cannot be carried out.
pub open spec fn lead_from(arena: Seq<BuildNode>, queue: Seq<Noted>, i: int) -> Result<
    Seq<BuildNode>,
    ImportError,
>
    decreases queue.len() - i,
{
    if i < 0 || i >= queue.len() {
        Ok(arena)
    } else {
        match find_path(arena, 0, queue[i].1) {
            None => Err(ImportError::UnknownRedirectTarget),
            Some(target) => if may_redirect(arena, queue[i].0, target) {
                lead_from(with_redirect(arena, queue[i].0, target), queue, i + 1)
            } else {
                Err(ImportError::InvalidRedirect)
            },
        }
    }
}

/// The arena `built` is `before` with the nodes of the catalogue `list`
/// added under the root, none of them redirecting yet.
pub open spec fn staged(
    before: Seq<BuildNode>,
    list: Seq<(String, SchemaNode)>,
    built: Seq<BuildNode>,
) -> bool {
    &&& kept(before, built, before.len() as int, 0)
    &&& built.len() == before.len() + total(list)
    &&& fresh_plain(built, before.len() as int)
    &&& imported(built, 0, list, before.len() as int, built.len() as int)
    &&& children_in(built, 0).len() == children_in(before, 0).len() + list.len()
}

/// The catalogue `schema` can be added to a build tree of `size` nodes: it
/// is a root that neither ends a command nor redirects, a schema node can
/// be made for every node below it, and the tree has room for them.
pub open spec fn sound(schema: SchemaNode, size: int) -> bool {
    &&& schema.kind is Root
    &&& !schema.executable
    &&& schema.redirect@.len() == 0
    &&& all_makeable(schema.children@)
    &&& size + total(schema.children@) <= NO_NODE - 2
}

/// The result `r` and the arena left are what `outcome` says: the arena
/// that it gives, or its error.
pub open spec fn settled(
    r: Result<(), ImportError>,
    arena: Seq<BuildNode>,
    outcome: Result<Seq<BuildNode>, ImportError>,
) -> bool {
    match outcome {
        Ok(led) => r is Ok && arena == led,
        Err(e) => r == Err::<(), ImportError>(e),
    }
}

/// Adds the children `list` of a node of the catalogue, with all that is
/// below them, under the node at `parent`, and notes the redirects found.
fn import_children<'a>(
    list: &'a Vec<(String, SchemaNode)>,
    parent: BuildNodeId,
    tree: &mut BuildTree,
    redirects: &mut Vec<(BuildNodeId, &'a Vec<String>)>,
    Ghost(origin): Ghost<int>,
) -> (r: Result<(), ImportError>)
    requires
        old(tree).wf(),
        parent.idx() < old(tree).size(),
        old(tree).redirect_of(parent.idx()) is None,
        origin <= old(tree).size(),
        noted(old(redirects)@, origin, old(tree).size() as int),
    ensures
        final(tree).wf(),
        kept(old(tree).arena(), final(tree).arena(), old(tree).size() as int, parent.idx()),
        fresh_plain(final(tree).arena(), old(tree).size() as int),
        noted(final(redirects)@, origin, final(tree).size() as int),
        grown(
            old(redirects)@,
            final(redirects)@,
            old(tree).size() as int,
            final(tree).size() as int,
        ),
        r is Ok ==> imported(
            final(tree).arena(),
            parent.idx(),
            list@,
            old(tree).size() as int,
            final(tree).size() as int,
        ) && final(tree).children(parent.idx()).len() == old(tree).children(parent.idx()).len()
            + list@.len(),
        r is Ok ==> marked(final(tree).arena(), parent.idx(), list@, final(redirects)@),
        r is Ok ==> final(tree).size() == old(tree).size() + total(list@),
        r is Ok ==> all_makeable(list@),
        r is Ok ==> queue_view(final(redirects)@) == queue_view(old(redirects)@) + queue_in(
            final(tree).arena(),
            parent.idx(),
            list@,
        ),
        r is Err ==> !all_makeable(list@) || old(tree).size() + total(list@) > NO_NODE - 2,
        no_redirects(list@) ==> final(redirects)@ == old(redirects)@,
    decreases list,
{
    let ghost start = tree.arena();
    let ghost noted_start = redirects@;
    let ghost places = Seq::new(list@.len(), |j: int| old(tree).size() + j);
    proof {
        assert(queue_view(redirects@) =~= queue_view(noted_start) + noted_siblings(places, list@, 0));
    }
    let ghost base = tree.size() as int;
    let ghost old_kids = tree.children(parent.idx());
    let mut ids: Vec<BuildNodeId> = Vec::new();
    proof {
        parent.lemma_idx();
    }
    let mut k: usize = 0;
    while k < list.len()
        invariant
            k <= list@.len(),
            tree.wf(),
            start == old(tree).arena(),
            base == old(tree).size(),
            0 <= parent.idx() < base,
            redirect_in(start, parent.idx()) is None,
            tree.size() == base + k,
            ids@.len() == k,
            kept(start, tree.arena(), base, parent.idx()),
            fresh_plain(tree.arena(), base),
            origin <= base,
            noted(redirects@, origin, tree.size() as int),
            noted_start == old(redirects)@,
            noted(noted_start, origin, base),
            grown(noted_start, redirects@, base, tree.size() as int),
            no_redirects(list@) ==> redirects@ == noted_start,
            places == Seq::new(list@.len(), |j: int| base + j),
            queue_view(redirects@) == queue_view(noted_start) + noted_siblings(
                places,
                list@,
                k as int,
            ),
            forall|j: int| 0 <= j < k ==> makeable((#[trigger] list@[j]).0@, list@[j].1),
            forall|j: int|
                0 <= j < k ==> #[trigger] entry_for(redirects@, base + j, list@[j].1.redirect@),
            tree.children(parent.idx()).len() == old(tree).children(parent.idx()).len() + k,
            forall|j: int| 0 <= j < k ==> (#[trigger] ids@[j]).idx() == base + j,
            forall|j: int|
                0 <= j < k ==> #[trigger] tree.children(parent.idx())[k - 1 - j] == base + j,
            forall|j: int|
                0 <= j < k ==> node_matches(
                    (#[trigger] tree.arena()[base + j]).node,
                    list@[j].0@,
                    list@[j].1,
                ),
            forall|j: int| 0 <= j < k ==> (#[trigger] tree.children(base + j)).len() == 0,
        decreases list@.len() - k,
    {
        let name = list[k].0.as_str();
        let child = &list[k].1;
        let node = match make_node(name, child) {
            Ok(node) => node,
            Err(e) => {
                proof {
                    assert(!makeable(list@[k as int].0@, list@[k as int].1));
                }
                return Err(e);
            },
        };
        if tree.len() >= NO_NODE - 2 {
            proof {
                lemma_node_count(list@, list@.len() as int, list@.len() as int);
            }
            return Err(ImportError::TooManyNodes);
        }
        let ghost before = tree.arena();
        let ghost kids_before = tree.children(parent.idx());
        let ghost noted_before = redirects@;
        proof {
            assert(redirect_in(start, parent.idx()) is None);
            assert(redirect_in(before, parent.idx()) == redirect_in(start, parent.idx()));
        }
        let id = tree.insert(parent, node);
        if child.redirect.len() > 0 {
            redirects.push((id, &child.redirect));
        }
        ids.push(id);
        proof {
            let after = tree.arena();
            let kids = tree.children(parent.idx());
            assert(kids == seq![id.idx() as usize] + kids_before);
            assert(queue_view(redirects@) =~= queue_view(noted_start) + noted_siblings(
                places,
                list@,
                k + 1,
            )) by {
                let sofar = noted_siblings(places, list@, k as int);
                assert(places[k as int] == id.idx());
                if list@[k as int].1.redirect@.len() > 0 {
                    let entry = (id.idx(), path_names(list@[k as int].1.redirect@));
                    assert(redirects@ == noted_before.push((id, &list@[k as int].1.redirect)));
                    assert(queue_view(redirects@) =~= queue_view(noted_before).push(entry));
                    assert((queue_view(noted_start) + sofar).push(entry) =~= queue_view(
                        noted_start,
                    ) + sofar.push(entry));
                } else {
                    assert(redirects@ == noted_before);
                }
            }
            assert(kept(before, after, before.len() as int, parent.idx())) by {
                assert forall|other: int|
                    #![trigger after[other]]
                    #![trigger redirect_in(after, other)]
                    #![trigger children_in(after, other)]
                    0 <= other < before.len() implies {
                    &&& after[other].node == before[other].node
                    &&& redirect_in(after, other) == redirect_in(before, other)
                    &&& other != parent.idx() ==> children_in(after, other) == children_in(
                        before,
                        other,
                    )
                } by {
                    assert(tree.node(other) == before[other].node);
                }
            }
            lemma_kept_trans(start, before, after, base, parent.idx(), parent.idx());
            assert(fresh_plain(after, base)) by {
                assert forall|other: int| base <= other < after.len() implies #[trigger] redirect_in(
                    after,
                    other,
                ) is None by {
                    if other < before.len() {
                        assert(redirect_in(before, other) is None);
                        assert(tree.redirect_of(other) == redirect_in(before, other));
                    }
                }
            }
            assert(noted(redirects@, origin, tree.size() as int)) by {
                assert forall|e: int| 0 <= e < redirects@.len() implies origin <= (
                #[trigger] redirects@[e]).0.idx() < tree.size() by {
                    if e < noted_before.len() {
                        assert(noted_before[e].0.idx() < before.len());
                    }
                }
            }
            assert(grown(noted_start, redirects@, base, tree.size() as int)) by {
                assert forall|e: int| 0 <= e < noted_start.len() implies #[trigger] redirects@[e]
                    == noted_start[e] by {
                    assert(noted_before[e] == noted_start[e]);
                }
                assert forall|e: int| noted_start.len() <= e < redirects@.len() implies base <= (
                #[trigger] redirects@[e]).0.idx() < tree.size() by {
                    if e < noted_before.len() {
                        assert(base <= noted_before[e].0.idx() < before.len());
                    }
                }
            }
            assert forall|j: int| 0 <= j < k + 1 implies #[trigger] entry_for(
                redirects@,
                base + j,
                list@[j].1.redirect@,
            ) by {
                if j < k {
                    assert(entry_for(noted_before, base + j, list@[j].1.redirect@));
                    if list@[j].1.redirect@.len() > 0 {
                        let e = choose|e: int|
                            0 <= e < noted_before.len() && (#[trigger] noted_before[e]).0.idx()
                                == base + j && noted_before[e].1@ == list@[j].1.redirect@;
                        assert(redirects@[e] == noted_before[e]);
                    } else {
                        assert forall|e: int| 0 <= e < redirects@.len() implies (
                        #[trigger] redirects@[e]).0.idx() != base + j by {
                            if e < noted_before.len() {
                                assert(redirects@[e] == noted_before[e]);
                                assert(noted_before[e].0.idx() != base + j);
                            }
                        }
                    }
                } else {
                    if list@[j].1.redirect@.len() > 0 {
                        let e = noted_before.len() as int;
                        assert(redirects@[e].0.idx() == base + k);
                        assert(redirects@[e].1@ == list@[j].1.redirect@);
                    } else {
                        assert forall|e: int| 0 <= e < redirects@.len() implies (
                        #[trigger] redirects@[e]).0.idx() != base + j by {
                            if e < noted_start.len() {
                                assert(noted_before[e] == noted_start[e]);
                                assert(noted_start[e].0.idx() < base);
                            } else {
                                assert(noted_before[e].0.idx() < before.len());
                            }
                        }
                    }
                }
            }
            assert forall|j: int| 0 <= j < k + 1 implies #[trigger] tree.children(
                parent.idx(),
            )[k - j] == base + j by {
                if j < k {
                    assert(kids[k - j] == kids_before[k - 1 - j]);
                }
            }
            assert forall|j: int| 0 <= j < k + 1 implies node_matches(
                (#[trigger] tree.arena()[base + j]).node,
                list@[j].0@,
                list@[j].1,
            ) by {
                if j < k {
                    assert(after[base + j].node == before[base + j].node);
                }
            }
            assert forall|j: int| 0 <= j < k + 1 implies (#[trigger] tree.children(
                base + j,
            )).len() == 0 by {
                if j < k {
                    assert(children_in(after, base + j) == children_in(before, base + j));
                }
            }
        }
        k += 1;
    }
    let ghost filled = tree.arena();
    let ghost top = tree.size() as int;
    let ghost kids = tree.children(parent.idx());
    let mut k: usize = 0;
    while k < list.len()
        invariant
            k <= list@.len(),
            ids@.len() == list@.len(),
            tree.wf(),
            start == old(tree).arena(),
            base == old(tree).size(),
            0 <= parent.idx() < base,
            redirect_in(start, parent.idx()) is None,
            top == base + list@.len(),
            top <= tree.size(),
            filled.len() == top,
            kept(start, tree.arena(), base, parent.idx()),
            fresh_plain(tree.arena(), base),
            origin <= base,
            noted(redirects@, origin, tree.size() as int),
            noted_start == old(redirects)@,
            grown(noted_start, redirects@, base, tree.size() as int),
            no_redirects(list@) ==> redirects@ == noted_start,
            places == Seq::new(list@.len(), |j: int| base + j),
            queue_view(redirects@) == queue_view(noted_start) + noted_siblings(
                places,
                list@,
                list@.len() as int,
            ) + noted_below(tree.arena(), places, list@, k as int),
            tree.size() == top + node_count(list@, k as int) - k,
            forall|j: int| 0 <= j < list@.len() ==> makeable((#[trigger] list@[j]).0@, list@[j].1),
            forall|j: int| 0 <= j < k ==> all_makeable((#[trigger] list@[j]).1.children@),
            forall|j: int|
                0 <= j < list@.len() ==> #[trigger] entry_for(
                    redirects@,
                    base + j,
                    list@[j].1.redirect@,
                ),
            forall|j: int|
                0 <= j < k ==> #[trigger] marked(
                    tree.arena(),
                    base + j,
                    list@[j].1.children@,
                    redirects@,
                ),
            tree.children(parent.idx()) == kids,
            kids.len() == old(tree).children(parent.idx()).len() + list@.len(),
            forall|j: int| 0 <= j < list@.len() ==> (#[trigger] ids@[j]).idx() == base + j,
            forall|j: int| 0 <= j < list@.len() ==> #[trigger] kids[list@.len() - 1 - j] == base + j,
            forall|j: int|
                0 <= j < list@.len() ==> node_matches(
                    (#[trigger] tree.arena()[base + j]).node,
                    list@[j].0@,
                    list@[j].1,
                ),
            forall|j: int|
                k <= j < list@.len() ==> (#[trigger] tree.children(base + j)).len() == 0,
            forall|j: int|
                0 <= j < k ==> #[trigger] imported(
                    tree.arena(),
                    base + j,
                    list@[j].1.children@,
                    top,
                    tree.size() as int,
                ),
            forall|j: int|
                0 <= j < k ==> (#[trigger] tree.children(base + j)).len()
                    == list@[j].1.children@.len(),
        decreases list@.len() - k,
    {
        let ghost before = tree.arena();
        let ghost pre = *tree;
        let ghost size_before = tree.size() as int;
        let ghost noted_before = redirects@;
        let id = ids[k];
        proof {
            assert(ids@[k as int].idx() == base + k);
            assert(redirect_in(before, base + k) is None);
        }
        let outcome = import_children(&list[k].1.children, id, tree, redirects, Ghost(origin));
        proof {
            let after = tree.arena();
            assert(kept(before, after, size_before, id.idx()));
            lemma_kept_trans(start, before, after, base, parent.idx(), id.idx());
            assert(fresh_plain(after, base)) by {
                assert forall|other: int| base <= other < after.len() implies #[trigger] redirect_in(
                    after,
                    other,
                ) is None by {
                    if other < size_before {
                        assert(redirect_in(before, other) is None);
                    }
                }
            }
            assert(children_in(after, parent.idx()) == children_in(before, parent.idx()));
            assert(grown(noted_start, redirects@, base, tree.size() as int)) by {
                assert forall|e: int| 0 <= e < noted_start.len() implies #[trigger] redirects@[e]
                    == noted_start[e] by {
                    assert(noted_before[e] == noted_start[e]);
                }
                assert forall|e: int| noted_start.len() <= e < redirects@.len() implies base <= (
                #[trigger] redirects@[e]).0.idx() < tree.size() by {
                    if e < noted_before.len() {
                        assert(redirects@[e] == noted_before[e]);
                        assert(base <= noted_before[e].0.idx() < size_before);
                    }
                }
            }
            assert forall|j: int| 0 <= j < list@.len() implies node_matches(
                (#[trigger] tree.arena()[base + j]).node,
                list@[j].0@,
                list@[j].1,
            ) by {
                assert(after[base + j].node == before[base + j].node);
            }
        }
        match outcome {
            Ok(()) => {},
            Err(e) => {
                proof {
                    let below = list@[k as int].1.children@;
                    lemma_node_count(list@, k + 1, list@.len() as int);
                    assert(node_count(list@, k + 1) == node_count(list@, k as int) + 1 + total(
                        below,
                    ));
                    if all_makeable(list@) {
                        assert(all_makeable(below));
                    }
                }
                return Err(e);
            },
        }
        proof {
            let after = tree.arena();
            assert(node_count(list@, k + 1) == node_count(list@, k as int) + 1 + total(
                list@[k as int].1.children@,
            ));
            assert(no_redirects(list@) ==> no_redirects(list@[k as int].1.children@));
            assert(queue_view(redirects@) =~= queue_view(noted_start) + noted_siblings(
                places,
                list@,
                list@.len() as int,
            ) + noted_below(after, places, list@, k + 1)) by {
                let sub = list@[k as int].1.children@;
                assert forall|j: int| 0 <= j < k implies #[trigger] imported(
                    before,
                    places[j],
                    list@[j].1.children@,
                    top,
                    size_before,
                ) && children_in(after, places[j]) == children_in(before, places[j]) by {
                    assert(imported(before, base + j, list@[j].1.children@, top, size_before));
                    assert(children_in(after, base + j) == children_in(before, base + j));
                }
                assert forall|c: int| top <= c < size_before implies #[trigger] children_in(
                    after,
                    c,
                ) == children_in(before, c) by {}
                lemma_below_frame(before, after, places, list@, k as int, top, size_before);
                assert(places[k as int] == base + k);
                let head = queue_view(noted_start) + noted_siblings(
                    places,
                    list@,
                    list@.len() as int,
                );
                let old_below = noted_below(before, places, list@, k as int);
                let added = queue_in(after, base + k, sub);
                assert(queue_view(noted_before) == head + old_below);
                assert(queue_view(redirects@) == queue_view(noted_before) + added);
                assert(noted_below(after, places, list@, k + 1) == old_below + added);
                assert((head + old_below) + added =~= head + (old_below + added));
            }
            assert forall|j: int| k < j < list@.len() implies (#[trigger] tree.children(
                base + j,
            )).len() == 0 by {
                assert(pre.children(base + j).len() == 0);
                assert(children_in(after, base + j) == children_in(before, base + j));
            }
            lemma_imported_frame(
                after,
                after,
                base + k,
                list@[k as int].1.children@,
                size_before,
                tree.size() as int,
                top,
                tree.size() as int,
            );
            assert forall|j: int| 0 <= j < k implies #[trigger] imported(
                after,
                base + j,
                list@[j].1.children@,
                top,
                tree.size() as int,
            ) by {
                assert(imported(before, base + j, list@[j].1.children@, top, size_before));
                assert(children_in(after, base + j) == children_in(before, base + j));
                lemma_imported_frame(
                    before,
                    after,
                    base + j,
                    list@[j].1.children@,
                    top,
                    size_before,
                    top,
                    tree.size() as int,
                );
            }
            assert forall|j: int| 0 <= j < k + 1 implies (#[trigger] tree.children(
                base + j,
            )).len() == list@[j].1.children@.len() by {
                if j < k {
                    assert(children_in(after, base + j) == children_in(before, base + j));
                    assert(pre.children(base + j).len() == list@[j].1.children@.len());
                } else {
                    assert(pre.children(base + k).len() == 0);
                }
            }
            assert forall|j: int| 0 <= j < list@.len() implies #[trigger] entry_for(
                redirects@,
                base + j,
                list@[j].1.redirect@,
            ) by {
                assert(entry_for(noted_before, base + j, list@[j].1.redirect@));
                lemma_entry_frame(
                    noted_before,
                    redirects@,
                    base + j,
                    list@[j].1.redirect@,
                    base,
                    top,
                );
            }
            assert forall|j: int| 0 <= j < k implies #[trigger] marked(
                after,
                base + j,
                list@[j].1.children@,
                redirects@,
            ) by {
                assert(imported(before, base + j, list@[j].1.children@, top, size_before));
                assert(marked(before, base + j, list@[j].1.children@, noted_before));
                assert(children_in(after, base + j) == children_in(before, base + j));
                lemma_marked_frame(
                    before,
                    after,
                    base + j,
                    list@[j].1.children@,
                    top,
                    size_before,
                    noted_before,
                    redirects@,
                );
            }
        }
        k += 1;
    }
    proof {
        let after = tree.arena();
        let n = list@.len() as int;
        assert forall|j: int| 0 <= j < n implies {
            &&& base <= (#[trigger] children_in(after, parent.idx())[n - 1 - j]) < tree.size()
            &&& tree.size() <= after.len()
            &&& node_matches(
                after[children_in(after, parent.idx())[n - 1 - j] as int].node,
                list@[j].0@,
                list@[j].1,
            )
            &&& imported(
                after,
                children_in(after, parent.idx())[n - 1 - j] as int,
                list@[j].1.children@,
                base,
                tree.size() as int,
            )
            &&& children_in(after, children_in(after, parent.idx())[n - 1 - j] as int).len()
                == list@[j].1.children@.len()
        } by {
            assert(kids[n - 1 - j] == base + j);
            assert(node_matches(after[base + j].node, list@[j].0@, list@[j].1));
            assert(imported(after, base + j, list@[j].1.children@, top, tree.size() as int));
            assert(tree.children(base + j).len() == list@[j].1.children@.len());
            lemma_imported_frame(
                after,
                after,
                base + j,
                list@[j].1.children@,
                top,
                tree.size() as int,
                base,
                tree.size() as int,
            );
        }
        assert(child_ids(after, parent.idx(), list@) =~= places) by {
            assert forall|j: int| 0 <= j < n implies child_ids(after, parent.idx(), list@)[j]
                == places[j] by {
                assert(kids[n - 1 - j] == base + j);
            }
        }
        assert forall|j: int| 0 <= j < n implies {
            &&& entry_for(
                redirects@,
                (#[trigger] children_in(after, parent.idx())[n - 1 - j]) as int,
                list@[j].1.redirect@,
            )
            &&& marked(
                after,
                children_in(after, parent.idx())[n - 1 - j] as int,
                list@[j].1.children@,
                redirects@,
            )
        } by {
            assert(kids[n - 1 - j] == base + j);
            assert(entry_for(redirects@, base + j, list@[j].1.redirect@));
            assert(marked(after, base + j, list@[j].1.children@, redirects@));
        }
    }
    Ok(())
}

/// The names of `path` as string slices.
fn as_names(path: &Vec<String>) -> (names: Vec<&str>)
    ensures
        names@.len() == path@.len(),
        forall|i: int| 0 <= i < path@.len() ==> (#[trigger] names@[i])@ == path@[i]@,
{
    let mut names: Vec<&str> = Vec::new();
    let mut i: usize = 0;
    while i < path.len()
        invariant
            i <= path@.len(),
            names@.len() == i,
            forall|k: int| 0 <= k < i ==> (#[trigger] names@[k])@ == path@[k]@,
        decreases path@.len() - i,
    {
        names.push(path[i].as_str());
        i += 1;
    }
    names
}

/// The node at `source` may come to share the children of the node at
/// `target`: they are two nodes, neither redirects, `source` has no
/// children, and no node redirects to `source`.
pub open spec fn may_redirect(arena: Seq<BuildNode>, source: int, target: int) -> bool {
    &&& source != target
    &&& redirect_in(arena, target) is None
    &&& redirect_in(arena, source) is None
    &&& children_in(arena, source).len() == 0
    &&& forall|other: int|
        0 <= other < arena.len() ==> #[trigger] redirect_in(arena, other) != Some(source)
}

/// Lets the node at `source` share the children of the node that `path`
/// names from the root. Where the path names no node, or the node named
/// cannot be shared with `source`, the tree stays as it is.
pub fn lead(tree: &mut BuildTree, source: BuildNodeId, path: &[&str]) -> (r: Result<
    (),
    ImportError,
>)
    requires
        old(tree).wf(),
        source.idx() < old(tree).size(),
    ensures
        final(tree).wf(),
        match find_path(old(tree).arena(), 0, names_of(path@)) {
            None => r == Err::<(), ImportError>(ImportError::UnknownRedirectTarget) && *final(tree)
                == *old(tree),
            Some(target) => if may_redirect(old(tree).arena(), source.idx(), target) {
                &&& r is Ok
                &&& final(tree).arena() == with_redirect(old(tree).arena(), source.idx(), target)
                &&& final(tree).size() == old(tree).size()
                &&& final(tree).redirect_of(source.idx()) == Some(target)
                &&& final(tree).children(source.idx()) == old(tree).children(source.idx())
                &&& forall|other: int|
                    #![trigger final(tree).node(other)]
                    #![trigger final(tree).redirect_of(other)]
                    #![trigger final(tree).children(other)]
                    0 <= other < old(tree).size() ==> {
                        &&& final(tree).node(other) == old(tree).node(other)
                        &&& other != source.idx() ==> final(tree).redirect_of(other) == old(
                            tree,
                        ).redirect_of(other)
                        &&& other != source.idx() ==> final(tree).children(other) == old(
                            tree,
                        ).children(other)
                    }
            } else {
                r == Err::<(), ImportError>(ImportError::InvalidRedirect) && *final(tree) == *old(
                    tree,
                )
            },
        },
{
    let target = match tree.find_node_id(path) {
        Some(target) => target,
        None => {
            return Err(ImportError::UnknownRedirectTarget);
        },
    };
    proof {
        source.lemma_idx();
        target.lemma_idx();
    }
    if source.index() == target.index() || tree.is_redirecting(target) || tree.is_redirecting(
        source,
    ) || tree.child_count(source) != 0 || tree.is_redirect_target(source) {
        proof {
            if tree.redirect_of(source.idx()) is None && source.idx() != target.idx()
                && tree.redirect_of(target.idx()) is None && tree.children(source.idx()).len()
                == 0 {
                let other = choose|other: int|
                    0 <= other < tree.size() && #[trigger] tree.redirect_of(other) == Some(
                        source.idx(),
                    );
                assert(redirect_in(tree.arena(), other) == Some(source.idx()));
            }
        }
        return Err(ImportError::InvalidRedirect);
    }
    proof {
        assert(source != target) by {
            if source == target {
                assert(source.idx() == target.idx());
            }
        }
        assert forall|other: int| 0 <= other < tree.size() implies #[trigger] redirect_in(
            tree.arena(),
            other,
        ) != Some(source.idx()) by {
            assert(tree.redirect_of(other) != Some(source.idx()));
        }
    }
    tree.redirect(source, target);
    Ok(())
}

/// Adds the schema that the catalogue `schema` describes to `tree`, under
/// its root: every node of the catalogue becomes a node of the tree, and
/// then every redirect is led to the node that its path names, one after
/// the other, those of a node's children before those of what is below
/// them. The first redirect that cannot be carried out ends the import with
/// its error.
pub fn import(schema: &SchemaNode, tree: &mut BuildTree) -> (r: Result<(), ImportError>)
    requires
        old(tree).wf(),
        old(tree).redirect_of(0) is None,
    ensures
        final(tree).wf(),
        final(tree).redirect_of(0) is None,
        !(schema.kind is Root) ==> r == Err::<(), ImportError>(ImportError::RootExpected),
        schema.kind is Root && schema.executable ==> r == Err::<(), ImportError>(
            ImportError::RootExecutable,
        ),
        schema.kind is Root && !schema.executable && schema.redirect@.len() > 0 ==> r == Err::<
            (),
            ImportError,
        >(ImportError::RootRedirect),
        old(tree).size() <= final(tree).size(),
        forall|other: int|
            #![trigger final(tree).node(other)]
            #![trigger final(tree).redirect_of(other)]
            #![trigger final(tree).children(other)]
            0 <= other < old(tree).size() ==> {
                &&& final(tree).node(other) == old(tree).node(other)
                &&& final(tree).redirect_of(other) == old(tree).redirect_of(other)
                &&& other != 0 ==> final(tree).children(other) == old(tree).children(other)
            },
        r is Ok ==> imported(
            final(tree).arena(),
            0,
            schema.children@,
            old(tree).size() as int,
            final(tree).size() as int,
        ),
        r is Ok ==> redirected(final(tree).arena(), 0, schema.children@),
        r is Ok ==> all_makeable(schema.children@) && final(tree).size() == old(tree).size()
            + total(schema.children@) && final(tree).children(0).len() == old(tree).children(
            0,
        ).len() + schema.children@.len(),
        schema.kind is Root && !schema.executable && schema.redirect@.len() == 0 && all_makeable(
            schema.children@,
        ) && old(tree).size() + total(schema.children@) <= NO_NODE - 2 ==> (r matches Err(e)
            ==> (e == ImportError::UnknownRedirectTarget || e == ImportError::InvalidRedirect)
            && !no_redirects(schema.children@)),
        r is Ok || sound(*schema, old(tree).size() as int) ==> exists|built: Seq<BuildNode>| #[trigger]
            staged(old(tree).arena(), schema.children@, built) && settled(
                r,
                final(tree).arena(),
                lead_from(built, queue_in(built, 0, schema.children@), 0),
            ),
{
    match &schema.kind {
        SchemaKind::Root => {},
        _ => {
            return Err(ImportError::RootExpected);
        },
    }
    if schema.executable {
        return Err(ImportError::RootExecutable);
    }
    if schema.redirect.len() > 0 {
        return Err(ImportError::RootRedirect);
    }
    let ghost start = tree.arena();
    let ghost base = tree.size() as int;
    let mut redirects: Vec<(BuildNodeId, &Vec<String>)> = Vec::new();
    let root = BuildNodeId::root();
    let outcome = import_children(&schema.children, root, tree, &mut redirects, Ghost(base));
    match outcome {
        Ok(()) => {},
        Err(e) => {
            return Err(e);
        },
    }
    let ghost built = tree.arena();
    let ghost top = tree.size() as int;
    let ghost queue = queue_view(redirects@);
    proof {
        assert(queue_view(Seq::<(BuildNodeId, &Vec<String>)>::empty()) + queue_in(
            built,
            0,
            schema.children@,
        ) =~= queue_in(built, 0, schema.children@));
        assert(staged(start, schema.children@, built));
    }
    let mut i: usize = 0;
    while i < redirects.len()
        invariant
            i <= redirects@.len(),
            tree.wf(),
            schema.kind is Root,
            !schema.executable,
            schema.redirect@.len() == 0,
            start == old(tree).arena(),
            base == old(tree).size(),
            1 <= base <= top,
            tree.size() == top,
            built.len() == top,
            noted(redirects@, base, top),
            redirect_in(tree.arena(), 0) is None,
            kept(start, tree.arena(), base, 0),
            no_redirects(schema.children@) ==> redirects@.len() == 0,
            queue == queue_view(redirects@),
            queue == queue_in(built, 0, schema.children@),
            staged(start, schema.children@, built),
            lead_from(built, queue, 0) == lead_from(tree.arena(), queue, i as int),
            all_makeable(schema.children@),
            top == base + total(schema.children@),
            tree.children(0).len() == old(tree).children(0).len() + schema.children@.len(),
            forall|e: int| 0 <= e < i ==> applied(tree.arena(), #[trigger] redirects@[e]),
            forall|c: int|
                base <= c < top ==> #[trigger] plain_or_noted(tree.arena(), redirects@, i as int, c),
            forall|other: int|
                #![trigger tree.arena()[other]]
                #![trigger children_in(tree.arena(), other)]
                0 <= other < top ==> tree.arena()[other].node == built[other].node && children_in(
                    tree.arena(),
                    other,
                ) == children_in(built, other),
            forall|other: int|
                0 <= other < base ==> #[trigger] redirect_in(tree.arena(), other) == redirect_in(
                    built,
                    other,
                ),
        decreases redirects@.len() - i,
    {
        let source = redirects[i].0;
        let names = as_names(redirects[i].1);
        let ghost before = *tree;
        proof {
            source.lemma_idx();
        }
        proof {
            assert(names_of(names@) =~= path_names(redirects@[i as int].1@));
            assert(queue[i as int] == (source.idx(), names_of(names@)));
        }
        match lead(tree, source, names.as_slice()) {
            Ok(()) => {},
            Err(e) => {
                proof {
                    assert(lead_from(before.arena(), queue, i as int) == Err::<
                        Seq<BuildNode>,
                        ImportError,
                    >(e));
                    assert(settled(Err(e), tree.arena(), lead_from(built, queue, 0)));
                }
                return Err(e);
            },
        }
        proof {
            let path = path_names(redirects@[i as int].1@);
            assert(names_of(names@) =~= path);
            assert(lead_from(before.arena(), queue, i as int) == lead_from(
                tree.arena(),
                queue,
                i + 1,
            ));
            assert forall|e: int| 0 <= e < i + 1 implies applied(
                tree.arena(),
                #[trigger] redirects@[e],
            ) by {
                let from = redirects@[e].0.idx();
                let way = path_names(redirects@[e].1@);
                if e < i {
                    assert(applied(before.arena(), redirects@[e]));
                    assert(from != source.idx());
                    assert(tree.redirect_of(from) == before.redirect_of(from));
                }
                assert forall|k: int| 0 <= k < before.arena().len() implies (
                #[trigger] tree.arena()[k]).node == before.arena()[k].node by {
                    assert(tree.node(k) == before.node(k));
                }
                assert forall|k: int| 0 <= k < before.arena().len() implies #[trigger] children_in(
                    tree.arena(),
                    k,
                ) == children_in(before.arena(), k) by {
                    assert(tree.children(k) == before.children(k));
                }
                assert forall|k: int|
                    0 <= k < before.arena().len() && k != source.idx() implies #[trigger] redirect_in(
                    tree.arena(),
                    k,
                ) == redirect_in(before.arena(), k) by {
                    assert(tree.redirect_of(k) == before.redirect_of(k));
                }
                lemma_find_path_kept(before.arena(), tree.arena(), source.idx(), 0, way);
            }
            assert forall|c: int| base <= c < top implies #[trigger] plain_or_noted(
                tree.arena(),
                redirects@,
                i + 1,
                c,
            ) by {
                if c == source.idx() {
                    assert(redirects@[i as int].0.idx() == c);
                } else {
                    assert(plain_or_noted(before.arena(), redirects@, i as int, c));
                    assert(tree.redirect_of(c) == before.redirect_of(c));
                    if redirect_in(before.arena(), c) is Some {
                        let e = choose|e: int|
                            0 <= e < i && (#[trigger] redirects@[e]).0.idx() == c;
                        assert(redirects@[e].0.idx() == c);
                    }
                }
            }
            assert forall|other: int|
                #![trigger tree.arena()[other]]
                #![trigger children_in(tree.arena(), other)]
                0 <= other < top implies tree.arena()[other].node == built[other].node
                && children_in(tree.arena(), other) == children_in(built, other) by {
                assert(tree.node(other) == before.node(other));
                assert(before.arena()[other].node == built[other].node);
                assert(tree.children(other) == before.children(other));
                assert(children_in(before.arena(), other) == children_in(built, other));
            }
            assert forall|other: int| 0 <= other < base implies #[trigger] redirect_in(
                tree.arena(),
                other,
            ) == redirect_in(built, other) by {
                assert(tree.redirect_of(other) == before.redirect_of(other));
                assert(redirect_in(before.arena(), other) == redirect_in(built, other));
            }
            assert(kept(start, tree.arena(), base, 0)) by {
                let after = tree.arena();
                assert forall|other: int|
                    #![trigger after[other]]
                    #![trigger redirect_in(after, other)]
                    #![trigger children_in(after, other)]
                    0 <= other < base implies {
                    &&& after[other].node == start[other].node
                    &&& redirect_in(after, other) == redirect_in(start, other)
                    &&& other != 0 ==> children_in(after, other) == children_in(start, other)
                } by {
                    assert(tree.node(other) == before.node(other));
                    assert(tree.redirect_of(other) == before.redirect_of(other));
                    assert(tree.children(other) == before.children(other));
                    assert(before.arena()[other].node == start[other].node);
                    assert(redirect_in(before.arena(), other) == redirect_in(start, other));
                    if other != 0 {
                        assert(children_in(before.arena(), other) == children_in(start, other));
                    }
                }
            }
        }
        i += 1;
    }
    proof {
        let after = tree.arena();
        lemma_imported_frame(built, after, 0, schema.children@, base, top, base, top);
        lemma_redirected(built, after, 0, schema.children@, base, top, redirects@);
        assert(settled(Ok(()), after, lead_from(built, queue, 0)));
        assert forall|other: int|
            #![trigger tree.node(other)]
            #![trigger tree.redirect_of(other)]
            #![trigger tree.children(other)]
            0 <= other < base implies {
            &&& tree.node(other) == old(tree).node(other)
            &&& tree.redirect_of(other) == old(tree).redirect_of(other)
            &&& other != 0 ==> tree.children(other) == old(tree).children(other)
        } by {
            assert(after[other].node == built[other].node);
            assert(built[other].node == start[other].node);
            assert(redirect_in(after, other) == redirect_in(built, other));
            assert(redirect_in(built, other) == redirect_in(start, other));
            assert(children_in(after, other) == children_in(built, other));
        }
    }
    Ok(())
}

} // verus!
