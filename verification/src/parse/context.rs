//! What one parse works with: the source, the schema, and an interner of
//! its own.

use crate::intern::{Interner, StaticInterner};
use crate::parse::cst::Block;
use crate::parse::errors::ParseError;
use crate::parse::laws::{block_local, block_tiles};
use crate::parser::{has_block, parse_spec};
use crate::parsing_tree::ParsingTree;
use crate::source::SourceFile;
use std::sync::Arc;
use vstd::prelude::*;

verus! {

/// A source text, the schema to parse it against, and the interner that
/// holds its strings.
pub struct ParseContext<'src> {
    pub source: &'src SourceFile,
    pub tree: Arc<ParsingTree>,
    pub interner: StaticInterner,
}

impl<'src> ParseContext<'src> {
    /// The context can be parsed: source, schema and interner are
    /// consistent, and the root of the schema has no block among its
    /// children.
    pub open spec fn wf(&self) -> bool {
        &&& self.source.wf()
        &&& self.tree.wf()
        &&& !has_block(self.tree.nodes@, 0, self.tree.num_roots as int)
        &&& self.interner.valid()
    }

    /// A context for `source` and `parse_tree` with an interner that holds
    /// nothing.
    pub fn new(source: &'src SourceFile, parse_tree: Arc<ParsingTree>) -> (ctx: Self)
        ensures
            ctx.source == source,
            ctx.tree == parse_tree,
            ctx.interner.valid(),
            ctx.interner.strings() == Seq::<Seq<char>>::empty(),
    {
        ParseContext { source, tree: parse_tree, interner: StaticInterner::new() }
    }

    /// Parses the source against the schema.
    pub fn parse(&mut self) -> (r: Result<Block, ParseError>)
        requires
            old(self).wf(),
        ensures
            final(self).wf(),
            final(self).source == old(self).source,
            final(self).tree == old(self).tree,
            match r {
                Ok(block) => Ok(block@),
                Err(e) => Err(e),
            } == parse_spec(
                old(self).tree.nodes@,
                old(self).tree.num_roots as int,
                old(self).source.bytes(),
                old(self).interner.strings(),
            ).value,
            final(self).interner.strings() == parse_spec(
                old(self).tree.nodes@,
                old(self).tree.num_roots as int,
                old(self).source.bytes(),
                old(self).interner.strings(),
            ).strings,
            r matches Ok(block) ==> block_local(block@) && block_tiles(
                block@,
                old(self).source.bytes(),
            ),
    {
        let tree: &ParsingTree = &self.tree;
        crate::parser::parse_source(tree, self.source.text(), &mut self.interner)
    }
}

} // verus!
