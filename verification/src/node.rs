//! The nodes of a command schema.

use crate::parse::argument::Argument;
use crate::smallstring::SmallString;
use vstd::prelude::*;
use vstd::string::*;

verus! {

/// What a schema node stands for.
#[derive(Debug)]
pub enum NodeKind {
    /// A fixed word.
    Literal(SmallString),
    /// A typed argument with its name.
    Argument { name: SmallString, arg: Argument },
    /// A nested sequence of commands.
    Block,
}

impl NodeKind {
    /// The names held are well-formed.
    pub open spec fn wf(&self) -> bool {
        match *self {
            NodeKind::Literal(name) => name.wf(),
            NodeKind::Argument { name, arg } => name.wf(),
            NodeKind::Block => true,
        }
    }
}

impl Clone for NodeKind {
    fn clone(&self) -> (r: Self)
        ensures
            r == *self,
    {
        match self {
            NodeKind::Literal(name) => NodeKind::Literal(name.clone()),
            NodeKind::Argument { name, arg } => NodeKind::Argument {
                name: name.clone(),
                arg: arg.clone(),
            },
            NodeKind::Block => NodeKind::Block,
        }
    }
}

/// A schema node: what it stands for, and whether a command may end with it.
#[derive(Debug)]
pub struct Node {
    pub kind: NodeKind,
    pub executable: bool,
    pub usable: bool,
}

impl Clone for Node {
    fn clone(&self) -> (r: Self)
        ensures
            r == *self,
    {
        Node { kind: self.kind.clone(), executable: self.executable, usable: self.usable }
    }
}

/// The name under which block nodes are found.
pub open spec fn block_name() -> Seq<char> {
    "{BLOCK}"@
}

impl Node {
    /// The names held are well-formed.
    pub open spec fn wf(&self) -> bool {
        self.kind.wf()
    }

    /// The key under which the node is found among its siblings.
    pub open spec fn key(&self) -> Seq<char> {
        match self.kind {
            NodeKind::Block => block_name(),
            NodeKind::Literal(name) => name@,
            NodeKind::Argument { name, arg } => name@,
        }
    }

    /// Whether the node is a literal.
    pub open spec fn is_literal(&self) -> bool {
        self.kind is Literal
    }

    /// A usable node of the given kind with which no command may end.
    pub fn new(kind: NodeKind) -> (node: Self)
        ensures
            node.kind == kind,
            !node.executable,
            node.usable,
    {
        Node { kind, executable: false, usable: true }
    }

    /// A node for the fixed word `literal`.
    pub fn literal(literal: &str) -> (node: Self)
        requires
            literal.spec_bytes().len() <= usize::MAX / 2,
        ensures
            node.wf(),
            node.kind matches NodeKind::Literal(name) && name@ == literal@,
            !node.executable,
            node.usable,
    {
        Self::new(NodeKind::Literal(SmallString::from_str(literal)))
    }

    /// A node for an argument of category `arg` named `name`.
    pub fn argument(name: &str, arg: Argument) -> (node: Self)
        requires
            name.spec_bytes().len() <= usize::MAX / 2,
        ensures
            node.wf(),
            node.kind matches NodeKind::Argument { name: held, arg: kind } && held@ == name@
                && kind == arg,
            !node.executable,
            node.usable,
    {
        Self::new(NodeKind::Argument { name: SmallString::from_str(name), arg })
    }

    /// A node for a nested block; a command may always end with it.
    pub fn block() -> (node: Self)
        ensures
            node.wf(),
            node.kind is Block,
            node.executable,
            node.usable,
    {
        Self::new(NodeKind::Block).executable()
    }

    /// The same node, marked as one with which a command may end.
    pub fn executable(self) -> (node: Self)
        ensures
            node.kind == self.kind,
            node.usable == self.usable,
            node.executable,
    {
        Node { kind: self.kind, executable: true, usable: self.usable }
    }

    /// The key under which the node is found among its siblings.
    pub fn name(&self) -> (r: &str)
        requires
            self.wf(),
        ensures
            r@ == self.key(),
    {
        match &self.kind {
            NodeKind::Block => "{BLOCK}",
            NodeKind::Literal(name) => name.as_str(),
            NodeKind::Argument { name, .. } => name.as_str(),
        }
    }
}

} // verus!
