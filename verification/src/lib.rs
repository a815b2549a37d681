//! Schema-directed parsing of indentation-structured command scripts.

pub mod arguments;
pub mod build_tree;
pub mod diagnostics;
pub mod grouping;
pub mod import;
pub mod intern;
pub mod lowering;
pub mod node;
pub mod parse;
pub mod parser;
pub mod parsing_tree;
pub mod smallstring;
pub mod source;
pub mod span;
pub mod text;

pub use build_tree::{BuildNodeId, BuildTree};
pub use node::{Node, NodeKind};
pub use parsing_tree::{ParsingNode, ParsingTree};
pub use smallstring::SmallString;

use build_tree::{children_in, find_path, names_of, nodes_ok, redirect_in, BuildNode, NO_NODE};
use import::{
    all_makeable, import, imported, lead_from, no_redirects, queue_in, redirected, settled, sound,
    staged, total, ImportError, SchemaNode,
};
use lowering::{redirects_attached, represents};
use vstd::prelude::*;

verus! {

/// Why a catalogue gives no parsing tree.
#[derive(Debug, Clone, Copy, PartialEq, Eq, Structural)]
pub enum LoadError {
    /// The catalogue is no schema.
    Import(ImportError),
    /// The schema lacks `execute run` or `return run`.
    MissingRun,
    /// The schema has more nodes than a tree can hold.
    TooManyNodes,
    /// A redirect leads to a node that no longer hangs on the root.
    DanglingRedirect,
}

/// `after` is the arena `before` in which the node that `path` names has
/// lost its children, or its redirect, and has a block as its one child:
/// the last node of `after`.
pub open spec fn with_block(before: Seq<BuildNode>, path: Seq<Seq<char>>, after: Seq<BuildNode>) -> bool {
    find_path(before, 0, path) matches Some(at) && {
        &&& after.len() == before.len() + 1
        &&& after[before.len() as int].node.kind is Block
        &&& after[before.len() as int].node.executable
        &&& after[before.len() as int].node.usable
        &&& children_in(after, before.len() as int).len() == 0
        &&& redirect_in(after, before.len() as int) is None
        &&& children_in(after, at) == seq![before.len() as usize]
        &&& redirect_in(after, at) is None
        &&& forall|other: int|
            #![trigger after[other]]
            #![trigger redirect_in(after, other)]
            #![trigger children_in(after, other)]
            0 <= other < before.len() ==> {
                &&& after[other].node == before[other].node
                &&& other != at ==> redirect_in(after, other) == redirect_in(before, other)
                &&& other != at ==> children_in(after, other) == children_in(before, other)
            }
    }
}

/// Gives the node that `path` names a block as its one child.
fn block_under(tree: &mut BuildTree, path: &[&str]) -> (r: Result<(), LoadError>)
    requires
        old(tree).wf(),
        old(tree).redirect_of(0) is None,
    ensures
        final(tree).wf(),
        final(tree).redirect_of(0) is None,
        r is Err ==> *final(tree) == *old(tree),
        match r {
            Ok(()) => with_block(old(tree).arena(), names_of(path@), final(tree).arena()),
            Err(e) => if find_path(old(tree).arena(), 0, names_of(path@)) is None {
                e == LoadError::MissingRun
            } else {
                e == LoadError::TooManyNodes && old(tree).size() + 2 >= NO_NODE
            },
        },
{
    let at = match tree.find_node_id(path) {
        Some(at) => at,
        None => {
            return Err(LoadError::MissingRun);
        },
    };
    if tree.len() >= NO_NODE - 2 {
        return Err(LoadError::TooManyNodes);
    }
    proof {
        at.lemma_idx();
    }
    let ghost before = *tree;
    tree.clear_node(at);
    proof {
        assert(tree.redirect_of(0) is None) by {
            if at.idx() != 0 {
                assert(tree.redirect_of(0) == before.redirect_of(0));
            }
        }
    }
    let ghost cleared = *tree;
    let _ = tree.insert(at, Node::block());
    proof {
        assert(tree.redirect_of(0) == cleared.redirect_of(0));
        let was = before.arena();
        let now = tree.arena();
        assert(children_in(now, at.idx()) =~= seq![was.len() as usize]);
        assert(redirect_in(now, at.idx()) == cleared.redirect_of(at.idx()));
        assert forall|other: int|
            #![trigger now[other]]
            #![trigger redirect_in(now, other)]
            #![trigger children_in(now, other)]
            0 <= other < was.len() implies {
            &&& now[other].node == was[other].node
            &&& other != at.idx() ==> redirect_in(now, other) == redirect_in(was, other)
            &&& other != at.idx() ==> children_in(now, other) == children_in(was, other)
        } by {
            assert(tree.node(other) == cleared.node(other));
            assert(cleared.node(other) == before.node(other));
            assert(tree.redirect_of(other) == cleared.redirect_of(other));
            assert(tree.children(other) == cleared.children(other) || other == at.idx());
            if other != at.idx() {
                assert(cleared.redirect_of(other) == before.redirect_of(other));
                assert(cleared.children(other) == before.children(other));
            }
        }
    }
    Ok(())
}

/// The names `first` and `run`, one after the other.
pub open spec fn run_path(first: Seq<char>) -> Seq<Seq<char>> {
    seq![first, "run"@]
}

/// The arena of a build tree that holds its root alone.
pub open spec fn bare_root(fresh: Seq<BuildNode>) -> bool {
    &&& fresh.len() == 1
    &&& children_in(fresh, 0).len() == 0
    &&& redirect_in(fresh, 0) is None
    &&& fresh[0].node.key() == "ROOT"@
}

/// Importing the catalogue `schema` into a build tree that holds its root
/// alone gives `outcome`: the arena in which all redirects are carried out,
/// or the error of the first that cannot be.
pub open spec fn import_gives(
    schema: SchemaNode,
    outcome: Result<Seq<BuildNode>, ImportError>,
) -> bool {
    exists|fresh: Seq<BuildNode>, built: Seq<BuildNode>|
        bare_root(fresh) && #[trigger] staged(fresh, schema.children@, built) && lead_from(
            built,
            queue_in(built, 0, schema.children@),
            0,
        ) == outcome
}

/// The arena `plain` holds a root and, below it, the nodes of the catalogue
/// `schema`, each with the redirect that the catalogue asks for.
pub open spec fn holds_schema(schema: SchemaNode, plain: Seq<BuildNode>) -> bool {
    &&& import_gives(schema, Ok(plain))
    &&& nodes_ok(plain)
    &&& plain.len() == 1 + total(schema.children@)
    &&& redirect_in(plain, 0) is None
    &&& children_in(plain, 0).len() == schema.children@.len()
    &&& imported(plain, 0, schema.children@, 1, plain.len() as int)
    &&& redirected(plain, 0, schema.children@)
}

/// The arena `ready` holds the nodes of the catalogue `schema` as `plain`
/// does, but with a block after `execute run` and after `return run`.
pub open spec fn holds_blocks(
    schema: SchemaNode,
    plain: Seq<BuildNode>,
    first: Seq<BuildNode>,
    ready: Seq<BuildNode>,
) -> bool {
    &&& holds_schema(schema, plain)
    &&& with_block(plain, run_path("execute"@), first)
    &&& with_block(first, run_path("return"@), ready)
}

/// `tree` is a lowering of the arena `ready`.
pub open spec fn lowered(ready: Seq<BuildNode>, tree: ParsingTree) -> bool {
    &&& tree.wf()
    &&& tree.num_roots == children_in(ready, 0).len()
    &&& exists|src: Seq<usize>| represents(ready, tree, src)
}

/// The catalogue `schema`, held by `plain`, lacks `execute run`, or lacks
/// `return run` once `execute run` has its block.
pub open spec fn lacks_run(schema: SchemaNode, plain: Seq<BuildNode>, first: Seq<BuildNode>) -> bool {
    &&& holds_schema(schema, plain)
    &&& find_path(plain, 0, run_path("execute"@)) is None || (with_block(
        plain,
        run_path("execute"@),
        first,
    ) && find_path(first, 0, run_path("return"@)) is None)
}

/// The parsing tree for the catalogue `schema`, in which `execute run` and
/// `return run` are followed by a block: the schema is imported into an
/// empty build tree, the two nodes get their blocks, and the build tree is
/// lowered.
pub fn load_tree(schema: &SchemaNode) -> (r: Result<ParsingTree, LoadError>)
    ensures
        r matches Ok(tree) ==> tree.wf() && exists|
            plain: Seq<BuildNode>,
            first: Seq<BuildNode>,
            ready: Seq<BuildNode>,
        |
            #[trigger] holds_blocks(*schema, plain, first, ready) && lowered(ready, tree),
        r matches Err(LoadError::MissingRun) ==> exists|plain: Seq<BuildNode>, first: Seq<BuildNode>|
            #[trigger] lacks_run(*schema, plain, first),
        r matches Err(LoadError::TooManyNodes) ==> total(schema.children@) + 4 >= NO_NODE,
        r matches Err(LoadError::DanglingRedirect) ==> exists|
            plain: Seq<BuildNode>,
            first: Seq<BuildNode>,
            ready: Seq<BuildNode>,
        |
            #[trigger] holds_blocks(*schema, plain, first, ready) && !redirects_attached(ready),
        !(schema.kind is Root) ==> r matches Err(LoadError::Import(ImportError::RootExpected)),
        schema.kind is Root && schema.executable ==> r matches Err(
            LoadError::Import(ImportError::RootExecutable),
        ),
        schema.kind is Root && !schema.executable && schema.redirect@.len() > 0 ==> r matches Err(
            LoadError::Import(ImportError::RootRedirect),
        ),
        schema.kind is Root && !schema.executable && schema.redirect@.len() == 0 && all_makeable(
            schema.children@,
        ) && total(schema.children@) + 3 <= NO_NODE ==> (r matches Err(LoadError::Import(e)) ==> (e
            == ImportError::UnknownRedirectTarget || e == ImportError::InvalidRedirect)
            && !no_redirects(schema.children@)),
        sound(*schema, 1) ==> exists|outcome: Result<Seq<BuildNode>, ImportError>| #[trigger]
            import_gives(*schema, outcome) && match outcome {
                Ok(_) => !(r matches Err(LoadError::Import(_))),
                Err(e) => r matches Err(LoadError::Import(found)) && found == e,
            },
        r matches Err(LoadError::Import(e)) ==> !(schema.kind is Root) || schema.executable
            || schema.redirect@.len() > 0 || !all_makeable(schema.children@) || total(
            schema.children@,
        ) + 3 > NO_NODE || !no_redirects(schema.children@),
{
    let mut build_tree = BuildTree::new();
    let ghost fresh = build_tree.arena();
    proof {
        assert(build_tree.node(0).key() == "ROOT"@);
        assert(bare_root(fresh));
    }
    match import(schema, &mut build_tree) {
        Ok(()) => {},
        Err(e) => {
            proof {
                if sound(*schema, 1) {
                    let built = choose|built: Seq<BuildNode>| #[trigger]
                        staged(fresh, schema.children@, built) && settled(
                            Err(e),
                            build_tree.arena(),
                            lead_from(built, queue_in(built, 0, schema.children@), 0),
                        );
                    assert(import_gives(*schema, Err(e)));
                }
            }
            return Err(LoadError::Import(e));
        },
    }
    let ghost plain = build_tree.arena();
    proof {
        let built = choose|built: Seq<BuildNode>| #[trigger]
            staged(fresh, schema.children@, built) && settled(
                Ok(()),
                plain,
                lead_from(built, queue_in(built, 0, schema.children@), 0),
            );
        assert(lead_from(built, queue_in(built, 0, schema.children@), 0) == Ok::<
            Seq<BuildNode>,
            ImportError,
        >(plain));
        assert(import_gives(*schema, Ok(plain)));
        assert(holds_schema(*schema, plain));
    }
    let execute_run = ["execute", "run"];
    let execute_path = execute_run.as_slice();
    proof {
        assert(names_of(execute_path@) =~= run_path("execute"@));
    }
    match block_under(&mut build_tree, execute_path) {
        Ok(()) => {},
        Err(e) => {
            proof {
                assert(lacks_run(*schema, plain, plain) || e == LoadError::TooManyNodes);
            }
            return Err(e);
        },
    }
    let ghost first = build_tree.arena();
    let return_run = ["return", "run"];
    let return_path = return_run.as_slice();
    proof {
        assert(names_of(return_path@) =~= run_path("return"@));
    }
    match block_under(&mut build_tree, return_path) {
        Ok(()) => {},
        Err(e) => {
            proof {
                assert(lacks_run(*schema, plain, first) || e == LoadError::TooManyNodes);
            }
            return Err(e);
        },
    }
    let ghost ready = build_tree.arena();
    proof {
        assert(holds_blocks(*schema, plain, first, ready));
    }
    if !build_tree.can_lower() {
        return Err(LoadError::DanglingRedirect);
    }
    let tree = build_tree.into_parsing_tree();
    proof {
        assert(lowered(ready, tree));
    }
    Ok(tree)
}

} // verus!
