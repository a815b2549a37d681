//! The schema as it is built: an arena of nodes with child lists and
//! redirect edges.

use crate::lowering::{lower, redirects_attached, represents};
use crate::node::Node;
use crate::parsing_tree::ParsingTree;
use crate::text::str_eq;
use vstd::prelude::*;
use vstd::string::*;

verus! {

/// The index that stands for "no node".
pub const NO_NODE: usize = usize::MAX;

/// The identifier of a node of a [`BuildTree`].
#[derive(Debug, Clone, Copy, PartialEq, Eq, Structural)]
pub struct BuildNodeId(usize);

impl BuildNodeId {
    /// The root of every build tree.
    pub fn root() -> (id: Self)
        ensures
            id.idx() == 0,
    {
        BuildNodeId(0)
    }

    /// The position of the node in the arena.
    pub closed spec fn idx(self) -> int {
        self.0 as int
    }

    /// Positions are not negative.
    pub proof fn lemma_idx(self)
        ensures
            0 <= self.idx() <= usize::MAX,
    {
    }

    /// The identifier of the node at position `index`.
    pub fn new(index: usize) -> (id: Self)
        requires
            index != NO_NODE,
        ensures
            id.idx() == index,
    {
        BuildNodeId(index)
    }

    /// The position of the node in the arena.
    pub fn index(self) -> (index: usize)
        ensures
            index == self.idx(),
    {
        self.0
    }
}

/// What follows a node: its children, or the node whose children it shares.
#[derive(Debug, Clone, Copy, PartialEq, Eq, Structural)]
pub enum BuildNodeNext {
    /// `count` children, linked through `next_sibling` from `first_child` on.
    Children { first_child: usize, count: usize },
    /// The children of the node at this position.
    Redirect(usize),
}

/// A node of the arena with its links.
pub struct BuildNode {
    pub next_sibling: usize,
    pub next: BuildNodeNext,
    pub parsing_tree_idx: usize,
    pub node: Node,
}

impl BuildNode {
    /// A node without children or siblings that has no place in a parsing
    /// tree yet.
    fn new(node: Node) -> (made: Self)
        ensures
            made.node == node,
            made.next_sibling == NO_NODE,
            made.next == (BuildNodeNext::Children { first_child: NO_NODE, count: 0 }),
            made.parsing_tree_idx == NO_NODE,
    {
        BuildNode {
            next_sibling: NO_NODE,
            next: BuildNodeNext::Children { first_child: NO_NODE, count: 0 },
            parsing_tree_idx: NO_NODE,
            node,
        }
    }
}

/// The nodes reached from `head` through `count` sibling links.
pub open spec fn chain(nodes: Seq<BuildNode>, head: usize, count: nat) -> Seq<usize>
    decreases count,
{
    if count == 0 {
        Seq::empty()
    } else {
        seq![head] + chain(nodes, nodes[head as int].next_sibling, (count - 1) as nat)
    }
}

/// The `count` sibling links from `head` stay inside the arena, lead to ever
/// smaller positions above `parent`, and end with [`NO_NODE`].
pub open spec fn chain_ok(nodes: Seq<BuildNode>, parent: int, head: usize, count: nat) -> bool
    decreases count,
{
    if count == 0 {
        head == NO_NODE
    } else {
        &&& parent < head < nodes.len()
        &&& count > 1 ==> nodes[head as int].next_sibling < head
        &&& chain_ok(nodes, parent, nodes[head as int].next_sibling, (count - 1) as nat)
    }
}

/// The child list of the node at `id`; empty for a redirecting node.
pub open spec fn children_in(nodes: Seq<BuildNode>, id: int) -> Seq<usize> {
    match nodes[id].next {
        BuildNodeNext::Children { first_child, count } => chain(nodes, first_child, count as nat),
        BuildNodeNext::Redirect(_) => Seq::empty(),
    }
}

/// The redirect target of the node at `id`, if it has one.
pub open spec fn redirect_in(nodes: Seq<BuildNode>, id: int) -> Option<int> {
    match nodes[id].next {
        BuildNodeNext::Children { .. } => None,
        BuildNodeNext::Redirect(target) => Some(target as int),
    }
}

/// The node at `id` is well-formed within the arena: its child list is a
/// proper list of later nodes, or it redirects to a node that does not.
pub open spec fn node_ok(nodes: Seq<BuildNode>, id: int) -> bool {
    &&& nodes[id].node.wf()
    &&& nodes[id].parsing_tree_idx == NO_NODE
    &&& match nodes[id].next {
        BuildNodeNext::Children { first_child, count } => chain_ok(
            nodes,
            id,
            first_child,
            count as nat,
        ),
        BuildNodeNext::Redirect(target) => target < nodes.len() && nodes[target as int].next
            is Children,
    }
}

/// No node is a child of two nodes.
pub open spec fn single_parent(nodes: Seq<BuildNode>) -> bool {
    forall|p: int, q: int, c: usize|
        0 <= p < nodes.len() && 0 <= q < nodes.len() && #[trigger] children_in(nodes, p).contains(c)
            && #[trigger] children_in(nodes, q).contains(c) ==> p == q
}

/// The arena is a well-formed build tree.
pub open spec fn nodes_ok(nodes: Seq<BuildNode>) -> bool {
    &&& 1 <= nodes.len() < NO_NODE
    &&& forall|id: int| 0 <= id < nodes.len() ==> #[trigger] node_ok(nodes, id)
    &&& single_parent(nodes)
}

/// Members of a well-formed chain lie above the parent and inside the
/// arena, and the chain has `count` members in descending order.
pub proof fn lemma_chain(nodes: Seq<BuildNode>, parent: int, head: usize, count: nat)
    requires
        chain_ok(nodes, parent, head, count),
    ensures
        chain(nodes, head, count).len() == count,
        forall|k: int|
            0 <= k < count ==> parent < #[trigger] chain(nodes, head, count)[k] < nodes.len(),
        forall|k: int| 0 <= k < count ==> #[trigger] chain(nodes, head, count)[k] <= head,
        forall|j: int, k: int|
            0 <= j < k < count ==> chain(nodes, head, count)[j] > chain(nodes, head, count)[k],
        count > 0 ==> parent + count <= head,
        count > 0 ==> chain(nodes, head, count)[0] == head,
    decreases count,
{
    if count > 0 {
        let next = nodes[head as int].next_sibling;
        lemma_chain(nodes, parent, next, (count - 1) as nat);
        let rest = chain(nodes, next, (count - 1) as nat);
        let all = chain(nodes, head, count);
        assert forall|k: int| 0 <= k < count implies parent < #[trigger] all[k] < nodes.len()
            && all[k] <= head by {
            if k > 0 {
                assert(all[k] == rest[k - 1]);
            }
        }
        assert forall|j: int, k: int| 0 <= j < k < count implies all[j] > all[k] by {
            assert(all[k] == rest[k - 1]);
            if j > 0 {
                assert(all[j] == rest[j - 1]);
            } else {
                assert(rest[k - 1] <= next);
            }
        }
    }
}

/// A chain that lies in the part on which two arenas have the same sibling
/// links is the same chain, and as well-formed, in both.
pub proof fn lemma_chain_frame(
    a: Seq<BuildNode>,
    b: Seq<BuildNode>,
    parent: int,
    head: usize,
    count: nat,
)
    requires
        chain_ok(a, parent, head, count),
        a.len() <= b.len(),
        forall|k: int| 0 <= k < a.len() ==> (#[trigger] a[k]).next_sibling == b[k].next_sibling,
    ensures
        chain_ok(b, parent, head, count),
        chain(b, head, count) == chain(a, head, count),
    decreases count,
{
    if count > 0 {
        lemma_chain_frame(a, b, parent, a[head as int].next_sibling, (count - 1) as nat);
    }
}

/// The children of a well-formed node lie after it, inside the arena.
pub proof fn lemma_children_bounds(nodes: Seq<BuildNode>, id: int, c: usize)
    requires
        0 <= id < nodes.len(),
        node_ok(nodes, id),
        children_in(nodes, id).contains(c),
    ensures
        id < c < nodes.len(),
{
    match nodes[id].next {
        BuildNodeNext::Children { first_child, count } => {
            lemma_chain(nodes, id, first_child, count as nat);
            let all = chain(nodes, first_child, count as nat);
            let k = choose|k: int| 0 <= k < all.len() && all[k] == c;
            assert(id < all[k] < nodes.len());
        },
        BuildNodeNext::Redirect(t) => {},
    }
}

/// Where an arena grows and only the node at `changed` gets other
/// children, none of them a child of another node, still no node is a
/// child of two.
pub proof fn lemma_single_parent_kept(a: Seq<BuildNode>, b: Seq<BuildNode>, changed: int)
    requires
        nodes_ok(a),
        a.len() <= b.len(),
        forall|k: int|
            0 <= k < a.len() && k != changed ==> #[trigger] children_in(b, k) == children_in(a, k),
        forall|c: usize|
            #[trigger] children_in(b, changed).contains(c) ==> children_in(a, changed).contains(c)
                || c >= a.len(),
        forall|k: int| a.len() <= k < b.len() ==> (#[trigger] children_in(b, k)).len() == 0,
    ensures
        single_parent(b),
{
    assert forall|p: int, q: int, c: usize|
        0 <= p < b.len() && 0 <= q < b.len() && #[trigger] children_in(b, p).contains(c)
            && #[trigger] children_in(b, q).contains(c) implies p == q by {
        assert(p < a.len() && q < a.len());
        if p != q {
            if p != changed {
                assert(children_in(a, p).contains(c));
                assert(node_ok(a, p));
                lemma_children_bounds(a, p, c);
            }
            if q != changed {
                assert(children_in(a, q).contains(c));
                assert(node_ok(a, q));
                lemma_children_bounds(a, q, c);
            }
            assert(children_in(a, p).contains(c));
            assert(children_in(a, q).contains(c));
        }
    }
}

/// Two arenas agree on the node at `id`, apart from what follows it.
pub open spec fn same_node(a: Seq<BuildNode>, b: Seq<BuildNode>, id: int) -> bool {
    &&& a[id].node == b[id].node
    &&& a[id].next_sibling == b[id].next_sibling
    &&& a[id].parsing_tree_idx == b[id].parsing_tree_idx
}

/// Where an arena changes only in what follows one node, and perhaps grows,
/// any other node `k` keeps its children and its redirect and stays
/// well-formed, provided that the changed node does not start to redirect
/// while another node redirects to it.
pub proof fn lemma_frame(a: Seq<BuildNode>, b: Seq<BuildNode>, changed: int, k: int)
    requires
        nodes_ok(a),
        a.len() <= b.len(),
        0 <= changed < a.len(),
        0 <= k < a.len(),
        k != changed,
        forall|m: int| 0 <= m < a.len() ==> #[trigger] same_node(a, b, m),
        forall|m: int| 0 <= m < a.len() && m != changed ==> (#[trigger] a[m]).next == b[m].next,
        b[changed].next is Children || forall|m: int|
            0 <= m < a.len() ==> #[trigger] redirect_in(a, m) != Some(changed),
    ensures
        node_ok(b, k),
        children_in(b, k) == children_in(a, k),
        redirect_in(b, k) == redirect_in(a, k),
{
    assert(node_ok(a, k));
    assert(same_node(a, b, k));
    assert(a[k].next == b[k].next);
    assert forall|m: int| 0 <= m < a.len() implies (#[trigger] a[m]).next_sibling
        == b[m].next_sibling by {
        assert(same_node(a, b, m));
    }
    match a[k].next {
        BuildNodeNext::Children { first_child, count } => {
            lemma_chain_frame(a, b, k, first_child, count as nat);
        },
        BuildNodeNext::Redirect(target) => {
            assert(redirect_in(a, k) == Some(target as int));
            if target != changed {
                assert(a[target as int].next == b[target as int].next);
            }
        },
    }
}

/// The first of `kids` whose node goes by `name`.
pub open spec fn find_child(nodes: Seq<BuildNode>, kids: Seq<usize>, name: Seq<char>) -> Option<
    usize,
>
    decreases kids.len(),
{
    if kids.len() == 0 {
        None
    } else if nodes[kids[0] as int].node.key() == name {
        Some(kids[0])
    } else {
        find_child(nodes, kids.drop_first(), name)
    }
}

/// The node whose children are searched under `id`: the redirect target of
/// `id`, or `id` itself.
pub open spec fn searched(nodes: Seq<BuildNode>, id: int) -> int {
    match redirect_in(nodes, id) {
        Some(t) => t,
        None => id,
    }
}

/// The node reached from `id` by the names of `path`, one child per name.
pub open spec fn find_path(nodes: Seq<BuildNode>, id: int, path: Seq<Seq<char>>) -> Option<int>
    decreases path.len(),
{
    if path.len() == 0 {
        Some(id)
    } else {
        match find_child(nodes, children_in(nodes, searched(nodes, id)), path[0]) {
            Some(c) => find_path(nodes, c as int, path.drop_first()),
            None => None,
        }
    }
}

/// The arena in which the node at `source` redirects to the node at
/// `target`, and all else is as in `arena`.
pub open spec fn with_redirect(arena: Seq<BuildNode>, source: int, target: int) -> Seq<BuildNode> {
    arena.update(
        source,
        BuildNode { next: BuildNodeNext::Redirect(target as usize), ..arena[source] },
    )
}

/// The child found in an arena is one of the children searched, and is the
/// same in an arena whose nodes at those places go by the same names.
pub proof fn lemma_find_child_same(
    a: Seq<BuildNode>,
    b: Seq<BuildNode>,
    kids: Seq<usize>,
    name: Seq<char>,
)
    requires
        forall|i: int|
            0 <= i < kids.len() ==> (#[trigger] b[kids[i] as int]).node == a[kids[i] as int].node,
    ensures
        find_child(b, kids, name) == find_child(a, kids, name),
        find_child(a, kids, name) matches Some(c) ==> kids.contains(c),
    decreases kids.len(),
{
    if kids.len() > 0 {
        assert(b[kids[0] as int].node == a[kids[0] as int].node);
        if a[kids[0] as int].node.key() != name {
            let rest = kids.drop_first();
            assert forall|i: int| 0 <= i < rest.len() implies (#[trigger] b[rest[i] as int]).node
                == a[rest[i] as int].node by {
                assert(rest[i] == kids[i + 1]);
            }
            lemma_find_child_same(a, b, rest, name);
            if let Some(c) = find_child(a, rest, name) {
                let i = choose|i: int| 0 <= i < rest.len() && rest[i] == c;
                assert(kids[i + 1] == c);
            }
        } else {
            assert(kids[0] == kids[0]);
        }
    }
}

/// A path that leads somewhere still leads there once a node without
/// children has begun to redirect: where `b` is `a` but for the redirect of
/// the node at `changed`, what `path` reaches from `from` in `a` it reaches
/// in `b`.
pub proof fn lemma_find_path_kept(
    a: Seq<BuildNode>,
    b: Seq<BuildNode>,
    changed: int,
    from: int,
    path: Seq<Seq<char>>,
)
    requires
        nodes_ok(a),
        a.len() == b.len(),
        0 <= from < a.len(),
        0 <= changed < a.len(),
        children_in(a, changed).len() == 0,
        redirect_in(a, changed) is None,
        forall|k: int| 0 <= k < a.len() ==> (#[trigger] b[k]).node == a[k].node,
        forall|k: int| 0 <= k < a.len() ==> #[trigger] children_in(b, k) == children_in(a, k),
        forall|k: int|
            0 <= k < a.len() && k != changed ==> #[trigger] redirect_in(b, k) == redirect_in(a, k),
    ensures
        find_path(a, from, path) matches Some(t) ==> find_path(b, from, path) == Some(t) && 0 <= t
            < a.len(),
    decreases path.len(),
{
    if path.len() > 0 && find_path(a, from, path) is Some {
        let at = searched(a, from);
        assert(node_ok(a, from));
        assert(from != changed);
        assert(redirect_in(b, from) == redirect_in(a, from));
        assert(searched(b, from) == at);
        assert(0 <= at < a.len());
        assert(node_ok(a, at));
        let kids = children_in(a, at);
        assert(children_in(b, at) == kids);
        match a[at].next {
            BuildNodeNext::Children { first_child, count } => {
                lemma_chain(a, at, first_child, count as nat);
            },
            BuildNodeNext::Redirect(_) => {},
        }
        lemma_find_child_same(a, b, kids, path[0]);
        let c = find_child(a, kids, path[0])->0;
        let i = choose|i: int| 0 <= i < kids.len() && kids[i] == c;
        assert(0 <= kids[i] < a.len());
        lemma_find_path_kept(a, b, changed, c as int, path.drop_first());
    }
}

/// The names that the string slices of `path` hold.
pub open spec fn names_of(path: Seq<&str>) -> Seq<Seq<char>> {
    Seq::new(path.len(), |i: int| path[i]@)
}

/// A mutable schema tree. Node 0 is the root; every other node is reached
/// through child lists, to which new children are added at the head.
pub struct BuildTree {
    pub(crate) nodes: Vec<BuildNode>,
}

impl BuildTree {
    /// The arena.
    pub closed spec fn arena(&self) -> Seq<BuildNode> {
        self.nodes@
    }

    /// The number of nodes, the root included.
    pub open spec fn size(&self) -> nat {
        self.arena().len()
    }

    /// The schema node at `id`.
    pub open spec fn node(&self, id: int) -> Node {
        self.arena()[id].node
    }

    /// The children of the node at `id`, the one inserted last first.
    pub open spec fn children(&self, id: int) -> Seq<usize> {
        children_in(self.arena(), id)
    }

    /// The node whose children the node at `id` shares, if it redirects.
    pub open spec fn redirect_of(&self, id: int) -> Option<int> {
        redirect_in(self.arena(), id)
    }

    /// The tree is well-formed: child lists are proper lists of later
    /// nodes, and no redirect points at a redirecting node.
    pub open spec fn wf(&self) -> bool {
        nodes_ok(self.arena())
    }

    /// A tree that holds only the root.
    pub fn new() -> (tree: Self)
        ensures
            tree.wf(),
            tree.size() == 1,
            tree.children(0) == Seq::<usize>::empty(),
            tree.redirect_of(0) is None,
            tree.node(0).key() == "ROOT"@,
    {
        proof {
            reveal_strlit("ROOT");
            vstd::utf8::is_ascii_chars_encode_utf8("ROOT"@);
        }
        let mut nodes: Vec<BuildNode> = Vec::new();
        nodes.push(BuildNode::new(Node::literal("ROOT")));
        let tree = BuildTree { nodes };
        assert(tree.children(0) =~= Seq::<usize>::empty());
        assert(node_ok(tree.nodes@, 0));
        assert(single_parent(tree.nodes@));
        tree
    }

    /// The number of nodes, the root included.
    pub fn len(&self) -> (n: usize)
        ensures
            n == self.size(),
    {
        self.nodes.len()
    }

    /// Whether the node at `id` redirects.
    pub fn is_redirecting(&self, id: BuildNodeId) -> (r: bool)
        requires
            id.idx() < self.size(),
        ensures
            r == self.redirect_of(id.idx()) is Some,
    {
        match self.nodes[id.index()].next {
            BuildNodeNext::Redirect(_) => true,
            BuildNodeNext::Children { .. } => false,
        }
    }

    /// The number of children of the node at `id`; zero if it redirects.
    pub fn child_count(&self, id: BuildNodeId) -> (n: usize)
        requires
            self.wf(),
            id.idx() < self.size(),
        ensures
            n == self.children(id.idx()).len(),
    {
        match self.nodes[id.index()].next {
            BuildNodeNext::Redirect(_) => 0,
            BuildNodeNext::Children { first_child, count } => {
                proof {
                    assert(node_ok(self.nodes@, id.idx()));
                    lemma_chain(self.nodes@, id.idx(), first_child, count as nat);
                }
                count
            },
        }
    }

    /// The node reached from the root by the names of `path`. At each step
    /// the children searched are those of the node reached, or of its
    /// redirect target, and the child inserted last is found first.
    pub fn find_node_id(&self, path: &[&str]) -> (r: Option<BuildNodeId>)
        requires
            self.wf(),
        ensures
            match r {
                Some(id) => find_path(self.arena(), 0, names_of(path@)) == Some(id.idx()) && id.idx()
                    < self.size(),
                None => find_path(self.arena(), 0, names_of(path@)) is None,
            },
    {
        let ghost nodes = self.nodes@;
        let ghost names = names_of(path@);
        let mut id: usize = 0;
        let mut step: usize = 0;
        proof {
            assert(names.subrange(0, names.len() as int) =~= names);
        }
        while step < path.len()
            invariant
                nodes == self.nodes@,
                nodes_ok(nodes),
                names == names_of(path@),
                step <= path@.len(),
                id < nodes.len(),
                find_path(nodes, 0, names) == find_path(
                    nodes,
                    id as int,
                    names.subrange(step as int, names.len() as int),
                ),
            decreases path@.len() - step,
        {
            let element = path[step];
            let ghost rest = names.subrange(step as int, names.len() as int);
            proof {
                assert(rest[0] == element@);
                assert(rest.drop_first() =~= names.subrange(step + 1, names.len() as int));
                assert(node_ok(nodes, id as int));
            }
            let from = match self.nodes[id].next {
                BuildNodeNext::Redirect(target) => target,
                BuildNodeNext::Children { .. } => id,
            };
            proof {
                assert(from == searched(nodes, id as int));
                assert(node_ok(nodes, from as int));
            }
            let (first_child, count) = match self.nodes[from].next {
                BuildNodeNext::Children { first_child, count } => (first_child, count),
                BuildNodeNext::Redirect(_) => (NO_NODE, 0),
            };
            let ghost kids = chain(nodes, first_child, count as nat);
            proof {
                assert(kids == children_in(nodes, from as int));
                lemma_chain(nodes, from as int, first_child, count as nat);
            }
            let mut cur = first_child;
            let mut left = count;
            let mut found: Option<usize> = None;
            while left > 0 && found.is_none()
                invariant
                    nodes == self.nodes@,
                    nodes_ok(nodes),
                    left <= count,
                    chain_ok(nodes, from as int, cur, left as nat),
                    match found {
                        Some(c) => find_child(nodes, kids, element@) == Some(c) && c < nodes.len(),
                        None => find_child(nodes, kids, element@) == find_child(
                            nodes,
                            chain(nodes, cur, left as nat),
                            element@,
                        ),
                    },
                decreases left + (if found is None { 1int } else { 0int }),
            {
                let child = &self.nodes[cur];
                proof {
                    assert(node_ok(nodes, cur as int));
                    let here = chain(nodes, cur, left as nat);
                    assert(here[0] == cur);
                    assert(here.drop_first() =~= chain(nodes, child.next_sibling, (left - 1) as nat));
                }
                if str_eq(child.node.name(), element) {
                    found = Some(cur);
                } else {
                    cur = child.next_sibling;
                    left -= 1;
                }
            }
            match found {
                Some(c) => {
                    id = c;
                },
                None => {
                    proof {
                        assert(chain(nodes, cur, 0) =~= Seq::<usize>::empty());
                    }
                    return None;
                },
            }
            step += 1;
        }
        proof {
            assert(names.subrange(names.len() as int, names.len() as int) =~= Seq::<
                Seq<char>,
            >::empty());
        }
        Some(BuildNodeId::new(id))
    }

    /// Whether a node redirects to the node at `id`.
    pub fn is_redirect_target(&self, id: BuildNodeId) -> (r: bool)
        ensures
            r == exists|other: int|
                0 <= other < self.size() && #[trigger] self.redirect_of(other) == Some(id.idx()),
    {
        let at = id.index();
        let mut i: usize = 0;
        while i < self.nodes.len()
            invariant
                i <= self.nodes@.len(),
                at == id.idx(),
                forall|other: int|
                    0 <= other < i ==> #[trigger] redirect_in(self.nodes@, other) != Some(
                        at as int,
                    ),
            decreases self.nodes@.len() - i,
        {
            match self.nodes[i].next {
                BuildNodeNext::Redirect(target) => {
                    if target == at {
                        assert(self.redirect_of(i as int) == Some(id.idx()));
                        return true;
                    }
                },
                BuildNodeNext::Children { .. } => {},
            }
            i += 1;
        }
        proof {
            assert forall|other: int| 0 <= other < self.size() implies #[trigger] self.redirect_of(
                other,
            ) != Some(id.idx()) by {
                assert(redirect_in(self.nodes@, other) != Some(at as int));
            }
        }
        false
    }

    /// Adds `node` as the first child of `parent_node_id` and gives its
    /// identifier.
    pub fn insert(&mut self, parent_node_id: BuildNodeId, node: Node) -> (id: BuildNodeId)
        requires
            old(self).wf(),
            node.wf(),
            parent_node_id.idx() < old(self).size(),
            old(self).redirect_of(parent_node_id.idx()) is None,
            old(self).size() + 1 < NO_NODE,
        ensures
            final(self).wf(),
            final(self).size() == old(self).size() + 1,
            id.idx() == old(self).size(),
            final(self).node(id.idx()) == node,
            final(self).children(id.idx()) == Seq::<usize>::empty(),
            final(self).redirect_of(id.idx()) is None,
            final(self).children(parent_node_id.idx()) == seq![id.idx() as usize] + old(self).children(
                parent_node_id.idx(),
            ),
            forall|other: int|
                #![trigger final(self).node(other)]
                #![trigger final(self).redirect_of(other)]
                #![trigger final(self).children(other)]
                0 <= other < old(self).size() ==> {
                    &&& final(self).node(other) == old(self).node(other)
                    &&& final(self).redirect_of(other) == old(self).redirect_of(other)
                    &&& other != parent_node_id.idx() ==> final(self).children(other) == old(
                        self,
                    ).children(other)
                },
    {
        let ghost before = self.nodes@;
        let parent = parent_node_id.index();
        let node_idx = self.nodes.len();
        let (first_child, count) = match self.nodes[parent].next {
            BuildNodeNext::Children { first_child, count } => (first_child, count),
            BuildNodeNext::Redirect(_) => (NO_NODE, 0),
        };
        proof {
            assert(node_ok(before, parent as int));
            lemma_chain(before, parent as int, first_child, count as nat);
        }
        let mut made = BuildNode::new(node);
        made.next_sibling = first_child;
        self.nodes.push(made);
        let mut head = &mut self.nodes[parent];
        head.next = BuildNodeNext::Children { first_child: node_idx, count: count + 1 };
        proof {
            let after = self.nodes@;
            assert forall|k: int| 0 <= k < before.len() implies #[trigger] same_node(
                before,
                after,
                k,
            ) by {}
            assert(node_ok(before, parent as int));
            assert forall|k: int| 0 <= k < before.len() implies (#[trigger] before[k]).next_sibling
                == after[k].next_sibling by {
                assert(same_node(before, after, k));
            }
            lemma_chain_frame(before, after, parent as int, first_child, count as nat);
            assert(chain_ok(after, parent as int, node_idx, (count + 1) as nat));
            assert(node_ok(after, parent as int));
            assert(children_in(after, node_idx as int) =~= Seq::<usize>::empty());
            assert(node_ok(after, node_idx as int));
            assert forall|id: int| 0 <= id < after.len() implies #[trigger] node_ok(after, id) by {
                if id < before.len() && id != parent {
                    lemma_frame(before, after, parent as int, id);
                }
            }
            assert(single_parent(after)) by {
                assert forall|k: int| 0 <= k < before.len() && k != parent implies #[trigger] children_in(
                    after,
                    k,
                ) == children_in(before, k) by {
                    lemma_frame(before, after, parent as int, k);
                }
                let kids = children_in(after, parent as int);
                assert(kids =~= seq![node_idx] + children_in(before, parent as int));
                assert forall|c: usize| #[trigger] kids.contains(c) implies children_in(
                    before,
                    parent as int,
                ).contains(c) || c >= before.len() by {
                    let i = choose|i: int| 0 <= i < kids.len() && kids[i] == c;
                    if i > 0 {
                        assert(children_in(before, parent as int)[i - 1] == c);
                    }
                }
                lemma_single_parent_kept(before, after, parent as int);
            }
            assert forall|other: int|
                #![trigger final(self).node(other)]
                #![trigger final(self).redirect_of(other)]
                #![trigger final(self).children(other)]
                0 <= other < before.len() implies {
                &&& final(self).node(other) == old(self).node(other)
                &&& final(self).redirect_of(other) == old(self).redirect_of(other)
                &&& other != parent ==> final(self).children(other) == old(self).children(other)
            } by {
                assert(same_node(before, after, other));
                if other != parent {
                    lemma_frame(before, after, parent as int, other);
                }
            }
        }
        BuildNodeId::new(node_idx)
    }

    /// Takes from the node at `node_id` its children or its redirect.
    pub fn clear_node(&mut self, node_id: BuildNodeId)
        requires
            old(self).wf(),
            node_id.idx() < old(self).size(),
        ensures
            final(self).wf(),
            final(self).size() == old(self).size(),
            final(self).children(node_id.idx()) == Seq::<usize>::empty(),
            final(self).redirect_of(node_id.idx()) is None,
            forall|other: int|
                #![trigger final(self).node(other)]
                #![trigger final(self).redirect_of(other)]
                #![trigger final(self).children(other)]
                0 <= other < old(self).size() ==> {
                    &&& final(self).node(other) == old(self).node(other)
                    &&& other != node_id.idx() ==> final(self).redirect_of(other) == old(
                        self,
                    ).redirect_of(other)
                    &&& other != node_id.idx() ==> final(self).children(other) == old(
                        self,
                    ).children(other)
                },
    {
        let ghost before = self.nodes@;
        let at = node_id.index();
        let mut cleared = &mut self.nodes[at];
        cleared.next = BuildNodeNext::Children { first_child: NO_NODE, count: 0 };
        proof {
            let after = self.nodes@;
            assert forall|k: int| 0 <= k < before.len() implies #[trigger] same_node(
                before,
                after,
                k,
            ) by {}
            assert(node_ok(before, at as int));
            assert(children_in(after, at as int) =~= Seq::<usize>::empty());
            assert(node_ok(after, at as int));
            assert forall|id: int| 0 <= id < after.len() implies #[trigger] node_ok(after, id) by {
                if id != at {
                    lemma_frame(before, after, at as int, id);
                }
            }
            assert(single_parent(after)) by {
                assert forall|k: int| 0 <= k < before.len() && k != at implies #[trigger] children_in(
                    after,
                    k,
                ) == children_in(before, k) by {
                    lemma_frame(before, after, at as int, k);
                }
                lemma_single_parent_kept(before, after, at as int);
            }
            assert forall|other: int|
                #![trigger final(self).node(other)]
                #![trigger final(self).redirect_of(other)]
                #![trigger final(self).children(other)]
                0 <= other < before.len() implies {
                &&& final(self).node(other) == old(self).node(other)
                &&& other != at ==> final(self).redirect_of(other) == old(self).redirect_of(other)
                &&& other != at ==> final(self).children(other) == old(self).children(other)
            } by {
                assert(same_node(before, after, other));
                if other != at {
                    lemma_frame(before, after, at as int, other);
                }
            }
        }
    }

    /// Whether the tree can be lowered: its root does not redirect, and
    /// every redirect of a node that hangs on the root leads to a node that
    /// hangs on the root.
    pub fn can_lower(&self) -> (r: bool)
        requires
            self.wf(),
        ensures
            r == (self.redirect_of(0) is None && redirects_attached(self.arena())),
    {
        crate::lowering::can_lower(&self.nodes)
    }

    /// Lowers the tree: every node that hangs on the root, but for the root
    /// itself, gets one node of the parsing tree; the children of a node
    /// become neighbours behind it, with the literals first, and every
    /// redirecting node gets the very range of its target. Every redirect of
    /// a node that hangs on the root must lead to a node that hangs on the
    /// root.
    pub fn into_parsing_tree(self) -> (tree: ParsingTree)
        requires
            self.wf(),
            self.redirect_of(0) is None,
            redirects_attached(self.arena()),
        ensures
            tree.wf(),
            tree.num_roots == self.children(0).len(),
            exists|src: Seq<usize>| represents(self.arena(), tree, src),
    {
        lower(self.nodes)
    }

    /// Lets the node at `node_id` share the children of the node at `target`.
    pub fn redirect(&mut self, node_id: BuildNodeId, target: BuildNodeId)
        requires
            old(self).wf(),
            node_id.idx() < old(self).size(),
            target.idx() < old(self).size(),
            node_id != target,
            old(self).redirect_of(target.idx()) is None,
            old(self).redirect_of(node_id.idx()) is None,
            old(self).children(node_id.idx()).len() == 0,
            forall|other: int|
                0 <= other < old(self).size() ==> old(self).redirect_of(other) != Some(
                    node_id.idx(),
                ),
        ensures
            final(self).wf(),
            final(self).size() == old(self).size(),
            final(self).arena() == with_redirect(old(self).arena(), node_id.idx(), target.idx()),
            final(self).redirect_of(node_id.idx()) == Some(target.idx()),
            final(self).children(node_id.idx()) == old(self).children(node_id.idx()),
            forall|other: int|
                #![trigger final(self).node(other)]
                #![trigger final(self).redirect_of(other)]
                #![trigger final(self).children(other)]
                0 <= other < old(self).size() ==> {
                    &&& final(self).node(other) == old(self).node(other)
                    &&& other != node_id.idx() ==> final(self).redirect_of(other) == old(
                        self,
                    ).redirect_of(other)
                    &&& other != node_id.idx() ==> final(self).children(other) == old(
                        self,
                    ).children(other)
                },
    {
        let ghost before = self.nodes@;
        let at = node_id.index();
        let to = target.index();
        let mut changed = &mut self.nodes[at];
        changed.next = BuildNodeNext::Redirect(to);
        proof {
            let after = self.nodes@;
            assert(after =~= with_redirect(before, at as int, to as int));
            assert forall|k: int| 0 <= k < before.len() implies #[trigger] same_node(
                before,
                after,
                k,
            ) by {}
            assert forall|k: int| 0 <= k < before.len() implies #[trigger] redirect_in(before, k)
                != Some(at as int) by {
                assert(old(self).redirect_of(k) != Some(at as int));
            }
            assert(node_ok(before, at as int));
            assert(node_ok(before, to as int));
            assert(node_ok(after, at as int));
            assert forall|id: int| 0 <= id < after.len() implies #[trigger] node_ok(after, id) by {
                if id != at {
                    lemma_frame(before, after, at as int, id);
                }
            }
            assert(single_parent(after)) by {
                assert forall|k: int| 0 <= k < before.len() && k != at implies #[trigger] children_in(
                    after,
                    k,
                ) == children_in(before, k) by {
                    lemma_frame(before, after, at as int, k);
                }
                assert(children_in(after, at as int) =~= Seq::<usize>::empty());
                lemma_single_parent_kept(before, after, at as int);
            }
            assert forall|other: int|
                #![trigger final(self).node(other)]
                #![trigger final(self).redirect_of(other)]
                #![trigger final(self).children(other)]
                0 <= other < before.len() implies {
                &&& final(self).node(other) == old(self).node(other)
                &&& other != at ==> final(self).redirect_of(other) == old(self).redirect_of(other)
                &&& other != at ==> final(self).children(other) == old(self).children(other)
            } by {
                assert(same_node(before, after, other));
                if other != at {
                    lemma_frame(before, after, at as int, other);
                }
            }
        }
    }
}

/// `<[T]>::swap`: the elements at `a` and `b` change places.
#[verifier::external_body]
fn slice_swap<T>(data: &mut [T], a: usize, b: usize)
    requires
        a < old(data)@.len(),
        b < old(data)@.len(),
    ensures
        final(data)@ == old(data)@.update(a as int, old(data)@[b as int]).update(
            b as int,
            old(data)@[a as int],
        ),
{
    data.swap(a, b)
}

/// Exchanging two elements of a sequence keeps what it holds.
pub proof fn lemma_swap_multiset<T>(s: Seq<T>, a: int, b: int)
    requires
        0 <= a < s.len(),
        0 <= b < s.len(),
    ensures
        s.update(a, s[b]).update(b, s[a]).to_multiset() == s.to_multiset(),
{
    let s1 = s.update(a, s[b]);
    let s2 = s1.update(b, s[a]);
    if a == b {
        assert(s2 =~= s);
    } else {
        vstd::seq_lib::to_multiset_update(s, a, s[b]);
        vstd::seq_lib::to_multiset_update(s1, b, s[a]);
        vstd::seq_lib::to_multiset_contains(s, s[a]);
        vstd::seq_lib::to_multiset_contains(s, s[b]);
        assert(s.contains(s[a]));
        assert(s.contains(s[b]));
        assert(s1[b] == s[b]);
        assert(s2.to_multiset() =~= s.to_multiset());
    }
}

/// Reorders `data` so that the elements for which `predicate` holds come
/// first, and gives the number of these elements.
pub fn partition<T, F: Fn(&T) -> bool>(data: &mut [T], predicate: F) -> (mid: usize)
    requires
        forall|i: int| 0 <= i < old(data)@.len() ==> predicate.requires((&#[trigger] old(data)@[i],)),
    ensures
        final(data)@.to_multiset() == old(data)@.to_multiset(),
        final(data)@.len() == old(data)@.len(),
        mid <= final(data)@.len(),
        forall|i: int| 0 <= i < mid ==> predicate.ensures((&#[trigger] final(data)@[i],), true),
        forall|i: int|
            mid <= i < final(data)@.len() ==> predicate.ensures((&#[trigger] final(data)@[i],), false),
{
    let len = data.len();
    if len == 0 {
        return 0;
    }
    let mut l: usize = 0;
    let mut r: usize = len - 1;
    loop
        invariant
            len == data@.len(),
            len == old(data)@.len(),
            len > 0,
            l <= len,
            r < len,
                data@.to_multiset() == old(data)@.to_multiset(),
            forall|i: int| 0 <= i < len ==> predicate.requires((&#[trigger] data@[i],)),
            forall|i: int| 0 <= i < l ==> predicate.ensures((&#[trigger] data@[i],), true),
            forall|i: int| r < i < len ==> predicate.ensures((&#[trigger] data@[i],), false),
        decreases len - l + r,
    {
        let ghost l0 = l;
        let ghost r0 = r;
        while l < len && predicate(&data[l])
            invariant
                len == data@.len(),
                l0 <= l <= len,
                forall|i: int| 0 <= i < len ==> predicate.requires((&#[trigger] data@[i],)),
                forall|i: int| 0 <= i < l ==> predicate.ensures((&#[trigger] data@[i],), true),
            ensures
                l0 <= l <= len,
                forall|i: int| 0 <= i < l ==> predicate.ensures((&#[trigger] data@[i],), true),
                l < len ==> predicate.ensures((&data@[l as int],), false),
            decreases len - l,
        {
            l += 1;
        }
        while r > 0 && !predicate(&data[r])
            invariant
                len == data@.len(),
                r <= r0 < len,
                forall|i: int| 0 <= i < len ==> predicate.requires((&#[trigger] data@[i],)),
                forall|i: int| r < i < len ==> predicate.ensures((&#[trigger] data@[i],), false),
            ensures
                r <= r0,
                forall|i: int| r < i < len ==> predicate.ensures((&#[trigger] data@[i],), false),
                r > 0 ==> predicate.ensures((&data@[r as int],), true),
            decreases r,
        {
            r -= 1;
        }
        if l >= r {
            return l;
        }
        let ghost before = data@;
        slice_swap(data, l, r);
        proof {
            lemma_swap_multiset(before, l as int, r as int);
            assert forall|i: int| 0 <= i < len implies predicate.requires((&#[trigger] data@[i],)) by {
                if i == l {
                    assert(predicate.requires((&before[r as int],)));
                } else if i == r {
                    assert(predicate.requires((&before[l as int],)));
                } else {
                    assert(predicate.requires((&before[i],)));
                }
            }
            assert forall|i: int| 0 <= i < l + 1 implies predicate.ensures(
                (&#[trigger] data@[i],),
                true,
            ) by {
                if i < l {
                    assert(predicate.ensures((&before[i],), true));
                }
            }
            assert forall|i: int| r - 1 < i < len implies predicate.ensures(
                (&#[trigger] data@[i],),
                false,
            ) by {
                if i > r {
                    assert(predicate.ensures((&before[i],), false));
                }
            }
        }
        l += 1;
        r -= 1;
    }
}

} // verus!
