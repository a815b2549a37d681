//! Lowering a build tree into a parsing tree.

use crate::build_tree::{
    chain, chain_ok, children_in, lemma_chain, lemma_children_bounds, node_ok, nodes_ok,
    partition, redirect_in, BuildNode, BuildNodeNext, NO_NODE,
};
use crate::node::{Node, NodeKind};
use crate::parsing_tree::{
    forward, literals_first, node_placed, range_ok, shares, split_at_literals, ParsingNode,
    ParsingTree,
};
use std::ops::Range;
use vstd::prelude::*;

verus! {

/// Node `d` is node `a` or one of its descendants.
pub open spec fn under(nodes: Seq<BuildNode>, d: int, a: int) -> bool
    decreases d,
{
    d == a || (0 <= d < nodes.len() && exists|p: int|
        0 <= p < d && #[trigger] children_in(nodes, p).contains(d as usize) && under(nodes, p, a))
}

/// Node `d` is the root or one of its descendants.
pub open spec fn attached(nodes: Seq<BuildNode>, d: int) -> bool {
    under(nodes, d, 0)
}

/// Every redirect of an attached node leads to an attached node.
pub open spec fn redirects_attached(nodes: Seq<BuildNode>) -> bool {
    forall|id: int|
        0 <= id < nodes.len() && attached(nodes, id) ==> match #[trigger] redirect_in(nodes, id) {
            Some(t) => attached(nodes, t),
            None => true,
        }
}

/// The node whose children the output node for `id` gets: the redirect
/// target of `id`, or `id` itself.
pub open spec fn provider(nodes: Seq<BuildNode>, id: int) -> int {
    match redirect_in(nodes, id) {
        Some(t) => t,
        None => id,
    }
}

/// The range `children` is the one that a node redirecting to build node
/// `t` gets: that of the root's children for the root, else that of the
/// output node that stands for `t`.
pub open spec fn range_of_target(
    tree: ParsingTree,
    src: Seq<usize>,
    t: int,
    children: Range<usize>,
) -> bool {
    if t == 0 {
        children.start == 0 && children.end == tree.num_roots
    } else {
        exists|k: int|
            0 <= k < src.len() && #[trigger] src[k] == t && children.start
                == tree.nodes@[k].children.start && children.end == tree.nodes@[k].children.end
    }
}

/// `tree` is a lowering of the build tree `nodes` in which output node `j`
/// stands for build node `src[j]`. Every node that hangs on the root, but
/// for the root itself, has exactly one output node, and there are no
/// others. An output node is a copy of its build node, and its children
/// stand for exactly the children of that node, or of its redirect target.
/// The children of a node that does not redirect come behind it; a node
/// that redirects has the very range of its target. The first `num_roots`
/// output nodes stand for exactly the children of the root.
pub open spec fn represents(nodes: Seq<BuildNode>, tree: ParsingTree, src: Seq<usize>) -> bool {
    &&& src.len() == tree.nodes@.len()
    &&& tree.num_roots <= src.len()
    &&& src.subrange(0, tree.num_roots as int).to_multiset() == children_in(nodes, 0).to_multiset()
    &&& src.no_duplicates()
    &&& forall|d: int| 0 < d < nodes.len() && #[trigger] attached(nodes, d) ==> src.contains(d as usize)
    &&& forall|j: int|
        0 <= j < src.len() ==> {
            &&& 0 < #[trigger] src[j] < nodes.len()
            &&& attached(nodes, src[j] as int)
            &&& tree.nodes@[j].node == nodes[src[j] as int].node
            &&& tree.nodes@[j].children.start <= tree.nodes@[j].children.end <= src.len()
            &&& src.subrange(
                tree.nodes@[j].children.start as int,
                tree.nodes@[j].children.end as int,
            ).to_multiset() == children_in(nodes, provider(nodes, src[j] as int)).to_multiset()
            &&& match redirect_in(nodes, src[j] as int) {
                None => j < tree.nodes@[j].children.start,
                Some(t) => range_of_target(tree, src, t, tree.nodes@[j].children),
            }
        }
}

/// A descendant of a node does not stand before it.
proof fn lemma_under_ge(nodes: Seq<BuildNode>, d: int, a: int)
    requires
        under(nodes, d, a),
    ensures
        a <= d,
    decreases d,
{
    if d != a {
        let p = choose|p: int|
            0 <= p < d && #[trigger] children_in(nodes, p).contains(d as usize) && under(nodes, p, a);
        lemma_under_ge(nodes, p, a);
    }
}

/// A descendant of a descendant of `a` is a descendant of `a`.
proof fn lemma_under_trans(nodes: Seq<BuildNode>, d: int, c: int, a: int)
    requires
        under(nodes, d, c),
        under(nodes, c, a),
    ensures
        under(nodes, d, a),
    decreases d,
{
    if d != c {
        let p = choose|p: int|
            0 <= p < d && #[trigger] children_in(nodes, p).contains(d as usize) && under(nodes, p, c);
        lemma_under_trans(nodes, p, c, a);
    }
}

/// Of two nodes above one node, one is above the other.
proof fn lemma_under_chain(nodes: Seq<BuildNode>, d: int, a: int, b: int)
    requires
        nodes_ok(nodes),
        under(nodes, d, a),
        under(nodes, d, b),
    ensures
        under(nodes, a, b) || under(nodes, b, a),
    decreases d,
{
    if d != a && d != b {
        let p = choose|p: int|
            0 <= p < d && #[trigger] children_in(nodes, p).contains(d as usize) && under(nodes, p, a);
        let q = choose|q: int|
            0 <= q < d && #[trigger] children_in(nodes, q).contains(d as usize) && under(nodes, q, b);
        assert(p == q);
        lemma_under_chain(nodes, p, a, b);
    }
}

/// Of two children of one node, neither is above the other.
proof fn lemma_siblings_apart(nodes: Seq<BuildNode>, parent: int, x: usize, y: usize)
    requires
        nodes_ok(nodes),
        0 <= parent < nodes.len(),
        children_in(nodes, parent).contains(x),
        children_in(nodes, parent).contains(y),
        under(nodes, x as int, y as int),
    ensures
        x == y,
{
    if x != y {
        let p = choose|p: int|
            0 <= p < x && #[trigger] children_in(nodes, p).contains(x) && under(nodes, p, y as int);
        assert(p == parent);
        lemma_under_ge(nodes, parent, y as int);
        assert(node_ok(nodes, parent));
        lemma_children_bounds(nodes, parent, y);
    }
}

/// A strict descendant of `a` is a child of `a` or a descendant of one.
proof fn lemma_under_child(nodes: Seq<BuildNode>, d: int, a: int)
    requires
        under(nodes, d, a),
        d != a,
        nodes.len() <= usize::MAX,
    ensures
        exists|c: usize| #[trigger] children_in(nodes, a).contains(c) && under(nodes, d, c as int),
    decreases d,
{
    let p = choose|p: int|
        0 <= p < d && #[trigger] children_in(nodes, p).contains(d as usize) && under(nodes, p, a);
    if p == a {
        assert(children_in(nodes, a).contains(d as usize) && under(nodes, d, d as usize as int));
    } else {
        lemma_under_child(nodes, p, a);
        let c = choose|c: usize| #[trigger]
            children_in(nodes, a).contains(c) && under(nodes, p, c as int);
        assert(children_in(nodes, p).contains(d as usize));
        lemma_under_up(nodes, d, p, c as int);
    }
}

/// A child of a descendant of `a` is a descendant of `a`.
proof fn lemma_under_up(nodes: Seq<BuildNode>, d: int, p: int, a: int)
    requires
        0 <= p < d < nodes.len(),
        children_in(nodes, p).contains(d as usize),
        under(nodes, p, a),
    ensures
        under(nodes, d, a),
{
}

/// The build arena `now` differs from `orig` only in the recorded output
/// positions.
pub open spec fn same_shape(orig: Seq<BuildNode>, now: Seq<BuildNode>) -> bool {
    &&& now.len() == orig.len()
    &&& forall|k: int|
        0 <= k < orig.len() ==> {
            &&& (#[trigger] now[k]).node == orig[k].node
            &&& now[k].next == orig[k].next
            &&& now[k].next_sibling == orig[k].next_sibling
        }
}

/// Every recorded output position holds the node that recorded it.
pub open spec fn placed_ok(now: Seq<BuildNode>, src: Seq<usize>) -> bool {
    forall|id: int|
        0 <= id < now.len() && (#[trigger] now[id]).parsing_tree_idx != NO_NODE
            ==> now[id].parsing_tree_idx < src.len() && src[now[id].parsing_tree_idx as int] == id
}

/// Output node `j` is a copy of the build node it stands for, which hangs
/// on the root.
pub open spec fn slot_src(
    orig: Seq<BuildNode>,
    out: Seq<ParsingNode>,
    src: Seq<usize>,
    j: int,
) -> bool {
    &&& 0 < src[j] < orig.len()
    &&& out[j].node == orig[src[j] as int].node
    &&& attached(orig, src[j] as int)
}

/// The build node that output node `j` stands for has recorded `j` as its
/// position.
pub open spec fn slot_recorded(now: Seq<BuildNode>, src: Seq<usize>, j: int) -> bool {
    now[src[j] as int].parsing_tree_idx == j
}

/// No strict descendant of `parent` has a position yet.
pub open spec fn fresh_below(orig: Seq<BuildNode>, now: Seq<BuildNode>, parent: int) -> bool {
    forall|d: int|
        0 <= d < orig.len() && d != parent && #[trigger] under(orig, d, parent)
            ==> now[d].parsing_tree_idx == NO_NODE
}

/// Every node that got its position between `before` and `now` is one of
/// `ids` or a descendant of one of the first `k` of them.
pub open spec fn placed_since(
    orig: Seq<BuildNode>,
    before: Seq<BuildNode>,
    now: Seq<BuildNode>,
    ids: Seq<usize>,
    k: int,
) -> bool {
    forall|d: int|
        0 <= d < orig.len() && before[d].parsing_tree_idx == NO_NODE && (
        #[trigger] now[d]).parsing_tree_idx != NO_NODE ==> ids.contains(d as usize) || exists|i: int|
            0 <= i < k && #[trigger] under(orig, d, ids[i] as int)
}

/// Every node that got its position between `before` and `now` is a strict
/// descendant of `parent`.
pub open spec fn only_below(
    orig: Seq<BuildNode>,
    before: Seq<BuildNode>,
    now: Seq<BuildNode>,
    parent: int,
) -> bool {
    forall|d: int|
        0 <= d < orig.len() && before[d].parsing_tree_idx == NO_NODE && (
        #[trigger] now[d]).parsing_tree_idx != NO_NODE ==> d != parent && under(orig, d, parent)
}

/// Queued redirect `e` names an output node that stands for a redirecting
/// build node, and the attached target of its redirect.
pub open spec fn entry_ok(
    orig: Seq<BuildNode>,
    src: Seq<usize>,
    red: Seq<(usize, usize)>,
    e: int,
) -> bool {
    &&& red[e].0 < src.len()
    &&& redirect_in(orig, src[red[e].0 as int] as int) == Some(red[e].1 as int)
    &&& attached(orig, red[e].1 as int)
    &&& red[e].1 < orig.len()
}

/// Output node `j` is finished: it has its children, after it and with
/// their literals first, or it is queued for its redirect.
pub open spec fn slot_done(
    orig: Seq<BuildNode>,
    out: Seq<ParsingNode>,
    src: Seq<usize>,
    red: Seq<(usize, usize)>,
    j: int,
) -> bool {
    match redirect_in(orig, src[j] as int) {
        None => {
            &&& j < out[j].children.start <= out[j].children.end <= out.len()
            &&& literals_first(out, out[j].children.start as int, out[j].children.end as int)
            &&& src.subrange(
                out[j].children.start as int,
                out[j].children.end as int,
            ).to_multiset() == children_in(orig, src[j] as int).to_multiset()
        },
        Some(t) => exists|e: int| 0 <= e < red.len() && #[trigger] red[e] == (j as usize, t as usize),
    }
}

/// Literals stay first in a range when the output grows and children are
/// assigned, since the nodes themselves stay.
proof fn lemma_literals_stable(a: Seq<ParsingNode>, b: Seq<ParsingNode>, lo: int, hi: int)
    requires
        0 <= lo <= hi <= a.len() <= b.len(),
        literals_first(a, lo, hi),
        forall|k: int| 0 <= k < a.len() ==> (#[trigger] b[k]).node == a[k].node,
    ensures
        literals_first(b, lo, hi),
{
    let m = choose|m: int| split_at_literals(a, lo, m, hi);
    assert(split_at_literals(b, lo, m, hi)) by {
        assert forall|i: int| lo <= i < m implies (#[trigger] b[i]).node.is_literal() by {
            assert(a[i].node.is_literal());
        }
        assert forall|i: int| m <= i < hi implies !(#[trigger] b[i]).node.is_literal() by {
            assert(!a[i].node.is_literal());
        }
    }
}

/// A finished output node stays finished when the output, the record of
/// what it stands for, and the queue grow, and other nodes get children.
proof fn lemma_done_stable(
    orig: Seq<BuildNode>,
    out1: Seq<ParsingNode>,
    src1: Seq<usize>,
    red1: Seq<(usize, usize)>,
    out2: Seq<ParsingNode>,
    src2: Seq<usize>,
    red2: Seq<(usize, usize)>,
    j: int,
)
    requires
        0 <= j < out1.len(),
        out1.len() <= out2.len(),
        src1.len() == out1.len(),
        src2.len() == out2.len(),
        red1.len() <= red2.len(),
        slot_done(orig, out1, src1, red1, j),
        out2[j].children == out1[j].children,
        forall|k: int| 0 <= k < out1.len() ==> (#[trigger] out2[k]).node == out1[k].node,
        forall|k: int| 0 <= k < src1.len() ==> #[trigger] src2[k] == src1[k],
        forall|e: int| 0 <= e < red1.len() ==> #[trigger] red2[e] == red1[e],
    ensures
        slot_done(orig, out2, src2, red2, j),
{
    match redirect_in(orig, src1[j] as int) {
        None => {
            let lo = out1[j].children.start as int;
            let hi = out1[j].children.end as int;
            lemma_literals_stable(out1, out2, lo, hi);
            assert(src2.subrange(lo, hi) =~= src1.subrange(lo, hi));
        },
        Some(t) => {
            let e = choose|e: int| 0 <= e < red1.len() && #[trigger] red1[e] == (j as usize, t as usize);
            assert(red2[e] == (j as usize, t as usize));
        },
    }
}

/// Whether the build node at `id` is a literal.
fn is_literal_at(build: &Vec<BuildNode>, id: usize) -> (r: bool)
    requires
        id < build@.len(),
    ensures
        r == build@[id as int].node.is_literal(),
{
    match &build[id].node.kind {
        NodeKind::Literal(_) => true,
        _ => false,
    }
}

/// The members of the child list that starts at `first_child`.
fn collect_chain(
    build: &Vec<BuildNode>,
    Ghost(parent): Ghost<int>,
    first_child: usize,
    count: usize,
) -> (ids: Vec<usize>)
    requires
        chain_ok(build@, parent, first_child, count as nat),
    ensures
        ids@ == chain(build@, first_child, count as nat),
{
    let mut ids: Vec<usize> = Vec::new();
    let mut cur = first_child;
    let mut k: usize = 0;
    while k < count
        invariant
            k <= count,
            chain_ok(build@, parent, cur, (count - k) as nat),
            ids@ + chain(build@, cur, (count - k) as nat) == chain(
                build@,
                first_child,
                count as nat,
            ),
        decreases count - k,
    {
        proof {
            let rest = chain(build@, build@[cur as int].next_sibling, (count - k - 1) as nat);
            assert(chain(build@, cur, (count - k) as nat) == seq![cur] + rest);
            assert(ids@.push(cur) + rest =~= ids@ + (seq![cur] + rest));
        }
        ids.push(cur);
        cur = build[cur].next_sibling;
        k += 1;
    }
    proof {
        assert(chain(build@, cur, 0) =~= Seq::<usize>::empty());
        assert(ids@ + Seq::<usize>::empty() =~= ids@);
    }
    ids
}

/// What holds of the traversal state at every step: the build arena keeps
/// its shape, every output node is a copy of the build node it stands for,
/// and recorded positions and queued redirects are sound.
pub open spec fn lowering_inv(
    orig: Seq<BuildNode>,
    now: Seq<BuildNode>,
    out: Seq<ParsingNode>,
    src: Seq<usize>,
    red: Seq<(usize, usize)>,
) -> bool {
    &&& nodes_ok(orig)
    &&& redirects_attached(orig)
    &&& same_shape(orig, now)
    &&& src.len() == out.len()
    &&& placed_ok(now, src)
    &&& forall|j: int| 0 <= j < out.len() ==> #[trigger] slot_src(orig, out, src, j)
    &&& forall|j: int| 0 <= j < out.len() ==> #[trigger] slot_recorded(now, src, j)
    &&& forall|e: int| 0 <= e < red.len() ==> #[trigger] entry_ok(orig, src, red, e)
}

/// The second state continues the first: what was put out stays, what was
/// queued stays queued, and what had a position keeps one.
pub open spec fn extends(
    now1: Seq<BuildNode>,
    out1: Seq<ParsingNode>,
    src1: Seq<usize>,
    red1: Seq<(usize, usize)>,
    now2: Seq<BuildNode>,
    out2: Seq<ParsingNode>,
    src2: Seq<usize>,
    red2: Seq<(usize, usize)>,
) -> bool {
    &&& out1.len() <= out2.len()
    &&& red1.len() <= red2.len()
    &&& forall|j: int| 0 <= j < out1.len() ==> #[trigger] out2[j] == out1[j]
    &&& forall|j: int| 0 <= j < out1.len() ==> #[trigger] src2[j] == src1[j]
    &&& forall|e: int| 0 <= e < red1.len() ==> #[trigger] red2[e] == red1[e]
    &&& forall|id: int|
        0 <= id < now1.len() && (#[trigger] now1[id]).parsing_tree_idx != NO_NODE
            ==> now2[id].parsing_tree_idx != NO_NODE
}

/// A continuation of a continuation is a continuation.
proof fn lemma_extends_trans(
    now1: Seq<BuildNode>,
    out1: Seq<ParsingNode>,
    src1: Seq<usize>,
    red1: Seq<(usize, usize)>,
    now2: Seq<BuildNode>,
    out2: Seq<ParsingNode>,
    src2: Seq<usize>,
    red2: Seq<(usize, usize)>,
    now3: Seq<BuildNode>,
    out3: Seq<ParsingNode>,
    src3: Seq<usize>,
    red3: Seq<(usize, usize)>,
)
    requires
        extends(now1, out1, src1, red1, now2, out2, src2, red2),
        extends(now2, out2, src2, red2, now3, out3, src3, red3),
        now1.len() <= now2.len(),
    ensures
        extends(now1, out1, src1, red1, now3, out3, src3, red3),
{
    assert forall|j: int| 0 <= j < out1.len() implies #[trigger] out3[j] == out1[j] by {
        assert(out2[j] == out1[j]);
    }
    assert forall|j: int| 0 <= j < out1.len() implies #[trigger] src3[j] == src1[j] by {
        assert(src2[j] == src1[j]);
    }
    assert forall|e: int| 0 <= e < red1.len() implies #[trigger] red3[e] == red1[e] by {
        assert(red2[e] == red1[e]);
    }
    assert forall|id: int|
        0 <= id < now1.len() && (#[trigger] now1[id]).parsing_tree_idx
            != NO_NODE implies now3[id].parsing_tree_idx != NO_NODE by {
        assert(now2[id].parsing_tree_idx != NO_NODE);
    }
}

/// Every descendant of `a`, `a` included, has a position in the output.
pub open spec fn subtree_placed(orig: Seq<BuildNode>, now: Seq<BuildNode>, a: int) -> bool {
    forall|d: int|
        0 <= d < orig.len() && #[trigger] under(orig, d, a) ==> now[d].parsing_tree_idx != NO_NODE
}

/// A member of a sequence that holds what `other` holds is a member of
/// `other`.
proof fn lemma_member<T>(s: Seq<T>, other: Seq<T>, i: int)
    requires
        s.to_multiset() == other.to_multiset(),
        0 <= i < s.len(),
    ensures
        other.contains(s[i]),
{
    vstd::seq_lib::to_multiset_contains(s, s[i]);
    vstd::seq_lib::to_multiset_contains(other, s[i]);
    assert(s.contains(s[i]));
}

/// Puts out the children of `parent`, then their descendants, one sibling
/// group after the other.
fn insert_children(
    build: &mut Vec<BuildNode>,
    out: &mut Vec<ParsingNode>,
    red: &mut Vec<(usize, usize)>,
    src: &mut Ghost<Seq<usize>>,
    Ghost(orig): Ghost<Seq<BuildNode>>,
    Ghost(parent): Ghost<int>,
    first_child: usize,
    count: usize,
)
    requires
        lowering_inv(orig, old(build)@, old(out)@, old(src)@, old(red)@),
        0 <= parent < orig.len(),
        attached(orig, parent),
        orig[parent].next == (BuildNodeNext::Children { first_child, count }),
        fresh_below(orig, old(build)@, parent),
    ensures
        lowering_inv(orig, final(build)@, final(out)@, final(src)@, final(red)@),
        only_below(orig, old(build)@, final(build)@, parent),
        extends(
            old(build)@,
            old(out)@,
            old(src)@,
            old(red)@,
            final(build)@,
            final(out)@,
            final(src)@,
            final(red)@,
        ),
        final(out)@.len() >= old(out)@.len() + count,
        forall|j: int|
            old(out)@.len() <= j < final(out)@.len() ==> #[trigger] slot_done(
                orig,
                final(out)@,
                final(src)@,
                final(red)@,
                j,
            ),
        literals_first(final(out)@, old(out)@.len() as int, old(out)@.len() + count),
        final(src)@.subrange(old(out)@.len() as int, old(out)@.len() + count).to_multiset()
            == children_in(orig, parent).to_multiset(),
        forall|d: int|
            0 <= d < orig.len() && d != parent && #[trigger] under(orig, d, parent)
                ==> final(build)@[d].parsing_tree_idx != NO_NODE,
    decreases orig.len() - parent,
{
    let start = out.len();
    let ghost kids = chain(orig, first_child, count as nat);
    proof {
        assert(node_ok(orig, parent));
        crate::build_tree::lemma_chain_frame(orig, build@, parent, first_child, count as nat);
        lemma_chain(orig, parent, first_child, count as nat);
    }
    if count == 0 {
        proof {
            assert(split_at_literals(out@, start as int, start as int, start as int));
            assert(src@.subrange(start as int, start as int) =~= kids);
            assert forall|d: int|
                0 <= d < orig.len() && d != parent && #[trigger] under(
                    orig,
                    d,
                    parent,
                ) implies build@[d].parsing_tree_idx != NO_NODE by {
                lemma_under_child(orig, d, parent);
            }
        }
        return ;
    }
    let mut ids = collect_chain(build, Ghost(parent), first_child, count);
    let ghost listed = ids@;
    let view: &Vec<BuildNode> = build;
    let literal = |id: &usize| -> (r: bool)
        requires
            *id < view@.len(),
        ensures
            r == view@[*id as int].node.is_literal(),
        { is_literal_at(view, *id) };
    let mid = partition(ids.as_mut_slice(), literal);
    proof {
        assert(kids.no_duplicates());
        kids.lemma_multiset_has_no_duplicates();
        ids@.lemma_multiset_has_no_duplicates_conv();
        assert forall|i: int| 0 <= i < count implies build@[(#[trigger] ids@[i]) as int].parsing_tree_idx
            == NO_NODE by {
            lemma_member(ids@, kids, i);
            assert(node_ok(orig, parent));
            lemma_children_bounds(orig, parent, ids@[i]);
            lemma_under_up(orig, ids@[i] as int, parent, parent);
        }
        assert forall|i: int| 0 <= i < count implies parent < #[trigger] ids@[i] < orig.len()
            && kids.contains(ids@[i]) by {
            lemma_member(ids@, kids, i);
            let k = choose|k: int| 0 <= k < kids.len() && kids[k] == ids@[i];
            assert(parent < kids[k] < orig.len());
        }
        assert forall|i: int| 0 <= i < count implies (#[trigger] orig[ids@[i] as int]).node.is_literal()
            == (i < mid) by {
            if i < mid {
                assert(literal.ensures((&ids@[i],), true));
            } else {
                assert(literal.ensures((&ids@[i],), false));
            }
        }
    }
    let mut k: usize = 0;
    while k < count
        invariant
            k <= count,
            ids@.len() == count,
            start == old(out)@.len(),
            old(build)@.len() == orig.len(),
            out@.len() == start + k,
            red@ == old(red)@,
            0 <= parent < orig.len(),
            lowering_inv(orig, build@, out@, src@, red@),
            extends(old(build)@, old(out)@, old(src)@, old(red)@, build@, out@, src@, red@),
            forall|i: int| 0 <= i < count ==> parent < #[trigger] ids@[i] < orig.len(),
            forall|i: int|
                0 <= i < k ==> #[trigger] src@[start + i] == ids@[i] && build@[ids@[i] as int].parsing_tree_idx
                    != NO_NODE,
            ids@.no_duplicates(),
            attached(orig, parent),
            kids == children_in(orig, parent),
            forall|i: int| 0 <= i < count ==> kids.contains(#[trigger] ids@[i]),
            forall|i: int|
                k <= i < count ==> build@[(#[trigger] ids@[i]) as int].parsing_tree_idx == NO_NODE,
            placed_since(orig, old(build)@, build@, ids@, 0),
        decreases count - k,
    {
        let id = ids[k];
        let ghost build0 = build@;
        let ghost out0 = out@;
        let ghost src0 = src@;
        let node = build[id].node.clone();
        let at = out.len();
        out.push(ParsingNode { node, children: 0..0 });
        let filled = out.len();
        *src = Ghost(src@.push(id));
        let mut entry = &mut build[id];
        entry.parsing_tree_idx = at;
        proof {
            assert(kids.contains(ids@[k as int]));
            lemma_under_up(orig, id as int, parent, 0);
            assert forall|j: int| 0 <= j < out@.len() implies #[trigger] slot_src(
                orig,
                out@,
                src@,
                j,
            ) by {
                if j < out0.len() {
                    assert(slot_src(orig, out0, src0, j));
                }
            }
            assert forall|j: int| 0 <= j < out@.len() implies #[trigger] slot_recorded(
                build@,
                src@,
                j,
            ) by {
                if j < out0.len() {
                    assert(slot_recorded(build0, src0, j));
                    assert(slot_src(orig, out0, src0, j));
                    assert(build0[ids@[k as int] as int].parsing_tree_idx == NO_NODE);
                    assert(filled <= usize::MAX);
                    assert(src0[j] != id);
                    assert(src@[j] == src0[j]);
                    assert(build@[src0[j] as int].parsing_tree_idx
                        == build0[src0[j] as int].parsing_tree_idx);
                } else {
                    assert(j == at);
                    assert(src@[j] == id);
                    assert(build@[id as int].parsing_tree_idx == at);
                }
            }
            assert forall|i: int| k + 1 <= i < count implies build@[(#[trigger] ids@[i]) as int].parsing_tree_idx
                == NO_NODE by {
                assert(build0[ids@[i] as int].parsing_tree_idx == NO_NODE);
            }
            assert(placed_since(orig, old(build)@, build@, ids@, 0)) by {
                assert forall|d: int|
                    0 <= d < orig.len() && old(build)@[d].parsing_tree_idx == NO_NODE && (
                    #[trigger] build@[d]).parsing_tree_idx != NO_NODE implies ids@.contains(
                    d as usize,
                ) by {
                    if d != id {
                        assert(build0[d].parsing_tree_idx != NO_NODE);
                    } else {
                        assert(ids@[k as int] == d as usize);
                    }
                }
            }
            assert forall|e: int| 0 <= e < red@.len() implies #[trigger] entry_ok(
                orig,
                src@,
                red@,
                e,
            ) by {
                assert(entry_ok(orig, src0, red@, e));
            }
            assert(placed_ok(build@, src@)) by {
                assert forall|n: int|
                    0 <= n < build@.len() && (#[trigger] build@[n]).parsing_tree_idx
                        != NO_NODE implies build@[n].parsing_tree_idx < src@.len()
                    && src@[build@[n].parsing_tree_idx as int] == n by {
                    if n != id {
                        assert(build0[n].parsing_tree_idx != NO_NODE);
                    }
                }
            }
            assert forall|i: int| 0 <= i < k + 1 implies #[trigger] src@[start + i] == ids@[i]
                && build@[ids@[i] as int].parsing_tree_idx != NO_NODE by {
                if i < k {
                    assert(src0[start + i] == ids@[i]);
                    assert(build0[ids@[i] as int].parsing_tree_idx != NO_NODE);
                }
            }
            assert(extends(build0, out0, src0, red@, build@, out@, src@, red@));
            lemma_extends_trans(
                old(build)@,
                old(out)@,
                old(src)@,
                old(red)@,
                build0,
                out0,
                src0,
                red@,
                build@,
                out@,
                src@,
                red@,
            );
        }
        k += 1;
    }
    let end = out.len();
    proof {
        assert(split_at_literals(out@, start as int, start + mid, end as int)) by {
            assert forall|i: int| start <= i < end implies (#[trigger] out@[i]).node.is_literal()
                == (i < start + mid) by {
                assert(slot_src(orig, out@, src@, i));
                assert(src@[start + (i - start)] == ids@[i - start]);
            }
        }
        assert(src@.subrange(start as int, end as int) =~= ids@) by {
            assert forall|i: int| 0 <= i < count implies src@.subrange(start as int, end as int)[i]
                == ids@[i] by {
                assert(src@[start + i] == ids@[i]);
            }
        }
    }
    let mut k: usize = 0;
    while k < count
        invariant
            k <= count,
            ids@.len() == count,
            start == old(out)@.len(),
            old(build)@.len() == orig.len(),
            start + count == end,
            end <= out@.len(),
            0 <= parent < orig.len(),
            attached(orig, parent),
            kids == children_in(orig, parent),
            lowering_inv(orig, build@, out@, src@, red@),
            extends(old(build)@, old(out)@, old(src)@, old(red)@, build@, out@, src@, red@),
            forall|i: int|
                0 <= i < count ==> parent < #[trigger] ids@[i] < orig.len() && kids.contains(
                    ids@[i],
                ),
            forall|i: int|
                0 <= i < count ==> #[trigger] src@[start + i] == ids@[i] && build@[ids@[i] as int].parsing_tree_idx
                    != NO_NODE,
            literals_first(out@, start as int, end as int),
            src@.subrange(start as int, end as int) == ids@,
            forall|j: int|
                (start <= j < start + k || end <= j < out@.len()) ==> #[trigger] slot_done(
                    orig,
                    out@,
                    src@,
                    red@,
                    j,
                ),
            forall|i: int| 0 <= i < k ==> #[trigger] subtree_placed(orig, build@, ids@[i] as int),
            ids@.no_duplicates(),
            fresh_below(orig, old(build)@, parent),
            placed_since(orig, old(build)@, build@, ids@, k as int),
        decreases count - k,
    {
        let i = start + k;
        let id = ids[k];
        let base = out.len();
        let ghost build0 = build@;
        let ghost out0 = out@;
        let ghost src0 = src@;
        let ghost red0 = red@;
        proof {
            assert(kids.contains(ids@[k as int]));
            assert(children_in(orig, parent).contains(id));
            assert(under(orig, id as int, 0)) by {
                lemma_under_up(orig, id as int, parent, 0);
            }
            assert(src@[start + k] == ids@[k as int]);
            assert(fresh_below(orig, build@, id as int)) by {
                assert forall|d: int|
                    0 <= d < orig.len() && d != id && #[trigger] under(
                        orig,
                        d,
                        id as int,
                    ) implies build@[d].parsing_tree_idx == NO_NODE by {
                    if build@[d].parsing_tree_idx != NO_NODE {
                        lemma_under_up(orig, id as int, parent, parent);
                        lemma_under_trans(orig, d, id as int, parent);
                        lemma_under_ge(orig, d, id as int);
                        assert(old(build)@[d].parsing_tree_idx == NO_NODE);
                        if ids@.contains(d as usize) {
                            let n = choose|n: int| 0 <= n < ids@.len() && ids@[n] == d as usize;
                            assert(kids.contains(ids@[n]));
                            lemma_siblings_apart(orig, parent, d as usize, id);
                        } else {
                            let n = choose|n: int|
                                0 <= n < k && #[trigger] under(orig, d, ids@[n] as int);
                            lemma_under_chain(orig, d, ids@[n] as int, id as int);
                            assert(kids.contains(ids@[n]));
                            if under(orig, ids@[n] as int, id as int) {
                                lemma_siblings_apart(orig, parent, ids@[n], id);
                            } else {
                                lemma_siblings_apart(orig, parent, id, ids@[n]);
                            }
                            assert(ids@[n] == ids@[k as int]);
                        }
                    }
                }
            }
        }
        match build[id].next {
            BuildNodeNext::Children { first_child: fc, count: c } => {
                insert_children(build, out, red, src, Ghost(orig), Ghost(id as int), fc, c);
                let ghost out1 = out@;
                let total = out.len();
                proof {
                    lemma_extends_trans(
                        old(build)@,
                        old(out)@,
                        old(src)@,
                        old(red)@,
                        build0,
                        out0,
                        src0,
                        red0,
                        build@,
                        out1,
                        src@,
                        red@,
                    );
                }
                let mut slot = &mut out[i];
                slot.children = base..(base + c);
                proof {
                    assert forall|j: int| 0 <= j < old(out)@.len() implies #[trigger] out@[j] == old(
                        out,
                    )@[j] by {
                        assert(out1[j] == old(out)@[j]);
                    }
                    assert forall|j: int| 0 <= j < out@.len() implies #[trigger] slot_src(
                        orig,
                        out@,
                        src@,
                        j,
                    ) by {
                        assert(slot_src(orig, out1, src@, j));
                    }
                    assert(literals_first(out@, start as int, end as int)) by {
                        lemma_literals_stable(out0, out@, start as int, end as int);
                    }
                    assert(src@.subrange(start as int, end as int) =~= src0.subrange(
                        start as int,
                        end as int,
                    ));
                    assert forall|j: int|
                        (start <= j < start + k + 1 || end <= j < out@.len()) implies #[trigger] slot_done(
                        orig,
                        out@,
                        src@,
                        red@,
                        j,
                    ) by {
                        if j == i {
                            assert(src@[j] == id);
                            assert(redirect_in(orig, id as int) is None);
                            lemma_literals_stable(out1, out@, base as int, base + c);
                        } else if j < base {
                            assert(slot_done(orig, out0, src0, red0, j));
                            lemma_done_stable(orig, out0, src0, red0, out@, src@, red@, j);
                        } else {
                            assert(slot_done(orig, out1, src@, red@, j));
                            lemma_done_stable(orig, out1, src@, red@, out@, src@, red@, j);
                        }
                    }
                    assert(subtree_placed(orig, build@, id as int));
                }
            },
            BuildNodeNext::Redirect(t) => {
                red.push((i, t));
                proof {
                    assert(extends(build0, out0, src0, red0, build@, out@, src@, red@));
                    lemma_extends_trans(
                        old(build)@,
                        old(out)@,
                        old(src)@,
                        old(red)@,
                        build0,
                        out0,
                        src0,
                        red0,
                        build@,
                        out@,
                        src@,
                        red@,
                    );
                    assert(node_ok(orig, id as int));
                    assert(redirect_in(orig, id as int) == Some(t as int));
                    assert forall|e: int| 0 <= e < red@.len() implies #[trigger] entry_ok(
                        orig,
                        src@,
                        red@,
                        e,
                    ) by {
                        if e < red0.len() {
                            assert(entry_ok(orig, src@, red0, e));
                        }
                    }
                    assert forall|j: int|
                        (start <= j < start + k + 1 || end <= j < out@.len()) implies #[trigger] slot_done(
                        orig,
                        out@,
                        src@,
                        red@,
                        j,
                    ) by {
                        if j == i {
                            assert(red@[red0.len() as int] == (i, t));
                        } else {
                            assert(slot_done(orig, out0, src0, red0, j));
                            lemma_done_stable(orig, out0, src0, red0, out@, src@, red@, j);
                        }
                    }
                    assert(subtree_placed(orig, build@, id as int)) by {
                        assert forall|d: int|
                            0 <= d < orig.len() && #[trigger] under(
                                orig,
                                d,
                                id as int,
                            ) implies build@[d].parsing_tree_idx != NO_NODE by {
                            if d != id {
                                lemma_under_child(orig, d, id as int);
                            }
                        }
                    }
                }
            },
        }
        proof {
            assert(placed_since(orig, old(build)@, build@, ids@, k + 1)) by {
                assert forall|d: int|
                    0 <= d < orig.len() && old(build)@[d].parsing_tree_idx == NO_NODE && (
                    #[trigger] build@[d]).parsing_tree_idx != NO_NODE implies ids@.contains(
                    d as usize,
                ) || exists|i: int| 0 <= i < k + 1 && #[trigger] under(orig, d, ids@[i] as int) by {
                    if build0[d].parsing_tree_idx != NO_NODE {
                        if !ids@.contains(d as usize) {
                            let n = choose|n: int|
                                0 <= n < k && #[trigger] under(orig, d, ids@[n] as int);
                            assert(under(orig, d, ids@[n] as int));
                        }
                    } else {
                        assert(under(orig, d, ids@[k as int] as int));
                    }
                }
            }
            assert forall|n: int| 0 <= n < k + 1 implies #[trigger] subtree_placed(
                orig,
                build@,
                ids@[n] as int,
            ) by {
                if n < k {
                    assert(subtree_placed(orig, build0, ids@[n] as int));
                    assert forall|d: int|
                        0 <= d < orig.len() && #[trigger] under(
                            orig,
                            d,
                            ids@[n] as int,
                        ) implies build@[d].parsing_tree_idx != NO_NODE by {
                        assert(build0[d].parsing_tree_idx != NO_NODE);
                    }
                }
            }
            assert forall|n: int| 0 <= n < count implies #[trigger] src@[start + n] == ids@[n]
                && build@[ids@[n] as int].parsing_tree_idx != NO_NODE by {
                assert(src0[start + n] == ids@[n]);
                assert(build0[ids@[n] as int].parsing_tree_idx != NO_NODE);
            }
        }
        k += 1;
    }
    proof {
        assert forall|d: int|
            0 <= d < orig.len() && d != parent && #[trigger] under(
                orig,
                d,
                parent,
            ) implies build@[d].parsing_tree_idx != NO_NODE by {
            lemma_under_child(orig, d, parent);
            let c = choose|c: usize| #[trigger]
                children_in(orig, parent).contains(c) && under(orig, d, c as int);
            lemma_member(kids, ids@, kids.index_of(c));
            let n = choose|n: int| 0 <= n < ids@.len() && ids@[n] == c;
            assert(subtree_placed(orig, build@, ids@[n] as int));
        }
        assert(only_below(orig, old(build)@, build@, parent)) by {
            assert forall|d: int|
                0 <= d < orig.len() && old(build)@[d].parsing_tree_idx == NO_NODE && (
                #[trigger] build@[d]).parsing_tree_idx != NO_NODE implies d != parent && under(
                orig,
                d,
                parent,
            ) by {
                let n = if ids@.contains(d as usize) {
                    choose|n: int| 0 <= n < ids@.len() && ids@[n] == d as usize
                } else {
                    choose|n: int| 0 <= n < count && #[trigger] under(orig, d, ids@[n] as int)
                };
                assert(kids.contains(ids@[n]));
                lemma_under_up(orig, ids@[n] as int, parent, parent);
                lemma_under_trans(orig, d, ids@[n] as int, parent);
                lemma_under_ge(orig, d, ids@[n] as int);
            }
        }
    }
}

/// The arena while it is lowered.
struct Arena {
    nodes: Vec<BuildNode>,
}

/// The range that a redirect to build node `t` gets: the children of the
/// root for the root, else the children of the output node of `t`.
pub open spec fn shared_range(
    now: Seq<BuildNode>,
    dfs: Seq<ParsingNode>,
    num_roots: usize,
    t: usize,
) -> Range<usize> {
    if t == 0 {
        0..num_roots
    } else {
        dfs[now[t as int].parsing_tree_idx as int].children
    }
}

/// Queued redirect `e` has been carried out.
pub open spec fn entry_patched(
    now: Seq<BuildNode>,
    dfs: Seq<ParsingNode>,
    out: Seq<ParsingNode>,
    red: Seq<(usize, usize)>,
    num_roots: usize,
    e: int,
) -> bool {
    out[red[e].0 as int].children == shared_range(now, dfs, num_roots, red[e].1)
}

/// Lowers the arena of a build tree: every node that hangs on the root, but
/// for the root itself, gets one output node; the children of a node become
/// neighbours behind it, with the literals first, and every redirecting
/// node gets the very range of its target.
pub fn lower(nodes: Vec<BuildNode>) -> (tree: ParsingTree)
    requires
        nodes_ok(nodes@),
        redirect_in(nodes@, 0) is None,
        redirects_attached(nodes@),
    ensures
        tree.wf(),
        tree.num_roots == children_in(nodes@, 0).len(),
        exists|src: Seq<usize>| represents(nodes@, tree, src),
{
    {
        let mut this = Arena { nodes };
        let ghost orig = this.nodes@;
        let (first_child, count) = match this.nodes[0].next {
            BuildNodeNext::Children { first_child, count } => (first_child, count),
            BuildNodeNext::Redirect(_) => (NO_NODE, 0),
        };
        let mut out: Vec<ParsingNode> = Vec::new();
        let mut red: Vec<(usize, usize)> = Vec::new();
        let mut src: Ghost<Seq<usize>> = Ghost(Seq::empty());
        proof {
            assert(node_ok(orig, 0));
            lemma_chain(orig, 0, first_child, count as nat);
            assert forall|id: int| 0 <= id < orig.len() implies (#[trigger] orig[id]).parsing_tree_idx
                == NO_NODE by {
                assert(node_ok(orig, id));
            }
        }
        insert_children(
            &mut this.nodes,
            &mut out,
            &mut red,
            &mut src,
            Ghost(orig),
            Ghost(0),
            first_child,
            count,
        );
        let ghost dfs = out@;
        let ghost now = this.nodes@;
        let ghost held = src@;
        let mut e: usize = 0;
        while e < red.len()
            invariant
                e <= red@.len(),
                now == this.nodes@,
                out@.len() == dfs.len(),
                count <= dfs.len(),
                literals_first(dfs, 0, count as int),
                held.subrange(0, count as int).to_multiset() == children_in(orig, 0).to_multiset(),
                lowering_inv(orig, now, dfs, held, red@),
                forall|j: int| 0 <= j < dfs.len() ==> #[trigger] slot_done(orig, dfs, held, red@, j),
                forall|d: int|
                    0 < d < orig.len() && #[trigger] under(orig, d, 0) ==> now[d].parsing_tree_idx
                        != NO_NODE,
                forall|j: int| 0 <= j < dfs.len() ==> (#[trigger] out@[j]).node == dfs[j].node,
                forall|j: int|
                    0 <= j < dfs.len() && redirect_in(orig, held[j] as int) is None ==> (
                    #[trigger] out@[j]).children == dfs[j].children,
                forall|n: int| 0 <= n < e ==> #[trigger] entry_patched(now, dfs, out@, red@, count, n),
            decreases red@.len() - e,
        {
            let (i, t) = red[e];
            let ghost out0 = out@;
            proof {
                assert(entry_ok(orig, held, red@, e as int));
                assert(slot_src(orig, dfs, held, i as int));
            }
            if t == 0 {
                let mut slot = &mut out[i];
                slot.children = 0..count;
            } else {
                proof {
                    assert(under(orig, t as int, 0));
                    assert(now[t as int].parsing_tree_idx != NO_NODE);
                    assert(node_ok(orig, held[i as int] as int));
                }
                let ti = this.nodes[t].parsing_tree_idx;
                let range = out[ti].children.start..out[ti].children.end;
                let mut slot = &mut out[i];
                slot.children = range;
            }
            proof {
                assert forall|n: int| 0 <= n < e + 1 implies #[trigger] entry_patched(
                    now,
                    dfs,
                    out@,
                    red@,
                    count,
                    n,
                ) by {
                    assert(entry_ok(orig, held, red@, n));
                    if n < e {
                        assert(entry_patched(now, dfs, out0, red@, count, n));
                    }
                }
            }
            e += 1;
        }
        let total = out.len();
        let tree = ParsingTree { nodes: out, num_roots: count };
        proof {
            let nodes = tree.nodes@;
            assert(range_ok(nodes, 0, count as int)) by {
                lemma_literals_stable(dfs, nodes, 0, count as int);
            }
            assert forall|j: int| 0 <= j < nodes.len() implies {
                &&& #[trigger] node_placed(nodes, count as int, j)
                &&& nodes[j].children.start <= nodes[j].children.end <= held.len()
                &&& held.subrange(
                    nodes[j].children.start as int,
                    nodes[j].children.end as int,
                ).to_multiset() == children_in(orig, provider(orig, held[j] as int)).to_multiset()
                &&& match redirect_in(orig, held[j] as int) {
                    None => j < nodes[j].children.start,
                    Some(t) => range_of_target(tree, held, t, nodes[j].children),
                }
            } by {
                assert(slot_src(orig, dfs, held, j));
                assert(node_ok(orig, held[j] as int));
                assert(slot_done(orig, dfs, held, red@, j));
                assert(nodes[j].node.wf());
                match orig[held[j] as int].next {
                    BuildNodeNext::Children { .. } => {
                        assert(redirect_in(orig, held[j] as int) is None);
                        assert(nodes[j].children == dfs[j].children);
                        lemma_literals_stable(
                            dfs,
                            nodes,
                            dfs[j].children.start as int,
                            dfs[j].children.end as int,
                        );
                        assert(forward(nodes, j));
                        assert(provider(orig, held[j] as int) == held[j]);
                    },
                    BuildNodeNext::Redirect(target) => {
                        assert(redirect_in(orig, held[j] as int) == Some(target as int));
                        let n = choose|n: int|
                            0 <= n < red@.len() && #[trigger] red@[n] == (j as usize, target);
                        assert(entry_patched(now, dfs, nodes, red@, count, n));
                        assert(entry_ok(orig, held, red@, n));
                        assert(provider(orig, held[j] as int) == target);
                        if target == 0 {
                            assert(nodes[j].children.start == 0 && nodes[j].children.end == count);
                            assert(shares(nodes, count as int, j));
                        } else {
                            assert(under(orig, target as int, 0));
                            let ti = now[target as int].parsing_tree_idx as int;
                            assert(held[ti] == target);
                            assert(orig[target as int].next is Children);
                            assert(redirect_in(orig, target as int) is None);
                            assert(slot_done(orig, dfs, held, red@, ti));
                            assert(nodes[ti].children == dfs[ti].children);
                            assert(nodes[j].children == dfs[ti].children);
                            lemma_literals_stable(
                                dfs,
                                nodes,
                                dfs[ti].children.start as int,
                                dfs[ti].children.end as int,
                            );
                            assert(forward(nodes, ti));
                            assert(ti != j);
                            assert(shares(nodes, count as int, j));
                            assert(held[ti] == target && nodes[j].children.start
                                == tree.nodes@[ti].children.start && nodes[j].children.end
                                == tree.nodes@[ti].children.end);
                            assert(range_of_target(tree, held, target as int, nodes[j].children));
                        }
                    },
                }
            }
            assert(held.no_duplicates()) by {
                assert forall|i: int, j: int|
                    0 <= i < held.len() && 0 <= j < held.len() && i != j implies held[i]
                    != held[j] by {
                    assert(slot_recorded(now, held, i));
                    assert(slot_recorded(now, held, j));
                }
            }
            assert forall|d: int| 0 < d < orig.len() && #[trigger] attached(orig, d) implies held.contains(
                d as usize,
            ) by {
                assert(under(orig, d, 0));
                assert(now[d].parsing_tree_idx != NO_NODE);
                assert(held[now[d].parsing_tree_idx as int] == d);
            }
            assert(represents(orig, tree, held)) by {
                assert forall|j: int| 0 <= j < held.len() implies 0 < #[trigger] held[j]
                    < orig.len() && tree.nodes@[j].node == orig[held[j] as int].node && attached(
                    orig,
                    held[j] as int,
                ) by {
                    assert(slot_src(orig, dfs, held, j));
                }
                assert forall|j: int| 0 <= j < held.len() implies {
                    &&& 0 < #[trigger] held[j] < orig.len()
                    &&& attached(orig, held[j] as int)
                    &&& tree.nodes@[j].node == orig[held[j] as int].node
                    &&& tree.nodes@[j].children.start <= tree.nodes@[j].children.end <= held.len()
                    &&& held.subrange(
                        tree.nodes@[j].children.start as int,
                        tree.nodes@[j].children.end as int,
                    ).to_multiset() == children_in(
                        orig,
                        provider(orig, held[j] as int),
                    ).to_multiset()
                    &&& match redirect_in(orig, held[j] as int) {
                        None => j < tree.nodes@[j].children.start,
                        Some(t) => range_of_target(tree, held, t, tree.nodes@[j].children),
                    }
                } by {
                    assert(node_placed(nodes, count as int, j));
                }
            }
        }
        tree
    }
}

/// Node `d` is the root, or the child of an attached node before `bound`.
pub open spec fn reached(nodes: Seq<BuildNode>, d: int, bound: int) -> bool {
    d == 0 || exists|p: int|
        0 <= p < bound && p < d && #[trigger] children_in(nodes, p).contains(d as usize)
            && attached(nodes, p)
}

/// A node is attached exactly when it is reached from a node before it, and
/// so when it is reached from a node before any later bound.
proof fn lemma_reached(nodes: Seq<BuildNode>, d: int, bound: int)
    requires
        nodes_ok(nodes),
        0 <= d < nodes.len(),
        d <= bound,
    ensures
        attached(nodes, d) == reached(nodes, d, bound),
{
    if attached(nodes, d) && d != 0 {
        let p = choose|p: int|
            0 <= p < d && #[trigger] children_in(nodes, p).contains(d as usize) && under(
                nodes,
                p,
                0,
            );
        assert(reached(nodes, d, bound));
    }
    if reached(nodes, d, bound) && d != 0 {
        let p = choose|p: int|
            0 <= p < bound && p < d && #[trigger] children_in(nodes, p).contains(d as usize)
                && attached(nodes, p);
        assert(under(nodes, d, 0));
    }
}

/// Whether the arena can be lowered: the root does not redirect, and every
/// redirect of an attached node leads to an attached node.
pub fn can_lower(nodes: &Vec<BuildNode>) -> (r: bool)
    requires
        nodes_ok(nodes@),
    ensures
        r == (redirect_in(nodes@, 0) is None && redirects_attached(nodes@)),
{
    let ghost arena = nodes@;
    let n = nodes.len();
    match nodes[0].next {
        BuildNodeNext::Redirect(_) => {
            return false;
        },
        BuildNodeNext::Children { .. } => {},
    }
    let mut marks: Vec<bool> = Vec::new();
    let mut i: usize = 0;
    while i < n
        invariant
            i <= n,
            marks@.len() == i,
            forall|d: int| 0 <= d < i ==> #[trigger] marks@[d] == (d == 0),
        decreases n - i,
    {
        marks.push(i == 0);
        i += 1;
    }
    let mut i: usize = 0;
    while i < n
        invariant
            arena == nodes@,
            nodes_ok(arena),
            n == arena.len(),
            i <= n,
            marks@.len() == n,
            forall|d: int| 0 <= d < n ==> #[trigger] marks@[d] == reached(arena, d, i as int),
        decreases n - i,
    {
        let ghost before = marks@;
        proof {
            lemma_reached(arena, i as int, i as int);
            assert(node_ok(arena, i as int));
        }
        if marks[i] {
            match nodes[i].next {
                BuildNodeNext::Children { first_child, count } => {
                    let ghost kids = chain(arena, first_child, count as nat);
                    proof {
                        lemma_chain(arena, i as int, first_child, count as nat);
                    }
                    let mut cur = first_child;
                    let mut k: usize = 0;
                    while k < count
                        invariant
                            arena == nodes@,
                            n == arena.len(),
                            k <= count,
                            kids == chain(arena, first_child, count as nat),
                            kids.len() == count,
                            forall|j: int| 0 <= j < count ==> i < #[trigger] kids[j] < n,
                            chain_ok(arena, i as int, cur, (count - k) as nat),
                            kids.subrange(k as int, count as int) == chain(
                                arena,
                                cur,
                                (count - k) as nat,
                            ),
                            marks@.len() == n,
                            forall|d: int|
                                0 <= d < n ==> #[trigger] marks@[d] == (before[d]
                                    || kids.subrange(0, k as int).contains(d as usize)),
                        decreases count - k,
                    {
                        proof {
                            let rest = chain(arena, cur, (count - k) as nat);
                            assert(rest[0] == cur);
                            assert(kids[k as int] == kids.subrange(k as int, count as int)[0]);
                            assert(rest.drop_first() =~= kids.subrange(k + 1, count as int));
                        }
                        let ghost marked = marks@;
                        marks[cur] = true;
                        proof {
                            let shorter = kids.subrange(0, k as int);
                            let longer = kids.subrange(0, k + 1);
                            assert(longer =~= shorter.push(cur));
                            assert forall|d: int| 0 <= d < n implies #[trigger] marks@[d] == (
                            before[d] || longer.contains(d as usize)) by {
                                if d == cur {
                                    assert(longer[k as int] == cur);
                                } else {
                                    assert(marks@[d] == marked[d]);
                                    if shorter.contains(d as usize) {
                                        let j = choose|j: int|
                                            0 <= j < shorter.len() && shorter[j] == d as usize;
                                        assert(longer[j] == d as usize);
                                    }
                                    if longer.contains(d as usize) {
                                        let j = choose|j: int|
                                            0 <= j < longer.len() && longer[j] == d as usize;
                                        assert(shorter[j] == d as usize);
                                    }
                                }
                            }
                        }
                        cur = nodes[cur].next_sibling;
                        k += 1;
                    }
                    proof {
                        assert(kids.subrange(0, count as int) =~= kids);
                        assert(kids == children_in(arena, i as int));
                    }
                },
                BuildNodeNext::Redirect(_) => {
                    proof {
                        assert(children_in(arena, i as int) =~= Seq::<usize>::empty());
                    }
                },
            }
        }
        proof {
            assert forall|d: int| 0 <= d < n implies #[trigger] marks@[d] == reached(
                arena,
                d,
                i + 1,
            ) by {
                let kids = children_in(arena, i as int);
                assert(before[d] == reached(arena, d, i as int));
                if reached(arena, d, i as int) {
                    if d != 0 {
                        let p = choose|p: int|
                            0 <= p < i && p < d && #[trigger] children_in(arena, p).contains(
                                d as usize,
                            ) && attached(arena, p);
                        assert(reached(arena, d, i + 1));
                    }
                }
                if before[i as int] && kids.contains(d as usize) {
                    assert(node_ok(arena, i as int));
                    lemma_children_bounds(arena, i as int, d as usize);
                    assert(reached(arena, d, i + 1));
                }
                if reached(arena, d, i + 1) && !reached(arena, d, i as int) {
                    let p = choose|p: int|
                        0 <= p < i + 1 && p < d && #[trigger] children_in(arena, p).contains(
                            d as usize,
                        ) && attached(arena, p);
                    assert(p == i);
                }
            }
        }
        i += 1;
    }
    let mut i: usize = 0;
    while i < n
        invariant
            arena == nodes@,
            nodes_ok(arena),
            n == arena.len(),
            i <= n,
            marks@.len() == n,
            redirect_in(arena, 0) is None,
            forall|d: int| 0 <= d < n ==> #[trigger] marks@[d] == reached(arena, d, n as int),
            forall|id: int|
                0 <= id < i && attached(arena, id) ==> match #[trigger] redirect_in(arena, id) {
                    Some(t) => attached(arena, t),
                    None => true,
                },
        decreases n - i,
    {
        proof {
            lemma_reached(arena, i as int, n as int);
            assert(node_ok(arena, i as int));
        }
        if marks[i] {
            match nodes[i].next {
                BuildNodeNext::Redirect(target) => {
                    proof {
                        lemma_reached(arena, target as int, n as int);
                    }
                    if !marks[target] {
                        proof {
                            assert(redirect_in(arena, i as int) == Some(target as int));
                        }
                        return false;
                    }
                },
                BuildNodeNext::Children { .. } => {},
            }
        }
        i += 1;
    }
    true
}

} // verus!
