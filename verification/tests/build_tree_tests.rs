use dpc_common::build_tree::partition;
use dpc_common::parse::argument::{Argument, StringKind};
use dpc_common::{BuildNodeId, BuildTree, Node, NodeKind, ParsingTree};

fn is_literal(tree: &ParsingTree, idx: usize) -> bool {
    matches!(tree.get_node(idx).unwrap().kind, NodeKind::Literal(_))
}

fn child_names(tree: &ParsingTree, idx: usize) -> Vec<String> {
    let mut names: Vec<String> = tree.nodes[idx]
        .children
        .clone()
        .map(|c| tree.get_node(c).unwrap().name().to_string())
        .collect();
    names.sort();
    names
}

fn find(tree: &ParsingTree, range: std::ops::Range<usize>, name: &str) -> usize {
    range
        .into_iter()
        .find(|i| tree.get_node(*i).unwrap().name() == name)
        .unwrap()
}

fn check_layout(tree: &ParsingTree) {
    assert!(tree.num_roots <= tree.nodes.len());
    let mut ranges = vec![0..tree.num_roots];
    for (i, node) in tree.nodes.iter().enumerate() {
        let range = node.children.clone();
        assert!(range.start <= range.end && range.end <= tree.nodes.len());
        let forward = range.start > i;
        let shared = range == (0..tree.num_roots)
            || tree
                .nodes
                .iter()
                .enumerate()
                .any(|(k, other)| k != i && other.children == range && range.start > k);
        assert!(forward || shared, "node {} has a misplaced range", i);
        ranges.push(range);
    }
    for range in ranges {
        let literals = range.clone().take_while(|i| is_literal(tree, *i)).count();
        for i in range.start + literals..range.end {
            assert!(!is_literal(tree, i), "a literal follows an argument at {}", i);
        }
    }
}

#[test]
fn a_new_build_tree_holds_only_its_root() {
    let tree = BuildTree::new();
    assert_eq!(tree.len(), 1);
    assert_eq!(tree.child_count(BuildNodeId::root()), 0);
    assert!(!tree.is_redirecting(BuildNodeId::root()));
    assert_eq!(tree.find_node_id(&[]), Some(BuildNodeId::root()));
    assert_eq!(tree.find_node_id(&["say"]), None);
    assert_eq!(BuildNodeId::root().index(), 0);
    assert_eq!(BuildNodeId::new(3).index(), 3);
}

#[test]
fn inserted_nodes_are_found_by_their_path() {
    let mut tree = BuildTree::new();
    let say = tree.insert(BuildNodeId::root(), Node::literal("say"));
    let message = tree.insert(say, Node::argument("message", Argument::String(StringKind::GreedyPhrase)));
    let tp = tree.insert(BuildNodeId::root(), Node::literal("tp"));
    assert_eq!(say.index(), 1);
    assert_eq!(message.index(), 2);
    assert_eq!(tp.index(), 3);
    assert_eq!(tree.len(), 4);
    assert_eq!(tree.child_count(BuildNodeId::root()), 2);
    assert_eq!(tree.child_count(say), 1);
    assert_eq!(tree.find_node_id(&["say"]), Some(say));
    assert_eq!(tree.find_node_id(&["say", "message"]), Some(message));
    assert_eq!(tree.find_node_id(&["tp"]), Some(tp));
    assert_eq!(tree.find_node_id(&["tp", "message"]), None);
    assert_eq!(tree.find_node_id(&["message"]), None);
}

#[test]
fn the_child_inserted_last_is_found_first() {
    let mut tree = BuildTree::new();
    let first = tree.insert(BuildNodeId::root(), Node::literal("same"));
    let second = tree.insert(BuildNodeId::root(), Node::literal("same"));
    assert_ne!(first, second);
    assert_eq!(tree.find_node_id(&["same"]), Some(second));
}

#[test]
fn redirects_are_followed_when_a_path_is_resolved() {
    let mut tree = BuildTree::new();
    let execute = tree.insert(BuildNodeId::root(), Node::literal("execute"));
    let run = tree.insert(execute, Node::literal("run"));
    let say = tree.insert(BuildNodeId::root(), Node::literal("say"));
    assert!(!tree.is_redirect_target(BuildNodeId::root()));
    tree.redirect(run, BuildNodeId::root());
    assert!(tree.is_redirecting(run));
    assert!(tree.is_redirect_target(BuildNodeId::root()));
    assert!(!tree.is_redirect_target(say));
    assert_eq!(tree.child_count(run), 0);
    assert_eq!(tree.find_node_id(&["execute", "run"]), Some(run));
    assert_eq!(tree.find_node_id(&["execute", "run", "say"]), Some(say));
    assert_eq!(tree.find_node_id(&["execute", "run", "execute", "run", "say"]), Some(say));
    tree.clear_node(run);
    assert!(!tree.is_redirecting(run));
    assert_eq!(tree.find_node_id(&["execute", "run", "say"]), None);
}

#[test]
fn clearing_a_node_takes_its_children() {
    let mut tree = BuildTree::new();
    let a = tree.insert(BuildNodeId::root(), Node::literal("a"));
    let b = tree.insert(a, Node::literal("b"));
    assert_eq!(tree.find_node_id(&["a", "b"]), Some(b));
    tree.clear_node(a);
    assert_eq!(tree.child_count(a), 0);
    assert_eq!(tree.find_node_id(&["a", "b"]), None);
    assert_eq!(tree.len(), 3);
    let c = tree.insert(a, Node::literal("c"));
    assert_eq!(tree.find_node_id(&["a", "c"]), Some(c));
    assert_eq!(tree.child_count(a), 1);
}

#[test]
fn lowering_puts_children_side_by_side_with_literals_first() {
    let mut tree = BuildTree::new();
    let time = tree.insert(BuildNodeId::root(), Node::literal("time"));
    let set = tree.insert(time, Node::literal("set"));
    tree.insert(set, Node::argument("value", Argument::Integer { min: 0, max: 10 }).executable());
    tree.insert(set, Node::literal("day").executable());
    tree.insert(set, Node::argument("other", Argument::Bool));
    tree.insert(set, Node::literal("night").executable());
    tree.insert(set, Node::block());
    tree.insert(set, Node::literal("noon"));
    tree.insert(BuildNodeId::root(), Node::argument("x", Argument::Angle));
    tree.insert(BuildNodeId::root(), Node::literal("say"));
    assert!(tree.can_lower());
    let lowered = tree.into_parsing_tree();
    assert_eq!(lowered.num_roots, 3);
    assert_eq!(lowered.nodes.len(), 10);
    check_layout(&lowered);
    let time = find(&lowered, 0..3, "time");
    assert_eq!(child_names(&lowered, time), vec!["set"]);
    let set = lowered.nodes[time].children.start;
    assert_eq!(
        child_names(&lowered, set),
        vec!["day", "night", "noon", "other", "value", "{BLOCK}"]
    );
    let kids = lowered.nodes[set].children.clone();
    assert_eq!(kids.len(), 6);
    assert_eq!(kids.clone().filter(|i| is_literal(&lowered, *i)).count(), 3);
    assert!(kids.clone().take(3).all(|i| is_literal(&lowered, i)));
    let day = find(&lowered, kids.clone(), "day");
    assert!(lowered.get_node(day).unwrap().executable);
    assert!(lowered.nodes[day].children.is_empty());
    let block = find(&lowered, kids, "{BLOCK}");
    assert!(lowered.get_node(block).unwrap().executable);
    assert!(lowered.get_node(10).is_none());
    assert!(lowered.has_root_block() == false);
}

#[test]
fn lowering_gives_a_redirect_the_children_of_its_target() {
    let mut tree = BuildTree::new();
    let execute = tree.insert(BuildNodeId::root(), Node::literal("execute"));
    let run = tree.insert(execute, Node::literal("run"));
    let as_node = tree.insert(execute, Node::literal("as"));
    let targets = tree.insert(as_node, Node::argument("targets", Argument::Bool));
    let at = tree.insert(execute, Node::literal("at"));
    let say = tree.insert(BuildNodeId::root(), Node::literal("say"));
    tree.insert(say, Node::argument("message", Argument::String(StringKind::GreedyPhrase)));
    tree.insert(execute, Node::argument("first", Argument::Bool));
    tree.redirect(run, BuildNodeId::root());
    tree.redirect(targets, execute);
    tree.redirect(at, say);
    assert!(tree.can_lower());
    let lowered = tree.into_parsing_tree();
    check_layout(&lowered);
    assert_eq!(lowered.num_roots, 2);
    let execute = find(&lowered, 0..2, "execute");
    let say = find(&lowered, 0..2, "say");
    let kids = lowered.nodes[execute].children.clone();
    assert_eq!(child_names(&lowered, execute), vec!["as", "at", "first", "run"]);
    let run = find(&lowered, kids.clone(), "run");
    assert_eq!(lowered.nodes[run].children, 0..2);
    let at = find(&lowered, kids.clone(), "at");
    assert_eq!(lowered.nodes[at].children, lowered.nodes[say].children);
    assert_eq!(child_names(&lowered, at), vec!["message"]);
    let as_node = find(&lowered, kids.clone(), "as");
    let targets = lowered.nodes[as_node].children.start;
    assert_eq!(lowered.nodes[targets].children, kids);
    assert!(!is_literal(&lowered, kids.end - 1));
    assert_eq!(lowered.nodes.len(), 8);
    for (i, node) in lowered.nodes.iter().enumerate() {
        if i != run && i != at && i != targets {
            assert!(i < node.children.start, "node {} does not stand before its children", i);
        }
    }
}

#[test]
fn lowering_leaves_out_what_does_not_hang_on_the_root() {
    let mut tree = BuildTree::new();
    let a = tree.insert(BuildNodeId::root(), Node::literal("a"));
    let b = tree.insert(a, Node::literal("b"));
    tree.insert(b, Node::literal("c"));
    tree.insert(a, Node::literal("d"));
    tree.insert(BuildNodeId::root(), Node::literal("e"));
    tree.clear_node(a);
    tree.insert(a, Node::literal("f"));
    assert_eq!(tree.len(), 7);
    assert!(tree.can_lower());
    let lowered = tree.into_parsing_tree();
    check_layout(&lowered);
    assert_eq!(lowered.num_roots, 2);
    assert_eq!(lowered.nodes.len(), 3);
    let mut names: Vec<String> = lowered.nodes.iter().map(|n| n.node.name().to_string()).collect();
    names.sort();
    assert_eq!(names, vec!["a", "e", "f"]);
    for (i, node) in lowered.nodes.iter().enumerate() {
        assert!(i < node.children.start);
    }
}

#[test]
fn a_tree_with_a_dangling_redirect_cannot_be_lowered() {
    let mut tree = BuildTree::new();
    let a = tree.insert(BuildNodeId::root(), Node::literal("a"));
    let b = tree.insert(a, Node::literal("b"));
    let c = tree.insert(BuildNodeId::root(), Node::literal("c"));
    tree.redirect(c, b);
    assert!(tree.can_lower());
    tree.clear_node(a);
    assert!(!tree.can_lower());
    let mut rooted = BuildTree::new();
    let x = rooted.insert(BuildNodeId::root(), Node::literal("x"));
    rooted.clear_node(BuildNodeId::root());
    rooted.redirect(BuildNodeId::root(), x);
    assert!(!rooted.can_lower());
}

#[test]
fn an_empty_build_tree_lowers_to_an_empty_tree() {
    let lowered = BuildTree::new().into_parsing_tree();
    assert_eq!(lowered.num_roots, 0);
    assert!(lowered.nodes.is_empty());
    let fresh = ParsingTree::new();
    assert_eq!(fresh.num_roots, 0);
    assert!(fresh.get_node(0).is_none());
}

#[test]
fn partition_puts_the_chosen_elements_first() {
    let mut data = vec![5, 2, 8, 1, 9, 4, 7, 6, 3, 0];
    let mid = partition(data.as_mut_slice(), |x: &i32| *x % 2 == 0);
    assert_eq!(mid, 5);
    assert!(data[..mid].iter().all(|x| x % 2 == 0));
    assert!(data[mid..].iter().all(|x| x % 2 == 1));
    let mut sorted = data.clone();
    sorted.sort();
    assert_eq!(sorted, vec![0, 1, 2, 3, 4, 5, 6, 7, 8, 9]);
    assert_ne!(data, vec![5, 2, 8, 1, 9, 4, 7, 6, 3, 0]);

    let mut none: Vec<i32> = Vec::new();
    assert_eq!(partition(none.as_mut_slice(), |_x: &i32| true), 0);
    let mut all = vec![1, 2, 3];
    assert_eq!(partition(all.as_mut_slice(), |_x: &i32| true), 3);
    assert_eq!(all, vec![1, 2, 3]);
    let mut nothing = vec![1, 2, 3];
    assert_eq!(partition(nothing.as_mut_slice(), |_x: &i32| false), 0);
    let mut pair = vec![1, 2];
    assert_eq!(partition(pair.as_mut_slice(), |x: &i32| *x == 2), 1);
    assert_eq!(pair, vec![2, 1]);
}

#[test]
fn nodes_know_their_names() {
    let literal = Node::literal("say");
    assert_eq!(literal.name(), "say");
    assert!(!literal.executable);
    assert!(literal.usable);
    let argument = Node::argument("message", Argument::Bool).executable();
    assert_eq!(argument.name(), "message");
    assert!(argument.executable);
    assert!(matches!(argument.kind, NodeKind::Argument { arg: Argument::Bool, .. }));
    let block = Node::block();
    assert_eq!(block.name(), "{BLOCK}");
    assert!(block.executable);
    let copy = argument.clone();
    assert_eq!(copy.name(), "message");
    let plain = Node::new(NodeKind::Block);
    assert!(!plain.executable);
}
