use dpc_common::import::{
    construct_param, import, lead, ImportError, Properties, PropertyValue, SchemaKind, SchemaNode,
};
use dpc_common::parse::argument::{
    Argument, StringKind, DOUBLE_MAX, DOUBLE_MIN, FLOAT_MAX, FLOAT_MIN,
};
use dpc_common::{load_tree, BuildNodeId, BuildTree, LoadError, NodeKind};

fn text(value: &str) -> PropertyValue {
    PropertyValue { integer: None, double_bits: None, float_bits: None, text: Some(value.to_string()) }
}

fn number(value: f64) -> PropertyValue {
    let integer = if value.fract() == 0.0 { Some(value as i64) } else { None };
    PropertyValue {
        integer,
        double_bits: Some(value.to_bits()),
        float_bits: Some((value as f32).to_bits()),
        text: None,
    }
}

fn properties(entries: Vec<(&str, PropertyValue)>) -> Properties {
    Properties { entries: entries.into_iter().map(|(k, v)| (k.to_string(), v)).collect() }
}

fn node(kind: SchemaKind, children: Vec<(&str, SchemaNode)>) -> SchemaNode {
    SchemaNode {
        kind,
        children: children.into_iter().map(|(k, v)| (k.to_string(), v)).collect(),
        executable: false,
        redirect: Vec::new(),
    }
}

fn literal(children: Vec<(&str, SchemaNode)>) -> SchemaNode {
    node(SchemaKind::Literal, children)
}

fn argument(parser: &str, entries: Vec<(&str, PropertyValue)>) -> SchemaNode {
    node(SchemaKind::Argument { parser: parser.to_string(), properties: properties(entries) }, vec![])
}

fn executable(mut node: SchemaNode) -> SchemaNode {
    node.executable = true;
    node
}

fn redirecting(mut node: SchemaNode, path: &[&str]) -> SchemaNode {
    node.redirect = path.iter().map(|s| s.to_string()).collect();
    node
}

fn catalogue() -> SchemaNode {
    node(
        SchemaKind::Root,
        vec![
            (
                "execute",
                literal(vec![
                    ("run", redirecting(literal(vec![]), &[])),
                    (
                        "if",
                        literal(vec![(
                            "flag",
                            redirecting(argument("brigadier:bool", vec![]), &["execute"]),
                        )]),
                    ),
                ]),
            ),
            ("return", literal(vec![("run", literal(vec![]))])),
            (
                "say",
                literal(vec![(
                    "message",
                    executable(argument("brigadier:string", vec![("type", text("greedy"))])),
                )]),
            ),
        ],
    )
}

#[test]
fn parsers_without_properties_stand_for_their_category() {
    let none = properties(vec![]);
    assert!(matches!(construct_param("brigadier:bool", &none), Ok(Argument::Bool)));
    assert!(matches!(construct_param("minecraft:angle", &none), Ok(Argument::Angle)));
    assert!(matches!(construct_param("minecraft:block_pos", &none), Ok(Argument::BlockPos)));
    assert!(matches!(construct_param("minecraft:color", &none), Ok(Argument::Color)));
    assert!(matches!(construct_param("minecraft:column_pos", &none), Ok(Argument::ColumnPos)));
    assert!(matches!(construct_param("minecraft:nbt_path", &none), Ok(Argument::NbtPath)));
    assert!(matches!(construct_param("minecraft:vec2", &none), Ok(Argument::Vec2)));
    assert!(matches!(construct_param("minecraft:vec3", &none), Ok(Argument::Vec3)));
    assert!(matches!(
        construct_param("minecraft:template_rotation", &none),
        Ok(Argument::TemplateRotation)
    ));
    assert!(matches!(construct_param("minecraft:uuid", &none), Err(ImportError::UnknownParser)));
    assert!(matches!(construct_param("", &none), Err(ImportError::UnknownParser)));
    assert!(matches!(construct_param("brigadier:boolean", &none), Err(ImportError::UnknownParser)));
}

#[test]
fn number_parsers_take_their_bounds_from_the_properties() {
    let none = properties(vec![]);
    assert!(matches!(
        construct_param("brigadier:integer", &none),
        Ok(Argument::Integer { min: i32::MIN, max: i32::MAX })
    ));
    assert!(matches!(
        construct_param("brigadier:double", &none),
        Ok(Argument::Double { min: DOUBLE_MIN, max: DOUBLE_MAX })
    ));
    assert!(matches!(
        construct_param("brigadier:float", &none),
        Ok(Argument::Float { min: FLOAT_MIN, max: FLOAT_MAX })
    ));
    assert_eq!(f64::from_bits(DOUBLE_MIN), f64::MIN);
    assert_eq!(f64::from_bits(DOUBLE_MAX), f64::MAX);
    assert_eq!(f32::from_bits(FLOAT_MIN), f32::MIN);
    assert_eq!(f32::from_bits(FLOAT_MAX), f32::MAX);
    let bounds = properties(vec![("min", number(1.0)), ("max", number(64.0))]);
    assert!(matches!(
        construct_param("brigadier:integer", &bounds),
        Ok(Argument::Integer { min: 1, max: 64 })
    ));
    match construct_param("brigadier:double", &properties(vec![("max", number(0.5))])) {
        Ok(Argument::Double { min, max }) => {
            assert_eq!(min, DOUBLE_MIN);
            assert_eq!(f64::from_bits(max), 0.5);
        }
        other => panic!("expected a double, got {:?}", other),
    }
    match construct_param("brigadier:float", &properties(vec![("min", number(-2.5))])) {
        Ok(Argument::Float { min, max }) => {
            assert_eq!(f32::from_bits(min), -2.5);
            assert_eq!(max, FLOAT_MAX);
        }
        other => panic!("expected a float, got {:?}", other),
    }
    assert!(matches!(
        construct_param("brigadier:integer", &properties(vec![("min", number(0.5))])),
        Err(ImportError::InvalidProperty)
    ));
    assert!(matches!(
        construct_param("brigadier:integer", &properties(vec![("max", text("9"))])),
        Err(ImportError::InvalidProperty)
    ));
    assert!(matches!(
        construct_param("brigadier:double", &properties(vec![("min", text("0"))])),
        Err(ImportError::InvalidProperty)
    ));
    let wide = PropertyValue {
        integer: Some(0x1_0000_0005),
        double_bits: None,
        float_bits: None,
        text: None,
    };
    assert!(matches!(
        construct_param("brigadier:integer", &properties(vec![("min", wide)])),
        Ok(Argument::Integer { min: 5, max: i32::MAX })
    ));
    assert!(matches!(construct_param("minecraft:time", &none), Ok(Argument::Time { min: 0 })));
    assert!(matches!(
        construct_param("minecraft:time", &properties(vec![("min", number(20.0))])),
        Ok(Argument::Time { min: 20 })
    ));
}

#[test]
fn string_and_entity_parsers_read_their_kind() {
    let kind = |value: &str| construct_param("brigadier:string", &properties(vec![("type", text(value))]));
    assert!(matches!(
        construct_param("brigadier:string", &properties(vec![])),
        Ok(Argument::String(StringKind::SingleWord))
    ));
    assert!(matches!(kind("word"), Ok(Argument::String(StringKind::SingleWord))));
    assert!(matches!(kind("phrase"), Ok(Argument::String(StringKind::QuotablePhrase))));
    assert!(matches!(kind("greedy"), Ok(Argument::String(StringKind::GreedyPhrase))));
    assert!(matches!(kind("other"), Err(ImportError::InvalidProperty)));
    assert!(matches!(
        construct_param("brigadier:string", &properties(vec![("type", number(1.0))])),
        Err(ImportError::InvalidProperty)
    ));
    assert!(matches!(
        construct_param("minecraft:entity", &properties(vec![])),
        Ok(Argument::Entity { single: false, players_only: false })
    ));
    assert!(matches!(
        construct_param(
            "minecraft:entity",
            &properties(vec![("type", text("players")), ("amount", text("single"))])
        ),
        Ok(Argument::Entity { single: true, players_only: true })
    ));
    assert!(matches!(
        construct_param(
            "minecraft:entity",
            &properties(vec![("amount", text("multiple")), ("type", text("entities"))])
        ),
        Ok(Argument::Entity { single: false, players_only: false })
    ));
    assert!(matches!(
        construct_param("minecraft:entity", &properties(vec![("amount", text("few"))])),
        Err(ImportError::InvalidProperty)
    ));
    assert!(matches!(
        construct_param("minecraft:score_holder", &properties(vec![("amount", text("single"))])),
        Ok(Argument::ScoreHolder { single: true })
    ));
    assert!(matches!(
        construct_param("minecraft:score_holder", &properties(vec![])),
        Ok(Argument::ScoreHolder { single: false })
    ));
}

#[test]
fn resource_parsers_need_a_registry() {
    let with = properties(vec![("other", text("x")), ("registry", text("minecraft:item"))]);
    match construct_param("minecraft:resource", &with) {
        Ok(Argument::Resource { registry }) => assert_eq!(registry, "minecraft:item"),
        other => panic!("expected a resource, got {:?}", other),
    }
    assert!(matches!(
        construct_param("minecraft:resource_key", &with),
        Ok(Argument::ResourceKey { .. })
    ));
    assert!(matches!(
        construct_param("minecraft:resource_or_tag", &with),
        Ok(Argument::ResourceOrTag { .. })
    ));
    assert!(matches!(
        construct_param("minecraft:resource_or_tag_key", &with),
        Ok(Argument::ResourceOrTagKey { .. })
    ));
    assert!(matches!(
        construct_param("minecraft:resource", &properties(vec![])),
        Err(ImportError::MissingRegistry)
    ));
    assert!(matches!(
        construct_param("minecraft:resource", &properties(vec![("registry", number(1.0))])),
        Err(ImportError::InvalidProperty)
    ));
    assert!(with.get("registry").is_some());
    assert!(with.get("regis").is_none());
}

#[test]
fn import_builds_the_tree_of_the_catalogue() {
    let mut tree = BuildTree::new();
    assert_eq!(import(&catalogue(), &mut tree), Ok(()));
    assert_eq!(tree.len(), 9);
    assert_eq!(tree.child_count(BuildNodeId::root()), 3);
    let execute = tree.find_node_id(&["execute"]).unwrap();
    let run = tree.find_node_id(&["execute", "run"]).unwrap();
    let flag = tree.find_node_id(&["execute", "if", "flag"]).unwrap();
    let message = tree.find_node_id(&["say", "message"]).unwrap();
    assert_eq!(tree.child_count(execute), 2);
    assert!(!tree.is_redirecting(run));
    assert!(tree.is_redirecting(flag));
    assert!(tree.is_redirect_target(execute));
    assert_eq!(tree.find_node_id(&["execute", "if", "flag", "run"]), Some(run));
    assert!(tree.find_node_id(&["return", "run"]).is_some());
    assert!(tree.can_lower());
    let lowered = tree.into_parsing_tree();
    assert_eq!(lowered.num_roots, 3);
    let say = (0..3).find(|i| lowered.get_node(*i).unwrap().name() == "say").unwrap();
    let node = lowered.get_node(lowered.nodes[say].children.start).unwrap();
    assert_eq!(node.name(), "message");
    assert!(node.executable);
    assert!(matches!(
        node.kind,
        NodeKind::Argument { arg: Argument::String(StringKind::GreedyPhrase), .. }
    ));
    assert_eq!(message.index() > 0, true);
}

#[test]
fn import_rejects_what_is_no_schema() {
    let mut tree = BuildTree::new();
    assert_eq!(import(&literal(vec![]), &mut tree), Err(ImportError::RootExpected));
    assert_eq!(import(&executable(node(SchemaKind::Root, vec![])), &mut tree), Err(ImportError::RootExecutable));
    assert_eq!(
        import(&redirecting(node(SchemaKind::Root, vec![]), &["x"]), &mut tree),
        Err(ImportError::RootRedirect)
    );
    assert_eq!(tree.len(), 1);
    let nested = node(SchemaKind::Root, vec![("a", node(SchemaKind::Root, vec![]))]);
    assert_eq!(import(&nested, &mut BuildTree::new()), Err(ImportError::NestedRoot));
    let unknown = node(SchemaKind::Root, vec![("a", literal(vec![("b", argument("my:parser", vec![]))]))]);
    assert_eq!(import(&unknown, &mut BuildTree::new()), Err(ImportError::UnknownParser));
    let lost = node(SchemaKind::Root, vec![("a", redirecting(literal(vec![]), &["b"]))]);
    assert_eq!(import(&lost, &mut BuildTree::new()), Err(ImportError::UnknownRedirectTarget));
    let own = node(SchemaKind::Root, vec![("a", redirecting(literal(vec![]), &["a"]))]);
    assert_eq!(import(&own, &mut BuildTree::new()), Err(ImportError::InvalidRedirect));
    let crowded = node(
        SchemaKind::Root,
        vec![("a", redirecting(literal(vec![("b", literal(vec![]))]), &["c"])), ("c", literal(vec![]))],
    );
    assert_eq!(import(&crowded, &mut BuildTree::new()), Err(ImportError::InvalidRedirect));
    let chain = node(
        SchemaKind::Root,
        vec![
            ("a", redirecting(literal(vec![]), &["c"])),
            ("b", redirecting(literal(vec![]), &["a"])),
            ("c", literal(vec![])),
        ],
    );
    assert_eq!(import(&chain, &mut BuildTree::new()), Err(ImportError::InvalidRedirect));
    assert_eq!(import(&node(SchemaKind::Root, vec![]), &mut BuildTree::new()), Ok(()));
    let plain = node(SchemaKind::Root, vec![("a", redirecting(literal(vec![]), &[]))]);
    let mut kept = BuildTree::new();
    assert_eq!(import(&plain, &mut kept), Ok(()));
    assert!(!kept.is_redirecting(kept.find_node_id(&["a"]).unwrap()));
}

#[test]
fn load_tree_puts_blocks_behind_run() {
    let tree = load_tree(&catalogue()).unwrap();
    assert_eq!(tree.num_roots, 3);
    assert!(!tree.has_root_block());
    for command in ["execute", "return"] {
        let at = (0..3).find(|i| tree.get_node(*i).unwrap().name() == command).unwrap();
        let run = tree.nodes[at]
            .children
            .clone()
            .find(|i| tree.get_node(*i).unwrap().name() == "run")
            .unwrap();
        let kids = tree.nodes[run].children.clone();
        assert_eq!(kids.len(), 1);
        assert!(matches!(tree.get_node(kids.start).unwrap().kind, NodeKind::Block));
    }
    assert!(matches!(load_tree(&literal(vec![])), Err(LoadError::Import(ImportError::RootExpected))));
    let bare = node(SchemaKind::Root, vec![("say", literal(vec![]))]);
    assert!(matches!(load_tree(&bare), Err(LoadError::MissingRun)));
    let half = node(SchemaKind::Root, vec![("execute", literal(vec![("run", literal(vec![]))]))]);
    assert!(matches!(load_tree(&half), Err(LoadError::MissingRun)));
    let dangling = node(
        SchemaKind::Root,
        vec![
            ("execute", literal(vec![("run", literal(vec![("deep", literal(vec![]))]))])),
            ("return", literal(vec![("run", literal(vec![]))])),
            ("jump", redirecting(literal(vec![]), &["execute", "run", "deep"])),
        ],
    );
    assert!(matches!(load_tree(&dangling), Err(LoadError::DanglingRedirect)));
}

#[test]
fn a_node_is_led_to_the_node_that_a_path_names() {
    let mut tree = BuildTree::new();
    let schema = node(
        SchemaKind::Root,
        vec![("a", literal(vec![("b", literal(vec![]))])), ("c", literal(vec![])), ("d", literal(vec![]))],
    );
    assert_eq!(import(&schema, &mut tree), Ok(()));
    let a = tree.find_node_id(&["a"]).unwrap();
    let b = tree.find_node_id(&["a", "b"]).unwrap();
    let c = tree.find_node_id(&["c"]).unwrap();
    let d = tree.find_node_id(&["d"]).unwrap();
    assert_eq!(lead(&mut tree, c, &["x"]), Err(ImportError::UnknownRedirectTarget));
    assert_eq!(lead(&mut tree, c, &["a", "x"]), Err(ImportError::UnknownRedirectTarget));
    assert_eq!(lead(&mut tree, c, &["c"]), Err(ImportError::InvalidRedirect));
    assert_eq!(lead(&mut tree, a, &["c"]), Err(ImportError::InvalidRedirect));
    assert!(!tree.is_redirecting(c));
    assert!(!tree.is_redirecting(a));
    assert_eq!(lead(&mut tree, c, &["a"]), Ok(()));
    assert!(tree.is_redirecting(c));
    assert!(tree.is_redirect_target(a));
    assert_eq!(tree.find_node_id(&["c", "b"]), Some(b));
    assert_eq!(lead(&mut tree, c, &["d"]), Err(ImportError::InvalidRedirect));
    assert_eq!(lead(&mut tree, d, &["c"]), Err(ImportError::InvalidRedirect));
    assert_eq!(lead(&mut tree, b, &["c", "b"]), Err(ImportError::InvalidRedirect));
    assert_eq!(lead(&mut tree, d, &["c", "b"]), Ok(()));
    assert_eq!(lead(&mut tree, b, &["a"]), Err(ImportError::InvalidRedirect));
    assert_eq!(lead(&mut tree, d, &[]), Err(ImportError::InvalidRedirect));
    assert_eq!(tree.len(), 5);
    assert!(tree.can_lower());
}
