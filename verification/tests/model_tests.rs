use flow_parser::index::{build_children_map, wrap_with_root, SchemaIndex};
use flow_parser::models::{FieldType, Node, NodeArena, SchemaNode};

#[test]
fn node_new_copies_values_and_starts_without_children() {
    let node = Node::new("A01", vec!["x", "", "y"]);
    assert_eq!(node.prefix, "A01");
    assert_eq!(node.contents, vec!["x".to_string(), "".to_string(), "y".to_string()]);
    assert!(node.children.is_empty());
}

#[test]
fn push_node_appends_and_returns_index() {
    let mut arena: Vec<Node> = Vec::new();
    let first = arena.push_node("A01", vec!["x"]);
    let second = arena.push_node("A02", vec!["y", "z"]);
    assert_eq!(first, 0);
    assert_eq!(second, 1);
    assert_eq!(arena.len(), 2);
    assert_eq!(arena[0].prefix, "A01");
    assert_eq!(arena[1].prefix, "A02");
    assert_eq!(arena[1].contents, vec!["y".to_string(), "z".to_string()]);
}

#[test]
fn schema_node_new_passes_values_through() {
    let child = SchemaNode::new("A02", Vec::new(), Vec::new());
    let node = SchemaNode::new(
        "A01",
        vec![("amount".to_string(), FieldType::Int)],
        vec![child],
    );
    assert_eq!(node.prefix, "A01");
    assert_eq!(node.model.len(), 1);
    assert_eq!(node.model[0].0, "amount");
    assert_eq!(node.model[0].1, FieldType::Int);
    assert_eq!(node.children.len(), 1);
    assert_eq!(node.children[0].prefix, "A02");
}

#[test]
fn wrap_with_root_owns_schema_as_children() {
    let schema = vec![
        SchemaNode::new("A01", Vec::new(), Vec::new()),
        SchemaNode::new("B01", Vec::new(), Vec::new()),
    ];
    let root = wrap_with_root(schema);
    assert_eq!(root.prefix, "ROOT");
    assert!(root.model.is_empty());
    assert_eq!(root.children.len(), 2);
    assert_eq!(root.children[0].prefix, "A01");
    assert_eq!(root.children[1].prefix, "B01");
}

#[test]
fn index_maps_every_declared_prefix() {
    let schema = vec![
        SchemaNode::new(
            "A01",
            Vec::new(),
            vec![SchemaNode::new("A02", Vec::new(), Vec::new())],
        ),
        SchemaNode::new("B01", Vec::new(), Vec::new()),
    ];
    let root = wrap_with_root(schema);
    let mut map = SchemaIndex::new();
    build_children_map(&root, &mut map);
    let root_children = map.get(&"ROOT".to_string()).unwrap();
    assert_eq!(root_children, &vec!["A01".to_string(), "B01".to_string()]);
    let a01_children = map.get(&"A01".to_string()).unwrap();
    assert_eq!(a01_children, &vec!["A02".to_string()]);
    assert_eq!(map.get(&"A02".to_string()).unwrap().len(), 0);
    assert_eq!(map.get(&"B01".to_string()).unwrap().len(), 0);
    assert!(map.get(&"C01".to_string()).is_none());
}

#[test]
fn duplicate_prefix_later_definition_wins() {
    let mut map = SchemaIndex::new();
    map.insert("A01".to_string(), vec!["A02".to_string()]);
    map.insert("A01".to_string(), vec!["A03".to_string()]);
    assert_eq!(map.get(&"A01".to_string()).unwrap(), &vec!["A03".to_string()]);
}
