use flow_parser::errors::FlowParseError;
use flow_parser::models::{DecodedFlow, SchemaNode};
use flow_parser::parser::parse;

fn schema_node(prefix: &str, children: Vec<SchemaNode>) -> SchemaNode {
    SchemaNode::new(prefix, Vec::new(), children)
}

fn count_nodes(d: &DecodedFlow) -> usize {
    let mut n: usize = 1;
    for c in &d.children {
        n += count_nodes(c);
    }
    n
}

fn lines(raw: &[&str]) -> Vec<String> {
    raw.iter().map(|s| s.to_string()).collect()
}

#[test]
fn test_parse_basic() {
    let schema = vec![
        SchemaNode {
            prefix: "A01".to_string(),
            model: Vec::new(),
            children: vec![SchemaNode {
                prefix: "A02".to_string(),
                model: Vec::new(),
                children: Vec::new(),
            }],
        },
        SchemaNode {
            prefix: "B01".to_string(),
            model: Vec::new(),
            children: Vec::new(),
        },
    ];
    let content = lines(&[
        "A01|foo|bar|",
        "A02|wiz|bang|",
        "A01|bing|bong|",
        "B01|waz|baz|",
    ]);

    let result = parse(schema, &content);

    assert!(result.is_ok());
    let decoded = result.unwrap();
    assert_eq!(decoded.prefix, "ROOT");
    assert_eq!(decoded.children.len(), 3);
    assert_eq!(
        decoded.children[0],
        DecodedFlow {
            prefix: "A01".to_string(),
            contents: vec!["foo".to_string(), "bar".to_string()],
            children: vec![DecodedFlow {
                prefix: "A02".to_string(),
                contents: vec!["wiz".to_string(), "bang".to_string()],
                children: vec![]
            }]
        }
    );
}

#[test]
fn sibling_after_deeper_line_attaches_to_ancestor() {
    // The nearest valid open ancestor wins, not the immediately preceding
    // line: the second A01 closes the first A01 (and its A02), and B01
    // attaches beside both at the root.
    let schema = vec![
        schema_node("A01", vec![schema_node("A02", Vec::new())]),
        schema_node("B01", Vec::new()),
    ];
    let content = lines(&["A01|x|", "A02|y|", "A01|z|", "B01|w|"]);
    let decoded = parse(schema, &content).unwrap();
    assert_eq!(decoded.prefix, "ROOT");
    assert_eq!(decoded.children.len(), 3);
    assert_eq!(decoded.children[0].prefix, "A01");
    assert_eq!(decoded.children[0].contents, vec!["x".to_string()]);
    assert_eq!(decoded.children[0].children.len(), 1);
    assert_eq!(decoded.children[0].children[0].prefix, "A02");
    assert_eq!(decoded.children[0].children[0].contents, vec!["y".to_string()]);
    assert_eq!(decoded.children[1].prefix, "A01");
    assert_eq!(decoded.children[1].contents, vec!["z".to_string()]);
    assert!(decoded.children[1].children.is_empty());
    assert_eq!(decoded.children[2].prefix, "B01");
    assert_eq!(decoded.children[2].contents, vec!["w".to_string()]);
    assert!(decoded.children[2].children.is_empty());
}

#[test]
fn undeclared_prefix_with_no_open_ancestor_fails() {
    let schema = vec![schema_node("A01", Vec::new())];
    let content = lines(&["B99|x|"]);
    let result = parse(schema, &content);
    assert_eq!(result, Err(FlowParseError::NoValidParent("B99".to_string())));
}

#[test]
fn nested_prefix_at_top_level_fails() {
    // A02 is declared, but only beneath A01; with nothing open it has no
    // valid parent.
    let schema = vec![schema_node("A01", vec![schema_node("A02", Vec::new())])];
    let content = lines(&["A02|y|"]);
    let result = parse(schema, &content);
    assert_eq!(result, Err(FlowParseError::NoValidParent("A02".to_string())));
}

#[test]
fn line_without_delimiter_fails_as_malformed() {
    let schema = vec![schema_node("A01", Vec::new())];
    let content = lines(&["A01|x|", "A01"]);
    let result = parse(schema, &content);
    assert_eq!(result, Err(FlowParseError::MalformedLine("A01".to_string())));
}

#[test]
fn node_count_is_line_count_plus_root() {
    let schema = vec![
        schema_node(
            "A01",
            vec![schema_node("A02", vec![schema_node("A03", Vec::new())])],
        ),
        schema_node("B01", Vec::new()),
    ];
    let content = lines(&["A01|a|", "A02|b|", "A03|c|", "A02|d|", "B01|e|"]);
    let decoded = parse(schema, &content).unwrap();
    assert_eq!(count_nodes(&decoded), content.len() + 1);
}

#[test]
fn empty_input_yields_bare_root() {
    let schema = vec![schema_node("A01", Vec::new())];
    let content: Vec<String> = Vec::new();
    let decoded = parse(schema, &content).unwrap();
    assert_eq!(decoded.prefix, "ROOT");
    assert!(decoded.contents.is_empty());
    assert!(decoded.children.is_empty());
    assert_eq!(count_nodes(&decoded), 1);
}

#[test]
fn children_keep_input_order() {
    let schema = vec![schema_node("A01", vec![schema_node("A02", Vec::new())])];
    let content = lines(&["A01|top|", "A02|first|", "A02|second|", "A02|third|"]);
    let decoded = parse(schema, &content).unwrap();
    let a01 = &decoded.children[0];
    assert_eq!(a01.children.len(), 3);
    assert_eq!(a01.children[0].contents, vec!["first".to_string()]);
    assert_eq!(a01.children[1].contents, vec!["second".to_string()]);
    assert_eq!(a01.children[2].contents, vec!["third".to_string()]);
}

#[test]
fn reparsing_gives_structurally_identical_trees() {
    let make_schema = || {
        vec![
            schema_node("A01", vec![schema_node("A02", Vec::new())]),
            schema_node("B01", Vec::new()),
        ]
    };
    let content = lines(&["A01|x|", "A02|y|", "B01|z|"]);
    let first = parse(make_schema(), &content);
    let second = parse(make_schema(), &content);
    assert_eq!(first, second);
    assert!(first.is_ok());
}

#[test]
fn deep_sibling_backtracks_to_middle_ancestor() {
    // After descending A01 > A02 > A03, a fresh A02 must close A03 and the
    // first A02, attaching to the still-open A01.
    let schema = vec![schema_node(
        "A01",
        vec![schema_node("A02", vec![schema_node("A03", Vec::new())])],
    )];
    let content = lines(&["A01|a|", "A02|b|", "A03|c|", "A02|d|"]);
    let decoded = parse(schema, &content).unwrap();
    let a01 = &decoded.children[0];
    assert_eq!(a01.children.len(), 2);
    assert_eq!(a01.children[0].contents, vec!["b".to_string()]);
    assert_eq!(a01.children[0].children.len(), 1);
    assert_eq!(a01.children[0].children[0].contents, vec!["c".to_string()]);
    assert_eq!(a01.children[1].contents, vec!["d".to_string()]);
    assert!(a01.children[1].children.is_empty());
}

#[test]
fn first_line_must_be_top_level() {
    let schema = vec![schema_node("A01", vec![schema_node("A02", Vec::new())])];
    let ok = parse(
        vec![schema_node("A01", vec![schema_node("A02", Vec::new())])],
        &lines(&["A01|x|"]),
    );
    assert!(ok.is_ok());
    let bad = parse(schema, &lines(&["A02|x|", "A01|y|"]));
    assert_eq!(bad, Err(FlowParseError::NoValidParent("A02".to_string())));
}
