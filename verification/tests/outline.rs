use m2j::Block;
use m2j::BuildError;
use m2j::Item;
use m2j::Node;
use m2j::build_outline;

fn render_spans(spans: &[markdown::Span]) -> String {
    markdown::generate_markdown(vec![markdown::Block::Paragraph(spans.to_vec())])
}

fn convert_item(item: markdown::ListItem) -> Item {
    match item {
        markdown::ListItem::Simple(spans) => Item::Simple(render_spans(&spans)),
        markdown::ListItem::Paragraph(blocks) => Item::Nested(convert_blocks(blocks)),
    }
}

fn convert_block(block: markdown::Block) -> Block {
    match block {
        markdown::Block::Header(spans, level) => Block::Heading(render_spans(&spans), level as u32),
        markdown::Block::Paragraph(spans) => Block::Paragraph(render_spans(&spans)),
        markdown::Block::UnorderedList(items) => {
            Block::List(items.into_iter().map(convert_item).collect())
        }
        _ => Block::Unsupported,
    }
}

fn convert_blocks(blocks: Vec<markdown::Block>) -> Vec<Block> {
    blocks.into_iter().map(convert_block).collect()
}

fn build_from_text(text: &str) -> Result<Node, BuildError> {
    let blocks = convert_blocks(markdown::tokenize(text));
    assert!(!blocks.is_empty());
    build_outline(blocks)
}

fn group(entries: Vec<(&str, Node)>) -> Node {
    Node::Group(entries.into_iter().map(|(k, v)| (k.to_string(), v)).collect())
}

fn leaf(text: &str) -> Node {
    Node::Leaf(text.to_string())
}

fn node_to_value(node: &Node) -> serde_json::Value {
    match node {
        Node::Group(entries) => {
            let mut map = serde_json::Map::new();
            for (key, value) in entries {
                map.insert(key.clone(), node_to_value(value));
            }
            serde_json::Value::Object(map)
        }
        Node::Sequence(children) => {
            serde_json::Value::Array(children.iter().map(node_to_value).collect())
        }
        Node::Leaf(text) => serde_json::Value::String(text.clone()),
    }
}

#[test]
fn test_m2j_complex() {
    let got = build_from_text(
        "# Todo\n\n## Work\n- one\n    - one.1\n- two\n- three\n\n## Home\n- order shelving\n\n# SaaS\n- [ ] markdown to json cli\n",
    )
    .unwrap();
    assert_eq!(
        got,
        group(vec![
            (
                "Todo",
                group(vec![
                    (
                        "Work",
                        Node::Sequence(vec![
                            group(vec![("one", Node::Sequence(vec![leaf("one.1")]))]),
                            leaf("two"),
                            leaf("three"),
                        ])
                    ),
                    ("Home", Node::Sequence(vec![leaf("order shelving")])),
                ])
            ),
            (
                "SaaS",
                Node::Sequence(vec![leaf("[ ] markdown to json cli")])
            ),
        ])
    );
}

#[test]
fn test_m2j_header_without_children() {
    let got = build_from_text("# Todo\n\n## Work\n").unwrap();
    assert_eq!(got, group(vec![("Todo", group(vec![("Work", leaf(""))]))]));
}

#[test]
fn test_single_heading_gives_group_not_sequence() {
    let got = build_from_text("# Alone\n- a\n- b\n").unwrap();
    assert!(matches!(got, Node::Group(_)));
}

#[test]
fn test_two_top_level_constructs_give_sequence_in_order() {
    let got = build_from_text("- first\n\n# After\n").unwrap();
    assert_eq!(
        got,
        Node::Sequence(vec![
            Node::Sequence(vec![leaf("first")]),
            group(vec![("After", leaf(""))]),
        ])
    );
}

#[test]
fn test_three_top_level_lists_give_sequence_of_three() {
    let blocks = vec![
        Block::List(vec![Item::Simple("a".to_string())]),
        Block::List(vec![Item::Simple("b".to_string())]),
        Block::List(vec![Item::Simple("c".to_string())]),
    ];
    let got = build_outline(blocks).unwrap();
    assert_eq!(
        got,
        Node::Sequence(vec![
            Node::Sequence(vec![leaf("a")]),
            Node::Sequence(vec![leaf("b")]),
            Node::Sequence(vec![leaf("c")]),
        ])
    );
}

#[test]
fn test_trailing_heading_maps_to_empty_leaf() {
    let got = build_outline(vec![Block::Heading("End".to_string(), 1)]).unwrap();
    assert_eq!(got, group(vec![("End", leaf(""))]));
}

#[test]
fn test_deeper_heading_nests_as_sole_content() {
    let got = build_outline(vec![
        Block::Heading("outer".to_string(), 1),
        Block::Heading("inner".to_string(), 3),
    ])
    .unwrap();
    assert_eq!(
        got,
        group(vec![("outer", group(vec![("inner", leaf(""))]))])
    );
}

#[test]
fn test_equal_level_heading_after_content_is_sibling() {
    let got = build_outline(vec![
        Block::Heading("a".to_string(), 2),
        Block::List(vec![Item::Simple("x".to_string())]),
        Block::Heading("b".to_string(), 2),
    ])
    .unwrap();
    assert_eq!(
        got,
        group(vec![
            ("a", Node::Sequence(vec![leaf("x")])),
            ("b", leaf("")),
        ])
    );
}

#[test]
fn test_duplicate_sibling_key_overwrites_earlier_value() {
    let got = build_outline(vec![
        Block::Heading("same".to_string(), 1),
        Block::List(vec![Item::Simple("x".to_string())]),
        Block::Heading("same".to_string(), 1),
    ])
    .unwrap();
    assert_eq!(got, group(vec![("same", leaf(""))]));
}

#[test]
fn test_simple_item_is_plain_leaf() {
    let got = build_outline(vec![Block::List(vec![Item::Simple("only".to_string())])]).unwrap();
    assert_eq!(got, Node::Sequence(vec![leaf("only")]));
}

#[test]
fn test_nested_item_maps_text_to_nested_list() {
    let got = build_outline(vec![Block::List(vec![Item::Nested(vec![
        Block::Paragraph("key".to_string()),
        Block::List(vec![
            Item::Simple("v1".to_string()),
            Item::Simple("v2".to_string()),
        ]),
    ])])])
    .unwrap();
    assert_eq!(
        got,
        Node::Sequence(vec![group(vec![(
            "key",
            Node::Sequence(vec![leaf("v1"), leaf("v2")])
        )])])
    );
}

#[test]
fn test_top_level_paragraph_is_unsupported() {
    let got = build_outline(vec![Block::Paragraph("loose text".to_string())]);
    assert_eq!(got, Err(BuildError::UnsupportedBlock));
}

#[test]
fn test_unsupported_block_kind_is_rejected() {
    let got = build_from_text("> a quote\n");
    assert_eq!(got, Err(BuildError::UnsupportedBlock));
}

#[test]
fn test_nested_item_without_leading_paragraph_is_malformed() {
    let got = build_outline(vec![Block::List(vec![Item::Nested(vec![Block::List(
        vec![Item::Simple("x".to_string())],
    )])])]);
    assert_eq!(got, Err(BuildError::MalformedNestedItem));
}

#[test]
fn test_nested_item_with_nothing_after_paragraph_is_malformed() {
    let got = build_outline(vec![Block::List(vec![Item::Nested(vec![
        Block::Paragraph("alone".to_string()),
    ])])]);
    assert_eq!(got, Err(BuildError::MalformedNestedItem));
}

#[test]
fn test_nested_item_with_empty_blocks_is_malformed() {
    let got = build_outline(vec![Block::List(vec![Item::Nested(vec![])])]);
    assert_eq!(got, Err(BuildError::MalformedNestedItem));
}

#[test]
fn test_reserializing_same_input_is_byte_identical() {
    let text = "# Todo\n\n## Work\n- one\n    - one.1\n- two\n\n# SaaS\n- item\n";
    let first = node_to_value(&build_from_text(text).unwrap());
    let second = node_to_value(&build_from_text(text).unwrap());
    let first_json = serde_json::to_string(&first).unwrap();
    let second_json = serde_json::to_string(&second).unwrap();
    assert_eq!(first_json, second_json);
}

#[test]
fn test_complex_example_as_json_value() {
    let got = node_to_value(
        &build_from_text(
            "# Todo\n\n## Work\n- one\n    - one.1\n- two\n- three\n\n## Home\n- order shelving\n\n# SaaS\n- [ ] item\n",
        )
        .unwrap(),
    );
    let want: serde_json::Value = serde_json::from_str(
        "{\"Todo\": {\"Work\": [{\"one\": [\"one.1\"]}, \"two\", \"three\"], \"Home\": [\"order shelving\"]}, \"SaaS\": [\"[ ] item\"]}",
    )
    .unwrap();
    assert_eq!(got, want);
}

#[test]
fn test_consume_block_takes_exactly_one_construct() {
    let mut queue = vec![
        Block::List(vec![Item::Simple("a".to_string())]),
        Block::Heading("H".to_string(), 1),
    ];
    let got = m2j::consume_block(&mut queue).unwrap();
    assert_eq!(got, Node::Sequence(vec![leaf("a")]));
    assert_eq!(queue, vec![Block::Heading("H".to_string(), 1)]);
}
