use scratchpick::tree::{Leaf, Node, RawTreeNode};

fn raw(window: Option<u64>, kind: &str, name: Option<&str>, nodes: Vec<RawTreeNode>, floating_nodes: Vec<RawTreeNode>) -> RawTreeNode {
    RawTreeNode { window, kind: kind.to_string(), name: name.map(|n| n.to_string()), nodes, floating_nodes }
}

fn node(id: Option<u64>, kind: &str, name: Option<&str>, children: Vec<Node>) -> Node {
    Node { id, kind: kind.to_string(), name: name.map(|n| n.to_string()), children }
}

fn leaf(id: Option<u64>, kind: &str, name: Option<&str>) -> Leaf {
    Leaf { id, kind: kind.to_string(), name: name.map(|n| n.to_string()) }
}

fn child_names(node: &Node) -> Vec<Option<String>> {
    node.children.iter().map(|c| c.name.clone()).collect()
}

fn count_childless(node: &Node) -> usize {
    if node.children.is_empty() {
        1
    } else {
        node.children.iter().map(count_childless).sum()
    }
}

fn sample_tree() -> Node {
    node(None, "root", Some("root"), vec![
        node(None, "output", Some("screen"), vec![
            node(Some(1), "con", Some("one"), vec![]),
            node(None, "workspace", Some("ws"), vec![
                node(Some(2), "con", Some("two"), vec![]),
                node(Some(3), "con", None, vec![]),
            ]),
        ]),
        node(Some(4), "con", Some("four"), vec![]),
        node(None, "output", Some("other"), vec![
            node(Some(5), "floating_con", Some("five"), vec![]),
        ]),
    ])
}

#[test]
fn from_puts_floating_children_after_regular_ones() {
    let tree = raw(None, "workspace", Some("ws"), vec![
        raw(Some(1), "con", Some("a"), vec![], vec![]),
        raw(Some(2), "con", Some("b"), vec![], vec![]),
    ], vec![
        raw(Some(3), "con", Some("c"), vec![], vec![]),
        raw(Some(4), "con", Some("d"), vec![], vec![]),
    ]);
    let reduced = Node::from(tree);
    assert_eq!(child_names(&reduced), vec![
        Some("a".to_string()),
        Some("b".to_string()),
        Some("c".to_string()),
        Some("d".to_string()),
    ]);
}

#[test]
fn from_merges_at_every_level() {
    let tree = raw(None, "root", None, vec![
        raw(None, "output", Some("o"), vec![
            raw(Some(1), "con", Some("r1"), vec![], vec![]),
        ], vec![
            raw(Some(2), "con", Some("f1"), vec![], vec![]),
            raw(Some(3), "con", Some("f2"), vec![], vec![]),
        ]),
    ], vec![
        raw(None, "floating_con", Some("p"), vec![
            raw(Some(4), "con", Some("r2"), vec![], vec![]),
        ], vec![
            raw(Some(5), "con", Some("f3"), vec![], vec![]),
        ]),
    ]);
    let expected = node(None, "root", None, vec![
        node(None, "output", Some("o"), vec![
            node(Some(1), "con", Some("r1"), vec![]),
            node(Some(2), "con", Some("f1"), vec![]),
            node(Some(3), "con", Some("f2"), vec![]),
        ]),
        node(None, "floating_con", Some("p"), vec![
            node(Some(4), "con", Some("r2"), vec![]),
            node(Some(5), "con", Some("f3"), vec![]),
        ]),
    ]);
    assert_eq!(Node::from(tree), expected);
}

#[test]
fn from_keeps_identifier_kind_and_name() {
    let reduced = Node::from(raw(Some(77), "con", Some("editor"), vec![], vec![]));
    assert_eq!(reduced, node(Some(77), "con", Some("editor"), vec![]));
    let bare = Node::from(raw(None, "workspace", None, vec![], vec![]));
    assert_eq!(bare, node(None, "workspace", None, vec![]));
}

#[test]
fn from_with_floating_children_only() {
    let tree = raw(None, "workspace", Some("__i3_scratch"), vec![], vec![
        raw(Some(9), "con", Some("x"), vec![], vec![]),
    ]);
    assert_eq!(child_names(&Node::from(tree)), vec![Some("x".to_string())]);
}

#[test]
fn into_leaves_follows_document_order() {
    let leaves = sample_tree().into_leaves();
    assert_eq!(leaves, vec![
        leaf(Some(1), "con", Some("one")),
        leaf(Some(2), "con", Some("two")),
        leaf(Some(3), "con", None),
        leaf(Some(4), "con", Some("four")),
        leaf(Some(5), "floating_con", Some("five")),
    ]);
}

#[test]
fn into_leaves_counts_the_childless_nodes() {
    let expected: usize = count_childless(&sample_tree());
    assert_eq!(expected, 5);
    assert_eq!(sample_tree().into_leaves().len(), expected);
}

#[test]
fn into_leaves_of_a_childless_node_is_the_node() {
    let leaves = node(Some(8), "con", Some("alone"), vec![]).into_leaves();
    assert_eq!(leaves, vec![leaf(Some(8), "con", Some("alone"))]);
}

#[test]
fn into_leaves_leaves_out_inner_nodes_even_with_an_identifier() {
    let tree = node(Some(100), "con", Some("split"), vec![
        node(Some(101), "con", Some("left"), vec![]),
        node(Some(102), "con", Some("right"), vec![]),
    ]);
    let leaves = tree.into_leaves();
    assert_eq!(leaves, vec![leaf(Some(101), "con", Some("left")), leaf(Some(102), "con", Some("right"))]);
}

#[test]
fn find_name_checks_the_node_before_its_children() {
    let tree = node(Some(1), "a", Some("x"), vec![node(Some(2), "b", Some("x"), vec![])]);
    let found = tree.find_name("x");
    assert_eq!(found.map(|n| n.id), Some(Some(1)));
}

#[test]
fn find_name_returns_the_first_match_in_document_order() {
    let tree = node(None, "root", Some("root"), vec![
        node(None, "output", Some("first"), vec![
            node(Some(10), "con", Some("dup"), vec![]),
        ]),
        node(Some(20), "con", Some("dup"), vec![]),
    ]);
    let found = tree.find_name("dup");
    assert_eq!(found, Some(node(Some(10), "con", Some("dup"), vec![])));
}

#[test]
fn find_name_returns_the_whole_subtree() {
    let found = sample_tree().find_name("ws");
    assert_eq!(found, Some(node(None, "workspace", Some("ws"), vec![
        node(Some(2), "con", Some("two"), vec![]),
        node(Some(3), "con", None, vec![]),
    ])));
}

#[test]
fn find_name_reports_a_missing_name() {
    assert_eq!(sample_tree().find_name("__scratch__"), None);
}

#[test]
fn find_name_never_matches_a_node_without_a_name() {
    let tree = node(None, "root", None, vec![node(Some(1), "con", None, vec![])]);
    assert_eq!(tree.find_name(""), None);
}

#[test]
fn find_name_compares_names_exactly() {
    let tree = node(None, "root", Some("Scratch"), vec![
        node(Some(1), "con", Some("scratchpad"), vec![]),
        node(Some(2), "con", Some("scratch "), vec![]),
        node(Some(3), "con", Some("scratch"), vec![]),
    ]);
    assert_eq!(tree.find_name("scratch").map(|n| n.id), Some(Some(3)));
}
