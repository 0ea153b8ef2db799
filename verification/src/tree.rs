//! The window tree as the manager reports it, its normalized form, and the
//! two traversals of the normalized tree: flattening to leaves and the search
//! for a node by name.

use crate::text::same_text;
use vstd::prelude::*;
use vstd::std_specs::convert::FromSpecImpl;

verus! {

/// One node of the manager's reply, with regular and floating children kept
/// apart as they are on the wire.
#[derive(Debug, PartialEq, Eq)]
pub struct RawTreeNode {
    pub window: Option<u64>,
    pub kind: String,
    pub name: Option<String>,
    pub nodes: Vec<RawTreeNode>,
    pub floating_nodes: Vec<RawTreeNode>,
}

/// A normalized node: one ordered sequence of children.
#[derive(Debug, PartialEq, Eq)]
pub struct Node {
    pub id: Option<u64>,
    pub kind: String,
    pub name: Option<String>,
    pub children: Vec<Node>,
}

/// A node without children, as flattening yields it.
#[derive(Debug, PartialEq, Eq)]
pub struct Leaf {
    pub id: Option<u64>,
    pub kind: String,
    pub name: Option<String>,
}

/// The mathematical value of a [`RawTreeNode`].
pub ghost struct RawView {
    pub window: Option<u64>,
    pub kind: Seq<char>,
    pub name: Option<Seq<char>>,
    pub nodes: Seq<RawView>,
    pub floating_nodes: Seq<RawView>,
}

/// The mathematical value of a [`Node`].
pub ghost struct NodeView {
    pub id: Option<u64>,
    pub kind: Seq<char>,
    pub name: Option<Seq<char>>,
    pub children: Seq<NodeView>,
}

/// The mathematical value of a [`Leaf`].
pub ghost struct LeafView {
    pub id: Option<u64>,
    pub kind: Seq<char>,
    pub name: Option<Seq<char>>,
}

/// The view of an optional name.
pub open spec fn name_view(name: Option<String>) -> Option<Seq<char>> {
    match name {
        Some(s) => Some(s@),
        None => None,
    }
}

impl RawTreeNode {
    /// The tree as a mathematical value.
    pub open spec fn view(&self) -> RawView
        decreases self,
    {
        RawView {
            window: self.window,
            kind: self.kind@,
            name: name_view(self.name),
            nodes: Seq::new(
                self.nodes@.len(),
                |i: int|
                    if 0 <= i < self.nodes@.len() {
                        self.nodes@[i].view()
                    } else {
                        arbitrary()
                    },
            ),
            floating_nodes: Seq::new(
                self.floating_nodes@.len(),
                |i: int|
                    if 0 <= i < self.floating_nodes@.len() {
                        self.floating_nodes@[i].view()
                    } else {
                        arbitrary()
                    },
            ),
        }
    }
}

impl Node {
    /// The tree as a mathematical value.
    pub open spec fn view(&self) -> NodeView
        decreases self,
    {
        NodeView {
            id: self.id,
            kind: self.kind@,
            name: name_view(self.name),
            children: Seq::new(
                self.children@.len(),
                |i: int|
                    if 0 <= i < self.children@.len() {
                        self.children@[i].view()
                    } else {
                        arbitrary()
                    },
            ),
        }
    }
}

impl View for Leaf {
    type V = LeafView;

    open spec fn view(&self) -> LeafView {
        LeafView { id: self.id, kind: self.kind@, name: name_view(self.name) }
    }
}

/// The views of a sequence of nodes, in order.
pub open spec fn node_views(nodes: Seq<Node>) -> Seq<NodeView> {
    Seq::new(nodes.len(), |i: int| nodes[i]@)
}

/// The views of a sequence of leaves, in order.
pub open spec fn leaf_views(leaves: Seq<Leaf>) -> Seq<LeafView> {
    Seq::new(leaves.len(), |i: int| leaves[i]@)
}

/// The view of a node that may be absent.
pub open spec fn found_view(found: Option<Node>) -> Option<NodeView> {
    match found {
        Some(node) => Some(node@),
        None => None,
    }
}

impl RawView {
    /// The normalized tree: at every level the regular children, in their
    /// order, followed by the floating children, in theirs.
    pub open spec fn reduce(self) -> NodeView
        decreases self,
    {
        NodeView {
            id: self.window,
            kind: self.kind,
            name: self.name,
            children: Seq::new(
                self.nodes.len(),
                |i: int|
                    if 0 <= i < self.nodes.len() {
                        self.nodes[i].reduce()
                    } else {
                        arbitrary()
                    },
            ) + Seq::new(
                self.floating_nodes.len(),
                |i: int|
                    if 0 <= i < self.floating_nodes.len() {
                        self.floating_nodes[i].reduce()
                    } else {
                        arbitrary()
                    },
            ),
        }
    }
}

impl NodeView {
    /// The node without its child list.
    pub open spec fn as_leaf(self) -> LeafView {
        LeafView { id: self.id, kind: self.kind, name: self.name }
    }

    /// Whether the node has no children.
    pub open spec fn is_childless(self) -> bool {
        self.children.len() == 0
    }

    /// Whether the node carries the name `target`.
    pub open spec fn is_named(self, target: Seq<char>) -> bool {
        self.name == Some(target)
    }

    /// The childless nodes of the tree, left to right.
    pub open spec fn leaves(self) -> Seq<LeafView>
        decreases self, 1nat,
    {
        if self.children.len() == 0 {
            seq![self.as_leaf()]
        } else {
            leaves_of(self.children)
        }
    }

    /// All nodes of the tree in document order: a node before its children,
    /// the children left to right.
    pub open spec fn preorder(self) -> Seq<NodeView>
        decreases self, 1nat,
    {
        seq![self] + preorder_of(self.children)
    }
}

/// The leaves of each tree of a forest, concatenated in the forest's order.
pub open spec fn leaves_of(forest: Seq<NodeView>) -> Seq<LeafView>
    decreases forest, 0nat,
{
    if forest.len() == 0 {
        Seq::empty()
    } else {
        leaves_of(forest.drop_last()) + forest.last().leaves()
    }
}

/// The nodes of each tree of a forest in document order, concatenated in the
/// forest's order.
pub open spec fn preorder_of(forest: Seq<NodeView>) -> Seq<NodeView>
    decreases forest, 0nat,
{
    if forest.len() == 0 {
        Seq::empty()
    } else {
        preorder_of(forest.drop_last()) + forest.last().preorder()
    }
}

/// The first node of `nodes` that carries the name `target`, if there is one.
pub open spec fn first_named(nodes: Seq<NodeView>, target: Seq<char>) -> Option<NodeView>
    decreases nodes.len(),
{
    if nodes.len() == 0 {
        None
    } else if nodes[0].is_named(target) {
        Some(nodes[0])
    } else {
        first_named(nodes.drop_first(), target)
    }
}

/// The test for having no children, as a predicate on nodes.
pub open spec fn childless() -> spec_fn(NodeView) -> bool {
    |n: NodeView| n.is_childless()
}

/// The childless nodes among `nodes`, in the order of `nodes`, as leaves.
pub open spec fn childless_among(nodes: Seq<NodeView>) -> Seq<LeafView> {
    nodes.filter(childless()).map_values(|n: NodeView| n.as_leaf())
}

impl From<RawTreeNode> for Node {
    /// Normalizes a raw tree: at every level the floating children are
    /// appended to the regular ones.
    fn from(tree: RawTreeNode) -> (node: Node)
        ensures
            node@ == tree@.reduce(),
        decreases tree,
    {
        let ghost raw = tree@;
        let ghost regular = tree.nodes@;
        let ghost floating = tree.floating_nodes@;
        let mut merged = tree.nodes;
        let mut floating_nodes = tree.floating_nodes;
        merged.append(&mut floating_nodes);
        let ghost all = merged@;
        assert(all =~= regular + floating);
        let mut children: Vec<Node> = Vec::new();
        for raw_child in it: merged
            invariant
                it.seq() == all,
                all == regular + floating,
                decreases_to!(tree => regular),
                decreases_to!(tree => floating),
                children@.len() == it.index(),
                forall|i: int| 0 <= i < children@.len() ==> children@[i]@ == all[i]@.reduce(),
        {
            proof {
                let at = it.index() as int;
                if at < regular.len() {
                    assert(raw_child == regular[at]);
                } else {
                    assert(raw_child == floating[at - regular.len()]);
                }
            }
            children.push(Node::from(raw_child));
        }
        let node = Node { id: tree.window, kind: tree.kind, name: tree.name, children };
        assert(node@.children =~= raw.reduce().children);
        node
    }
}

impl FromSpecImpl<RawTreeNode> for Node {
    /// Two trees with the same view need not be the same value, so the
    /// conversion is specified by its own postcondition over views.
    open spec fn obeys_from_spec() -> bool {
        false
    }

    open spec fn from_spec(tree: RawTreeNode) -> Node {
        arbitrary()
    }
}

impl Node {
    /// Flattens the tree into its leaves, in document order.
    pub fn into_leaves(self) -> (leaves: Vec<Leaf>)
        ensures
            leaf_views(leaves@) == self@.leaves(),
        decreases self,
    {
        if self.children.len() == 0 {
            let mut leaves: Vec<Leaf> = Vec::new();
            leaves.push(Leaf { id: self.id, kind: self.kind, name: self.name });
            assert(leaf_views(leaves@) =~= self@.leaves());
            leaves
        } else {
            let ghost whole = self@;
            let ghost kids = self.children@;
            assert(node_views(kids) =~= whole.children);
            let mut leaves: Vec<Leaf> = Vec::new();
            for child in it: self.children
                invariant
                    it.seq() == kids,
                    leaf_views(leaves@) == leaves_of(node_views(kids.take(it.index() as int))),
            {
                let ghost done = it.index() as int;
                let ghost before = leaves@;
                let mut below = child.into_leaves();
                leaves.append(&mut below);
                proof {
                    let grown = node_views(kids.take(done + 1));
                    assert(grown.drop_last() =~= node_views(kids.take(done)));
                    assert(grown.last() == child@);
                    assert(leaf_views(leaves@) =~= leaf_views(before) + child@.leaves());
                }
            }
            assert(kids.take(kids.len() as int) =~= kids);
            leaves
        }
    }

    /// Searches the tree in document order for the first node named `name`.
    pub fn find_name(self, name: &str) -> (found: Option<Node>)
        ensures
            found_view(found) == first_named(self@.preorder(), name@),
        decreases self,
    {
        let ghost whole = self@;
        let ghost target = name@;
        let hit = match &self.name {
            Some(own) => same_text(own.as_str(), name),
            None => false,
        };
        if hit {
            return Some(self);
        }
        let ghost kids = self.children@;
        assert(node_views(kids) =~= whole.children);
        proof {
            lemma_first_named_concat(seq![whole], preorder_of(whole.children), target);
            assert(seq![whole].drop_first() =~= Seq::<NodeView>::empty());
        }
        for child in it: self.children
            invariant
                it.seq() == kids,
                whole == self@,
                target == name@,
                node_views(kids) == whole.children,
                first_named(whole.preorder(), target) == first_named(
                    preorder_of(whole.children),
                    target,
                ),
                first_named(preorder_of(node_views(kids.take(it.index() as int))), target) is None,
        {
            let ghost done = it.index() as int;
            let below = child.find_name(name);
            proof {
                let grown = node_views(kids.take(done + 1));
                assert(grown.drop_last() =~= node_views(kids.take(done)));
                assert(grown.last() == child@);
                assert(preorder_of(grown) == preorder_of(node_views(kids.take(done)))
                    + child@.preorder());
                lemma_first_named_concat(
                    preorder_of(node_views(kids.take(done))),
                    child@.preorder(),
                    target,
                );
            }
            if below.is_some() {
                proof {
                    let rest = node_views(kids.skip(done + 1));
                    assert(node_views(kids) =~= node_views(kids.take(done + 1)) + rest);
                    lemma_preorder_of_concat(node_views(kids.take(done + 1)), rest);
                    lemma_first_named_concat(
                        preorder_of(node_views(kids.take(done + 1))),
                        preorder_of(rest),
                        target,
                    );
                }
                return below;
            }
        }
        assert(kids.take(kids.len() as int) =~= kids);
        None
    }
}

/// The first named node of a concatenation is that of the first part, or,
/// where the first part has none, that of the second.
pub proof fn lemma_first_named_concat(a: Seq<NodeView>, b: Seq<NodeView>, target: Seq<char>)
    ensures
        first_named(a + b, target) == if first_named(a, target) is Some {
            first_named(a, target)
        } else {
            first_named(b, target)
        },
    decreases a.len(),
{
    if a.len() == 0 {
        assert(a + b =~= b);
    } else {
        assert((a + b).drop_first() =~= a.drop_first() + b);
        lemma_first_named_concat(a.drop_first(), b, target);
    }
}

/// The document order of a forest made of two parts is that of the first
/// part followed by that of the second.
pub proof fn lemma_preorder_of_concat(a: Seq<NodeView>, b: Seq<NodeView>)
    ensures
        preorder_of(a + b) == preorder_of(a) + preorder_of(b),
    decreases b.len(),
{
    if b.len() == 0 {
        assert(a + b =~= a);
        assert(preorder_of(a) + preorder_of(b) =~= preorder_of(a));
    } else {
        assert((a + b).drop_last() =~= a + b.drop_last());
        assert((a + b).last() == b.last());
        lemma_preorder_of_concat(a, b.drop_last());
        assert(preorder_of(a + b) =~= preorder_of(a) + preorder_of(b));
    }
}

proof fn lemma_childless_among_concat(a: Seq<NodeView>, b: Seq<NodeView>)
    ensures
        childless_among(a + b) == childless_among(a) + childless_among(b),
{
    Seq::filter_distributes_over_add(a, b, childless());
    assert(childless_among(a + b) =~= childless_among(a) + childless_among(b));
}

proof fn lemma_childless_among_one(node: NodeView)
    ensures
        childless_among(seq![node]) == if node.is_childless() {
            seq![node.as_leaf()]
        } else {
            Seq::<LeafView>::empty()
        },
{
    reveal_with_fuel(Seq::filter, 2);
    let one = seq![node];
    assert(one.drop_last() =~= Seq::<NodeView>::empty());
    assert(one.last() == node);
    if node.is_childless() {
        assert(one.filter(childless()) =~= seq![node]);
        assert(childless_among(one) =~= seq![node.as_leaf()]);
    } else {
        assert(one.filter(childless()) =~= Seq::<NodeView>::empty());
        assert(childless_among(one) =~= Seq::<LeafView>::empty());
    }
}

/// Flattening yields exactly the childless nodes of the tree, in document
/// order; so there are as many leaves as the tree has childless nodes.
pub proof fn lemma_leaves_in_document_order(node: NodeView)
    ensures
        node.leaves() == childless_among(node.preorder()),
        node.leaves().len() == node.preorder().filter(childless()).len(),
    decreases node, 1nat,
{
    lemma_childless_among_concat(seq![node], preorder_of(node.children));
    lemma_childless_among_one(node);
    lemma_forest_leaves_in_document_order(node.children);
    if node.is_childless() {
        assert(node.leaves() =~= childless_among(node.preorder()));
    } else {
        assert(node.leaves() =~= childless_among(node.preorder()));
    }
}

/// The forest form of [`lemma_leaves_in_document_order`].
pub proof fn lemma_forest_leaves_in_document_order(forest: Seq<NodeView>)
    ensures
        leaves_of(forest) == childless_among(preorder_of(forest)),
    decreases forest, 0nat,
{
    if forest.len() == 0 {
        reveal_with_fuel(Seq::filter, 1);
        assert(childless_among(preorder_of(forest)) =~= Seq::<LeafView>::empty());
    } else {
        lemma_forest_leaves_in_document_order(forest.drop_last());
        lemma_leaves_in_document_order(forest.last());
        lemma_childless_among_concat(preorder_of(forest.drop_last()), forest.last().preorder());
    }
}

/// What `first_named` finds is the named node at the lowest position; it
/// finds nothing exactly when no node carries the name.
pub proof fn lemma_first_named_is_first(nodes: Seq<NodeView>, target: Seq<char>)
    ensures
        match first_named(nodes, target) {
            Some(node) => exists|i: int|
                0 <= i < nodes.len() && #[trigger] nodes[i] == node && node.is_named(target)
                    && forall|j: int| 0 <= j < i ==> !(#[trigger] nodes[j]).is_named(target),
            None => forall|j: int| 0 <= j < nodes.len() ==> !(#[trigger] nodes[j]).is_named(target),
        },
    decreases nodes.len(),
{
    if nodes.len() == 0 {
    } else if nodes[0].is_named(target) {
        assert(nodes[0] == nodes[0]);
    } else {
        let rest = nodes.drop_first();
        lemma_first_named_is_first(rest, target);
        match first_named(rest, target) {
            Some(node) => {
                let i = choose|i: int|
                    0 <= i < rest.len() && #[trigger] rest[i] == node && node.is_named(target)
                        && forall|j: int| 0 <= j < i ==> !(#[trigger] rest[j]).is_named(target);
                assert(nodes[i + 1] == node);
                assert forall|j: int| 0 <= j < i + 1 implies !(#[trigger] nodes[j]).is_named(
                    target,
                ) by {
                    if j > 0 {
                        assert(nodes[j] == rest[j - 1]);
                    }
                }
            },
            None => {
                assert forall|j: int| 0 <= j < nodes.len() implies !(#[trigger] nodes[j]).is_named(
                    target,
                ) by {
                    if j > 0 {
                        assert(nodes[j] == rest[j - 1]);
                    }
                }
            },
        }
    }
}

} // verus!
