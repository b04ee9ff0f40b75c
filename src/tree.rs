//! The node store: an arena of nodes addressed by index.
//!
//! Node 0 is the root. Every other node names its parent, which stands
//! earlier in the arena, and every node lists its children in the order in
//! which they were attached.
use vstd::prelude::*;

verus! {

/// What a node holds, as plain values.
pub struct NodeView {
    pub label: Option<Seq<char>>,
    pub depth: nat,
    pub parent: Option<nat>,
    pub children: Seq<nat>,
}

/// One node: its label, its depth, its parent's index (none for the root)
/// and its children's indices in order.
pub struct TreeNode {
    pub value: Option<String>,
    pub depth: usize,
    pub children: Vec<usize>,
    pub parent: Option<usize>,
}

pub open spec fn label_view(value: Option<String>) -> Option<Seq<char>> {
    match value {
        Some(s) => Some(s@),
        None => None,
    }
}

pub open spec fn index_view(i: Option<usize>) -> Option<nat> {
    match i {
        Some(p) => Some(p as nat),
        None => None,
    }
}

impl View for TreeNode {
    type V = NodeView;

    open spec fn view(&self) -> NodeView {
        NodeView {
            label: label_view(self.value),
            depth: self.depth as nat,
            parent: index_view(self.parent),
            children: self.children@.map_values(|c: usize| c as nat),
        }
    }
}

impl TreeNode {
    /// A node with the given label and depth, without parent or children.
    pub fn new(value: Option<String>, depth: usize) -> (r: Self)
        ensures
            r@ == (NodeView {
                label: label_view(value),
                depth: depth as nat,
                parent: None,
                children: Seq::empty(),
            }),
    {
        let r = TreeNode { value, depth, children: Vec::new(), parent: None };
        assert(r@.children =~= Seq::<nat>::empty());
        r
    }

    /// Appends `child` to the children of this node.
    pub fn add_child(&mut self, child: usize)
        ensures
            final(self)@ == (NodeView {
                children: old(self)@.children.push(child as nat),
                ..old(self)@
            }),
    {
        self.children.push(child);
        assert(self@.children =~= old(self)@.children.push(child as nat));
    }

    /// Number of children.
    pub fn len(&self) -> (r: usize)
        ensures
            r == self@.children.len(),
    {
        self.children.len()
    }
}

/// The index of the first child of `node` whose label is `label`.
pub open spec fn first_child_labelled(
    nodes: Seq<NodeView>,
    node: nat,
    label: Seq<char>,
) -> Option<nat> {
    let ch = nodes[node as int].children;
    if exists|k: int| 0 <= k < ch.len() && nodes[ch[k] as int].label == Some(label) {
        let k = choose|k: int|
            0 <= k < ch.len() && nodes[ch[k] as int].label == Some(label) && forall|j: int|
                0 <= j < k ==> nodes[ch[j] as int].label != Some(label);
        Some(ch[k])
    } else {
        None
    }
}

/// The shape every tree keeps: a root at index 0 with depth 0 and no parent;
/// every other node one level below a parent that stands before it; each
/// node's children listed in increasing index order, each naming that node as
/// parent, and every node found among its parent's children.
#[verifier::opaque]
pub open spec fn wf_nodes(nodes: Seq<NodeView>) -> bool {
    &&& nodes.len() >= 1
    &&& nodes[0].parent is None
    &&& nodes[0].depth == 0
    &&& forall|i: int|
        1 <= i < nodes.len() ==> {
            &&& (#[trigger] nodes[i]).parent is Some
            &&& nodes[i].parent->0 < i
            &&& nodes[i].depth == nodes[nodes[i].parent->0 as int].depth + 1
        }
    &&& forall|p: int, k: int|
        0 <= p < nodes.len() && 0 <= k < nodes[p].children.len() ==> {
            &&& 0 < (#[trigger] nodes[p].children[k]) < nodes.len()
            &&& nodes[nodes[p].children[k] as int].parent == Some(p as nat)
        }
    &&& forall|p: int, a: int, b: int|
        0 <= p < nodes.len() && 0 <= a < b < nodes[p].children.len() ==> (#[trigger] nodes[p].children[a]) < (#[trigger] nodes[p].children[b])
    &&& forall|i: int|
        1 <= i < nodes.len() ==> (#[trigger] nodes[nodes[i].parent->0 as int]).children.contains(i as nat)
}

/// The root of a well-formed tree has depth 0 and no parent; every other
/// node has a parent that stands before it, one level above it.
pub proof fn lemma_wf_node(nodes: Seq<NodeView>, i: int)
    requires
        wf_nodes(nodes),
        0 <= i < nodes.len(),
    ensures
        i == 0 ==> nodes[i].parent is None && nodes[i].depth == 0,
        i != 0 ==> nodes[i].parent is Some && nodes[i].parent->0 < i && nodes[i].depth
            == nodes[nodes[i].parent->0 as int].depth + 1,
{
    reveal(wf_nodes);
}

/// A well-formed tree has a root.
pub proof fn lemma_wf_has_root(nodes: Seq<NodeView>)
    requires
        wf_nodes(nodes),
    ensures
        nodes.len() >= 1,
{
    reveal(wf_nodes);
}

/// Each child of a node in a well-formed tree is a later node that names it
/// as parent.
pub proof fn lemma_wf_child(nodes: Seq<NodeView>, p: int, k: int)
    requires
        wf_nodes(nodes),
        0 <= p < nodes.len(),
        0 <= k < nodes[p].children.len(),
    ensures
        p < nodes[p].children[k] < nodes.len(),
        nodes[nodes[p].children[k] as int].parent == Some(p as nat),
{
    reveal(wf_nodes);
    lemma_wf_node(nodes, nodes[p].children[k] as int);
}

/// `nodes` with a new last node: `label` at `depth`, appended as the last
/// child of `parent`.
pub open spec fn attach(nodes: Seq<NodeView>, parent: nat, label: Seq<char>, depth: nat) -> Seq<NodeView> {
    let n = nodes.len();
    nodes.update(
        parent as int,
        NodeView { children: nodes[parent as int].children.push(n), ..nodes[parent as int] },
    ).push(NodeView { label: Some(label), depth, parent: Some(parent), children: Seq::empty() })
}

/// Attaching a node one level below an existing node keeps the tree's shape.
pub proof fn lemma_attach_wf(nodes: Seq<NodeView>, parent: nat, label: Seq<char>, depth: nat)
    requires
        wf_nodes(nodes),
        parent < nodes.len(),
        depth == nodes[parent as int].depth + 1,
    ensures
        wf_nodes(attach(nodes, parent, label, depth)),
        attach(nodes, parent, label, depth).len() == nodes.len() + 1,
{
    reveal(wf_nodes);
    let r = attach(nodes, parent, label, depth);
    let n = nodes.len();
    assert forall|i: int| 1 <= i < r.len() implies {
        &&& (#[trigger] r[i]).parent is Some
        &&& r[i].parent->0 < i
        &&& r[i].depth == r[r[i].parent->0 as int].depth + 1
    } by {
        if i < n {
            assert(nodes[i].parent is Some);
        }
    }
    assert forall|p: int, k: int| 0 <= p < r.len() && 0 <= k < r[p].children.len() implies {
        &&& 0 < (#[trigger] r[p].children[k]) < r.len()
        &&& r[r[p].children[k] as int].parent == Some(p as nat)
    } by {
        if p != parent && p < n {
            assert(r[p].children[k] == nodes[p].children[k]);
        } else if p == parent && k < nodes[p].children.len() {
            assert(r[p].children[k] == nodes[p].children[k]);
        }
    }
    assert forall|p: int, a: int, b: int|
        0 <= p < r.len() && 0 <= a < b < r[p].children.len() implies (#[trigger] r[p].children[a])
        < (#[trigger] r[p].children[b]) by {
        if p == parent {
            assert(nodes[p].children[a] < n);
            if b < nodes[p].children.len() {
                assert(nodes[p].children[a] < nodes[p].children[b]);
            }
        } else if p < n {
            assert(nodes[p].children[a] < nodes[p].children[b]);
        }
    }
    assert forall|i: int| 1 <= i < r.len() implies (#[trigger] r[r[i].parent->0 as int]).children.contains(
        i as nat,
    ) by {
        if i == n {
            assert(r[parent as int].children[nodes[parent as int].children.len() as int] == n);
        } else {
            let q = nodes[i].parent->0 as int;
            assert(nodes[q].children.contains(i as nat));
            let k = choose|k: int| 0 <= k < nodes[q].children.len() && nodes[q].children[k] == i as nat;
            assert(r[q].children[k] == i as nat);
        }
    }
}

/// A tree of nodes held in one arena; node 0 is the root.
pub struct Tree {
    nodes: Vec<TreeNode>,
}

impl View for Tree {
    type V = Seq<NodeView>;

    closed spec fn view(&self) -> Seq<NodeView> {
        self.nodes@.map_values(|n: TreeNode| n@)
    }
}

impl Tree {
    pub open spec fn wf(&self) -> bool {
        wf_nodes(self@)
    }

    /// A tree that holds only a root labelled `label`.
    pub fn with_root(label: String) -> (r: Tree)
        ensures
            r.wf(),
            r@ == seq![
                NodeView { label: Some(label@), depth: 0, parent: None, children: Seq::empty() },
            ],
    {
        let root = TreeNode::new(Some(label), 0);
        let mut nodes: Vec<TreeNode> = Vec::new();
        nodes.push(root);
        let r = Tree { nodes };
        reveal(wf_nodes);
        assert(r@ =~= seq![
            NodeView { label: Some(label@), depth: 0, parent: None, children: Seq::empty() },
        ]);
        r
    }

    /// Appends a node labelled `label` at `depth` as the last child of
    /// `parent`, and returns its index.
    pub fn attach_node(&mut self, parent: usize, label: String, depth: usize) -> (r: usize)
        requires
            old(self).wf(),
            parent < old(self)@.len(),
            depth == old(self)@[parent as int].depth + 1,
        ensures
            final(self).wf(),
            final(self)@ == attach(old(self)@, parent as nat, label@, depth as nat),
            r == old(self)@.len(),
    {
        let r = self.nodes.len();
        let mut node = TreeNode::new(Some(label), depth);
        node.parent = Some(parent);
        self.nodes.push(node);
        self.nodes[parent].add_child(r);
        proof {
            lemma_attach_wf(old(self)@, parent as nat, label@, depth as nat);
        }
        assert(self@ =~= attach(old(self)@, parent as nat, label@, depth as nat));
        r
    }

    /// Number of nodes, the root included.
    pub fn node_count(&self) -> (r: usize)
        ensures
            r == self@.len(),
    {
        self.nodes.len()
    }

    /// The node at index `i`.
    pub fn node(&self, i: usize) -> (r: &TreeNode)
        requires
            i < self@.len(),
        ensures
            r@ == self@[i as int],
    {
        &self.nodes[i]
    }

    /// The children of node `i`, in order.
    pub fn children(&self, i: usize) -> (r: &Vec<usize>)
        requires
            i < self@.len(),
        ensures
            r@.map_values(|c: usize| c as nat) == self@[i as int].children,
    {
        &self.nodes[i].children
    }

    /// The parent of node `i`, none for the root.
    pub fn parent(&self, i: usize) -> (r: Option<usize>)
        requires
            i < self@.len(),
        ensures
            index_view(r) == self@[i as int].parent,
    {
        self.nodes[i].parent
    }

    /// The index of the first child of node `i` labelled `value`.
    pub fn get_child(&self, i: usize, value: &String) -> (r: Option<usize>)
        requires
            self.wf(),
            i < self@.len(),
        ensures
            index_view(r) == first_child_labelled(self@, i as nat, value@),
    {
        let ghost nodes = self@;
        let ghost ch = nodes[i as int].children;
        let children = &self.nodes[i].children;
        assert(forall|j: int| 0 <= j < ch.len() ==> #[trigger] ch[j] < nodes.len()) by {
            assert forall|j: int| 0 <= j < ch.len() implies #[trigger] ch[j] < nodes.len() by {
                lemma_wf_child(nodes, i as int, j);
            }
        }
        let mut k: usize = 0;
        while k < children.len()
            invariant
                nodes == self@,
                i < nodes.len(),
                forall|j: int| 0 <= j < ch.len() ==> #[trigger] ch[j] < nodes.len(),
                ch == nodes[i as int].children,
                children@.map_values(|c: usize| c as nat) == ch,
                k <= children.len(),
                forall|j: int| 0 <= j < k ==> nodes[ch[j] as int].label != Some(value@),
            decreases children.len() - k,
        {
            let c = children[k];
            assert(ch[k as int] == c as nat);
            assert(c < nodes.len());
            assert(self.nodes@[c as int]@ == nodes[c as int]);
            let found = match &self.nodes[c].value {
                Some(s) => s.eq(value),
                None => false,
            };
            if found {
                let ghost kk = k as int;
                proof {
                    assert(nodes[ch[kk] as int].label == Some(value@));
                    let kc = choose|k: int|
                        0 <= k < ch.len() && nodes[ch[k] as int].label == Some(value@) && forall|
                            j: int,
                        | 0 <= j < k ==> nodes[ch[j] as int].label != Some(value@);
                    if kc < kk {
                    } else if kc > kk {
                        assert(nodes[ch[kk] as int].label != Some(value@));
                    }
                }
                return Some(c);
            }
            k = k + 1;
        }
        None
    }
}

} // verus!
