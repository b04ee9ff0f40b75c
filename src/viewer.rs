//! What the outline view holds: the tree, its header and one display flag per
//! node, kept apart from the nodes themselves.
use vstd::prelude::*;
use crate::header::TreeInfo;
use crate::tree::Tree;

verus! {

/// One flag per node, indexed like the tree's nodes: whether the node's
/// children are shown.
pub struct DisplayFlags {
    visible: Vec<bool>,
}

impl View for DisplayFlags {
    type V = Seq<bool>;

    closed spec fn view(&self) -> Seq<bool> {
        self.visible@
    }
}

impl DisplayFlags {
    /// `n` flags, all off.
    pub fn new(n: usize) -> (r: DisplayFlags)
        ensures
            r@ == Seq::new(n as nat, |i: int| false),
    {
        DisplayFlags::filled(n, false)
    }

    /// `n` flags, all set to `on`.
    pub fn filled(n: usize, on: bool) -> (r: DisplayFlags)
        ensures
            r@ == Seq::new(n as nat, |i: int| on),
    {
        let mut visible: Vec<bool> = Vec::new();
        let mut i: usize = 0;
        while i < n
            invariant
                i <= n,
                visible@ == Seq::new(i as nat, |j: int| on),
            decreases n - i,
        {
            visible.push(on);
            i = i + 1;
            assert(visible@ =~= Seq::new(i as nat, |j: int| on));
        }
        DisplayFlags { visible }
    }

    /// Number of flags.
    pub fn len(&self) -> (r: usize)
        ensures
            r == self@.len(),
    {
        self.visible.len()
    }

    /// Whether node `i` shows its children.
    pub fn is_visible(&self, i: usize) -> (r: bool)
        requires
            i < self@.len(),
        ensures
            r == self@[i as int],
    {
        self.visible[i]
    }

    /// Sets the flag of node `i` to `on`.
    pub fn set_visible(&mut self, i: usize, on: bool)
        requires
            i < old(self)@.len(),
        ensures
            final(self)@ == old(self)@.update(i as int, on),
    {
        self.visible.set(i, on);
    }

    /// Flips the flag of node `i`.
    pub fn toggle(&mut self, i: usize)
        requires
            i < old(self)@.len(),
        ensures
            final(self)@ == old(self)@.update(i as int, !old(self)@[i as int]),
    {
        let on = self.visible[i];
        self.visible.set(i, !on);
    }
}

/// The outline view's state: a loaded tree, its header, and a display flag
/// for each node, all off at first.
pub struct App {
    pub tree: Tree,
    pub tree_info: TreeInfo,
    pub flags: DisplayFlags,
}

impl App {
    /// Holds `tree` and `tree_info`, with every node collapsed.
    pub fn new(tree: Tree, tree_info: TreeInfo) -> (r: Self)
        ensures
            r.tree == tree,
            r.tree_info == tree_info,
            r.flags@ == Seq::new(tree@.len(), |i: int| false),
    {
        let n = tree.node_count();
        let flags = DisplayFlags::filled(n, false);
        App { tree, tree_info, flags }
    }
}

} // verus!
