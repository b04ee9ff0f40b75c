//! The outline that the view shows: the labelled nodes in depth-first order,
//! descending only into expanded nodes, walked with an explicit stack.
use vstd::prelude::*;
use crate::tree::{lemma_wf_child, lemma_wf_has_root, NodeView, Tree};
use crate::viewer::DisplayFlags;

verus! {

/// Whether the children of node `i` are walked: an expanded node, or one
/// without a label, which has no flag of its own to show.
pub open spec fn descends(nodes: Seq<NodeView>, open: Seq<bool>, i: nat) -> bool {
    nodes[i as int].label is None || open[i as int]
}

/// The node `i` itself when it has a label; nothing otherwise.
pub open spec fn own_entry(nodes: Seq<NodeView>, i: nat) -> Seq<nat> {
    if nodes[i as int].label is Some {
        seq![i]
    } else {
        Seq::empty()
    }
}

/// The outline of the subtree at `i`.
pub open spec fn shown(nodes: Seq<NodeView>, open: Seq<bool>, i: nat) -> Seq<nat>
    decreases nodes.len() - i, nodes[i as int].children.len() + 1,
{
    if i >= nodes.len() {
        Seq::empty()
    } else if descends(nodes, open, i) {
        own_entry(nodes, i) + shown_from(nodes, open, i, 0)
    } else {
        own_entry(nodes, i)
    }
}

/// The outlines of the children of `i` from the `k`-th on, one after another.
pub open spec fn shown_from(nodes: Seq<NodeView>, open: Seq<bool>, i: nat, k: nat) -> Seq<nat>
    decreases nodes.len() - i, nodes[i as int].children.len() - k,
{
    let ch = nodes[i as int].children;
    if i >= nodes.len() || k >= ch.len() {
        Seq::empty()
    } else if i < ch[k as int] < nodes.len() {
        shown(nodes, open, ch[k as int]) + shown_from(nodes, open, i, k + 1)
    } else {
        shown_from(nodes, open, i, k + 1)
    }
}

/// Number of nodes in the subtree at `i`.
pub open spec fn size(nodes: Seq<NodeView>, i: nat) -> nat
    decreases nodes.len() - i, nodes[i as int].children.len() + 1,
{
    if i >= nodes.len() {
        0
    } else {
        1 + size_from(nodes, i, 0)
    }
}

/// Number of nodes in the subtrees of the children of `i` from the `k`-th on.
pub open spec fn size_from(nodes: Seq<NodeView>, i: nat, k: nat) -> nat
    decreases nodes.len() - i, nodes[i as int].children.len() - k,
{
    let ch = nodes[i as int].children;
    if i >= nodes.len() || k >= ch.len() {
        0
    } else if i < ch[k as int] < nodes.len() {
        size(nodes, ch[k as int]) + size_from(nodes, i, k + 1)
    } else {
        size_from(nodes, i, k + 1)
    }
}

/// What remains to be listed for a stack of frames, the top one first.
pub open spec fn pending(nodes: Seq<NodeView>, open: Seq<bool>, frames: Seq<(usize, usize)>) -> Seq<nat>
    decreases frames.len(),
{
    if frames.len() == 0 {
        Seq::empty()
    } else {
        let (i, k) = frames.last();
        shown_from(nodes, open, i as nat, k as nat) + pending(nodes, open, frames.drop_last())
    }
}

/// How much walking remains for a stack of frames.
pub open spec fn work(nodes: Seq<NodeView>, frames: Seq<(usize, usize)>) -> nat
    decreases frames.len(),
{
    if frames.len() == 0 {
        0
    } else {
        let (i, k) = frames.last();
        1 + 2 * size_from(nodes, i as nat, k as nat) + work(nodes, frames.drop_last())
    }
}

pub open spec fn as_nats(v: Seq<usize>) -> Seq<nat> {
    v.map_values(|x: usize| x as nat)
}

/// The labelled nodes that an outline of `tree` shows under the display
/// flags `flags`, in depth-first order from the root: the children of a node
/// are listed, right after it and in their order, only when the node is
/// expanded or has no label.
pub fn visible_outline(tree: &Tree, flags: &DisplayFlags) -> (r: Vec<usize>)
    requires
        tree.wf(),
        flags@.len() == tree@.len(),
    ensures
        as_nats(r@) == shown(tree@, flags@, 0),
        forall|m: int| 0 <= m < r@.len() ==> (#[trigger] r@[m]) < tree@.len(),
{
    let ghost nodes = tree@;
    let ghost open = flags@;
    proof {
        lemma_wf_has_root(nodes);
    }
    let mut out: Vec<usize> = Vec::new();
    let mut frames: Vec<(usize, usize)> = Vec::new();
    if tree.node(0).value.is_some() {
        out.push(0);
    }
    let down = tree.node(0).value.is_none() || flags.is_visible(0);
    assert(descends(nodes, open, 0) == down);
    if down {
        frames.push((0, 0));
    }
    assert(as_nats(out@) =~= own_entry(nodes, 0));
    if frames.len() > 0 {
        assert(frames@.drop_last() =~= Seq::<(usize, usize)>::empty());
        assert(frames@.last() == (0usize, 0usize));
        assert(pending(nodes, open, frames@.drop_last()) == Seq::<nat>::empty());
        assert(pending(nodes, open, frames@) =~= shown_from(nodes, open, 0, 0));
        assert(as_nats(out@) + pending(nodes, open, frames@) =~= shown(nodes, open, 0));
    } else {
        assert(as_nats(out@) + pending(nodes, open, frames@) =~= shown(nodes, open, 0));
    }
    while frames.len() > 0
        invariant
            tree.wf(),
            nodes == tree@,
            open == flags@,
            open.len() == nodes.len(),
            forall|j: int| 0 <= j < frames@.len() ==> (#[trigger] frames@[j]).0 < nodes.len(),
            forall|m: int| 0 <= m < out@.len() ==> (#[trigger] out@[m]) < nodes.len(),
            as_nats(out@) + pending(nodes, open, frames@) == shown(nodes, open, 0),
        decreases work(nodes, frames@),
    {
        let top = frames.len() - 1;
        let (i, k) = frames[top];
        let ch = tree.children(i);
        let ghost rest = frames@.drop_last();
        if k >= ch.len() {
            frames.pop();
            assert(frames@ =~= rest);
            assert(shown_from(nodes, open, i as nat, k as nat) =~= Seq::<nat>::empty());
            assert(as_nats(out@) + pending(nodes, open, frames@) =~= shown(nodes, open, 0));
        } else {
            let c = ch[k];
            proof {
                assert(nodes[i as int].children[k as int] == c as nat);
                lemma_wf_child(nodes, i as int, k as int);
            }
            let ghost out0 = as_nats(out@);
            let ghost w0 = work(nodes, frames@);
            let ghost p0 = pending(nodes, open, frames@);
            frames.set(top, (i, k + 1));
            assert(frames@.drop_last() =~= rest);
            let ghost mid = frames@;
            assert(pending(nodes, open, mid) == shown_from(nodes, open, i as nat, (k + 1) as nat)
                + pending(nodes, open, rest));
            assert(work(nodes, mid) == 1 + 2 * size_from(nodes, i as nat, (k + 1) as nat) + work(
                nodes,
                rest,
            ));
            if tree.node(c).value.is_some() {
                out.push(c);
            }
            assert(as_nats(out@) =~= out0 + own_entry(nodes, c as nat));
            let down = tree.node(c).value.is_none() || flags.is_visible(c);
            if down {
                frames.push((c, 0));
                assert(frames@.drop_last() =~= mid);
            }
            proof {
                let a = shown_from(nodes, open, c as nat, 0);
                let b = shown_from(nodes, open, i as nat, (k + 1) as nat);
                let pr = pending(nodes, open, rest);
                assert(shown_from(nodes, open, i as nat, k as nat) == shown(nodes, open, c as nat) + b);
                assert(descends(nodes, open, c as nat) == down);
                if down {
                    assert(shown(nodes, open, c as nat) == own_entry(nodes, c as nat) + a);
                    assert(pending(nodes, open, frames@) == a + (b + pr));
                    assert(p0 == (own_entry(nodes, c as nat) + a + b) + pr);
                    assert(as_nats(out@) + pending(nodes, open, frames@) =~= out0 + p0);
                } else {
                    assert(shown(nodes, open, c as nat) == own_entry(nodes, c as nat));
                    assert(pending(nodes, open, frames@) == b + pr);
                    assert(p0 == (own_entry(nodes, c as nat) + b) + pr);
                    assert(as_nats(out@) + pending(nodes, open, frames@) =~= out0 + p0);
                }
                assert(size_from(nodes, i as nat, k as nat) == size(nodes, c as nat) + size_from(
                    nodes,
                    i as nat,
                    (k + 1) as nat,
                ));
                assert(size(nodes, c as nat) == 1 + size_from(nodes, c as nat, 0));
                assert(work(nodes, frames@) < w0);
            }
        }
    }
    out
}

/// `n` pairs of dashes.
pub open spec fn dashes(n: nat) -> Seq<char>
    decreases n,
{
    if n == 0 {
        Seq::empty()
    } else {
        dashes((n - 1) as nat) + seq!['-', '-']
    }
}

/// The text line of a node: `+`, two dashes per level, a space, the label
/// and a newline; nothing for a node without a label.
pub open spec fn node_line(v: NodeView) -> Seq<char> {
    match v.label {
        Some(l) => seq!['+'] + dashes(v.depth) + seq![' '] + l + seq!['\n'],
        None => Seq::empty(),
    }
}

/// The lines of the nodes `order`, one after another.
pub open spec fn text_of(nodes: Seq<NodeView>, order: Seq<nat>) -> Seq<char>
    decreases order.len(),
{
    if order.len() == 0 {
        Seq::empty()
    } else {
        text_of(nodes, order.drop_last()) + node_line(nodes[order.last() as int])
    }
}

/// The whole tree as text, one line per labelled node in depth-first order,
/// every node expanded.
pub fn outline_text(tree: &Tree) -> (r: String)
    requires
        tree.wf(),
    ensures
        r@ == text_of(tree@, shown(tree@, Seq::new(tree@.len(), |i: int| true), 0)),
{
    let flags = DisplayFlags::filled(tree.node_count(), true);
    let order = visible_outline(tree, &flags);
    let ghost nodes = tree@;
    let ghost ord = as_nats(order@);
    let mut text = String::new();
    let mut j: usize = 0;
    assert(text@ =~= text_of(nodes, ord.subrange(0, 0)));
    assert forall|m: int| 0 <= m < ord.len() implies (#[trigger] ord[m]) < nodes.len() by {
        assert(order@[m] < nodes.len());
    }
    while j < order.len()
        invariant
            tree.wf(),
            nodes == tree@,
            ord == as_nats(order@),
            j <= order@.len(),
            forall|m: int| 0 <= m < ord.len() ==> (#[trigger] ord[m]) < nodes.len(),
            text@ == text_of(nodes, ord.subrange(0, j as int)),
        decreases order.len() - j,
    {
        let i = order[j];
        assert(ord[j as int] == i as nat);
        let node = tree.node(i);
        let ghost before = text@;
        match &node.value {
            Some(label) => {
                text.append("+");
                proof {
                    reveal_strlit("+");
                }
                assert(text@ =~= before + seq!['+'] + dashes(0));
                let mut d: usize = 0;
                while d < node.depth
                    invariant
                        d <= node.depth,
                        text@ == before + seq!['+'] + dashes(d as nat),
                    decreases node.depth - d,
                {
                    let ghost t0 = text@;
                    text.append("--");
                    proof {
                        reveal_strlit("--");
                    }
                    d = d + 1;
                    assert(text@ =~= t0 + seq!['-', '-']);
                }
                text.append(" ");
                text.append(label.as_str());
                text.append("\n");
                proof {
                    reveal_strlit(" ");
                    reveal_strlit("\n");
                    assert(nodes[i as int].label == Some(label@));
                    assert(nodes[i as int].depth == node.depth);
                    assert(text@ =~= before + (seq!['+'] + dashes(node.depth as nat) + seq![' '] + label@ + seq!['\n']));
                }
            },
            None => {},
        }
        proof {
            assert(ord.subrange(0, j + 1).drop_last() =~= ord.subrange(0, j as int));
            assert(text@ =~= before + node_line(nodes[ord[j as int] as int]));
        }
        j = j + 1;
    }
    assert(ord.subrange(0, order@.len() as int) =~= ord);
    text
}

} // verus!
