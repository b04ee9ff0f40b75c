//! Properties of every load, proved over the model of the builder.
use vstd::prelude::*;
use crate::builder::{
    ascend, build, initial_state, load_model, outcome_of, step, BuildState, LoadError,
    LoadOutcome,
};
use crate::classify::{depth_of, label_of};
use crate::header::{first_occurrence, occurs_at, serial_marker, text_after, TreeInfo};
use crate::tree::{attach, lemma_attach_wf, lemma_wf_child, lemma_wf_node, wf_nodes, NodeView, Tree};

verus! {

/// What every reachable builder state keeps: a well-formed tree whose cursor
/// is a node at the recorded depth.
pub open spec fn state_ok(s: BuildState) -> bool {
    &&& wf_nodes(s.nodes)
    &&& s.cursor < s.nodes.len()
    &&& s.nodes[s.cursor as int].depth == s.cursor_depth
}

/// Node `k` (for `k >= 1`) is the entry `entries[k - 1]`: its label and depth.
pub open spec fn nodes_follow_entries(nodes: Seq<NodeView>, entries: Seq<Seq<char>>) -> bool {
    &&& nodes.len() == entries.len() + 1
    &&& forall|k: int|
        1 <= k < nodes.len() ==> (#[trigger] nodes[k]).label == Some(label_of(entries[k - 1]))
            && nodes[k].depth == depth_of(entries[k - 1])
}

proof fn lemma_ascend_ok(nodes: Seq<NodeView>, cursor: nat, cd: int, target: int)
    requires
        wf_nodes(nodes),
        cursor < nodes.len(),
        nodes[cursor as int].depth == cd,
    ensures
        ascend(nodes, cursor, cd, target) matches Some((c, d)) ==> c < nodes.len()
            && nodes[c as int].depth == d && d == target,
    decreases cursor,
{
    if cd != target && nodes[cursor as int].parent is Some && nodes[cursor as int].parent->0 < cursor {
        lemma_wf_node(nodes, cursor as int);
        lemma_ascend_ok(nodes, nodes[cursor as int].parent->0, cd - 1, target);
    }
}

proof fn lemma_step_ok(s: BuildState, depth: nat, label: Seq<char>)
    requires
        state_ok(s),
    ensures
        step(s, depth, label) matches Some(t) ==> state_ok(t) && t.cursor < s.nodes.len() && t.nodes == attach(
            s.nodes,
            t.cursor,
            label,
            depth,
        ),
{
    if depth == s.cursor_depth + 1 {
        lemma_attach_wf(s.nodes, s.cursor, label, depth);
    } else if depth == s.cursor_depth + 2 {
        let ch = s.nodes[s.cursor as int].children;
        if ch.len() > 0 {
            lemma_wf_child(s.nodes, s.cursor as int, ch.len() - 1);
            lemma_wf_node(s.nodes, ch.last() as int);
            lemma_attach_wf(s.nodes, ch.last(), label, depth);
        }
    } else {
        lemma_ascend_ok(s.nodes, s.cursor, s.cursor_depth, depth - 1);
        if let Some((c, d)) = ascend(s.nodes, s.cursor, s.cursor_depth, depth - 1) {
            lemma_attach_wf(s.nodes, c, label, depth);
        }
    }
}

proof fn lemma_build_ok(root_label: Seq<char>, entries: Seq<Seq<char>>)
    ensures
        build(root_label, entries) matches Ok(s) ==> state_ok(s) && nodes_follow_entries(
            s.nodes,
            entries,
        ) && s.nodes[0].label == Some(root_label),
    decreases entries.len(),
{
    if entries.len() == 0 {
        reveal(wf_nodes);
    } else {
        let shorter = entries.drop_last();
        lemma_build_ok(root_label, shorter);
        if let Ok(s) = build(root_label, shorter) {
            let e = entries.last();
            lemma_step_ok(s, depth_of(e), label_of(e));
            if let Some(t) = step(s, depth_of(e), label_of(e)) {
                assert forall|k: int| 1 <= k < t.nodes.len() implies (#[trigger] t.nodes[k]).label
                    == Some(label_of(entries[k - 1])) && t.nodes[k].depth == depth_of(
                    entries[k - 1],
                ) by {
                    let c = t.cursor as int;
                    let u = s.nodes.update(
                        c,
                        NodeView { children: s.nodes[c].children.push(s.nodes.len()), ..s.nodes[c] },
                    );
                    if k < s.nodes.len() {
                        assert(t.nodes[k] == u[k]);
                        assert(u[k].label == s.nodes[k].label && u[k].depth == s.nodes[k].depth);
                        assert(s.nodes[k].label == Some(label_of(shorter[k - 1])));
                        assert(shorter[k - 1] == entries[k - 1]);
                    } else {
                        assert(k == s.nodes.len());
                        assert(entries[k - 1] == e);
                    }
                }
            }
        }
    }
}

/// In every tree that a load builds, the root has depth 0 and no parent, and
/// every other node is exactly one level below its parent.
pub proof fn lemma_depth_follows_parent(lines: Seq<Seq<char>>)
    requires
        load_model(lines) is Built,
    ensures
        ({
            let nodes = load_model(lines)->Built_nodes;
            &&& nodes[0].depth == 0
            &&& nodes[0].parent is None
            &&& forall|i: int|
                1 <= i < nodes.len() ==> (#[trigger] nodes[i]).parent is Some && nodes[i].depth
                    == nodes[nodes[i].parent->0 as int].depth + 1
        }),
{
    lemma_build_ok(lines[2], lines.subrange(3, lines.len() as int));
    let nodes = load_model(lines)->Built_nodes;
    lemma_wf_node(nodes, 0);
    assert forall|i: int| 1 <= i < nodes.len() implies (#[trigger] nodes[i]).parent is Some
        && nodes[i].depth == nodes[nodes[i].parent->0 as int].depth + 1 by {
        lemma_wf_node(nodes, i);
    }
}

/// In every tree that a load builds, node `k` (for `k >= 1`) is the `k`-th
/// entry line, and every node lists its children in increasing node order,
/// which is the order in which their lines appear.
pub proof fn lemma_children_keep_input_order(lines: Seq<Seq<char>>)
    requires
        load_model(lines) is Built,
    ensures
        ({
            let nodes = load_model(lines)->Built_nodes;
            let entries = lines.subrange(3, lines.len() as int);
            &&& nodes_follow_entries(nodes, entries)
            &&& forall|p: int, a: int, b: int|
                0 <= p < nodes.len() && 0 <= a < b < nodes[p].children.len() ==> nodes[p].children[a]
                    < nodes[p].children[b]
        }),
{
    lemma_build_ok(lines[2], lines.subrange(3, lines.len() as int));
    reveal(wf_nodes);
}

/// Loading is a function of the input: two loads of the same lines give the
/// same outcome, the same nodes with the same labels, depths and children.
pub proof fn lemma_load_deterministic(
    lines: Seq<Seq<char>>,
    r1: Result<(Tree, TreeInfo), LoadError>,
    r2: Result<(Tree, TreeInfo), LoadError>,
)
    requires
        outcome_of(r1) == load_model(lines),
        outcome_of(r2) == load_model(lines),
    ensures
        outcome_of(r1) == outcome_of(r2),
{
}

/// With a valid header, a first entry of depth 2 or more cannot be placed:
/// the load fails on line 4 and reports that line.
pub proof fn lemma_deep_first_entry_fails(lines: Seq<Seq<char>>)
    requires
        lines.len() >= 4,
        text_after(lines[0], crate::header::name_marker()) is Some,
        text_after(lines[1], serial_marker()) is Some,
        depth_of(lines[3]) >= 2,
    ensures
        load_model(lines) == (LoadOutcome::StructuralError { line_number: 4, line: lines[3] }),
{
    let entries = lines.subrange(3, lines.len() as int);
    let first = entries.subrange(0, 1);
    assert(first.drop_last() =~= Seq::<Seq<char>>::empty());
    let s = initial_state(lines[2]);
    assert(build(lines[2], first.drop_last()) == Ok::<BuildState, nat>(s));
    assert(first.last() == lines[3]);
    assert(step(s, depth_of(lines[3]), label_of(lines[3])) is None);
    assert(build(lines[2], first) == Err::<BuildState, nat>(0));
    crate::builder::lemma_build_err_extends(lines[2], entries, 1);
}

/// When the second line lacks the serial marker, the load fails with a
/// format error.
pub proof fn lemma_missing_serial_marker_fails(lines: Seq<Seq<char>>)
    requires
        lines.len() >= 3,
        forall|k: int| !occurs_at(lines[1], serial_marker(), k),
    ensures
        load_model(lines) is FormatError,
{
    reveal(first_occurrence);
}

/// A listing of the three header lines alone, with both markers, loads as a
/// root labelled by the third line and without children.
pub proof fn lemma_header_only_gives_bare_root(lines: Seq<Seq<char>>)
    requires
        lines.len() == 3,
        text_after(lines[0], crate::header::name_marker()) is Some,
        text_after(lines[1], serial_marker()) is Some,
    ensures
        load_model(lines) is Built,
        load_model(lines)->Built_nodes == seq![
            NodeView { label: Some(lines[2]), depth: 0, parent: None, children: Seq::empty() },
        ],
{
    assert(lines.subrange(3, 3) =~= Seq::<Seq<char>>::empty());
}

} // verus!
