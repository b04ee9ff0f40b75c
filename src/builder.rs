//! The tree builder: a depth-delta state machine that attaches each entry to
//! its parent, and the loader that runs it over a whole listing.
use vstd::prelude::*;
use crate::classify::{classify_line, depth_of, label_of};
use crate::header::{name_marker, parse_serial_number, parse_volume_name, serial_marker, text_after, TreeInfo};
use crate::tree::{attach, lemma_wf_child, lemma_wf_node, NodeView, Tree};

verus! {

/// The builder's state: the nodes so far, the cursor node and the depth the
/// builder records for it.
pub struct BuildState {
    pub nodes: Seq<NodeView>,
    pub cursor: nat,
    pub cursor_depth: int,
}

/// The state before any entry: the root alone, which is the cursor, at depth 0.
pub open spec fn initial_state(root_label: Seq<char>) -> BuildState {
    BuildState {
        nodes: seq![NodeView { label: Some(root_label), depth: 0, parent: None, children: Seq::empty() }],
        cursor: 0,
        cursor_depth: 0,
    }
}

/// Moves from `cursor` to its parent, one level per step, until the recorded
/// depth `cd` reaches `target`; none when a parent is needed and missing.
/// A parent always stands before its child in a well-formed arena, which
/// bounds the climb.
pub open spec fn ascend(nodes: Seq<NodeView>, cursor: nat, cd: int, target: int) -> Option<(nat, int)>
    decreases cursor,
{
    if cd == target {
        Some((cursor, cd))
    } else if cursor < nodes.len() && nodes[cursor as int].parent is Some
        && nodes[cursor as int].parent->0 < cursor {
        ascend(nodes, nodes[cursor as int].parent->0, cd - 1, target)
    } else {
        None
    }
}

/// One entry at `depth` labelled `label`, by the difference between `depth`
/// and the cursor's recorded depth: at +1 the entry goes under the cursor; at
/// +2 the cursor first moves to its last child; otherwise the cursor climbs
/// until its recorded depth is one less than the entry's. None when the move
/// is impossible.
pub open spec fn step(s: BuildState, depth: nat, label: Seq<char>) -> Option<BuildState> {
    if depth == s.cursor_depth + 1 {
        Some(BuildState { nodes: attach(s.nodes, s.cursor, label, depth), ..s })
    } else if depth == s.cursor_depth + 2 {
        let ch = s.nodes[s.cursor as int].children;
        if ch.len() == 0 {
            None
        } else {
            Some(
                BuildState {
                    nodes: attach(s.nodes, ch.last(), label, depth),
                    cursor: ch.last(),
                    cursor_depth: depth - 1,
                },
            )
        }
    } else {
        match ascend(s.nodes, s.cursor, s.cursor_depth, depth - 1) {
            Some((c, d)) => Some(
                BuildState { nodes: attach(s.nodes, c, label, depth), cursor: c, cursor_depth: d },
            ),
            None => None,
        }
    }
}

/// The state after the entry lines `entries`, or the index of the first entry
/// that could not be placed.
pub open spec fn build(root_label: Seq<char>, entries: Seq<Seq<char>>) -> Result<BuildState, nat>
    decreases entries.len(),
{
    if entries.len() == 0 {
        Ok(initial_state(root_label))
    } else {
        match build(root_label, entries.drop_last()) {
            Ok(s) => match step(s, depth_of(entries.last()), label_of(entries.last())) {
                Some(t) => Ok(t),
                None => Err((entries.len() - 1) as nat),
            },
            Err(k) => Err(k),
        }
    }
}

/// Once an entry cannot be placed, later entries do not change the outcome.
pub proof fn lemma_build_err_extends(root_label: Seq<char>, entries: Seq<Seq<char>>, m: int)
    requires
        0 <= m <= entries.len(),
        build(root_label, entries.subrange(0, m)) is Err,
    ensures
        build(root_label, entries) == build(root_label, entries.subrange(0, m)),
    decreases entries.len(),
{
    if entries.len() == m {
        assert(entries.subrange(0, m) =~= entries);
    } else {
        let shorter = entries.drop_last();
        assert(shorter.subrange(0, m) =~= entries.subrange(0, m));
        lemma_build_err_extends(root_label, shorter, m);
    }
}

/// Why a listing could not be loaded.
pub enum LoadError {
    /// Fewer than the three header lines.
    IoError,
    /// A header line (1-based `line_number`) lacks its marker.
    FormatError { line_number: usize },
    /// An entry line that the builder could not place, with its 1-based
    /// number and its text.
    StructuralError { line_number: usize, line: String },
}

/// The outcome of loading, as plain values.
pub enum LoadOutcome {
    Built { nodes: Seq<NodeView>, name: Seq<char>, serial: Seq<char>, tag: Seq<char> },
    IoError,
    FormatError { line_number: nat },
    StructuralError { line_number: nat, line: Seq<char> },
}

/// What loading the listing `lines` yields.
pub open spec fn load_model(lines: Seq<Seq<char>>) -> LoadOutcome {
    if lines.len() < 3 {
        LoadOutcome::IoError
    } else {
        match text_after(lines[0], name_marker()) {
            None => LoadOutcome::FormatError { line_number: 1 },
            Some(name) => match text_after(lines[1], serial_marker()) {
                None => LoadOutcome::FormatError { line_number: 2 },
                Some(serial) => match build(lines[2], lines.subrange(3, lines.len() as int)) {
                    Ok(s) => LoadOutcome::Built { nodes: s.nodes, name, serial, tag: lines[2] },
                    Err(k) => LoadOutcome::StructuralError {
                        line_number: k + 4,
                        line: lines[k + 3int],
                    },
                },
            },
        }
    }
}

/// The lines of a listing, as character sequences.
pub open spec fn lines_view(lines: Seq<String>) -> Seq<Seq<char>> {
    lines.map_values(|s: String| s@)
}

/// What a result of `load_tree` holds, as plain values.
pub open spec fn outcome_of(r: Result<(Tree, TreeInfo), LoadError>) -> LoadOutcome {
    match r {
        Ok((t, info)) => LoadOutcome::Built {
            nodes: t@,
            name: info.volume_name@,
            serial: info.volume_serial_number@,
            tag: info.volume_tag@,
        },
        Err(LoadError::IoError) => LoadOutcome::IoError,
        Err(LoadError::FormatError { line_number }) => LoadOutcome::FormatError {
            line_number: line_number as nat,
        },
        Err(LoadError::StructuralError { line_number, line }) => LoadOutcome::StructuralError {
            line_number: line_number as nat,
            line: line@,
        },
    }
}

/// A builder in progress: the tree so far, the cursor and its recorded depth.
pub struct TreeBuilder {
    tree: Tree,
    cursor: usize,
    cursor_depth: usize,
}

impl View for TreeBuilder {
    type V = BuildState;

    closed spec fn view(&self) -> BuildState {
        BuildState {
            nodes: self.tree@,
            cursor: self.cursor as nat,
            cursor_depth: self.cursor_depth as int,
        }
    }
}

/// Climbs from `cursor`, recorded at depth `cd`, until the recorded depth is
/// `depth - 1`; none when a parent is missing on the way.
fn climb(tree: &Tree, cursor: usize, cd: usize, depth: usize) -> (r: Option<(usize, usize)>)
    requires
        tree.wf(),
        cursor < tree@.len(),
        tree@[cursor as int].depth == cd,
    ensures
        r matches Some((c, d)) ==> {
            &&& ascend(tree@, cursor as nat, cd as int, depth - 1) == Some((c as nat, d as int))
            &&& c < tree@.len()
            &&& tree@[c as int].depth == d
            &&& d + 1 == depth
        },
        r is None ==> ascend(tree@, cursor as nat, cd as int, depth - 1) is None,
{
    let mut c = cursor;
    let mut d = cd;
    while !(depth >= 1 && depth - 1 == d)
        invariant
            tree.wf(),
            c < tree@.len(),
            tree@[c as int].depth == d,
            ascend(tree@, cursor as nat, cd as int, depth - 1) == ascend(tree@, c as nat, d as int, depth - 1),
        decreases c,
    {
        match tree.parent(c) {
            Some(p) => {
                proof {
                    lemma_wf_node(tree@, c as int);
                }
                c = p;
                d = d - 1;
            },
            None => {
                proof {
                    lemma_wf_node(tree@, c as int);
                }
                return None;
            },
        }
    }
    Some((c, d))
}

impl TreeBuilder {
    pub closed spec fn wf(&self) -> bool {
        &&& self.tree.wf()
        &&& self.cursor < self.tree@.len()
        &&& self.tree@[self.cursor as int].depth == self.cursor_depth
    }

    /// A builder that holds the root labelled `root_label` as its cursor.
    pub fn new(root_label: String) -> (r: TreeBuilder)
        ensures
            r.wf(),
            r@ == initial_state(root_label@),
    {
        let tree = Tree::with_root(root_label);
        TreeBuilder { tree, cursor: 0, cursor_depth: 0 }
    }

    /// Places one entry at `depth` labelled `label`. Returns false, and
    /// leaves the builder as it was, when the entry cannot be placed.
    pub fn push_entry(&mut self, depth: usize, label: String) -> (r: bool)
        requires
            old(self).wf(),
        ensures
            final(self).wf(),
            match step(old(self)@, depth as nat, label@) {
                Some(s) => r && final(self)@ == s,
                None => !r && final(self)@ == old(self)@,
            },
    {
        let cursor = self.cursor;
        let cd = self.cursor_depth;
        if depth >= 1 && depth - 1 == cd {
            self.tree.attach_node(cursor, label, depth);
            assert(self.tree@[cursor as int].depth == cd);
            true
        } else if depth >= 2 && depth - 2 == cd {
            let ch = self.tree.children(cursor);
            let k = ch.len();
            if k == 0 {
                return false;
            }
            let c = ch[k - 1];
            proof {
                let chv = self.tree@[cursor as int].children;
                assert(chv.last() == c as nat);
                assert(self.tree@[cursor as int].children[chv.len() - 1] == c as nat);
                lemma_wf_child(self.tree@, cursor as int, chv.len() - 1);
                lemma_wf_node(self.tree@, c as int);
            }
            self.tree.attach_node(c, label, depth);
            assert(self.tree@[c as int].depth == depth - 1);
            self.cursor = c;
            self.cursor_depth = depth - 1;
            true
        } else {
            match climb(&self.tree, cursor, cd, depth) {
                Some((c, d)) => {
                    assert(self.tree@[c as int].depth + 1 == depth);
                    self.tree.attach_node(c, label, depth);
                    assert(self.tree@[c as int].depth == d);
                    self.cursor = c;
                    self.cursor_depth = d;
                    true
                },
                None => false,
            }
        }
    }

    /// The tree built so far.
    pub fn finish(self) -> (r: Tree)
        requires
            self.wf(),
        ensures
            r.wf(),
            r@ == self@.nodes,
    {
        self.tree
    }
}

/// Runs a builder rooted at `root_label` over `lines` from index `first` on.
/// On failure, returns the index in `lines` of the entry that could not be
/// placed.
pub fn build_from(lines: &[String], first: usize, root_label: String) -> (r: Result<Tree, usize>)
    requires
        first <= lines@.len(),
    ensures
        match build(root_label@, lines_view(lines@).subrange(first as int, lines@.len() as int)) {
            Ok(s) => r matches Ok(t) && t.wf() && t@ == s.nodes,
            Err(k) => k + first < lines@.len() && r == Err::<Tree, usize>((k + first) as usize),
        },
        r matches Err(i) ==> first <= i < lines@.len(),
{
    let ghost lv = lines_view(lines@);
    let ghost entries = lv.subrange(first as int, lv.len() as int);
    let n = lines.len();
    let mut builder = TreeBuilder::new(root_label);
    let mut i: usize = first;
    assert(entries.subrange(0, 0) =~= Seq::<Seq<char>>::empty());
    while i < n
        invariant
            n == lines@.len(),
            lv == lines_view(lines@),
            entries == lv.subrange(first as int, lv.len() as int),
            first <= i <= n,
            builder.wf(),
            build(root_label@, entries.subrange(0, i - first)) == Ok::<BuildState, nat>(builder@),
        decreases n - i,
    {
        let ghost prefix = entries.subrange(0, i - first);
        let ghost next = entries.subrange(0, i - first + 1);
        assert(next.drop_last() =~= prefix);
        assert(next.last() == lines@[i as int]@);
        let (depth, label) = classify_line(lines[i].as_str());
        if !builder.push_entry(depth, label) {
            proof {
                assert(build(root_label@, next) == Err::<BuildState, nat>((i - first) as nat));
                lemma_build_err_extends(root_label@, entries, i - first + 1);
            }
            return Err(i);
        }
        i = i + 1;
    }
    assert(entries.subrange(0, n - first) =~= entries);
    Ok(builder.finish())
}

/// Reads a whole listing: the header from the first three lines, then each
/// later line as an entry placed by the builder.
pub fn load_tree(lines: &[String]) -> (r: Result<(Tree, TreeInfo), LoadError>)
    ensures
        outcome_of(r) == load_model(lines_view(lines@)),
        r matches Ok((t, _)) ==> t.wf(),
{
    let ghost lv = lines_view(lines@);
    let n = lines.len();
    if n < 3 {
        return Err(LoadError::IoError);
    }
    assert(lv[0] == lines@[0]@ && lv[1] == lines@[1]@ && lv[2] == lines@[2]@);
    let volume_name = match parse_volume_name(lines[0].as_str()) {
        Some(v) => v,
        None => {
            return Err(LoadError::FormatError { line_number: 1 });
        },
    };
    let volume_serial_number = match parse_serial_number(lines[1].as_str()) {
        Some(v) => v,
        None => {
            return Err(LoadError::FormatError { line_number: 2 });
        },
    };
    let volume_tag = lines[2].clone();
    assert(lv.len() == lines@.len());
    assert(text_after(lv[0], name_marker()) == Some(volume_name@));
    assert(text_after(lv[1], serial_marker()) == Some(volume_serial_number@));
    assert(volume_tag@ == lv[2]);
    let ghost built = build(lv[2], lv.subrange(3, lv.len() as int));
    match build_from(lines, 3, lines[2].clone()) {
        Ok(tree) => {
            assert(built is Ok);
            assert(load_model(lv) == LoadOutcome::Built { nodes: tree@, name: volume_name@, serial: volume_serial_number@, tag: volume_tag@ });
            let info = TreeInfo { volume_name, volume_serial_number, volume_tag };
            Ok((tree, info))
        },
        Err(i) => {
            assert(lv[i as int] == lines@[i as int]@);
            assert(built == Err::<BuildState, nat>((i - 3) as nat));
            Err(LoadError::StructuralError { line_number: i + 1, line: lines[i].clone() })
        },
    }
}

} // verus!
