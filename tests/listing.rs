use tree_viewer::builder::{load_tree, LoadError, TreeBuilder};
use tree_viewer::classify::classify_line;
use tree_viewer::header::{parse_serial_number, parse_volume_name};
use tree_viewer::outline::{outline_text, visible_outline};
use tree_viewer::tree::{Tree, TreeNode};
use tree_viewer::viewer::{App, DisplayFlags};

fn lines(text: &[&str]) -> Vec<String> {
    text.iter().map(|s| s.to_string()).collect()
}

fn example() -> Vec<String> {
    lines(&[
        "Folder PATH listing for volume X",
        "Volume serial number is 1234-ABCD",
        "X:\\",
        "+---folder1",
        "|   \\---folder1a",
        "+---folder2",
        "|   \\---folder2a",
        "+---folder3",
        "+---folder4",
        "|   +---folder4a",
        "|   |   +---folder4aa",
    ])
}

fn label(t: &Tree, i: usize) -> String {
    t.node(i).value.clone().unwrap()
}

fn child_labels(t: &Tree, i: usize) -> Vec<String> {
    t.children(i).iter().map(|&c| label(t, c)).collect()
}

#[test]
fn end_to_end_example() {
    let (t, info) = load_tree(&example()).ok().unwrap();
    assert_eq!(info.volume_name, "X");
    assert_eq!(info.volume_serial_number, "1234-ABCD");
    assert_eq!(info.volume_tag, "X:\\");
    assert_eq!(t.node_count(), 9);
    assert_eq!(label(&t, 0), "X:\\");
    assert_eq!(t.node(0).depth, 0);
    assert_eq!(t.parent(0), None);
    assert_eq!(child_labels(&t, 0), vec!["folder1", "folder2", "folder3", "folder4"]);
    let top = t.children(0).clone();
    assert_eq!(child_labels(&t, top[0]), vec!["folder1a"]);
    assert_eq!(child_labels(&t, top[1]), vec!["folder2a"]);
    assert!(child_labels(&t, top[2]).is_empty());
    assert_eq!(child_labels(&t, top[3]), vec!["folder4a"]);
    let f4a = t.children(top[3])[0];
    assert_eq!(child_labels(&t, f4a), vec!["folder4aa"]);
    let f4aa = t.children(f4a)[0];
    assert_eq!(t.node(f4aa).depth, 3);
    assert_eq!(t.node(f4a).depth, 2);
    for &c in &top {
        assert_eq!(t.node(c).depth, 1);
        assert_eq!(t.parent(c), Some(0));
    }
}

#[test]
fn depth_is_parent_depth_plus_one() {
    let (t, _) = load_tree(&example()).ok().unwrap();
    for i in 1..t.node_count() {
        let p = t.parent(i).unwrap();
        assert!(p < i);
        assert_eq!(t.node(i).depth, t.node(p).depth + 1);
    }
}

#[test]
fn children_follow_input_order() {
    let input = lines(&[
        "Folder PATH listing for volume D",
        "Volume serial number is 0000-0001",
        "D:\\",
        "+---zeta",
        "+---alpha",
        "\\---mid",
    ]);
    let (t, _) = load_tree(&input).ok().unwrap();
    assert_eq!(child_labels(&t, 0), vec!["zeta", "alpha", "mid"]);
}

#[test]
fn loading_twice_gives_the_same_tree() {
    let (a, ia) = load_tree(&example()).ok().unwrap();
    let (b, ib) = load_tree(&example()).ok().unwrap();
    assert_eq!(a.node_count(), b.node_count());
    for i in 0..a.node_count() {
        assert_eq!(a.node(i).value, b.node(i).value);
        assert_eq!(a.node(i).depth, b.node(i).depth);
        assert_eq!(a.node(i).parent, b.node(i).parent);
        assert_eq!(a.node(i).children, b.node(i).children);
    }
    assert_eq!(ia.volume_serial_number, ib.volume_serial_number);
}

#[test]
fn deep_first_entry_fails_on_line_four() {
    let input = lines(&[
        "Folder PATH listing for volume X",
        "Volume serial number is 1234-ABCD",
        "X:\\",
        "|   \\---folder1a",
        "+---folder2",
    ]);
    match load_tree(&input) {
        Err(LoadError::StructuralError { line_number, line }) => {
            assert_eq!(line_number, 4);
            assert_eq!(line, "|   \\---folder1a");
        }
        _ => panic!("expected a structural error"),
    }
}

#[test]
fn first_entry_three_deep_fails_on_line_four() {
    let input = lines(&[
        "Folder PATH listing for volume X",
        "Volume serial number is 1234-ABCD",
        "X:\\",
        "|   |   +---deep",
    ]);
    assert!(matches!(
        load_tree(&input),
        Err(LoadError::StructuralError { line_number: 4, .. })
    ));
}

#[test]
fn missing_serial_marker_is_format_error() {
    let input = lines(&[
        "Folder PATH listing for volume X",
        "Serial: 1234-ABCD",
        "X:\\",
        "+---folder1",
    ]);
    assert!(matches!(load_tree(&input), Err(LoadError::FormatError { line_number: 2 })));
}

#[test]
fn missing_name_marker_is_format_error() {
    let input = lines(&["Listing of X", "Volume serial number is 1", "X:\\"]);
    assert!(matches!(load_tree(&input), Err(LoadError::FormatError { line_number: 1 })));
}

#[test]
fn short_input_is_io_error() {
    let input = lines(&["Folder PATH listing for volume X", "Volume serial number is 1"]);
    assert!(matches!(load_tree(&input), Err(LoadError::IoError)));
    assert!(matches!(load_tree(&[]), Err(LoadError::IoError)));
}

#[test]
fn header_only_gives_root_without_children() {
    let input = lines(&[
        "Folder PATH listing for volume X",
        "Volume serial number is 1234-ABCD",
        "X:\\",
    ]);
    let (t, info) = load_tree(&input).ok().unwrap();
    assert_eq!(t.node_count(), 1);
    assert_eq!(label(&t, 0), "X:\\");
    assert_eq!(t.node(0).len(), 0);
    assert_eq!(info.volume_tag, "X:\\");
}

#[test]
fn entry_without_indentation_is_structural_error() {
    let input = lines(&[
        "Folder PATH listing for volume X",
        "Volume serial number is 1234-ABCD",
        "X:\\",
        "+---a",
        "loose",
    ]);
    match load_tree(&input) {
        Err(LoadError::StructuralError { line_number, line }) => {
            assert_eq!(line_number, 5);
            assert_eq!(line, "loose");
        }
        _ => panic!("expected a structural error"),
    }
}

#[test]
fn jump_of_three_levels_is_structural_error() {
    let input = lines(&[
        "Folder PATH listing for volume X",
        "Volume serial number is 1234-ABCD",
        "X:\\",
        "+---a",
        "|   |   |   +---far",
    ]);
    assert!(matches!(
        load_tree(&input),
        Err(LoadError::StructuralError { line_number: 5, .. })
    ));
}

#[test]
fn return_to_shallower_ancestor() {
    let input = lines(&[
        "Folder PATH listing for volume X",
        "Volume serial number is 1",
        "X:\\",
        "+---a",
        "|   +---b",
        "|   |   \\---c",
        "|   |       \\---d",
        "\\---e",
    ]);
    let (t, _) = load_tree(&input).ok().unwrap();
    assert_eq!(child_labels(&t, 0), vec!["a", "e"]);
    let d = 4;
    assert_eq!(label(&t, d), "d");
    assert_eq!(t.node(d).depth, 4);
    assert_eq!(label(&t, t.parent(d).unwrap()), "c");
}

#[test]
fn classify_counts_tokens() {
    assert_eq!(classify_line("+---folder1"), (1, "folder1".to_string()));
    assert_eq!(classify_line("|   \\---folder1a"), (2, "folder1a".to_string()));
    assert_eq!(classify_line("|   |       +---x y"), (4, "x y".to_string()));
    assert_eq!(classify_line("plain"), (0, "plain".to_string()));
    assert_eq!(classify_line(""), (0, String::new()));
    assert_eq!(classify_line("+--"), (0, "+--".to_string()));
}

#[test]
fn classify_consumes_token_like_label_text() {
    assert_eq!(classify_line("+---    name"), (2, "name".to_string()));
    assert_eq!(classify_line("+---+---x"), (2, "x".to_string()));
}

#[test]
fn classify_handles_wide_characters() {
    assert_eq!(classify_line("+---é日本"), (1, "é日本".to_string()));
}

#[test]
fn header_markers() {
    assert_eq!(parse_volume_name("Folder PATH listing for volume Data"), Some("Data".to_string()));
    assert_eq!(parse_volume_name("xx Folder PATH listing for volume A B"), Some("A B".to_string()));
    assert_eq!(parse_volume_name("Folder listing"), None);
    assert_eq!(parse_serial_number("Volume serial number is 9C3F-1A2B"), Some("9C3F-1A2B".to_string()));
    assert_eq!(parse_serial_number("Volume serial number is "), Some(String::new()));
    assert_eq!(parse_serial_number("serial"), None);
}

#[test]
fn get_child_finds_first_by_label() {
    let (t, _) = load_tree(&example()).ok().unwrap();
    let f4 = t.get_child(0, &"folder4".to_string()).unwrap();
    assert_eq!(label(&t, f4), "folder4");
    assert!(t.get_child(0, &"folder4a".to_string()).is_none());
    let f4a = t.get_child(f4, &"folder4a".to_string()).unwrap();
    assert_eq!(t.node(f4a).depth, 2);
}

#[test]
fn builder_steps() {
    let mut b = TreeBuilder::new("R".to_string());
    assert!(!b.push_entry(2, "x".to_string()));
    assert!(b.push_entry(1, "a".to_string()));
    assert!(b.push_entry(2, "b".to_string()));
    assert!(b.push_entry(1, "c".to_string()));
    assert!(!b.push_entry(0, "z".to_string()));
    let t = b.finish();
    assert_eq!(t.node_count(), 4);
    assert_eq!(child_labels(&t, 0), vec!["a", "c"]);
    assert_eq!(child_labels(&t, 1), vec!["b"]);
}

#[test]
fn tree_node_basics() {
    let mut n = TreeNode::new(Some("n".to_string()), 3);
    assert_eq!(n.len(), 0);
    assert_eq!(n.parent, None);
    n.add_child(7);
    n.add_child(9);
    assert_eq!(n.len(), 2);
    assert_eq!(n.children, vec![7, 9]);
    assert_eq!(n.depth, 3);
}

#[test]
fn app_starts_collapsed() {
    let (t, info) = load_tree(&example()).ok().unwrap();
    let mut app = App::new(t, info);
    assert_eq!(app.flags.len(), 9);
    assert!((0..9).all(|i| !app.flags.is_visible(i)));
    app.flags.toggle(3);
    assert!(app.flags.is_visible(3));
    app.flags.set_visible(3, false);
    assert!(!app.flags.is_visible(3));
    assert_eq!(app.tree_info.volume_name, "X");
}

#[test]
fn display_flags_toggle_twice() {
    let mut f = DisplayFlags::new(2);
    f.toggle(1);
    f.toggle(1);
    assert!(!f.is_visible(1));
    assert!(!f.is_visible(0));
}

#[test]
fn outline_follows_display_flags() {
    let (t, info) = load_tree(&example()).ok().unwrap();
    let mut app = App::new(t, info);
    assert_eq!(visible_outline(&app.tree, &app.flags), vec![0]);
    app.flags.toggle(0);
    assert_eq!(visible_outline(&app.tree, &app.flags), vec![0, 1, 3, 5, 6]);
    app.flags.toggle(6);
    assert_eq!(visible_outline(&app.tree, &app.flags), vec![0, 1, 3, 5, 6, 7]);
    app.flags.toggle(7);
    assert_eq!(visible_outline(&app.tree, &app.flags), vec![0, 1, 3, 5, 6, 7, 8]);
    app.flags.toggle(0);
    assert_eq!(visible_outline(&app.tree, &app.flags), vec![0]);
}

#[test]
fn outline_fully_expanded_is_depth_first() {
    let (t, _) = load_tree(&example()).ok().unwrap();
    let all = DisplayFlags::filled(t.node_count(), true);
    assert_eq!(visible_outline(&t, &all), vec![0, 1, 2, 3, 4, 5, 6, 7, 8]);
}

#[test]
fn outline_text_of_example() {
    let (t, _) = load_tree(&example()).ok().unwrap();
    let expected = "+ X:\\\n+-- folder1\n+---- folder1a\n+-- folder2\n+---- folder2a\n+-- folder3\n+-- folder4\n+---- folder4a\n+------ folder4aa\n";
    assert_eq!(outline_text(&t), expected);
}

#[test]
fn outline_text_of_bare_root() {
    let input = lines(&[
        "Folder PATH listing for volume V",
        "Volume serial number is 1",
        "V:\\",
    ]);
    let (t, _) = load_tree(&input).ok().unwrap();
    assert_eq!(outline_text(&t), "+ V:\\\n");
}
