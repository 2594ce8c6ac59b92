use tre::diagram_formatting::{format_paths, format_tree, format_tree_smart_lines, FormattedEntry};
use tre::file_tree::{FileTree, FileType};

fn file(path: &str) -> (String, FileType, Option<String>) {
    (path.to_string(), FileType::File, None)
}

/// A tree whose entries come in an order unlike the order of their scores:
/// `top.txt` (a file), `small/` (one file) and `big/` (three files).
fn mixed_tree() -> FileTree {
    let mut tree = FileTree::new(
        ".",
        vec![
            file("top.txt"),
            file("small/x"),
            file("big/f1"),
            file("big/f2"),
            file("big/f3"),
        ],
    )
    .unwrap();
    tree.compute_metadata();
    tree
}

fn lines(entries: &[FormattedEntry]) -> Vec<String> {
    entries.iter().map(|e| format!("{}{}", e.prefix, e.name)).collect()
}

#[test]
fn plain_drawing_lists_every_node_in_insertion_order() {
    let tree = mixed_tree();
    let drawn = format_tree(&tree);
    assert_eq!(
        lines(&drawn),
        vec![
            ".",
            "├── top.txt",
            "├── small",
            "│   └── x",
            "└── big",
            "    ├── f1",
            "    ├── f2",
            "    └── f3",
        ]
    );
    // One line per node.
    assert_eq!(drawn.len(), 8);
    assert_eq!(drawn[2].path, "./small");
    assert_eq!(drawn[3].path, "small/x");
}

#[test]
fn prefix_width_is_four_per_level() {
    let tree = mixed_tree();
    let drawn = format_tree(&tree);
    let depths = [0, 1, 1, 2, 1, 2, 2, 2];
    for (entry, depth) in drawn.iter().zip(depths.iter()) {
        assert_eq!(entry.prefix.chars().count(), 4 * depth);
    }
}

#[test]
fn smart_lines_with_room_for_everything_draws_everything_by_score() {
    let tree = mixed_tree();
    let drawn = format_tree_smart_lines(&tree, 100);
    assert_eq!(
        lines(&drawn),
        vec![
            ".",
            "├── big",
            "│   ├── f1",
            "│   ├── f2",
            "│   └── f3",
            "├── small",
            "│   └── x",
            "└── top.txt",
        ]
    );
}

#[test]
fn smart_lines_exactly_the_size_of_the_tree() {
    let tree = mixed_tree();
    assert_eq!(format_tree_smart_lines(&tree, 8).len(), 8);
}

#[test]
fn smart_lines_keep_a_line_for_every_later_sibling() {
    let tree = mixed_tree();
    let drawn = format_tree_smart_lines(&tree, 6);
    assert_eq!(
        lines(&drawn),
        vec![
            ". … (2 entries)",
            "├── big … (1 entries)",
            "│   ├── f1",
            "│   └── f2",
            "├── small … (1 entries)",
            "└── top.txt",
        ]
    );
    assert_eq!(drawn[2].path, "big/f1");
}

#[test]
fn smart_lines_counts_what_it_leaves_out() {
    let tree = mixed_tree();
    let drawn = format_tree_smart_lines(&tree, 4);
    assert_eq!(
        lines(&drawn),
        vec![
            ". … (4 entries)",
            "├── big … (3 entries)",
            "├── small … (1 entries)",
            "└── top.txt",
        ]
    );
    assert_eq!(drawn[1].path, "./big");
    assert_eq!(drawn[2].path, "./small");
}

#[test]
fn smart_lines_show_every_top_level_directory() {
    let mut tree = FileTree::new(
        ".",
        vec![
            file("x/1"),
            file("x/2"),
            file("x/3"),
            file("x/4"),
            file("x/5"),
            file("y/z"),
        ],
    )
    .unwrap();
    tree.compute_metadata();
    let drawn = format_tree_smart_lines(&tree, 3);
    assert_eq!(
        lines(&drawn),
        vec![". … (6 entries)", "├── x … (5 entries)", "└── y … (1 entries)"]
    );
}

#[test]
fn smart_lines_never_exceed_the_budget() {
    let tree = mixed_tree();
    for max in 0..12 {
        let drawn = format_tree_smart_lines(&tree, max);
        assert!(drawn.len() <= max);
        if max >= 1 {
            assert!(!drawn.is_empty());
        }
    }
}

#[test]
fn smart_lines_with_no_budget_draws_nothing() {
    let tree = mixed_tree();
    assert!(format_tree_smart_lines(&tree, 0).is_empty());
}

#[test]
fn smart_lines_with_one_line_shows_the_root_and_its_count() {
    let names: Vec<String> = (0..12).map(|i| format!("f{:02}", i)).collect();
    let mut tree = FileTree::new(".", names.iter().map(|n| file(n)).collect()).unwrap();
    tree.compute_metadata();
    let drawn = format_tree_smart_lines(&tree, 1);
    assert_eq!(lines(&drawn), vec![". … (12 entries)"]);
    assert_eq!(drawn[0].path, ".");
}

#[test]
fn smart_lines_put_a_skinny_chain_on_one_line_below_the_root() {
    let mut tree = FileTree::new(".", vec![file("src/main/java/com/App.java")]).unwrap();
    tree.compute_metadata();
    let drawn = format_tree_smart_lines(&tree, 10);
    assert_eq!(
        lines(&drawn),
        vec![".", "└── src/main/java/com/", "    └── App.java"]
    );
    assert_eq!(drawn[0].path, ".");
    assert_eq!(drawn[1].path, "./src/main/java/com");
    assert_eq!(drawn[2].path, "src/main/java/com/App.java");

    let two = format_tree_smart_lines(&tree, 2);
    assert_eq!(
        lines(&two),
        vec![". … (1 entries)", "└── src/main/java/com/ … (1 entries)"]
    );

    let short = format_tree_smart_lines(&tree, 1);
    assert_eq!(lines(&short), vec![". … (5 entries)"]);
}

#[test]
fn smart_lines_keep_an_empty_directory_as_it_is() {
    let mut tree = FileTree::new(
        ".",
        vec![("empty".to_string(), FileType::Directory, None), file("b")],
    )
    .unwrap();
    tree.compute_metadata();
    let drawn = format_tree_smart_lines(&tree, 1);
    assert_eq!(lines(&drawn), vec![". … (2 entries)"]);
    let all = format_tree_smart_lines(&tree, 5);
    assert_eq!(lines(&all), vec![".", "├── empty", "└── b"]);
}

#[test]
fn links_are_drawn_with_their_targets() {
    let drawn = format_paths(
        ".",
        vec![
            ("l".to_string(), FileType::Link, Some("target/file".to_string())),
            file("a"),
        ],
    );
    assert_eq!(drawn.len(), 3);
    assert_eq!(drawn[1].name, "l");
    assert_eq!(drawn[1].link, Some("target/file".to_string()));
    assert_eq!(drawn[2].name, "a");
    assert_eq!(drawn[2].link, None);
}

#[test]
fn format_paths_of_nothing_draws_the_root() {
    let drawn = format_paths("some/dir", vec![]);
    assert_eq!(
        drawn,
        vec![FormattedEntry {
            name: "some/dir".to_string(),
            path: "some/dir".to_string(),
            prefix: String::new(),
            link: None,
        }]
    );
}

#[test]
fn readiness_for_smart_lines_follows_the_metadata() {
    let mut tree = FileTree::new(".", vec![file("a"), file("d/b")]).unwrap();
    assert!(!tree.is_ready_for_smart_lines());
    tree.compute_metadata();
    assert!(tree.is_ready_for_smart_lines());
    let bare = FileTree::new(".", vec![]).unwrap();
    assert!(bare.is_ready_for_smart_lines());
}
