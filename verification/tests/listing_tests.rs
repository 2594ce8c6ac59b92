use tre::file_tree::{FileTree, FileType, TypeSpecficData};
use tre::path_finders::{
    git_candidates, git_listing_args, is_hidden, keep_entry, limit_depth, needs_repo_check,
    should_include, split_lines,
};
use tre::paths::{components, is_absolute, non_cur_dir_components, push_path, ComponentKind};
use tre::text::{compare_names, decimal, NameOrder};

#[test]
fn hidden_names_start_with_a_dot() {
    assert!(is_hidden(".git"));
    assert!(is_hidden("..."));
    assert!(is_hidden(".a"));
    assert!(!is_hidden("."));
    assert!(!is_hidden(".."));
    assert!(!is_hidden("a.b"));
    assert!(!is_hidden(""));
}

#[test]
fn the_root_is_always_included() {
    assert!(should_include(Some(".hidden"), Some(".hidden"), ".hidden"));
    assert!(!should_include(Some("./.git"), Some(".git"), "."));
    assert!(should_include(Some("./src"), Some("src"), "."));
    assert!(should_include(None, None, "."));
    assert!(!should_include(None, Some(".x"), "."));
}

#[test]
fn kept_entries() {
    assert!(!keep_entry("a", ".", false, true));
    assert!(keep_entry("a", ".", true, true));
    assert!(keep_entry("a", ".", false, false));
    assert!(!keep_entry(".", ".", true, false));
}

#[test]
fn repository_check_for_outside_paths() {
    assert!(needs_repo_check("/x"));
    assert!(needs_repo_check("a/.."));
    assert!(needs_repo_check("a..b"));
    assert!(!needs_repo_check("a/./b"));
    assert!(!needs_repo_check(""));
}

#[test]
fn git_arguments() {
    assert_eq!(
        git_listing_args("src", true),
        vec!["ls-tree", "-r", "-d", "--name-only", "HEAD", "src"]
    );
    assert_eq!(
        git_listing_args("src", false),
        vec!["ls-files", "-o", "-c", "--exclude-standard", "src"]
    );
}

#[test]
fn lines_of_a_text() {
    assert_eq!(split_lines("a\nb\n"), vec!["a", "b", ""]);
    assert_eq!(split_lines(""), vec![""]);
    assert_eq!(split_lines("\n\nx"), vec!["", "", "x"]);
}

#[test]
fn depth_limits() {
    assert_eq!(limit_depth("a/b/c", 2), "a/b");
    assert_eq!(limit_depth("a/b", 5), "a/b");
    assert_eq!(limit_depth("/x/y", 1), "/");
    assert_eq!(limit_depth("./a/b", 2), "./a");
    assert_eq!(limit_depth("a/b", 0), "");
}

#[test]
fn git_output_to_candidates() {
    assert_eq!(git_candidates("a/b/c\nd\n", 1), vec!["a", "d", ""]);
    assert_eq!(git_candidates("a/b/c\nd", usize::MAX), vec!["a/b/c", "d"]);
}

#[test]
fn path_components_and_pushing() {
    assert_eq!(
        components("./a/../b"),
        vec![
            (ComponentKind::CurDir, ".".to_string()),
            (ComponentKind::Normal, "a".to_string()),
            (ComponentKind::ParentDir, "..".to_string()),
            (ComponentKind::Normal, "b".to_string()),
        ]
    );
    assert_eq!(
        components("/r"),
        vec![
            (ComponentKind::RootDir, "/".to_string()),
            (ComponentKind::Normal, "r".to_string()),
        ]
    );
    assert_eq!(non_cur_dir_components("./a/./b"), vec!["a", "b"]);
    assert_eq!(push_path("a", "b"), "a/b");
    assert_eq!(push_path("a", "/b"), "/b");
    assert_eq!(push_path("", "."), ".");
    assert!(is_absolute("/x"));
    assert!(!is_absolute("x/y"));
}

#[test]
fn names_and_numbers() {
    assert_eq!(compare_names("a", "b"), NameOrder::Before);
    assert_eq!(compare_names("ab", "a"), NameOrder::After);
    assert_eq!(compare_names("B", "a"), NameOrder::Before);
    assert_eq!(compare_names("same", "same"), NameOrder::Same);
    assert_eq!(decimal(0), "0");
    assert_eq!(decimal(7), "7");
    assert_eq!(decimal(105), "105");
    assert_eq!(decimal(4096), "4096");
}

#[test]
fn kinds_from_metadata_flags() {
    assert_eq!(FileType::new(true, false), FileType::Directory);
    assert_eq!(FileType::new(true, true), FileType::Directory);
    assert_eq!(FileType::new(false, true), FileType::Link);
    assert_eq!(FileType::new(false, false), FileType::File);
}

#[test]
fn parents_and_links_in_a_tree() {
    let tree = FileTree::new(
        ".",
        vec![
            ("d/l".to_string(), FileType::Link, Some("../t".to_string())),
            ("d/f".to_string(), FileType::File, None),
        ],
    )
    .unwrap();
    let root = tree.get_root();
    assert!(tree.get_parent(root).is_none());
    assert_eq!(root.children_count(), 1);
    let d_id = *root.children().unwrap().get("d").unwrap();
    let d = tree.get(d_id);
    assert_eq!(tree.get_parent(d).unwrap().id, tree.root_id);
    assert_eq!(d.children_count(), 2);
    let names: Vec<&String> = d.children().unwrap().keys().collect();
    assert_eq!(names, vec!["l", "f"]);
    let l = tree.get(*d.children().unwrap().get("l").unwrap());
    assert_eq!(l.file_type, FileType::Link);
    assert_eq!(l.link(), Some("../t".to_string()));
    assert!(matches!(l.data, TypeSpecficData::Link(_)));
    assert!(!l.is_file() && !l.is_dir());
    assert_eq!(tree.get_parent(l).unwrap().id, d_id);
    assert!(d.link().is_none());
    assert!(l.children().is_none());
    assert_eq!(l.children_count(), 0);
}

#[test]
fn a_repeated_entry_replaces_the_first() {
    let tree = FileTree::new(
        ".",
        vec![
            ("a".to_string(), FileType::File, None),
            ("a".to_string(), FileType::Directory, None),
        ],
    )
    .unwrap();
    let root = tree.get_root();
    assert_eq!(root.children_count(), 1);
    let a = tree.get(*root.children().unwrap().get("a").unwrap());
    assert!(a.is_dir());
}

#[test]
fn entries_at_or_above_the_root_are_skipped() {
    let tree = FileTree::new(
        "b",
        vec![
            ("b".to_string(), FileType::Directory, None),
            ("b/e".to_string(), FileType::File, None),
        ],
    )
    .unwrap();
    let root = tree.get_root();
    assert_eq!(root.children_count(), 1);
    assert!(root.children().unwrap().get("e").is_some());
}

#[test]
fn metadata_of_a_mixed_tree() {
    let mut tree = FileTree::new(
        ".",
        vec![
            ("top.txt".to_string(), FileType::File, None),
            ("small/x".to_string(), FileType::File, None),
            ("big/f1".to_string(), FileType::File, None),
            ("big/f2".to_string(), FileType::File, None),
            ("l".to_string(), FileType::Link, Some("top.txt".to_string())),
        ],
    )
    .unwrap();
    tree.compute_metadata();
    let root = tree.get_root();
    assert_eq!(root.total_descendants, 7);
    assert_eq!(root.child_dir_count, 2);
    assert_eq!(root.child_file_count, 2);
    assert!(!root.is_skinny());
    let small = tree.get(*root.children().unwrap().get("small").unwrap());
    assert_eq!(small.total_descendants, 1);
    assert_eq!(small.child_file_count, 1);
    assert!(!small.is_skinny());
}

#[test]
fn shared_directories_are_stored_once() {
    let tree = FileTree::new(
        ".",
        vec![
            ("b/c/d".to_string(), FileType::File, None),
            ("b/e".to_string(), FileType::File, None),
        ],
    )
    .unwrap();
    assert_eq!(tree.storage.len(), 5);
    let root = tree.get_root();
    let keys: Vec<&String> = root.children().unwrap().keys().collect();
    assert_eq!(keys, vec!["b"]);
    let b = tree.get(*root.children().unwrap().get("b").unwrap());
    let keys: Vec<&String> = b.children().unwrap().keys().collect();
    assert_eq!(keys, vec!["c", "e"]);
    for (_, node) in tree.storage.iter() {
        assert_eq!(node.total_descendants, 0);
        assert_eq!(node.child_dir_count, 0);
        assert_eq!(node.child_file_count, 0);
    }
}

#[test]
fn a_path_below_a_file_is_stored_but_not_reached() {
    let mut tree = FileTree::new(
        ".",
        vec![
            ("a".to_string(), FileType::File, None),
            ("a/b".to_string(), FileType::File, None),
        ],
    )
    .unwrap();
    assert_eq!(tree.storage.len(), 3);
    tree.compute_metadata();
    let root = tree.get_root();
    assert_eq!(root.total_descendants, 1);
    assert_eq!(root.children_count(), 1);
    for (id, node) in tree.storage.iter() {
        if id != tree.root_id {
            assert_eq!(node.total_descendants, 0);
        }
    }
    tree.compute_metadata();
    assert_eq!(tree.get_root().total_descendants, 1);
}
