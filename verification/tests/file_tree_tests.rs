use std::path::Path;
use tre::file_tree::{FileTree, FileType, TypeSpecficData};

#[test]
fn tree_construction() {
    let tree = FileTree::new(
        ".",
        vec![
            ("a".to_string(), FileType::File, None),
            ("b/c/d".to_string(), FileType::File, None),
        ],
    )
    .unwrap();

    let root = tree.get(tree.root_id);
    assert!(root.is_dir());
    if let TypeSpecficData::Directory(root_chilren) = &root.data {
        assert_eq!(root_chilren.len(), 2);
        let a_id = root_chilren.get("a").expect("a exists");
        let a = tree.get(*a_id);
        assert!(a.is_file());
        assert_eq!(Path::new(&a.path), Path::new("a"));
        let b_id = root_chilren.get("b").expect("b exists");
        let b = tree.get(*b_id);
        assert!(b.is_dir());
        assert_eq!(Path::new(&b.path), Path::new("./b"));
        if let TypeSpecficData::Directory(b_children) = &b.data {
            assert_eq!(b_children.len(), 1);
            let c_id = b_children.get("c").expect("c exists");
            let c = tree.get(*c_id);
            assert!(c.is_dir());
            assert_eq!(Path::new(&c.path), Path::new("./b/c"));
            if let TypeSpecficData::Directory(c_children) = &c.data {
                assert_eq!(c_children.len(), 1);
                let d_id = c_children.get("d").expect("d exists");
                let d = tree.get(*d_id);
                assert!(d.is_file());
                assert_eq!(Path::new(&d.path), Path::new("b/c/d"));
            }
        }
    }
}

#[test]
fn tree_construction_with_root_dir() {
    let tree = FileTree::new(
        "b",
        vec![
            ("b/e".to_string(), FileType::File, None),
            ("b/c/d".to_string(), FileType::File, None),
        ],
    )
    .unwrap();

    let root = tree.get(tree.root_id);
    assert!(root.is_dir());
    assert_eq!(Path::new(&root.path), Path::new("b"));
    if let TypeSpecficData::Directory(b_children) = &root.data {
        assert_eq!(b_children.len(), 2);
        let c_id = b_children.get("c").expect("c exists");
        let c = tree.get(*c_id);
        assert!(c.is_dir());
        let e_id = b_children.get("e").expect("e exists");
        let e = tree.get(*e_id);
        assert!(e.is_file());
        assert_eq!(Path::new(&c.path), Path::new("b/c"));
        if let TypeSpecficData::Directory(c_children) = &c.data {
            assert_eq!(c_children.len(), 1);
            let d_id = c_children.get("d").expect("d exists");
            let d = tree.get(*d_id);
            assert!(d.is_file());
            assert_eq!(Path::new(&d.path), Path::new("b/c/d"));
        }
    }
}

#[test]
fn metadata_computation() {
    let mut tree = FileTree::new(
        ".",
        vec![
            ("a".to_string(), FileType::File, None),
            ("b/c/d".to_string(), FileType::File, None),
        ],
    )
    .unwrap();

    tree.compute_metadata();

    let root = tree.get(tree.root_id);
    assert_eq!(root.total_descendants, 4);
    assert_eq!(root.child_dir_count, 1);
    assert_eq!(root.child_file_count, 1);
    assert!(!root.is_skinny());

    if let TypeSpecficData::Directory(children) = &root.data {
        let b_id = children.get("b").unwrap();
        let b = tree.get(*b_id);
        assert_eq!(b.total_descendants, 2);
        assert_eq!(b.child_dir_count, 1);
        assert_eq!(b.child_file_count, 0);
        assert!(b.is_skinny());

        if let TypeSpecficData::Directory(b_children) = &b.data {
            let c_id = b_children.get("c").unwrap();
            let c = tree.get(*c_id);
            assert_eq!(c.total_descendants, 1);
            assert_eq!(c.child_dir_count, 0);
            assert_eq!(c.child_file_count, 1);
            assert!(!c.is_skinny());

            if let TypeSpecficData::Directory(c_children) = &c.data {
                let d_id = c_children.get("d").unwrap();
                let d = tree.get(*d_id);
                assert_eq!(d.total_descendants, 0);
                assert_eq!(d.child_dir_count, 0);
                assert_eq!(d.child_file_count, 0);
            }
        }

        let a_id = children.get("a").unwrap();
        let a = tree.get(*a_id);
        assert_eq!(a.total_descendants, 0);
        assert_eq!(a.child_dir_count, 0);
        assert_eq!(a.child_file_count, 0);
    }
}

#[test]
fn metadata_skinny_path() {
    let mut tree = FileTree::new(
        ".",
        vec![("src/main/java/com/App.java".to_string(), FileType::File, None)],
    )
    .unwrap();

    tree.compute_metadata();

    let root = tree.get(tree.root_id);
    assert_eq!(root.total_descendants, 5);
    assert!(root.is_skinny());

    if let TypeSpecficData::Directory(children) = &root.data {
        let src = tree.get(*children.get("src").unwrap());
        assert!(src.is_skinny());
        assert_eq!(src.total_descendants, 4);

        if let TypeSpecficData::Directory(src_children) = &src.data {
            let main = tree.get(*src_children.get("main").unwrap());
            assert!(main.is_skinny());
            assert_eq!(main.total_descendants, 3);

            if let TypeSpecficData::Directory(main_children) = &main.data {
                let java = tree.get(*main_children.get("java").unwrap());
                assert!(java.is_skinny());
                assert_eq!(java.total_descendants, 2);

                if let TypeSpecficData::Directory(java_children) = &java.data {
                    let com = tree.get(*java_children.get("com").unwrap());
                    assert!(!com.is_skinny());
                    assert_eq!(com.total_descendants, 1);
                    assert_eq!(com.child_file_count, 1);
                }
            }
        }
    }
}
