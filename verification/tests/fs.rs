use objectfs::adapters::MockClient;
use objectfs::fs::ObjectFS;
use objectfs::model::{FSNode, FSObject, FileAttr, FileType};

fn mk_attr(ino: u64, kind: FileType, parent_time: u64) -> FileAttr {
    FileAttr {
        ino,
        size: 0,
        blksize: 0,
        blocks: 0,
        atime: parent_time,
        mtime: parent_time,
        ctime: parent_time,
        crtime: parent_time,
        kind,
        perm: 0o755,
        nlink: 1,
        uid: 0,
        gid: 0,
        rdev: 0,
        flags: 0,
    }
}

#[test]
fn test_next_ino() {
    let client = MockClient {};
    let mut fs = ObjectFS::new(client, "dummy-bucket", 0);

    let cases = vec![2, 3];

    for expected in cases {
        let result = fs.next_ino();
        assert_eq!(result, expected);
    }
}

#[test]
fn test_index_object() {
    let client = MockClient {};
    let mut fs = ObjectFS::new(client, "dummy-bucket", 0);

    let cases = vec![
        ("file", 10, 1000u64, 2),
        ("folder/file", 5, 1001, 4),
        ("folder/subfolder/file", 5, 1002, 6),
    ];

    for (key, size, modified_time, expected_count) in cases {
        fs.index_object(
            &FSObject {
                key: key.to_string(),
                size,
                modified_time,
            },
            2000,
        );

        assert_eq!(
            fs.nodes.len(),
            expected_count,
            "failed ino index count for case: {}",
            key
        );
    }
}

#[test]
fn test_index_file() {
    let cases = vec![
        ("/file", 10, 1000u64, 1),
        ("folder/file", 0, 1001, 5),
        ("folder/subfolder/file", 0, 0, 7),
    ];

    for (key, size, modified_time, parent) in cases {
        let mut fs = ObjectFS::new(MockClient {}, "dummy-bucket", 0);

        let node = fs.index_file(
            &FSObject {
                key: key.to_string(),
                size,
                modified_time,
            },
            parent,
            2000,
        );

        let result = fs.get(2).unwrap();

        assert_eq!(node.attr.ino, 2, "failed on `ino` for case: {}", key);
        assert_eq!(result.attr.ino, 2, "failed on `attr.ino` for case: {}", key);
        assert_eq!(result.parent, parent, "failed on `parent` for case: {}", key);
        assert_eq!(result.key, key, "failed on `key` for case: {}", key);
        assert_eq!(
            result.attr.size, size as u64,
            "failed on `attr.size` for case: {}",
            key
        );
        assert_eq!(
            result.attr.atime, modified_time,
            "failed on `attr.atime` for case: {}",
            key
        );
    }
}

#[test]
fn test_index_directory() {
    let cases = vec![
        ("folder", "folder", 0u64, 1),
        ("folder/", "folder", 1000, 5),
        ("folder/subfolder/", "folder/subfolder", 0, 7),
    ];

    for (key, expected_key, modified_time, parent) in cases {
        let mut fs = ObjectFS::new(MockClient {}, "dummy-bucket", 0);

        let node = fs.index_directory(
            &FSObject {
                key: key.to_string(),
                size: 0,
                modified_time,
            },
            parent,
            2000,
        );

        let result = fs.get(2).unwrap();

        assert_eq!(node.attr.ino, 2, "failed on `ino` for case: {}", key);
        assert_eq!(result.attr.ino, 2, "failed on `attr.ino` for case: {}", key);
        assert_eq!(result.parent, parent, "failed on `parent` for case: {}", key);
        assert_eq!(result.key, expected_key, "failed on `key` for case: {}", key);
        assert_eq!(
            result.attr.atime, modified_time,
            "failed on `attr.atime` for case: {}",
            key
        );
    }
}

#[test]
fn test_get_children() {
    let client = MockClient {};
    let mut fs = ObjectFS::new(client, "dummy-bucket", 0);

    assert_eq!(fs.get_children(1).len(), 0);

    fs.insert(FSNode {
        attr: mk_attr(2, FileType::Directory, 0),
        key: "".to_string(),
        name: "".to_string(),
        parent: 1,
    });
    fs.insert(FSNode {
        attr: mk_attr(3, FileType::Directory, 0),
        key: "".to_string(),
        name: "".to_string(),
        parent: 1,
    });
    fs.insert(FSNode {
        attr: mk_attr(4, FileType::Directory, 0),
        key: "".to_string(),
        name: "".to_string(),
        parent: 2,
    });

    assert_eq!(fs.get_children(1).len(), 2);
}

#[test]
fn test_get_parent() {
    let client = MockClient {};
    let fs = ObjectFS::new(client, "dummy-bucket", 0);

    let cases = vec![
        ("folder/file", Some("folder".to_string())),
        (
            "folder/subfolder/file",
            Some("folder/subfolder".to_string()),
        ),
        ("file", None),
        ("folder/", None),
    ];

    for (input, expected) in cases {
        let result = fs.get_parent(input);
        assert_eq!(result, expected, "failed for case: {}", input);
    }
}

#[test]
fn test_get_name() {
    let client = MockClient {};
    let fs = ObjectFS::new(client, "dummy-bucket", 0);

    let cases = vec![
        ("file1", "file1"),
        ("folder1/file1", "file1"),
        ("folder1/folder2/file1", "file1"),
    ];

    for (input, expected) in cases {
        assert_eq!(fs.get_name(input), expected, "failed for case: {}", input);
    }
}

#[test]
fn test_key_exists() {
    let client = MockClient {};
    let mut fs = ObjectFS::new(client, "dummy-bucket", 0);

    fs.insert(FSNode {
        attr: mk_attr(2, FileType::Directory, 0),
        key: "file2".to_string(),
        name: "file2".to_string(),
        parent: 1,
    });
    fs.insert(FSNode {
        attr: mk_attr(3, FileType::Directory, 0),
        key: "folder1/file1".to_string(),
        name: "file1".to_string(),
        parent: 1,
    });

    let cases = vec![
        ("folder1/file1", Some(3)),
        ("file2", Some(2)),
        ("file3", None),
    ];

    for (input, expected) in cases {
        let result = fs.get_by_key(input);
        let result = if let Some(r) = result {
            Some(r.attr.ino)
        } else {
            None
        };

        assert_eq!(result, expected, "failed to case: {}", input)
    }
}

#[test]
fn test_get_root_attr() {
    let client = MockClient {};
    let fs = ObjectFS::new(client, "dummy-bucket", 0);

    let root_attr = fs.get_root_attr();

    assert_eq!(root_attr.ino, 1, "expected root attr ino to be 1");
}

#[test]
fn test_index_object_idempotent() {
    let mut fs = ObjectFS::new(MockClient {}, "dummy-bucket", 0);

    fs.index_object(
        &FSObject {
            key: "folder/subfolder/file".to_string(),
            size: 5,
            modified_time: 1000,
        },
        2000,
    );
    let before: Vec<(u64, String, String, u64)> = fs
        .nodes
        .iter()
        .map(|n| (n.attr.ino, n.key.clone(), n.name.clone(), n.parent))
        .collect();
    let ino_before = fs.current_ino;

    fs.index_object(
        &FSObject {
            key: "folder/subfolder/file".to_string(),
            size: 5,
            modified_time: 3000,
        },
        4000,
    );
    let after: Vec<(u64, String, String, u64)> = fs
        .nodes
        .iter()
        .map(|n| (n.attr.ino, n.key.clone(), n.name.clone(), n.parent))
        .collect();

    assert_eq!(before, after);
    assert_eq!(ino_before, fs.current_ino);
}

#[test]
fn test_indexed_nodes_keep_invariants() {
    let mut fs = ObjectFS::new(MockClient {}, "dummy-bucket", 0);

    for key in ["file", "folder/file", "folder/subfolder/file", "a/b/c/d"] {
        fs.index_object(
            &FSObject {
                key: key.to_string(),
                size: 1,
                modified_time: 7,
            },
            8,
        );
    }

    for node in fs.nodes.iter() {
        if node.attr.ino == 1 {
            continue;
        }
        // the parent is present and is a directory
        let parent = fs.get(node.parent).expect("parent must be present");
        assert_eq!(parent.attr.kind, FileType::Directory);
        // the key is normalized and ends in the node's name
        assert!(!node.key.ends_with('/'));
        assert_eq!(fs.get_name(&node.key), node.name);
    }
}

#[test]
fn test_index_object_new_node_count() {
    let mut fs = ObjectFS::new(MockClient {}, "dummy-bucket", 0);

    // a key with three separators adds four nodes, the last a regular file
    fs.index_object(
        &FSObject {
            key: "a/b/c/d".to_string(),
            size: 2,
            modified_time: 5,
        },
        6,
    );
    assert_eq!(fs.nodes.len(), 5);
    let leaf = fs.nodes.last().unwrap();
    assert_eq!(leaf.attr.kind, FileType::RegularFile);
    assert_eq!(leaf.key, "a/b/c/d");
}

#[test]
fn test_index_object_empty_key_is_noop() {
    let mut fs = ObjectFS::new(MockClient {}, "dummy-bucket", 0);

    // the empty key is the root's own key, so nothing is added
    fs.index_object(
        &FSObject {
            key: "".to_string(),
            size: 0,
            modified_time: 0,
        },
        0,
    );
    assert_eq!(fs.nodes.len(), 1);
}

#[test]
fn test_remove_and_clear() {
    let mut fs = ObjectFS::new(MockClient {}, "dummy-bucket", 0);
    fs.index_object(
        &FSObject {
            key: "file".to_string(),
            size: 1,
            modified_time: 0,
        },
        0,
    );

    let taken = fs.remove(2).expect("node 2 must be present");
    assert_eq!(taken.key, "file");
    assert!(fs.remove(2).is_none());
    assert_eq!(fs.nodes.len(), 1);

    fs.clear();
    assert_eq!(fs.nodes.len(), 0);
    assert!(fs.get(1).is_none());
}
