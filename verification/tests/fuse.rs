use std::cell::RefCell;
use std::collections::HashMap;

use objectfs::adapters::ObjectAdapter;
use objectfs::fs::ObjectFS;
use objectfs::fuse::{EIO, ENOENT, EOPNOTSUPP, S_IFREG};
use objectfs::model::{FSError, FSObject, FileType};

/// An in-memory object store: puts and downloads work over a map, listings
/// enumerate it, and a download range is half open and clamped to the body.
struct MemClient {
    objects: RefCell<HashMap<String, Vec<u8>>>,
}

impl MemClient {
    fn new() -> MemClient {
        MemClient {
            objects: RefCell::new(HashMap::new()),
        }
    }

    fn with_objects(pairs: &[(&str, &[u8])]) -> MemClient {
        let client = MemClient::new();
        for (key, body) in pairs {
            client
                .objects
                .borrow_mut()
                .insert(key.to_string(), body.to_vec());
        }
        client
    }
}

impl ObjectAdapter for MemClient {
    fn fs_put_object(&self, _bucket: &str, key: &str, body: Option<Vec<u8>>) -> Result<(), FSError> {
        self.objects
            .borrow_mut()
            .insert(key.to_string(), body.unwrap_or_default());
        Ok(())
    }

    fn fs_list_objects(&self, _bucket: &str, prefix: &str) -> Result<Vec<FSObject>, FSError> {
        Ok(self
            .objects
            .borrow()
            .iter()
            .filter(|(k, _)| k.starts_with(prefix))
            .map(|(k, v)| FSObject {
                key: k.clone(),
                size: v.len() as i64,
                modified_time: 100,
            })
            .collect())
    }

    fn fs_head_object(&self, _bucket: &str, key: &str) -> Result<Option<FSObject>, FSError> {
        Ok(self.objects.borrow().get(key).map(|v| FSObject {
            key: key.to_string(),
            size: v.len() as i64,
            modified_time: 100,
        }))
    }

    fn fs_download_object(
        &self,
        _bucket: &str,
        key: &str,
        range: Option<(u64, u64)>,
    ) -> Result<Option<Vec<u8>>, FSError> {
        match self.objects.borrow().get(key) {
            None => Ok(None),
            Some(v) => {
                let bytes = match range {
                    None => v.clone(),
                    Some((start, end)) => {
                        let start = start as usize;
                        let end = (end as usize).min(v.len());
                        if start >= v.len() {
                            Vec::new()
                        } else {
                            v[start..end].to_vec()
                        }
                    }
                };
                Ok(Some(bytes))
            }
        }
    }
}

/// A store where every call fails, to drive the I/O-error paths.
struct FailClient {}

impl ObjectAdapter for FailClient {
    fn fs_put_object(&self, _bucket: &str, _key: &str, _body: Option<Vec<u8>>) -> Result<(), FSError> {
        Err(FSError {
            message: "put failed".to_string(),
        })
    }

    fn fs_list_objects(&self, _bucket: &str, _prefix: &str) -> Result<Vec<FSObject>, FSError> {
        Err(FSError {
            message: "list failed".to_string(),
        })
    }

    fn fs_head_object(&self, _bucket: &str, _key: &str) -> Result<Option<FSObject>, FSError> {
        Err(FSError {
            message: "head failed".to_string(),
        })
    }

    fn fs_download_object(
        &self,
        _bucket: &str,
        _key: &str,
        _range: Option<(u64, u64)>,
    ) -> Result<Option<Vec<u8>>, FSError> {
        Err(FSError {
            message: "download failed".to_string(),
        })
    }
}

/// A store whose downloads succeed but whose puts fail, to drive write's
/// upload-failure path.
struct PutFailClient {}

impl ObjectAdapter for PutFailClient {
    fn fs_put_object(&self, _bucket: &str, _key: &str, _body: Option<Vec<u8>>) -> Result<(), FSError> {
        Err(FSError {
            message: "put failed".to_string(),
        })
    }

    fn fs_list_objects(&self, _bucket: &str, _prefix: &str) -> Result<Vec<FSObject>, FSError> {
        Ok(Vec::new())
    }

    fn fs_head_object(&self, _bucket: &str, _key: &str) -> Result<Option<FSObject>, FSError> {
        Ok(None)
    }

    fn fs_download_object(
        &self,
        _bucket: &str,
        _key: &str,
        _range: Option<(u64, u64)>,
    ) -> Result<Option<Vec<u8>>, FSError> {
        Ok(Some(b"AB".to_vec()))
    }
}

#[test]
fn test_mknod_then_lookup() {
    let mut fs = ObjectFS::new(MemClient::new(), "bucket", 0);

    let attr = fs
        .mknod(1, "hello", S_IFREG | 0o644, 0, 0, 50)
        .expect("mknod must succeed");
    assert_eq!(attr.ino, 2);
    assert_eq!(attr.size, 0);
    assert_eq!(attr.kind, FileType::RegularFile);

    // the object was put under the plain key
    assert_eq!(
        fs.client.objects.borrow().get("hello"),
        Some(&Vec::new())
    );

    let found = fs.lookup(1, "hello").expect("lookup must succeed");
    assert_eq!(found.ino, 2);
    assert_eq!(fs.get(found.ino).unwrap().parent, 1);
    assert_eq!(fs.get(found.ino).unwrap().key, "hello");
}

#[test]
fn test_mknod_rejects_non_regular() {
    let mut fs = ObjectFS::new(MemClient::new(), "bucket", 0);
    let err = fs.mknod(1, "d", 0o040755, 0, 0, 1).unwrap_err();
    assert_eq!(err, EOPNOTSUPP);
    assert_eq!(fs.nodes.len(), 1);
}

#[test]
fn test_mknod_missing_parent() {
    let mut fs = ObjectFS::new(MemClient::new(), "bucket", 0);
    let err = fs.mknod(9, "f", S_IFREG, 0, 0, 1).unwrap_err();
    assert_eq!(err, ENOENT);
}

#[test]
fn test_mknod_put_failure_leaves_table() {
    let mut fs = ObjectFS::new(FailClient {}, "bucket", 0);
    let err = fs.mknod(1, "f", S_IFREG, 0, 0, 1).unwrap_err();
    assert_eq!(err, EIO);
    assert_eq!(fs.nodes.len(), 1);
}

#[test]
fn test_write_read_roundtrip() {
    let mut fs = ObjectFS::new(MemClient::new(), "bucket", 0);
    let attr = fs.mknod(1, "x", S_IFREG, 0, 0, 1).unwrap();

    let written = fs.write(attr.ino, 0, b"ABCDE").unwrap();
    assert_eq!(written, 5);

    let back = fs.read(attr.ino, 0, 5).unwrap();
    assert_eq!(back, b"ABCDE".to_vec());

    // the range is passed as (offset, offset + size)
    let mid = fs.read(attr.ino, 1, 3).unwrap();
    assert_eq!(mid, b"BCD".to_vec());
}

#[test]
fn test_write_pads_and_splices() {
    let mut fs = ObjectFS::new(MemClient::new(), "bucket", 0);
    let attr = fs.mknod(1, "x", S_IFREG, 0, 0, 1).unwrap();

    fs.write(attr.ino, 0, b"AB").unwrap();
    fs.write(attr.ino, 4, b"ZZ").unwrap();

    let stored = fs.client.objects.borrow().get("x").cloned().unwrap();
    assert_eq!(stored, vec![b'A', b'B', 0, 0, b'Z', b'Z']);

    // the node's size is the last write's length
    assert_eq!(fs.get(attr.ino).unwrap().attr.size, 2);
}

#[test]
fn test_write_missing_ino() {
    let mut fs = ObjectFS::new(MemClient::new(), "bucket", 0);
    assert_eq!(fs.write(7, 0, b"A").unwrap_err(), ENOENT);
}

#[test]
fn test_write_missing_object_reinserts() {
    let mut fs = ObjectFS::new(MemClient::new(), "bucket", 0);
    let attr = fs.mknod(1, "x", S_IFREG, 0, 0, 1).unwrap();
    fs.client.objects.borrow_mut().remove("x");

    assert_eq!(fs.write(attr.ino, 0, b"A").unwrap_err(), ENOENT);
    // the node went back into the table
    assert!(fs.get(attr.ino).is_some());
}

#[test]
fn test_write_download_failure_keeps_node() {
    let mut fs = ObjectFS::new(FailClient {}, "bucket", 0);
    fs.index_object(
        &FSObject {
            key: "x".to_string(),
            size: 2,
            modified_time: 0,
        },
        0,
    );

    assert_eq!(fs.write(2, 0, b"A").unwrap_err(), EIO);
    // the failure committed nothing: the node is back, unchanged
    let node = fs.get(2).expect("node must still be present");
    assert_eq!(node.key, "x");
    assert_eq!(node.attr.size, 2);
}

#[test]
fn test_write_put_failure_keeps_node() {
    let mut fs = ObjectFS::new(PutFailClient {}, "bucket", 0);
    fs.index_object(
        &FSObject {
            key: "x".to_string(),
            size: 2,
            modified_time: 0,
        },
        0,
    );

    assert_eq!(fs.write(2, 0, b"ZZZ").unwrap_err(), EIO);
    let node = fs.get(2).expect("node must still be present");
    assert_eq!(node.key, "x");
    assert_eq!(node.attr.size, 2);
    assert_eq!(fs.nodes.len(), 2);
}

#[test]
fn test_read_missing_ino() {
    let fs = ObjectFS::new(MemClient::new(), "bucket", 0);
    assert_eq!(fs.read(7, 0, 1).unwrap_err(), ENOENT);
}

#[test]
fn test_read_transport_failure() {
    let mut fs = ObjectFS::new(FailClient {}, "bucket", 0);
    fs.index_object(
        &FSObject {
            key: "x".to_string(),
            size: 1,
            modified_time: 0,
        },
        0,
    );
    assert_eq!(fs.read(2, 0, 1).unwrap_err(), EIO);
}

#[test]
fn test_mkdir_then_readdir() {
    let mut fs = ObjectFS::new(MemClient::new(), "bucket", 0);

    let attr = fs.mkdir(1, "d", 0o755, 0, 9).expect("mkdir must succeed");
    assert_eq!(attr.kind, FileType::Directory);

    // the sentinel was put, and the directory node's key is the sentinel's
    assert!(fs.client.objects.borrow().contains_key("d/.keep"));
    assert_eq!(fs.get(attr.ino).unwrap().key, "d/.keep");

    let entries = fs.readdir(1, 0);
    assert_eq!(entries.len(), 3);
    assert_eq!(entries[0].name, ".");
    assert_eq!(entries[1].name, "..");
    assert_eq!(entries[2].ino, attr.ino);
    assert_eq!(entries[0].offset, 1);
    assert_eq!(entries[1].offset, 2);
    assert_eq!(entries[2].offset, 3);

    // an offset resumes after the already-delivered entries
    let rest = fs.readdir(1, 2);
    assert_eq!(rest.len(), 1);
    assert_eq!(rest[0].ino, attr.ino);
}

#[test]
fn test_lookup_missing() {
    let fs = ObjectFS::new(MemClient::new(), "bucket", 0);
    assert_eq!(fs.lookup(1, "nope").unwrap_err(), ENOENT);
    assert_eq!(fs.lookup(9, "nope").unwrap_err(), ENOENT);
}

#[test]
fn test_lookup_root_fast_path() {
    let fs = ObjectFS::new(MemClient::new(), "bucket", 0);
    let attr = fs.lookup(1, "/").unwrap();
    assert_eq!(attr.ino, 1);
}

#[test]
fn test_getattr() {
    let mut fs = ObjectFS::new(MemClient::new(), "bucket", 0);
    let made = fs.mknod(1, "f", S_IFREG, 0, 0, 1).unwrap();

    assert_eq!(fs.getattr(1).unwrap().ino, 1);
    assert_eq!(fs.getattr(made.ino).unwrap().ino, made.ino);
    assert_eq!(fs.getattr(9).unwrap_err(), ENOENT);
}

#[test]
fn test_init_indexes_and_normalizes_markers() {
    let client = MemClient::with_objects(&[("file", b"12345"), ("folder/", b"")]);
    let mut fs = ObjectFS::new(client, "bucket", 0);

    fs.init(77).expect("init must succeed");

    // the root sentinel and the marker sentinel were written
    assert!(fs.client.objects.borrow().contains_key(".keep"));
    assert!(fs.client.objects.borrow().contains_key("folder/.keep"));

    // root, .keep (the sentinel is listed too), file, folder, folder/.keep
    assert_eq!(fs.nodes.len(), 5);
    let folder = fs.get_by_key("folder").expect("folder must be indexed");
    assert_eq!(folder.attr.kind, FileType::Directory);
    let file = fs.get_by_key("file").expect("file must be indexed");
    assert_eq!(file.attr.size, 5);
}

#[test]
fn test_init_list_failure() {
    let mut fs = ObjectFS::new(FailClient {}, "bucket", 0);
    assert_eq!(fs.init(0).unwrap_err(), -1);
}

#[test]
fn test_destroy_clears_table() {
    let mut fs = ObjectFS::new(MemClient::new(), "bucket", 0);
    fs.mknod(1, "f", S_IFREG, 0, 0, 1).unwrap();
    fs.destroy();
    assert_eq!(fs.nodes.len(), 0);
}
