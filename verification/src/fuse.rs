//! The kernel-callback handlers: each one reads or rewrites the inode table
//! and calls the object-store port, whose outcomes nothing constrains. Every
//! contract therefore says, for each possible outcome, exactly what the
//! handler returns and what the table becomes.

use vstd::prelude::*;
use vstd::string::*;

use crate::adapters::ObjectAdapter;
use crate::fs::{
    children_of, index_directory_spec, index_file_spec, index_object_spec, ino_index,
    node_with_ino, nodes_view, ObjectFS, TableView, ROOT_INO,
};
use crate::model::{FSObject, FileAttr, FileType, NodeView, ObjectView};
use crate::paths::{ends_with_slash, str_eq, strip_trailing_slash};

verus! {

/// "No such file or directory".
pub const ENOENT: i32 = 2;

/// "Input/output error".
pub const EIO: i32 = 5;

/// "Operation not supported".
pub const EOPNOTSUPP: i32 = 95;

/// Mask of the file-kind bits of a mode word.
pub const S_IFMT: u32 = 0o170000;

/// The regular-file kind bits of a mode word.
pub const S_IFREG: u32 = 0o100000;

/// One directory-listing entry: the node, its kind and name, and the offset
/// a reader hands back to continue after this entry.
pub struct DirEntry {
    pub ino: u64,
    pub offset: i64,
    pub kind: FileType,
    pub name: String,
}

/// The mathematical image of a listing entry.
pub ghost struct DirEntryView {
    pub ino: u64,
    pub offset: i64,
    pub kind: FileType,
    pub name: Seq<char>,
}

impl View for DirEntry {
    type V = DirEntryView;

    open spec fn view(&self) -> DirEntryView {
        DirEntryView { ino: self.ino, offset: self.offset, kind: self.kind, name: self.name@ }
    }
}

/// The images of a run of listing entries.
pub open spec fn entries_view(s: Seq<DirEntry>) -> Seq<DirEntryView> {
    s.map_values(|e: DirEntry| e@)
}

/// The root node's attributes (meaningful when the root is present).
pub open spec fn root_attr(t: TableView) -> FileAttr
    recommends
        ino_index(t.nodes, ROOT_INO) >= 0,
{
    t.nodes[ino_index(t.nodes, ROOT_INO)].attr
}

/// The key a child named `name` of `pn` lives under: the name itself under
/// the root, else the parent's key, a separator and the name.
pub open spec fn child_key_in(t: TableView, pn: NodeView, name: Seq<char>) -> Seq<char> {
    if pn.attr.ino == root_attr(t).ino {
        name
    } else {
        pn.key + seq!['/'] + name
    }
}

/// The key `mkdir` writes its sentinel under: the child key of `name`
/// extended with `/.keep`.
pub open spec fn mkdir_key_in(t: TableView, pn: NodeView, name: Seq<char>) -> Seq<char> {
    child_key_in(t, pn, name) + seq!['/'] + ".keep"@
}

/// Position of the last node carrying `key`, or -1.
pub open spec fn last_key_index(nodes: Seq<NodeView>, key: Seq<char>) -> int
    decreases nodes.len(),
{
    if nodes.len() == 0 {
        -1
    } else if nodes.last().key == key {
        nodes.len() - 1
    } else {
        last_key_index(nodes.drop_last(), key)
    }
}

/// What `lookup` answers on table `t`: the root's own attributes for the
/// root fast path, the attributes of the last child of `parent` whose key is
/// the child key of `name`, or "not found".
pub open spec fn lookup_spec(t: TableView, parent: u64, name: Seq<char>) -> Result<FileAttr, i32> {
    if parent == root_attr(t).ino && name == "/"@ {
        Result::Ok(root_attr(t))
    } else {
        match node_with_ino(t.nodes, parent) {
            Option::None => Result::Err(ENOENT),
            Option::Some(pn) => {
                let key = child_key_in(t, pn, name);
                let cs = children_of(t.nodes, parent);
                let li = last_key_index(cs, key);
                if li >= 0 {
                    Result::Ok(cs[li].attr)
                } else {
                    Result::Err(ENOENT)
                }
            },
        }
    }
}

/// What `getattr` answers on table `t`.
pub open spec fn getattr_spec(t: TableView, ino: u64) -> Result<FileAttr, i32> {
    if ino == root_attr(t).ino {
        Result::Ok(root_attr(t))
    } else {
        match node_with_ino(t.nodes, ino) {
            Option::None => Result::Err(ENOENT),
            Option::Some(n) => Result::Ok(n.attr),
        }
    }
}

/// The whole listing of `ino` before any offset is applied: `.` and `..`
/// under the root's inode, then one entry per child, each entry carrying its
/// position plus one as the continuation offset.
pub open spec fn entry_list(t: TableView, ino: u64) -> Seq<DirEntryView> {
    let base = seq![
        DirEntryView {
            ino: root_attr(t).ino,
            offset: 0,
            kind: FileType::Directory,
            name: "."@,
        },
        DirEntryView {
            ino: root_attr(t).ino,
            offset: 0,
            kind: FileType::Directory,
            name: ".."@,
        },
    ] + children_of(t.nodes, ino).map_values(
        |c: NodeView|
            DirEntryView { ino: c.attr.ino, offset: 0, kind: c.attr.kind, name: c.name },
    );
    Seq::new(base.len(), |i: int| DirEntryView { offset: (i + 1) as i64, ..base[i] })
}

/// What `readdir` answers: the listing with the first `offset` entries
/// dropped.
pub open spec fn readdir_spec(t: TableView, ino: u64, offset: i64) -> Seq<DirEntryView> {
    let es = entry_list(t, ino);
    if 0 <= offset <= es.len() {
        es.subrange(offset as int, es.len() as int)
    } else {
        Seq::empty()
    }
}

/// The byte body `write` stores: `data` spliced over `body` at `offset`,
/// the body zero-padded first wherever the write reaches past its end.
pub open spec fn splice_spec(body: Seq<u8>, offset: int, data: Seq<u8>) -> Seq<u8> {
    let n = if body.len() >= offset + data.len() {
        body.len() as int
    } else {
        offset + data.len()
    };
    Seq::new(
        n as nat,
        |i: int|
            if offset <= i < offset + data.len() {
                data[i - offset]
            } else if i < body.len() {
                body[i]
            } else {
                0u8
            },
    )
}

/// A node with its size replaced, as `write` leaves it in the table.
pub open spec fn with_size(n: NodeView, size: u64) -> NodeView {
    NodeView { attr: FileAttr { size, ..n.attr }, ..n }
}

/// Indexing a run of listed objects in order.
pub open spec fn index_listing_spec(t: TableView, objs: Seq<ObjectView>, now: u64) -> TableView
    decreases objs.len(),
{
    if objs.len() == 0 {
        t
    } else {
        index_listing_spec(index_object_spec(t, objs[0], now), objs.drop_first(), now)
    }
}

/// `data` spliced over `body` at `offset`: bytes before the write are kept,
/// the write's bytes replace what they cover, zero padding fills any gap,
/// and bytes after the write's end are kept.
pub fn splice_bytes(body: &Vec<u8>, offset: usize, data: &[u8]) -> (r: Vec<u8>)
    requires
        offset + data@.len() <= usize::MAX,
    ensures
        r@ == splice_spec(body@, offset as int, data@),
{
    let end = offset + data.len();
    let n = if body.len() >= end {
        body.len()
    } else {
        end
    };
    let mut out: Vec<u8> = Vec::new();
    let mut i: usize = 0;
    while i < n
        invariant
            i <= n,
            n == splice_spec(body@, offset as int, data@).len(),
            end == offset + data@.len(),
            n == if body@.len() >= end {
                body@.len() as int
            } else {
                end as int
            },
            out@.len() == i,
            forall|j: int| 0 <= j < i ==> out@[j] == splice_spec(body@, offset as int, data@)[j],
        decreases n - i,
    {
        let b: u8 = if offset <= i && i < end {
            data[i - offset]
        } else if i < body.len() {
            body[i]
        } else {
            0u8
        };
        out.push(b);
        i = i + 1;
    }
    proof {
        assert(out@ =~= splice_spec(body@, offset as int, data@));
    }
    out
}

/// Reading back the span just written returns the written bytes: the
/// spliced body restricted to the write's range is `data`.
pub proof fn lemma_write_read_roundtrip(body: Seq<u8>, offset: int, data: Seq<u8>)
    requires
        offset >= 0,
    ensures
        splice_spec(body, offset, data).subrange(offset, offset + data.len()) == data,
{
    assert(splice_spec(body, offset, data).subrange(offset, offset + data.len()) =~= data);
}

impl<C: ObjectAdapter> ObjectFS<C> {
    /// Mount-time bootstrap: write the root sentinel, list the bucket, and
    /// index each listed key, normalizing a directory marker (a key ending
    /// in `/`) by writing and indexing a sentinel under it. Whatever the
    /// store answered, the table is the fold of indexing some run of
    /// objects over the old table.
    pub fn init(&mut self, now: u64) -> (r: Result<(), i32>)
        ensures
            exists|objs: Seq<ObjectView>|
                final(self)@ == index_listing_spec(old(self)@, objs, now),
            final(self)@.bucket == old(self)@.bucket,
            r is Err ==> r == Result::<(), i32>::Err(-1i32),
    {
        let ghost mut done: Seq<ObjectView> = Seq::empty();
        proof {
            assert(self@ == index_listing_spec(old(self)@, done, now));
        }
        match self.client.fs_put_object(self.bucket.as_str(), ".keep", None) {
            Result::Err(_) => {
                return Err(-1);
            },
            Result::Ok(_) => {},
        }
        let objects = match self.client.fs_list_objects(self.bucket.as_str(), "") {
            Result::Err(_) => {
                return Err(-1);
            },
            Result::Ok(o) => o,
        };
        let n = objects.len();
        let mut i: usize = 0;
        while i < n
            invariant
                i <= n,
                n == objects.len(),
                self@ == index_listing_spec(old(self)@, done, now),
                self@.bucket == old(self)@.bucket,
                self.client == old(self).client,
            decreases n - i,
        {
            let obj = &objects[i];
            let key: String = if ends_with_slash(obj.key.as_str()) {
                let marker = obj.key.clone().concat(".keep");
                match self.client.fs_put_object(self.bucket.as_str(), marker.as_str(), None) {
                    Result::Err(_) => {
                        return Err(-1);
                    },
                    Result::Ok(_) => {},
                }
                marker
            } else {
                obj.key.clone()
            };
            let kl = key.unicode_len();
            if !(kl as u64 <= u64::MAX - 1 && self.current_ino <= u64::MAX - 1 - (kl as u64)) {
                return Err(-1);
            }
            let object = FSObject { key, size: obj.size, modified_time: obj.modified_time };
            proof {
                crate::paths::lemma_key_chain_lens(object@.key);
                lemma_index_listing_snoc(old(self)@, done, object@, now);
                done = done.push(object@);
            }
            self.index_object(&object, now);
            i = i + 1;
        }
        Ok(())
    }

    /// Drop every node. The allocator position is kept.
    pub fn destroy(&mut self)
        ensures
            final(self)@ == (TableView { nodes: Seq::empty(), ..old(self)@ }),
            final(self).client == old(self).client,
    {
        self.clear();
    }

    /// Resolve `name` under `parent`: the root's own attributes on the root
    /// fast path, else the last child of `parent` carrying the child key.
    pub fn lookup(&self, parent: u64, name: &str) -> (r: Result<FileAttr, i32>)
        requires
            ino_index(self@.nodes, ROOT_INO) >= 0,
        ensures
            r == lookup_spec(self@, parent, name@),
    {
        let root_attr_e = self.get_root_attr();
        if parent == root_attr_e.ino && str_eq(name, "/") {
            return Ok(root_attr_e);
        }
        let key: String = match self.get(parent) {
            Option::None => {
                return Err(ENOENT);
            },
            Option::Some(parent_node) => {
                if parent_node.attr.ino == root_attr_e.ino {
                    String::from_str(name)
                } else {
                    crate::paths::join_with_slash(parent_node.key.as_str(), name)
                }
            },
        };
        let children = self.get_children(parent);
        let ghost cs = children_of(self@.nodes, parent);
        let mut attr: Option<FileAttr> = None;
        let n = children.len();
        let mut i: usize = 0;
        while i < n
            invariant
                i <= n,
                n == children.len(),
                nodes_view(children@) == cs,
                match attr {
                    Option::None => last_key_index(cs.subrange(0, i as int), key@) == -1,
                    Option::Some(a) => {
                        let li = last_key_index(cs.subrange(0, i as int), key@);
                        li >= 0 && a == cs[li].attr
                    },
                },
            decreases n - i,
        {
            proof {
                assert(cs.subrange(0, i + 1).drop_last() =~= cs.subrange(0, i as int));
                assert(cs.subrange(0, i + 1).last() == cs[i as int]);
            }
            if str_eq(children[i].key.as_str(), key.as_str()) {
                attr = Some(children[i].attr);
            }
            i = i + 1;
        }
        proof {
            assert(cs.subrange(0, n as int) =~= cs);
        }
        match attr {
            Option::Some(a) => Ok(a),
            Option::None => Err(ENOENT),
        }
    }

    /// The attributes of `ino`: the root's on the root fast path, else the
    /// table's record, else "not found".
    pub fn getattr(&self, ino: u64) -> (r: Result<FileAttr, i32>)
        requires
            ino_index(self@.nodes, ROOT_INO) >= 0,
        ensures
            r == getattr_spec(self@, ino),
    {
        let root_attr_e = self.get_root_attr();
        if ino == root_attr_e.ino {
            return Ok(root_attr_e);
        }
        match self.get(ino) {
            Option::None => Err(ENOENT),
            Option::Some(n) => Ok(n.attr),
        }
    }

    /// Create a regular file `name` under `parent`: put an empty object at
    /// the child key, then index it. Only regular-file modes are supported;
    /// a missing parent is "not found"; a failed put leaves the table
    /// untouched and answers "I/O error"; on success the table is exactly
    /// the old one with the key indexed as a file.
    pub fn mknod(&mut self, parent: u64, name: &str, mode: u32, _umask: u32, _rdev: u32, now: u64)
        -> (r: Result<FileAttr, i32>)
        requires
            ino_index(old(self)@.nodes, ROOT_INO) >= 0,
            old(self)@.current_ino < u64::MAX,
        ensures
            mode & S_IFMT != S_IFREG ==> r == Result::<FileAttr, i32>::Err(EOPNOTSUPP)
                && final(self)@ == old(self)@,
            mode & S_IFMT == S_IFREG && node_with_ino(old(self)@.nodes, parent) is None ==> r
                == Result::<FileAttr, i32>::Err(ENOENT) && final(self)@ == old(self)@,
            mode & S_IFMT == S_IFREG ==> (node_with_ino(old(self)@.nodes, parent) matches Some(
                pn,
            ) ==> {
                let o = ObjectView {
                    key: child_key_in(old(self)@, pn, name@),
                    size: 0,
                    modified_time: now,
                };
                ||| (r == Result::<FileAttr, i32>::Err(EIO) && final(self)@ == old(self)@)
                ||| (r == Result::<FileAttr, i32>::Ok(
                    index_file_spec(old(self)@, o, parent, now).1.attr,
                ) && final(self)@ == index_file_spec(old(self)@, o, parent, now).0)
            }),
            final(self).client == old(self).client,
    {
        if mode & S_IFMT != S_IFREG {
            return Err(EOPNOTSUPP);
        }
        let root_attr_e = self.get_root_attr();
        let key: String = match self.get(parent) {
            Option::None => {
                return Err(ENOENT);
            },
            Option::Some(parent_node) => {
                if parent_node.attr.ino == root_attr_e.ino {
                    String::from_str(name)
                } else {
                    crate::paths::join_with_slash(parent_node.key.as_str(), name)
                }
            },
        };
        match self.client.fs_put_object(self.bucket.as_str(), key.as_str(), None) {
            Result::Err(_) => {
                return Err(EIO);
            },
            Result::Ok(_) => {},
        }
        let new_node = self.index_file(&FSObject { key, size: 0, modified_time: now }, parent, now);
        Ok(new_node.attr)
    }

    /// Create a directory `name` under `parent`: put an empty sentinel at
    /// `<child key>/.keep`, then index that sentinel key as a directory. A
    /// missing parent is "not found"; a failed put leaves the table
    /// untouched and answers "I/O error"; on success the table is exactly
    /// the old one with the sentinel key indexed as a directory.
    pub fn mkdir(&mut self, parent: u64, name: &str, _mode: u32, _umask: u32, now: u64) -> (r:
        Result<FileAttr, i32>)
        requires
            ino_index(old(self)@.nodes, ROOT_INO) >= 0,
            old(self)@.current_ino < u64::MAX,
        ensures
            node_with_ino(old(self)@.nodes, parent) is None ==> r == Result::<FileAttr, i32>::Err(
                ENOENT,
            ) && final(self)@ == old(self)@,
            node_with_ino(old(self)@.nodes, parent) matches Some(pn) ==> {
                let o = ObjectView {
                    key: mkdir_key_in(old(self)@, pn, name@),
                    size: 0,
                    modified_time: now,
                };
                ||| (r == Result::<FileAttr, i32>::Err(EIO) && final(self)@ == old(self)@)
                ||| (r == Result::<FileAttr, i32>::Ok(
                    index_directory_spec(old(self)@, o, parent, now).1.attr,
                ) && final(self)@ == index_directory_spec(old(self)@, o, parent, now).0)
            },
            final(self).client == old(self).client,
    {
        let root_attr_e = self.get_root_attr();
        let key: String = match self.get(parent) {
            Option::None => {
                return Err(ENOENT);
            },
            Option::Some(parent_node) => {
                if parent_node.attr.ino == root_attr_e.ino {
                    crate::paths::join_with_slash(name, ".keep")
                } else {
                    let child = crate::paths::join_with_slash(parent_node.key.as_str(), name);
                    crate::paths::join_with_slash(child.as_str(), ".keep")
                }
            },
        };
        proof {
            reveal_strlit(".keep");
        }
        match self.client.fs_put_object(self.bucket.as_str(), key.as_str(), None) {
            Result::Err(_) => {
                return Err(EIO);
            },
            Result::Ok(_) => {},
        }
        let new_node = self.index_directory(
            &FSObject { key, size: 0, modified_time: now },
            parent,
            now,
        );
        Ok(new_node.attr)
    }

    /// Read `size` bytes of `ino` at `offset`: the byte range handed to the
    /// store is `(offset, offset + size)`, passed through verbatim. A
    /// missing inode or object is "not found"; a transport failure is an
    /// I/O error; the store's bytes are answered as they came.
    pub fn read(&self, ino: u64, offset: i64, size: u32) -> (r: Result<Vec<u8>, i32>)
        requires
            offset >= 0,
        ensures
            node_with_ino(self@.nodes, ino) is None ==> r == Result::<Vec<u8>, i32>::Err(ENOENT),
            r is Err ==> r == Result::<Vec<u8>, i32>::Err(ENOENT) || r == Result::<Vec<u8>,
                i32,
            >::Err(EIO),
            r is Ok ==> node_with_ino(self@.nodes, ino) is Some,
    {
        let node = match self.get(ino) {
            Option::None => {
                return Err(ENOENT);
            },
            Option::Some(n) => n,
        };
        let range = Some((offset as u64, offset as u64 + size as u64));
        match self.client.fs_download_object(self.bucket.as_str(), node.key.as_str(), range) {
            Result::Err(_) => Err(EIO),
            Result::Ok(mb) => match mb {
                Option::None => Err(ENOENT),
                Option::Some(bytes) => Ok(bytes),
            },
        }
    }

    /// Write `data` at `offset` into `ino`, read-modify-write over the whole
    /// object: take the node out, download the full body, splice, put the
    /// body back, and reinstall the node with its size set to the write's
    /// length. A missing inode is "not found" with the table unchanged; any
    /// other failure — a missing object is "not found", a failed download or
    /// put an I/O error — aborts the operation with the node reinstalled
    /// unchanged, so no failure commits partial state.
    pub fn write(&mut self, ino: u64, offset: i64, data: &[u8]) -> (r: Result<u32, i32>)
        requires
            offset >= 0,
            offset + data@.len() <= usize::MAX,
            data@.len() <= u32::MAX,
            forall|i: int, j: int|
                0 <= i < j < old(self)@.nodes.len()
                    ==> old(self)@.nodes[i].attr.ino != old(self)@.nodes[j].attr.ino,
        ensures
            ({
                let ki = ino_index(old(self)@.nodes, ino);
                &&& ki == -1 ==> r == Result::<u32, i32>::Err(ENOENT) && final(self)@
                    == old(self)@
                &&& ki >= 0 ==> match r {
                    Result::Ok(w) => w == data@.len() as u32 && final(self)@ == (TableView {
                        nodes: old(self)@.nodes.remove(ki).push(
                            with_size(old(self)@.nodes[ki], data@.len() as u64),
                        ),
                        ..old(self)@
                    }),
                    Result::Err(e) => (e == ENOENT || e == EIO) && final(self)@ == (TableView {
                        nodes: old(self)@.nodes.remove(ki).push(old(self)@.nodes[ki]),
                        ..old(self)@
                    }),
                }
            }),
            final(self).client == old(self).client,
    {
        let node = match self.remove(ino) {
            Option::None => {
                return Err(ENOENT);
            },
            Option::Some(n) => n,
        };
        proof {
            crate::fs::lemma_ino_index(old(self)@.nodes, ino);
            crate::fs::lemma_ino_index(self@.nodes, node@.attr.ino);
            if ino_index(self@.nodes, node@.attr.ino) >= 0 {
                let ki = ino_index(old(self)@.nodes, ino);
                let j = ino_index(self@.nodes, node@.attr.ino);
                if j < ki {
                    assert(old(self)@.nodes[j].attr.ino == ino);
                } else {
                    assert(old(self)@.nodes[j + 1].attr.ino == ino);
                }
                assert(false);
            }
        }
        let maybe_bytes = match self.client.fs_download_object(
            self.bucket.as_str(),
            node.key.as_str(),
            None,
        ) {
            Result::Err(_) => {
                self.insert(node);
                return Err(EIO);
            },
            Result::Ok(mb) => mb,
        };
        let bytes = match maybe_bytes {
            Option::None => {
                self.insert(node);
                return Err(ENOENT);
            },
            Option::Some(b) => b,
        };
        let body = splice_bytes(&bytes, offset as usize, data);
        match self.client.fs_put_object(self.bucket.as_str(), node.key.as_str(), Some(body)) {
            Result::Err(_) => {
                self.insert(node);
                return Err(EIO);
            },
            Result::Ok(_) => {},
        }
        let mut node = node;
        node.attr.size = data.len() as u64;
        let written = data.len() as u32;
        self.insert(node);
        Ok(written)
    }

    /// List `ino` from `offset`: `.` and `..` under the root's inode, then
    /// one entry per child in table order, each carrying its position plus
    /// one as the continuation offset, with the first `offset` entries
    /// dropped.
    pub fn readdir(&self, ino: u64, offset: i64) -> (r: Vec<DirEntry>)
        requires
            ino_index(self@.nodes, ROOT_INO) >= 0,
            offset >= 0,
            self@.nodes.len() + 2 <= i64::MAX,
        ensures
            entries_view(r@) == readdir_spec(self@, ino, offset),
    {
        let root_attr_e = self.get_root_attr();
        let children = self.get_children(ino);
        let ghost full = entry_list(self@, ino);
        proof {
            lemma_children_of_len(self@.nodes, ino);
        }
        let mut entries: Vec<DirEntry> = Vec::new();
        entries.push(
            DirEntry {
                ino: root_attr_e.ino,
                offset: 1,
                kind: FileType::Directory,
                name: String::from_str("."),
            },
        );
        entries.push(
            DirEntry {
                ino: root_attr_e.ino,
                offset: 2,
                kind: FileType::Directory,
                name: String::from_str(".."),
            },
        );
        let n = children.len();
        let mut i: usize = 0;
        while i < n
            invariant
                i <= n,
                n == children.len(),
                n + 2 <= i64::MAX,
                nodes_view(children@) == children_of(self@.nodes, ino),
                full == entry_list(self@, ino),
                full.len() == n + 2,
                entries@.len() == i + 2,
                forall|j: int| 0 <= j < i + 2 ==> entries_view(entries@)[j] == full[j],
            decreases n - i,
        {
            let c = &children[i];
            let e = DirEntry {
                ino: c.attr.ino,
                offset: (i as i64) + 3,
                kind: c.attr.kind,
                name: c.name.clone(),
            };
            entries.push(e);
            i = i + 1;
        }
        proof {
            assert(entries_view(entries@) =~= full);
        }
        let total = entries.len();
        let start: usize = if offset >= total as i64 {
            total
        } else {
            offset as usize
        };
        let mut out: Vec<DirEntry> = Vec::new();
        let mut j: usize = start;
        while j < total
            invariant
                start <= j <= total,
                total == entries.len(),
                entries_view(entries@) == full,
                full == entry_list(self@, ino),
                0 <= start <= total,
                start == if offset >= total { total as int } else { offset as int },
                out@.len() == j - start,
                forall|k: int| 0 <= k < j - start ==> entries_view(out@)[k] == full[start + k],
            decreases total - j,
        {
            let e = &entries[j];
            let copied = DirEntry {
                ino: e.ino,
                offset: e.offset,
                kind: e.kind,
                name: e.name.clone(),
            };
            proof {
                assert(copied@ == entries@[j as int]@);
            }
            let ghost out_before = out@;
            out.push(copied);
            proof {
                assert forall|k: int| 0 <= k < j + 1 - start implies entries_view(out@)[k]
                    == full[start + k] by {
                    if k == j - start {
                        assert(entries_view(out@)[k] == copied@);
                    } else {
                        assert(out@[k] == out_before[k]);
                        assert(entries_view(out_before)[k] == full[start + k]);
                    }
                }
            }
            j = j + 1;
        }
        proof {
            assert(entries_view(out@) =~= readdir_spec(self@, ino, offset));
        }
        out
    }
}

/// A directory has at most as many children as the table has nodes.
pub proof fn lemma_children_of_len(nodes: Seq<NodeView>, parent: u64)
    ensures
        children_of(nodes, parent).len() <= nodes.len(),
    decreases nodes.len(),
{
    if nodes.len() > 0 {
        lemma_children_of_len(nodes.drop_last(), parent);
    }
}

/// Folding one more object onto a listing prefix is indexing it last.
pub proof fn lemma_index_listing_snoc(
    t: TableView,
    objs: Seq<ObjectView>,
    o: ObjectView,
    now: u64,
)
    ensures
        index_listing_spec(t, objs.push(o), now) == index_object_spec(
            index_listing_spec(t, objs, now),
            o,
            now,
        ),
    decreases objs.len(),
{
    if objs.len() == 0 {
        let e = objs.push(o).drop_first();
        assert(objs.push(o)[0] == o);
        assert(e.len() == 0);
        assert(index_listing_spec(index_object_spec(t, o, now), e, now) == index_object_spec(
            t,
            o,
            now,
        ));
        assert(index_listing_spec(t, objs, now) == t);
    } else {
        assert(objs.push(o)[0] == objs[0]);
        assert(objs.push(o).drop_first() =~= objs.drop_first().push(o));
        lemma_index_listing_snoc(index_object_spec(t, objs[0], now), objs.drop_first(), o, now);
        assert(index_listing_spec(t, objs.push(o), now) == index_listing_spec(
            index_object_spec(t, objs[0], now),
            objs.drop_first().push(o),
            now,
        ));
        assert(index_listing_spec(t, objs, now) == index_listing_spec(
            index_object_spec(t, objs[0], now),
            objs.drop_first(),
            now,
        ));
    }
}

} // verus!
