//! The inode table and the indexer: a namespace of node records addressed by
//! inode number, a monotonic inode allocator, and the walk that materializes
//! a chain of ancestor directories and a leaf file for each object key.
//!
//! Every operation is specified against a functional model: `TableView` is
//! the table as mathematics, and each mutating operation's contract says
//! exactly which model the new table equals.

use vstd::prelude::*;
use vstd::string::*;

use crate::model::{FSError, FSNode, FSObject, FileAttr, FileType, NodeView, ObjectView};
use crate::paths::{
    basename, ends_with_slash, find_last_slash, key_chain, parent_of, str_eq,
    strip_trailing_slash,
};

verus! {

/// The root's fixed inode number.
pub const ROOT_INO: u64 = 1;

/// The filesystem state: the backend client, the bucket it serves, the last
/// allocated inode and the table of nodes.
pub struct ObjectFS<C> {
    pub client: C,
    pub bucket: String,
    pub current_ino: u64,
    pub nodes: Vec<FSNode>,
}

/// The table as mathematics: node images, the allocator position, the bucket.
pub ghost struct TableView {
    pub nodes: Seq<NodeView>,
    pub current_ino: u64,
    pub bucket: Seq<char>,
}

/// The images of a run of nodes.
pub open spec fn nodes_view(s: Seq<FSNode>) -> Seq<NodeView> {
    s.map_values(|n: FSNode| n@)
}

impl<C> View for ObjectFS<C> {
    type V = TableView;

    open spec fn view(&self) -> TableView {
        TableView {
            nodes: nodes_view(self.nodes@),
            current_ino: self.current_ino,
            bucket: self.bucket@,
        }
    }
}

pub proof fn lemma_nodes_view_push(s: Seq<FSNode>, n: FSNode)
    ensures
        nodes_view(s.push(n)) == nodes_view(s).push(n@),
{
    assert(nodes_view(s.push(n)) =~= nodes_view(s).push(n@));
}

pub proof fn lemma_nodes_view_remove(s: Seq<FSNode>, i: int)
    requires
        0 <= i < s.len(),
    ensures
        nodes_view(s.remove(i)) == nodes_view(s).remove(i),
{
    assert(nodes_view(s.remove(i)) =~= nodes_view(s).remove(i));
}

/// Position of the first node carrying `ino`, or -1.
pub open spec fn ino_index(nodes: Seq<NodeView>, ino: u64) -> int
    decreases nodes.len(),
{
    if nodes.len() == 0 {
        -1
    } else if nodes[0].attr.ino == ino {
        0
    } else if ino_index(nodes.drop_first(), ino) == -1 {
        -1
    } else {
        ino_index(nodes.drop_first(), ino) + 1
    }
}

/// Position of the first node carrying `key`, or -1.
pub open spec fn key_index(nodes: Seq<NodeView>, key: Seq<char>) -> int
    decreases nodes.len(),
{
    if nodes.len() == 0 {
        -1
    } else if nodes[0].key == key {
        0
    } else if key_index(nodes.drop_first(), key) == -1 {
        -1
    } else {
        key_index(nodes.drop_first(), key) + 1
    }
}

/// The first node carrying `ino`, if any.
pub open spec fn node_with_ino(nodes: Seq<NodeView>, ino: u64) -> Option<NodeView> {
    if ino_index(nodes, ino) >= 0 {
        Option::Some(nodes[ino_index(nodes, ino)])
    } else {
        Option::None
    }
}

/// The first node carrying `key`, if any.
pub open spec fn node_with_key(nodes: Seq<NodeView>, key: Seq<char>) -> Option<NodeView> {
    if key_index(nodes, key) >= 0 {
        Option::Some(nodes[key_index(nodes, key)])
    } else {
        Option::None
    }
}

/// The nodes whose parent field is `parent`, in table order.
pub open spec fn children_of(nodes: Seq<NodeView>, parent: u64) -> Seq<NodeView>
    decreases nodes.len(),
{
    if nodes.len() == 0 {
        Seq::empty()
    } else {
        let rest = children_of(nodes.drop_last(), parent);
        if nodes.last().parent == parent {
            rest.push(nodes.last())
        } else {
            rest
        }
    }
}

pub proof fn lemma_ino_index(nodes: Seq<NodeView>, ino: u64)
    ensures
        -1 <= ino_index(nodes, ino) < nodes.len(),
        ino_index(nodes, ino) >= 0 ==> nodes[ino_index(nodes, ino)].attr.ino == ino,
        forall|j: int| 0 <= j < ino_index(nodes, ino) ==> nodes[j].attr.ino != ino,
        ino_index(nodes, ino) == -1 ==> forall|j: int|
            0 <= j < nodes.len() ==> nodes[j].attr.ino != ino,
    decreases nodes.len(),
{
    if nodes.len() > 0 && nodes[0].attr.ino != ino {
        let rest = nodes.drop_first();
        lemma_ino_index(rest, ino);
        let r = ino_index(rest, ino);
        if r >= 0 {
            assert(nodes[r + 1] == rest[r]);
            assert forall|j: int| 0 <= j < r + 1 implies nodes[j].attr.ino != ino by {
                if j > 0 {
                    assert(rest[j - 1] == nodes[j]);
                }
            }
        } else {
            assert forall|j: int| 0 <= j < nodes.len() implies nodes[j].attr.ino != ino by {
                if j > 0 {
                    assert(rest[j - 1] == nodes[j]);
                }
            }
        }
    }
}

/// A node at `i` with no earlier match pins the first position.
pub proof fn lemma_ino_index_at(nodes: Seq<NodeView>, ino: u64, i: int)
    requires
        0 <= i < nodes.len(),
        nodes[i].attr.ino == ino,
        forall|j: int| 0 <= j < i ==> nodes[j].attr.ino != ino,
    ensures
        ino_index(nodes, ino) == i,
    decreases nodes.len(),
{
    if i > 0 {
        assert(forall|j: int|
            0 <= j < nodes.drop_first().len() ==> nodes.drop_first()[j] == nodes[j + 1]);
        lemma_ino_index_at(nodes.drop_first(), ino, i - 1);
    }
}

pub proof fn lemma_key_index(nodes: Seq<NodeView>, key: Seq<char>)
    ensures
        -1 <= key_index(nodes, key) < nodes.len(),
        key_index(nodes, key) >= 0 ==> nodes[key_index(nodes, key)].key == key,
        forall|j: int| 0 <= j < key_index(nodes, key) ==> nodes[j].key != key,
        key_index(nodes, key) == -1 ==> forall|j: int|
            0 <= j < nodes.len() ==> nodes[j].key != key,
    decreases nodes.len(),
{
    if nodes.len() > 0 && nodes[0].key != key {
        let rest = nodes.drop_first();
        lemma_key_index(rest, key);
        let r = key_index(rest, key);
        if r >= 0 {
            assert(nodes[r + 1] == rest[r]);
            assert forall|j: int| 0 <= j < r + 1 implies nodes[j].key != key by {
                if j > 0 {
                    assert(rest[j - 1] == nodes[j]);
                }
            }
        } else {
            assert forall|j: int| 0 <= j < nodes.len() implies nodes[j].key != key by {
                if j > 0 {
                    assert(rest[j - 1] == nodes[j]);
                }
            }
        }
    }
}

/// A node at `i` with no earlier match pins the first position.
pub proof fn lemma_key_index_at(nodes: Seq<NodeView>, key: Seq<char>, i: int)
    requires
        0 <= i < nodes.len(),
        nodes[i].key == key,
        forall|j: int| 0 <= j < i ==> nodes[j].key != key,
    ensures
        key_index(nodes, key) == i,
    decreases nodes.len(),
{
    if i > 0 {
        assert(forall|j: int|
            0 <= j < nodes.drop_first().len() ==> nodes.drop_first()[j] == nodes[j + 1]);
        lemma_key_index_at(nodes.drop_first(), key, i - 1);
    }
}

/// Appending a node moves no existing first match and can only fill a miss.
pub proof fn lemma_ino_index_push(nodes: Seq<NodeView>, n: NodeView, ino: u64)
    ensures
        ino_index(nodes, ino) >= 0 ==> ino_index(nodes.push(n), ino) == ino_index(nodes, ino),
        ino_index(nodes, ino) == -1 && n.attr.ino == ino ==> ino_index(nodes.push(n), ino)
            == nodes.len(),
        ino_index(nodes, ino) == -1 && n.attr.ino != ino ==> ino_index(nodes.push(n), ino) == -1,
{
    lemma_ino_index(nodes, ino);
    if ino_index(nodes, ino) >= 0 {
        lemma_ino_index_at(nodes.push(n), ino, ino_index(nodes, ino));
    } else if n.attr.ino == ino {
        lemma_ino_index_at(nodes.push(n), ino, nodes.len() as int);
    } else {
        lemma_ino_index(nodes.push(n), ino);
        if ino_index(nodes.push(n), ino) >= 0 {
            assert(nodes.push(n)[ino_index(nodes.push(n), ino)].attr.ino == ino);
            assert(false);
        }
    }
}

/// Appending a node moves no existing first match and can only fill a miss.
pub proof fn lemma_key_index_push(nodes: Seq<NodeView>, n: NodeView, key: Seq<char>)
    ensures
        key_index(nodes, key) >= 0 ==> key_index(nodes.push(n), key) == key_index(nodes, key),
        key_index(nodes, key) == -1 && n.key == key ==> key_index(nodes.push(n), key)
            == nodes.len(),
        key_index(nodes, key) == -1 && n.key != key ==> key_index(nodes.push(n), key) == -1,
{
    lemma_key_index(nodes, key);
    if key_index(nodes, key) >= 0 {
        lemma_key_index_at(nodes.push(n), key, key_index(nodes, key));
    } else if n.key == key {
        lemma_key_index_at(nodes.push(n), key, nodes.len() as int);
    } else {
        lemma_key_index(nodes.push(n), key);
        if key_index(nodes.push(n), key) >= 0 {
            assert(nodes.push(n)[key_index(nodes.push(n), key)].key == key);
            assert(false);
        }
    }
}

/// The root record a fresh table is seeded with.
pub open spec fn root_node_view(now: u64) -> NodeView {
    NodeView {
        attr: FileAttr {
            ino: ROOT_INO,
            size: 0,
            blksize: 0,
            blocks: 0,
            atime: now,
            mtime: now,
            ctime: now,
            crtime: now,
            kind: FileType::Directory,
            perm: 0o755,
            nlink: 2,
            uid: 0,
            gid: 0,
            rdev: 0,
            flags: 0,
        },
        key: Seq::empty(),
        name: Seq::empty(),
        parent: 0,
    }
}

/// The file record the indexer would create next for `o` under `parent`.
pub open spec fn mk_file_node(t: TableView, o: ObjectView, parent: u64, now: u64) -> NodeView {
    NodeView {
        attr: FileAttr {
            ino: (t.current_ino + 1) as u64,
            size: o.size as u64,
            blksize: 0,
            blocks: 0,
            atime: o.modified_time,
            mtime: now,
            ctime: now,
            crtime: now,
            kind: FileType::RegularFile,
            perm: 0o755,
            nlink: 1,
            uid: 0,
            gid: 0,
            rdev: 0,
            flags: 0,
        },
        key: o.key,
        name: basename(o.key),
        parent,
    }
}

/// The directory record the indexer would create next for `o` under `parent`:
/// the key loses one trailing slash and the kind is `Directory`.
pub open spec fn mk_dir_node(t: TableView, o: ObjectView, parent: u64, now: u64) -> NodeView {
    NodeView {
        attr: FileAttr {
            ino: (t.current_ino + 1) as u64,
            size: o.size as u64,
            blksize: 0,
            blocks: 0,
            atime: o.modified_time,
            mtime: now,
            ctime: now,
            crtime: now,
            kind: FileType::Directory,
            perm: 0o755,
            nlink: 1,
            uid: 0,
            gid: 0,
            rdev: 0,
            flags: 0,
        },
        key: strip_trailing_slash(o.key),
        name: basename(strip_trailing_slash(o.key)),
        parent,
    }
}

/// What indexing `o` as a file does: return the node already carrying the
/// key, or allocate and append a fresh file record.
pub open spec fn index_file_spec(t: TableView, o: ObjectView, parent: u64, now: u64) -> (
    TableView,
    NodeView,
) {
    let ki = key_index(t.nodes, o.key);
    if ki >= 0 {
        (t, t.nodes[ki])
    } else {
        let n = mk_file_node(t, o, parent, now);
        (
            TableView {
                nodes: t.nodes.push(n),
                current_ino: (t.current_ino + 1) as u64,
                bucket: t.bucket,
            },
            n,
        )
    }
}

/// What indexing `o` as a directory does, against the normalized key.
pub open spec fn index_directory_spec(t: TableView, o: ObjectView, parent: u64, now: u64) -> (
    TableView,
    NodeView,
) {
    let ki = key_index(t.nodes, strip_trailing_slash(o.key));
    if ki >= 0 {
        (t, t.nodes[ki])
    } else {
        let n = mk_dir_node(t, o, parent, now);
        (
            TableView {
                nodes: t.nodes.push(n),
                current_ino: (t.current_ino + 1) as u64,
                bucket: t.bucket,
            },
            n,
        )
    }
}

/// One step of the indexer's walk: the chain element equal to the object's
/// own key becomes a file, every other one a directory of size 0.
pub open spec fn chain_step(t: TableView, o: ObjectView, c: Seq<char>, parent: u64, now: u64) -> (
    TableView,
    NodeView,
) {
    if c == o.key {
        index_file_spec(
            t,
            ObjectView { key: c, size: o.size, modified_time: o.modified_time },
            parent,
            now,
        )
    } else {
        index_directory_spec(
            t,
            ObjectView { key: c, size: 0, modified_time: o.modified_time },
            parent,
            now,
        )
    }
}

/// The indexer's walk from chain position `i`, threading each step's inode
/// as the next step's parent.
pub open spec fn walk_chain(
    t: TableView,
    o: ObjectView,
    chain: Seq<Seq<char>>,
    i: int,
    parent: u64,
    now: u64,
) -> TableView
    decreases chain.len() - i,
{
    if i < 0 || i >= chain.len() {
        t
    } else {
        let sn = chain_step(t, o, chain[i], parent, now);
        walk_chain(sn.0, o, chain, i + 1, sn.1.attr.ino, now)
    }
}

/// What `index_object` does to the table: walk the key's whole chain from
/// the root.
pub open spec fn index_object_spec(t: TableView, o: ObjectView, now: u64) -> TableView {
    walk_chain(t, o, key_chain(o.key), 0, ROOT_INO, now)
}

/// A copy of a node, field by field.
fn clone_node(n: &FSNode) -> (r: FSNode)
    ensures
        r@ == n@,
{
    FSNode { attr: n.attr, key: n.key.clone(), name: n.name.clone(), parent: n.parent }
}

impl<C> ObjectFS<C> {
    /// A fresh table over `client` and `bucket`, seeded with the root
    /// directory at inode 1.
    pub fn new(client: C, bucket: &str, now: u64) -> (r: ObjectFS<C>)
        ensures
            r@.nodes == seq![root_node_view(now)],
            r@.current_ino == ROOT_INO,
            r@.bucket == bucket@,
    {
        let root_node = FSNode {
            attr: FileAttr {
                ino: ROOT_INO,
                size: 0,
                blksize: 0,
                blocks: 0,
                atime: now,
                mtime: now,
                ctime: now,
                crtime: now,
                kind: FileType::Directory,
                perm: 0o755,
                nlink: 2,
                uid: 0,
                gid: 0,
                rdev: 0,
                flags: 0,
            },
            key: String::new(),
            name: String::new(),
            parent: 0,
        };
        let mut nodes: Vec<FSNode> = Vec::new();
        nodes.push(root_node);
        let r = ObjectFS { client, bucket: String::from_str(bucket), current_ino: ROOT_INO, nodes };
        proof {
            assert(r@.nodes =~= seq![root_node_view(now)]);
        }
        r
    }

    /// Commit and return the next inode number.
    pub fn next_ino(&mut self) -> (r: u64)
        requires
            old(self)@.current_ino < u64::MAX,
        ensures
            r == old(self)@.current_ino + 1,
            final(self)@ == (TableView { current_ino: r, ..old(self)@ }),
            final(self).client == old(self).client,
    {
        self.current_ino = self.current_ino + 1;
        self.current_ino
    }

    /// The first node carrying `ino`, if any.
    pub fn get(&self, ino: u64) -> (r: Option<&FSNode>)
        ensures
            match r {
                Option::Some(n) => node_with_ino(self@.nodes, ino) == Option::Some(n@),
                Option::None => node_with_ino(self@.nodes, ino) is None,
            },
    {
        let n = self.nodes.len();
        let mut i: usize = 0;
        while i < n
            invariant
                i <= n,
                n == self.nodes.len(),
                forall|j: int| 0 <= j < i ==> self@.nodes[j].attr.ino != ino,
            decreases n - i,
        {
            if self.nodes[i].attr.ino == ino {
                proof {
                    lemma_ino_index_at(self@.nodes, ino, i as int);
                }
                return Some(&self.nodes[i]);
            }
            i = i + 1;
        }
        proof {
            lemma_ino_index(self@.nodes, ino);
        }
        None
    }

    /// The first node carrying `key`, if any; `key` is taken as given, with
    /// no trailing-slash normalization.
    pub fn get_by_key(&self, key: &str) -> (r: Option<FSNode>)
        ensures
            match r {
                Option::Some(n) => node_with_key(self@.nodes, key@) == Option::Some(n@),
                Option::None => node_with_key(self@.nodes, key@) is None,
            },
    {
        let n = self.nodes.len();
        let mut i: usize = 0;
        while i < n
            invariant
                i <= n,
                n == self.nodes.len(),
                forall|j: int| 0 <= j < i ==> self@.nodes[j].key != key@,
            decreases n - i,
        {
            if str_eq(self.nodes[i].key.as_str(), key) {
                proof {
                    lemma_key_index_at(self@.nodes, key@, i as int);
                }
                return Some(clone_node(&self.nodes[i]));
            }
            i = i + 1;
        }
        proof {
            lemma_key_index(self@.nodes, key@);
        }
        None
    }

    /// Every node whose parent field is `parent_ino`, in table order.
    pub fn get_children(&self, parent_ino: u64) -> (r: Vec<FSNode>)
        ensures
            nodes_view(r@) == children_of(self@.nodes, parent_ino),
    {
        let n = self.nodes.len();
        let mut children: Vec<FSNode> = Vec::new();
        let mut i: usize = 0;
        while i < n
            invariant
                i <= n,
                n == self.nodes.len(),
                nodes_view(children@) == children_of(self@.nodes.subrange(0, i as int),
                parent_ino),
            decreases n - i,
        {
            proof {
                assert(self@.nodes.subrange(0, i + 1).drop_last() =~= self@.nodes.subrange(
                    0,
                    i as int,
                ));
            }
            if self.nodes[i].parent == parent_ino {
                let c = clone_node(&self.nodes[i]);
                proof {
                    lemma_nodes_view_push(children@, c);
                }
                children.push(c);
            }
            i = i + 1;
        }
        proof {
            assert(self@.nodes.subrange(0, n as int) =~= self@.nodes);
        }
        children
    }

    /// A copy of the root node's attributes. The root must be present, as it
    /// is in every table built by `new`.
    pub fn get_root_attr(&self) -> (r: FileAttr)
        requires
            ino_index(self@.nodes, ROOT_INO) >= 0,
        ensures
            Option::Some(r) == match node_with_ino(self@.nodes, ROOT_INO) {
                Option::Some(n) => Option::Some(n.attr),
                Option::None => Option::None,
            },
    {
        let n = self.nodes.len();
        let mut i: usize = 0;
        while i < n
            invariant
                i <= n,
                n == self.nodes.len(),
                ino_index(self@.nodes, ROOT_INO) >= 0,
                forall|j: int| 0 <= j < i ==> self@.nodes[j].attr.ino != ROOT_INO,
            decreases n - i,
        {
            if self.nodes[i].attr.ino == ROOT_INO {
                proof {
                    lemma_ino_index_at(self@.nodes, ROOT_INO, i as int);
                }
                return self.nodes[i].attr;
            }
            i = i + 1;
        }
        proof {
            lemma_ino_index(self@.nodes, ROOT_INO);
        }
        unreached()
    }

    /// Install `node`; the caller guarantees its inode is fresh.
    pub fn insert(&mut self, node: FSNode)
        requires
            ino_index(old(self)@.nodes, node.attr.ino) == -1,
        ensures
            final(self)@ == (TableView { nodes: old(self)@.nodes.push(node@), ..old(self)@ }),
            final(self).client == old(self).client,
    {
        proof {
            lemma_nodes_view_push(self.nodes@, node);
        }
        self.nodes.push(node);
    }

    /// Take the first node carrying `ino` out of the table and hand it back.
    pub fn remove(&mut self, ino: u64) -> (r: Option<FSNode>)
        ensures
            match r {
                Option::Some(n) => {
                    let i = ino_index(old(self)@.nodes, ino);
                    &&& i >= 0
                    &&& n@ == old(self)@.nodes[i]
                    &&& final(self)@ == (TableView {
                        nodes: old(self)@.nodes.remove(i),
                        ..old(self)@
                    })
                },
                Option::None => {
                    &&& ino_index(old(self)@.nodes, ino) == -1
                    &&& final(self)@ == old(self)@
                },
            },
            final(self).client == old(self).client,
    {
        match self.find_ino_index(ino) {
            Option::Some(i) => {
                proof {
                    lemma_ino_index(self@.nodes, ino);
                    lemma_nodes_view_remove(self.nodes@, i as int);
                }
                let node = self.nodes.remove(i);
                Some(node)
            },
            Option::None => None,
        }
    }

    /// Position of the first node carrying `ino`, if any.
    fn find_ino_index(&self, ino: u64) -> (r: Option<usize>)
        ensures
            match r {
                Option::Some(i) => i == ino_index(self@.nodes, ino),
                Option::None => ino_index(self@.nodes, ino) == -1,
            },
    {
        let n = self.nodes.len();
        let mut i: usize = 0;
        while i < n
            invariant
                i <= n,
                n == self.nodes.len(),
                forall|j: int| 0 <= j < i ==> self@.nodes[j].attr.ino != ino,
            decreases n - i,
        {
            if self.nodes[i].attr.ino == ino {
                proof {
                    lemma_ino_index_at(self@.nodes, ino, i as int);
                }
                return Some(i);
            }
            i = i + 1;
        }
        proof {
            lemma_ino_index(self@.nodes, ino);
        }
        None
    }

    /// Empty the table. The allocator position is kept.
    pub fn clear(&mut self)
        ensures
            final(self)@ == (TableView { nodes: Seq::empty(), ..old(self)@ }),
            final(self).client == old(self).client,
    {
        self.nodes.clear();
        proof {
            assert(nodes_view(Seq::empty()) =~= Seq::<NodeView>::empty());
        }
    }

    /// The prefix before the last separator of `path` (one trailing
    /// separator stripped first); none when the separator is absent or
    /// leads the path.
    pub fn get_parent(&self, path: &str) -> (r: Option<String>)
        ensures
            match r {
                Option::Some(p) => parent_of(path@) == Option::Some(p@),
                Option::None => parent_of(path@) is None,
            },
    {
        let n = path.unicode_len();
        let stripped: &str = if ends_with_slash(path) {
            path.substring_char(0, n - 1)
        } else {
            path
        };
        proof {
            crate::paths::lemma_last_slash(stripped@);
        }
        match find_last_slash(stripped) {
            Option::Some(pos) => {
                if pos > 0 {
                    Some(String::from_str(stripped.substring_char(0, pos)))
                } else {
                    None
                }
            },
            Option::None => None,
        }
    }

    /// The text after the last separator of `path`: the whole of `path`
    /// when it has none.
    pub fn get_name(&self, path: &str) -> (r: String)
        ensures
            r@ == basename(path@),
    {
        let n = path.unicode_len();
        proof {
            crate::paths::lemma_last_slash(path@);
        }
        match find_last_slash(path) {
            Option::Some(pos) => String::from_str(path.substring_char(pos + 1, n)),
            Option::None => String::from_str(path),
        }
    }

    /// Index `object` as a regular file under `parent`: hand back the node
    /// already carrying the key, or allocate, install and hand back a fresh
    /// file record.
    pub fn index_file(&mut self, object: &FSObject, parent: u64, now: u64) -> (r: FSNode)
        requires
            key_index(old(self)@.nodes, object@.key) == -1 ==> old(self)@.current_ino < u64::MAX,
        ensures
            final(self)@ == index_file_spec(old(self)@, object@, parent, now).0,
            r@ == index_file_spec(old(self)@, object@, parent, now).1,
            final(self).client == old(self).client,
    {
        if let Some(existing) = self.get_by_key(object.key.as_str()) {
            return existing;
        }
        proof {
            lemma_key_index(self@.nodes, object@.key);
        }
        let ino = self.next_ino();
        let name = self.get_name(object.key.as_str());
        let node = FSNode {
            attr: FileAttr {
                ino,
                size: #[verifier::truncate] (object.size as u64),
                blksize: 0,
                blocks: 0,
                atime: object.modified_time,
                mtime: now,
                ctime: now,
                crtime: now,
                kind: FileType::RegularFile,
                perm: 0o755,
                nlink: 1,
                uid: 0,
                gid: 0,
                rdev: 0,
                flags: 0,
            },
            key: object.key.clone(),
            name,
            parent,
        };
        let r = clone_node(&node);
        proof {
            lemma_nodes_view_push(self.nodes@, node);
        }
        self.nodes.push(node);
        r
    }

    /// Index `object` as a directory under `parent`, against the key with
    /// one trailing separator stripped.
    pub fn index_directory(&mut self, object: &FSObject, parent: u64, now: u64) -> (r: FSNode)
        requires
            key_index(old(self)@.nodes, strip_trailing_slash(object@.key)) == -1 ==> old(
                self,
            )@.current_ino < u64::MAX,
        ensures
            final(self)@ == index_directory_spec(old(self)@, object@, parent, now).0,
            r@ == index_directory_spec(old(self)@, object@, parent, now).1,
            final(self).client == old(self).client,
    {
        let n = object.key.unicode_len();
        let full: &str = object.key.as_str();
        let key: &str = if ends_with_slash(full) {
            full.substring_char(0, n - 1)
        } else {
            full
        };
        if let Some(existing) = self.get_by_key(key) {
            return existing;
        }
        proof {
            lemma_key_index(self@.nodes, key@);
        }
        let ino = self.next_ino();
        let name = self.get_name(key);
        let node = FSNode {
            attr: FileAttr {
                ino,
                size: #[verifier::truncate] (object.size as u64),
                blksize: 0,
                blocks: 0,
                atime: object.modified_time,
                mtime: now,
                ctime: now,
                crtime: now,
                kind: FileType::Directory,
                perm: 0o755,
                nlink: 1,
                uid: 0,
                gid: 0,
                rdev: 0,
                flags: 0,
            },
            key: String::from_str(key),
            name,
            parent,
        };
        let r = clone_node(&node);
        proof {
            lemma_nodes_view_push(self.nodes@, node);
        }
        self.nodes.push(node);
        r
    }

    /// Index one listed object: collect the chain of parent prefixes of its
    /// key, then walk the chain from the root, indexing every inner element
    /// as a directory and the key itself as a file, threading each step's
    /// inode as the next step's parent.
    pub fn index_object(&mut self, object: &FSObject, now: u64)
        requires
            old(self)@.current_ino + key_chain(object@.key).len() <= u64::MAX,
        ensures
            final(self)@ == index_object_spec(old(self)@, object@, now),
            final(self)@.bucket == old(self)@.bucket,
            final(self).client == old(self).client,
    {
        let ghost chain = key_chain(object@.key);
        let mut components: Vec<String> = Vec::new();
        let mut maybe_component: Option<String> = Some(object.key.clone());
        loop
            invariant
                match maybe_component {
                    Option::Some(c) => chain == key_chain(c@) + components@.map_values(
                        |s: String| s@,
                    ).reverse(),
                    Option::None => chain == components@.map_values(|s: String| s@).reverse(),
                },
            ensures
                chain == components@.map_values(|s: String| s@).reverse(),
            decreases (match maybe_component {
                Option::Some(c) => c@.len() + 1,
                Option::None => 0,
            }),
        {
            match maybe_component {
                Option::None => { break ; },
                Option::Some(component) => {
                    proof {
                        crate::paths::lemma_last_slash(strip_trailing_slash(component@));
                        let rv = components@.map_values(|s: String| s@).reverse();
                        let rv2 = components@.push(component).map_values(
                            |s: String| s@,
                        ).reverse();
                        assert(rv2 =~= seq![component@] + rv);
                        match parent_of(component@) {
                            Option::Some(p) => {
                                assert(key_chain(component@) == key_chain(p).push(component@));
                                assert(key_chain(p).push(component@) + rv =~= key_chain(p) + (
                                seq![component@] + rv));
                            },
                            Option::None => {
                                assert(key_chain(component@) == seq![component@]);
                                assert(seq![component@] + rv =~= seq![component@] + rv);
                            },
                        }
                    }
                    components.push(component.clone());
                    maybe_component = self.get_parent(component.as_str());
                },
            }
        }
        let n = components.len();
        let mut parent_ino: u64 = ROOT_INO;
        let mut idx: usize = 0;
        proof {
            assert(chain.len() == n);
            assert(forall|j: int|
                0 <= j < n ==> chain[j] == components@.map_values(|s: String| s@)[n - 1 - j]);
        }
        while idx < n
            invariant
                idx <= n,
                n == components.len(),
                n == chain.len(),
                chain == key_chain(object@.key),
                forall|j: int| 0 <= j < n ==> chain[j] == #[trigger] components@[n - 1 - j]@,
                walk_chain(old(self)@, object@, chain, 0, ROOT_INO, now) == walk_chain(
                    self@,
                    object@,
                    chain,
                    idx as int,
                    parent_ino,
                    now,
                ),
                self@.current_ino + (n - idx) <= u64::MAX,
                self@.bucket == old(self)@.bucket,
                self.client == old(self).client,
            decreases n - idx,
        {
            let component: &String = &components[n - 1 - idx];
            let is_file = str_eq(component.as_str(), object.key.as_str());
            let node = if is_file {
                self.index_file(
                    &FSObject {
                        key: component.clone(),
                        size: object.size,
                        modified_time: object.modified_time,
                    },
                    parent_ino,
                    now,
                )
            } else {
                self.index_directory(
                    &FSObject { key: component.clone(), size: 0, modified_time: object.modified_time },
                    parent_ino,
                    now,
                )
            };
            parent_ino = node.attr.ino;
            idx = idx + 1;
        }
    }
}

} // verus!
