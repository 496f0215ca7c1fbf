//! The table's invariants and the proofs that the operations keep them:
//! every non-root node hangs under a present directory, every non-root key
//! is slash-normalized with its basename as the node's name, inodes and keys
//! are unique, and indexing preserves all of it.

use vstd::prelude::*;

use crate::fs::{
    chain_step, children_of, index_directory_spec, index_file_spec, index_object_spec, ino_index,
    key_index, lemma_ino_index, lemma_ino_index_at, lemma_ino_index_push, lemma_key_index,
    lemma_key_index_push, mk_dir_node, mk_file_node, node_with_ino, node_with_key, root_node_view,
    walk_chain, TableView, ROOT_INO,
};
use crate::fuse::{child_key_in, entry_list, last_key_index, lookup_spec, readdir_spec, root_attr};
use crate::model::{FileAttr, FileType, NodeView, ObjectView};
use crate::paths::{
    basename, key_chain, lemma_basename, lemma_key_chain_lens, lemma_key_chain_props, slash_count,
    strip_trailing_slash, valid_key,
};

verus! {

/// No two nodes share an inode.
pub open spec fn unique_inos(nodes: Seq<NodeView>) -> bool {
    forall|i: int, j: int| 0 <= i < j < nodes.len() ==> nodes[i].attr.ino != nodes[j].attr.ino
}

/// No two nodes share a key.
pub open spec fn unique_keys(nodes: Seq<NodeView>) -> bool {
    forall|i: int, j: int| 0 <= i < j < nodes.len() ==> nodes[i].key != nodes[j].key
}

/// The root record: inode 1, parent 0, empty key and name, a directory.
pub open spec fn is_root_node(n: NodeView) -> bool {
    &&& n.attr.ino == ROOT_INO
    &&& n.parent == 0
    &&& n.key == Seq::<char>::empty()
    &&& n.name == Seq::<char>::empty()
    &&& n.attr.kind == FileType::Directory
}

/// The shape of a non-root node: a nonempty key without a trailing
/// separator, the name equal to the key's basename, no separator in the
/// name.
pub open spec fn node_shape_ok(n: NodeView) -> bool {
    &&& n.key.len() > 0
    &&& n.key[n.key.len() - 1] != '/'
    &&& n.name == basename(n.key)
    &&& forall|j: int| 0 <= j < n.name.len() ==> n.name[j] != '/'
}

/// The parent link of a non-root node: its parent inode is present in the
/// table and names a directory.
pub open spec fn parent_link_ok(nodes: Seq<NodeView>, n: NodeView) -> bool {
    match node_with_ino(nodes, n.parent) {
        Option::Some(p) => p.attr.kind == FileType::Directory,
        Option::None => false,
    }
}

/// Well-formedness of the whole table: the root is present and every node
/// carrying inode 1 is the root record; inodes are unique, positive and
/// bounded by the allocator; keys are unique; and every non-root node has a
/// sound shape and parent link.
pub open spec fn table_wf(t: TableView) -> bool {
    &&& t.current_ino >= 1
    &&& ino_index(t.nodes, ROOT_INO) >= 0
    &&& unique_inos(t.nodes)
    &&& unique_keys(t.nodes)
    &&& forall|i: int|
        0 <= i < t.nodes.len() ==> 1 <= (#[trigger] t.nodes[i]).attr.ino <= t.current_ino
    &&& forall|i: int|
        0 <= i < t.nodes.len() && (#[trigger] t.nodes[i]).attr.ino == ROOT_INO ==> is_root_node(
            t.nodes[i],
        )
    &&& forall|i: int|
        0 <= i < t.nodes.len() && (#[trigger] t.nodes[i]).attr.ino != ROOT_INO ==> node_shape_ok(
            t.nodes[i],
        ) && parent_link_ok(t.nodes, t.nodes[i])
}

/// A fresh table is well formed.
pub proof fn lemma_fresh_table_wf(now: u64, bucket: Seq<char>)
    ensures
        table_wf(
            TableView { nodes: seq![root_node_view(now)], current_ino: ROOT_INO, bucket },
        ),
{
    let t = TableView { nodes: seq![root_node_view(now)], current_ino: ROOT_INO, bucket };
    assert(t.nodes[0].attr.ino == ROOT_INO);
    lemma_ino_index_at(t.nodes, ROOT_INO, 0);
}

/// The stated invariants, read off a well-formed table: every non-root
/// node's parent is present and is a directory, and every non-root node's
/// key has no trailing separator and has the node's name as its basename.
pub proof fn lemma_table_invariants(t: TableView, i: int)
    requires
        table_wf(t),
        0 <= i < t.nodes.len(),
        t.nodes[i].attr.ino != ROOT_INO,
    ensures
        node_with_ino(t.nodes, t.nodes[i].parent) is Some,
        node_with_ino(t.nodes, t.nodes[i].parent) matches Some(p) && p.attr.kind
            == FileType::Directory,
        t.nodes[i].key.len() > 0,
        t.nodes[i].key[t.nodes[i].key.len() - 1] != '/',
        basename(t.nodes[i].key) == t.nodes[i].name,
{
}

/// Under unique inodes, looking a node's own inode up finds that node.
pub proof fn lemma_node_with_ino_self(nodes: Seq<NodeView>, k: int)
    requires
        unique_inos(nodes),
        0 <= k < nodes.len(),
    ensures
        node_with_ino(nodes, nodes[k].attr.ino) == Option::Some(nodes[k]),
{
    let ino = nodes[k].attr.ino;
    lemma_ino_index(nodes, ino);
    if ino_index(nodes, ino) == -1 {
        assert(false);
    }
    let f = ino_index(nodes, ino);
    if f != k {
        assert(nodes[f].attr.ino == nodes[k].attr.ino);
        assert(false);
    }
}

/// Appending a fresh-inode, fresh-key node whose parent is a present
/// directory keeps the table well formed.
pub proof fn lemma_wf_push(t: TableView, n: NodeView, t2: TableView)
    requires
        table_wf(t),
        t.current_ino < u64::MAX,
        t2.nodes == t.nodes.push(n),
        t2.current_ino == t.current_ino + 1,
        n.attr.ino == t.current_ino + 1,
        key_index(t.nodes, n.key) == -1,
        node_shape_ok(n),
        node_with_ino(t.nodes, n.parent) matches Some(p) && p.attr.kind == FileType::Directory,
    ensures
        table_wf(t2),
{
    let nodes = t.nodes;
    let len = nodes.len() as int;
    lemma_ino_index(nodes, ROOT_INO);
    lemma_key_index(nodes, n.key);
    lemma_ino_index_push(nodes, n, ROOT_INO);
    // inode uniqueness: the fresh inode exceeds every bound
    assert forall|i: int, j: int| 0 <= i < j < t2.nodes.len() implies t2.nodes[i].attr.ino
        != t2.nodes[j].attr.ino by {
        if j == len {
            assert(t2.nodes[i] == nodes[i]);
        }
    }
    // key uniqueness: the key was absent
    assert forall|i: int, j: int| 0 <= i < j < t2.nodes.len() implies t2.nodes[i].key
        != t2.nodes[j].key by {
        if j == len {
            assert(t2.nodes[i] == nodes[i]);
        }
    }
    // parent links survive the push, and the new node's holds too
    assert forall|i: int|
        0 <= i < t2.nodes.len() && (#[trigger] t2.nodes[i]).attr.ino != ROOT_INO implies
        node_shape_ok(t2.nodes[i]) && parent_link_ok(t2.nodes, t2.nodes[i]) by {
        if i < len {
            assert(t2.nodes[i] == nodes[i]);
            let pi = nodes[i].parent;
            lemma_ino_index(nodes, pi);
            lemma_ino_index_push(nodes, n, pi);
        } else {
            let pi = n.parent;
            lemma_ino_index(nodes, pi);
            lemma_ino_index_push(nodes, n, pi);
        }
    }
    assert forall|i: int|
        0 <= i < t2.nodes.len() && (#[trigger] t2.nodes[i]).attr.ino == ROOT_INO implies
        is_root_node(t2.nodes[i]) by {
        if i < len {
            assert(t2.nodes[i] == nodes[i]);
        }
    }
}

/// Indexing a file whose key is nonempty and slash-normalized, under a
/// present directory, keeps the table well formed.
pub proof fn lemma_index_file_preserves_wf(t: TableView, o: ObjectView, parent: u64, now: u64)
    requires
        table_wf(t),
        t.current_ino < u64::MAX,
        node_with_ino(t.nodes, parent) matches Some(p) && p.attr.kind == FileType::Directory,
        o.key.len() > 0,
        o.key[o.key.len() - 1] != '/',
    ensures
        table_wf(index_file_spec(t, o, parent, now).0),
{
    lemma_key_index(t.nodes, o.key);
    if key_index(t.nodes, o.key) >= 0 {
    } else {
        let n = mk_file_node(t, o, parent, now);
        lemma_basename(o.key);
        lemma_wf_push(t, n, index_file_spec(t, o, parent, now).0);
    }
}

/// Indexing a directory whose normalized key is nonempty and
/// slash-normalized, under a present directory, keeps the table well
/// formed.
pub proof fn lemma_index_directory_preserves_wf(t: TableView, o: ObjectView, parent: u64, now: u64)
    requires
        table_wf(t),
        t.current_ino < u64::MAX,
        node_with_ino(t.nodes, parent) matches Some(p) && p.attr.kind == FileType::Directory,
        strip_trailing_slash(o.key).len() > 0,
        strip_trailing_slash(o.key)[strip_trailing_slash(o.key).len() - 1] != '/',
    ensures
        table_wf(index_directory_spec(t, o, parent, now).0),
{
    let k = strip_trailing_slash(o.key);
    lemma_key_index(t.nodes, k);
    if key_index(t.nodes, k) >= 0 {
    } else {
        let n = mk_dir_node(t, o, parent, now);
        lemma_basename(k);
        lemma_wf_push(t, n, index_directory_spec(t, o, parent, now).0);
    }
}

/// Every chain prefix short of the key itself that is already in the table
/// is a directory there.
pub open spec fn dir_prefixes_ok(t: TableView, chain: Seq<Seq<char>>, from: int) -> bool {
    forall|j: int|
        from <= j < chain.len() - 1 ==> match node_with_key(t.nodes, #[trigger] chain[j]) {
            Option::Some(n) => n.attr.kind == FileType::Directory,
            Option::None => true,
        }
}

/// The indexer's walk keeps the table well formed, provided the key is well
/// shaped, its already-present prefixes are directories, the threaded
/// parent is a present directory, and the allocator has headroom for the
/// remaining steps.
proof fn lemma_walk_preserves_wf(
    t: TableView,
    o: ObjectView,
    chain: Seq<Seq<char>>,
    i: int,
    parent: u64,
    now: u64,
)
    requires
        table_wf(t),
        valid_key(o.key),
        chain == key_chain(o.key),
        0 <= i <= chain.len(),
        t.current_ino + (chain.len() - i) <= u64::MAX,
        i < chain.len() ==> (node_with_ino(t.nodes, parent) matches Some(p) && p.attr.kind
            == FileType::Directory),
        dir_prefixes_ok(t, chain, i),
    ensures
        table_wf(walk_chain(t, o, chain, i, parent, now)),
    decreases chain.len() - i,
{
    lemma_key_chain_props(o.key);
    lemma_key_chain_lens(o.key);
    if i < chain.len() {
        let c = chain[i];
        let last = chain.len() - 1;
        let sn = chain_step(t, o, c, parent, now);
        // the chain element equal to the key is exactly the last one
        assert(chain[last] == o.key);
        if i < last {
            assert(c.len() < chain[last].len());
            assert(c != o.key);
        }
        // the step's lookup key: the element itself, already normalized
        assert(valid_key(c));
        assert(strip_trailing_slash(c) == c);
        let ki = key_index(t.nodes, c);
        lemma_key_index(t.nodes, c);
        if ki >= 0 {
            // hit: the table is unchanged and the found node is the next parent
            assert(sn.0 == t);
            assert(sn.1 == t.nodes[ki]);
            lemma_node_with_ino_self(t.nodes, ki);
            if i < last {
                assert(node_with_key(t.nodes, c) == Option::Some(t.nodes[ki]));
                assert(t.nodes[ki].attr.kind == FileType::Directory);
            }
            lemma_walk_preserves_wf(sn.0, o, chain, i + 1, sn.1.attr.ino, now);
        } else {
            // miss: a fresh node is pushed
            let n = sn.1;
            lemma_basename(c);
            if i == last {
                assert(n == mk_file_node(
                    t,
                    ObjectView { key: c, size: o.size, modified_time: o.modified_time },
                    parent,
                    now,
                ));
            } else {
                assert(n == mk_dir_node(
                    t,
                    ObjectView { key: c, size: 0, modified_time: o.modified_time },
                    parent,
                    now,
                ));
            }
            lemma_wf_push(t, n, sn.0);
            assert(sn.0.nodes == t.nodes.push(n));
            // the fresh node is found under its own inode
            lemma_node_with_ino_self(sn.0.nodes, t.nodes.len() as int);
            // remaining prefixes keep their status: their keys differ from the pushed one
            assert forall|j: int|
                i + 1 <= j < chain.len() - 1 implies match node_with_key(
                sn.0.nodes,
                #[trigger] chain[j],
            ) {
                Option::Some(m) => m.attr.kind == FileType::Directory,
                Option::None => true,
            } by {
                assert(chain[j].len() > c.len());
                assert(chain[j] != c);
                lemma_key_index_push(t.nodes, n, chain[j]);
                lemma_key_index(t.nodes, chain[j]);
                lemma_key_index(sn.0.nodes, chain[j]);
            }
            lemma_walk_preserves_wf(sn.0, o, chain, i + 1, n.attr.ino, now);
        }
    }
}

/// Indexing an object with a well-shaped key whose already-present prefixes
/// are directories keeps the table well formed — in particular, after it
/// every non-root node still hangs under a present directory and still has
/// a normalized key whose basename is its name.
pub proof fn lemma_index_object_preserves_wf(t: TableView, o: ObjectView, now: u64)
    requires
        table_wf(t),
        valid_key(o.key),
        dir_prefixes_ok(t, key_chain(o.key), 0),
        t.current_ino + key_chain(o.key).len() <= u64::MAX,
    ensures
        table_wf(index_object_spec(t, o, now)),
{
    let ri = ino_index(t.nodes, ROOT_INO);
    lemma_ino_index(t.nodes, ROOT_INO);
    lemma_node_with_ino_self(t.nodes, ri);
    lemma_walk_preserves_wf(t, o, key_chain(o.key), 0, ROOT_INO, now);
}

/// The key one walk step looks up: the object's own key on the file step,
/// the element stripped of one trailing separator otherwise.
pub open spec fn step_key(o: ObjectView, c: Seq<char>) -> Seq<char> {
    if c == o.key {
        c
    } else {
        strip_trailing_slash(c)
    }
}

/// Walking only adds nodes: a key present before a walk is present after it.
proof fn lemma_walk_monotone(
    t: TableView,
    o: ObjectView,
    chain: Seq<Seq<char>>,
    i: int,
    parent: u64,
    now: u64,
    k: Seq<char>,
)
    requires
        key_index(t.nodes, k) >= 0,
    ensures
        key_index(walk_chain(t, o, chain, i, parent, now).nodes, k) >= 0,
    decreases chain.len() - i,
{
    if 0 <= i < chain.len() {
        let c = chain[i];
        let sk = step_key(o, c);
        let sn = chain_step(t, o, c, parent, now);
        lemma_key_index(t.nodes, sk);
        if key_index(t.nodes, sk) >= 0 {
            assert(sn.0 == t);
        } else {
            assert(sn.0.nodes == t.nodes.push(sn.1));
            lemma_key_index_push(t.nodes, sn.1, k);
        }
        lemma_walk_monotone(sn.0, o, chain, i + 1, sn.1.attr.ino, now, k);
    }
}

/// After a walk from step `i`, the lookup key of every step from `i` on is
/// present in the table.
proof fn lemma_walk_all_present(
    t: TableView,
    o: ObjectView,
    chain: Seq<Seq<char>>,
    i: int,
    parent: u64,
    now: u64,
)
    requires
        0 <= i <= chain.len(),
    ensures
        forall|j: int|
            i <= j < chain.len() ==> key_index(
                walk_chain(t, o, chain, i, parent, now).nodes,
                step_key(o, #[trigger] chain[j]),
            ) >= 0,
    decreases chain.len() - i,
{
    if i < chain.len() {
        let c = chain[i];
        let sk = step_key(o, c);
        let sn = chain_step(t, o, c, parent, now);
        lemma_key_index(t.nodes, sk);
        if key_index(t.nodes, sk) >= 0 {
            assert(sn.0 == t);
        } else {
            assert(sn.1.key == sk);
            assert(sn.0.nodes == t.nodes.push(sn.1));
            lemma_key_index_push(t.nodes, sn.1, sk);
        }
        assert(key_index(sn.0.nodes, sk) >= 0);
        lemma_walk_monotone(sn.0, o, chain, i + 1, sn.1.attr.ino, now, sk);
        lemma_walk_all_present(sn.0, o, chain, i + 1, sn.1.attr.ino, now);
    }
}

/// A walk whose every lookup key is already present changes nothing.
proof fn lemma_walk_noop(
    t: TableView,
    o: ObjectView,
    chain: Seq<Seq<char>>,
    i: int,
    parent: u64,
    now: u64,
)
    requires
        0 <= i <= chain.len(),
        forall|j: int|
            i <= j < chain.len() ==> key_index(t.nodes, step_key(o, #[trigger] chain[j])) >= 0,
    ensures
        walk_chain(t, o, chain, i, parent, now) == t,
    decreases chain.len() - i,
{
    if i < chain.len() {
        let c = chain[i];
        let sk = step_key(o, c);
        assert(key_index(t.nodes, sk) >= 0);
        let sn = chain_step(t, o, c, parent, now);
        assert(sn.0 == t);
        lemma_walk_noop(t, o, chain, i + 1, sn.1.attr.ino, now);
    }
}

/// Indexing the same object twice leaves the table exactly as one indexing
/// left it, whatever clock values the two runs saw.
pub proof fn lemma_index_object_idempotent(t: TableView, o: ObjectView, now: u64, now2: u64)
    ensures
        index_object_spec(index_object_spec(t, o, now), o, now2) == index_object_spec(t, o, now),
{
    let chain = key_chain(o.key);
    lemma_walk_all_present(t, o, chain, 0, ROOT_INO, now);
    lemma_walk_noop(index_object_spec(t, o, now), o, chain, 0, ROOT_INO, now2);
}

/// From step `i` on, with every chain element absent, each step pushes one
/// fresh node; the nodes pushed are the chain elements in order, each
/// directory hanging under the step before it, and the one pushed last is
/// the regular file at the key.
proof fn lemma_walk_new(
    t: TableView,
    o: ObjectView,
    chain: Seq<Seq<char>>,
    i: int,
    parent: u64,
    now: u64,
)
    requires
        0 <= i <= chain.len(),
        chain.len() >= 1,
        chain[chain.len() - 1] == o.key,
        forall|j: int| 0 <= j < chain.len() ==> valid_key(#[trigger] chain[j]),
        forall|a: int, b: int| 0 <= a < b < chain.len() ==> chain[a].len() < chain[b].len(),
        t.current_ino + (chain.len() - i) <= u64::MAX,
        forall|j: int| i <= j < chain.len() ==> key_index(t.nodes, #[trigger] chain[j]) == -1,
    ensures
        walk_chain(t, o, chain, i, parent, now).nodes.len() == t.nodes.len() + (chain.len() - i),
        forall|k: int|
            0 <= k < t.nodes.len() ==> walk_chain(t, o, chain, i, parent, now).nodes[k]
                == t.nodes[k],
        forall|j: int|
            i <= j < chain.len() ==> {
                let wn = walk_chain(t, o, chain, i, parent, now).nodes[t.nodes.len() + (j - i)];
                &&& wn.key == #[trigger] chain[j]
                &&& wn.attr.ino == t.current_ino + 1 + (j - i)
                &&& wn.parent == if j == i {
                    parent
                } else {
                    (t.current_ino + (j - i)) as u64
                }
                &&& wn.attr.kind == if j == chain.len() - 1 {
                    FileType::RegularFile
                } else {
                    FileType::Directory
                }
                &&& wn.attr.size == if j == chain.len() - 1 {
                    o.size as u64
                } else {
                    0u64
                }
            },
    decreases chain.len() - i,
{
    if i < chain.len() {
        let c = chain[i];
        let last = chain.len() - 1;
        if i < last {
            assert(c.len() < chain[last].len());
            assert(c != o.key);
        }
        assert(valid_key(c));
        assert(strip_trailing_slash(c) == c);
        assert(step_key(o, c) == c);
        assert(key_index(t.nodes, c) == -1);
        let sn = chain_step(t, o, c, parent, now);
        assert(sn.0.nodes == t.nodes.push(sn.1));
        assert(sn.1.key == c);
        assert forall|j: int|
            i + 1 <= j < chain.len() implies key_index(sn.0.nodes, #[trigger] chain[j]) == -1 by {
            assert(chain[j].len() > c.len());
            assert(chain[j] != c);
            lemma_key_index_push(t.nodes, sn.1, chain[j]);
        }
        lemma_walk_new(sn.0, o, chain, i + 1, sn.1.attr.ino, now);
        let w = walk_chain(t, o, chain, i, parent, now);
        let rw = walk_chain(sn.0, o, chain, i + 1, sn.1.attr.ino, now);
        assert(w == rw);
        if i == last {
            assert(w == sn.0);
            assert(sn.0.nodes.last() == sn.1);
            assert(sn.1.attr.kind == FileType::RegularFile);
        }
        assert forall|k: int| 0 <= k < t.nodes.len() implies w.nodes[k] == t.nodes[k] by {
            assert(rw.nodes[k] == sn.0.nodes[k]);
            assert(sn.0.nodes[k] == t.nodes[k]);
        }
        assert(rw.nodes[t.nodes.len() as int] == sn.0.nodes[t.nodes.len() as int]);
        assert(w.nodes[t.nodes.len() as int] == sn.1);
        assert forall|j: int|
            i <= j < chain.len() implies {
            let wn = w.nodes[t.nodes.len() + (j - i)];
            &&& wn.key == #[trigger] chain[j]
            &&& wn.attr.ino == t.current_ino + 1 + (j - i)
            &&& wn.parent == if j == i {
                parent
            } else {
                (t.current_ino + (j - i)) as u64
            }
            &&& wn.attr.kind == if j == chain.len() - 1 {
                FileType::RegularFile
            } else {
                FileType::Directory
            }
            &&& wn.attr.size == if j == chain.len() - 1 {
                o.size as u64
            } else {
                0u64
            }
        } by {
            if j > i {
                let wn2 = rw.nodes[sn.0.nodes.len() + (j - (i + 1))];
                assert(wn2.key == chain[j]);
                assert(wn2 == w.nodes[t.nodes.len() + (j - i)]);
            }
        }
    }
}

/// Indexing an object whose key carries D separators, over a table where no
/// chain element is present yet, grows the table by exactly D + 1 nodes:
/// one directory per proper prefix of the key, outermost first, each one
/// the parent of the next, the first under the root, and last a regular
/// file at the key itself carrying the object's size.
pub proof fn lemma_index_object_new_nodes(t: TableView, o: ObjectView, now: u64)
    requires
        valid_key(o.key),
        t.current_ino + key_chain(o.key).len() <= u64::MAX,
        forall|j: int|
            0 <= j < key_chain(o.key).len() ==> key_index(
                t.nodes,
                #[trigger] key_chain(o.key)[j],
            ) == -1,
    ensures
        index_object_spec(t, o, now).nodes.len() == t.nodes.len() + slash_count(o.key) + 1,
        index_object_spec(t, o, now).nodes.last().attr.kind == FileType::RegularFile,
        index_object_spec(t, o, now).nodes.last().key == o.key,
        index_object_spec(t, o, now).nodes.last().attr.size == o.size as u64,
        forall|k: int|
            0 <= k < t.nodes.len() ==> index_object_spec(t, o, now).nodes[k] == t.nodes[k],
        forall|j: int|
            0 <= j < key_chain(o.key).len() ==> {
                let wn = index_object_spec(t, o, now).nodes[t.nodes.len() + j];
                &&& wn.key == #[trigger] key_chain(o.key)[j]
                &&& wn.attr.ino == t.current_ino + 1 + j
                &&& wn.parent == if j == 0 {
                    ROOT_INO
                } else {
                    (t.current_ino + j) as u64
                }
                &&& wn.attr.kind == if j == key_chain(o.key).len() - 1 {
                    FileType::RegularFile
                } else {
                    FileType::Directory
                }
            },
{
    lemma_key_chain_props(o.key);
    lemma_key_chain_lens(o.key);
    lemma_walk_new(t, o, key_chain(o.key), 0, ROOT_INO, now);
    let t2 = index_object_spec(t, o, now);
    let ch = key_chain(o.key);
    assert(t2.nodes.last() == t2.nodes[t.nodes.len() + (ch.len() - 1)]);
}

/// Creating a file and then resolving its name finds it: over a well-formed
/// table, with a separator-free nonempty name whose child key is not yet
/// taken, looking the name up under the same parent in the table that
/// indexing the new file leaves behind answers exactly the new node's
/// attributes.
pub proof fn lemma_mknod_then_lookup(t: TableView, parent: u64, name: Seq<char>, now: u64)
    requires
        table_wf(t),
        ino_index(t.nodes, parent) >= 0,
        name.len() > 0,
        forall|j: int| 0 <= j < name.len() ==> name[j] != '/',
        t.current_ino < u64::MAX,
        key_index(
            t.nodes,
            child_key_in(t, t.nodes[ino_index(t.nodes, parent)], name),
        ) == -1,
    ensures
        ({
            let pn = t.nodes[ino_index(t.nodes, parent)];
            let o = ObjectView { key: child_key_in(t, pn, name), size: 0, modified_time: now };
            lookup_spec(index_file_spec(t, o, parent, now).0, parent, name)
                == Result::<FileAttr, i32>::Ok(index_file_spec(t, o, parent, now).1.attr)
        }),
{
    let pi = ino_index(t.nodes, parent);
    lemma_ino_index(t.nodes, parent);
    let pn = t.nodes[pi];
    assert(pn.attr.ino == parent);
    let ck = child_key_in(t, pn, name);
    let o = ObjectView { key: ck, size: 0, modified_time: now };
    lemma_key_index(t.nodes, ck);
    let n = mk_file_node(t, o, parent, now);
    let t2 = index_file_spec(t, o, parent, now).0;
    assert(t2.nodes == t.nodes.push(n));
    lemma_ino_index(t.nodes, ROOT_INO);
    lemma_ino_index_push(t.nodes, n, ROOT_INO);
    assert(root_attr(t2) == root_attr(t));
    let ra = root_attr(t);
    assert(ra.ino == ROOT_INO);
    reveal_strlit("/");
    if parent == ra.ino && name == ("/")@ {
        assert(name[0] == '/');
        assert(false);
    }
    lemma_ino_index_push(t.nodes, n, parent);
    assert(node_with_ino(t2.nodes, parent) == Option::Some(pn));
    assert(child_key_in(t2, pn, name) == ck);
    let cs = children_of(t.nodes, parent);
    assert(t2.nodes.drop_last() =~= t.nodes);
    assert(children_of(t2.nodes, parent) == cs.push(n));
    assert(last_key_index(cs.push(n), ck) == cs.len());
    assert(cs.push(n)[cs.len() as int] == n);
}

/// Creating a directory under an empty root and then listing the root from
/// offset zero yields `.`, `..`, and exactly one child: the created node.
pub proof fn lemma_mkdir_then_readdir(t: TableView, name: Seq<char>, now: u64)
    requires
        table_wf(t),
        children_of(t.nodes, ROOT_INO).len() == 0,
        name.len() > 0,
        forall|j: int| 0 <= j < name.len() ==> name[j] != '/',
        t.current_ino < u64::MAX,
        key_index(t.nodes, name + seq!['/'] + ".keep"@) == -1,
    ensures
        ({
            let o = ObjectView {
                key: name + seq!['/'] + ".keep"@,
                size: 0,
                modified_time: now,
            };
            let t2 = index_directory_spec(t, o, ROOT_INO, now).0;
            let es = readdir_spec(t2, ROOT_INO, 0);
            &&& es.len() == 3
            &&& es[0].name == "."@
            &&& es[1].name == ".."@
            &&& es[2].ino == index_directory_spec(t, o, ROOT_INO, now).1.attr.ino
            &&& es[2].kind == FileType::Directory
        }),
{
    let mk = name + seq!['/'] + ".keep"@;
    let o = ObjectView { key: mk, size: 0, modified_time: now };
    reveal_strlit(".keep");
    assert(mk[mk.len() - 1] == (".keep")@[4]);
    assert(mk[mk.len() - 1] != '/');
    assert(strip_trailing_slash(mk) == mk);
    lemma_key_index(t.nodes, mk);
    let n = mk_dir_node(t, o, ROOT_INO, now);
    let t2 = index_directory_spec(t, o, ROOT_INO, now).0;
    assert(t2.nodes == t.nodes.push(n));
    assert(t2.nodes.drop_last() =~= t.nodes);
    assert(children_of(t2.nodes, ROOT_INO) == children_of(t.nodes, ROOT_INO).push(n));
    let es = entry_list(t2, ROOT_INO);
    assert(es.len() == 3);
    assert(readdir_spec(t2, ROOT_INO, 0) =~= es);
    assert(es[2].ino == n.attr.ino);
    assert(es[2].kind == n.attr.kind);
}

} // verus!
