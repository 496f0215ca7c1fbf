//! Data model of the namespace: node records, their attributes, the
//! indexer's input objects, and the error type of the object-store port.

use vstd::prelude::*;

verus! {

/// The kind of a node in the namespace.
#[derive(Clone, Copy, Debug, PartialEq, Eq, Structural)]
pub enum FileType {
    Directory,
    RegularFile,
}

/// POSIX-ish attributes of a node. Timestamps count seconds since the epoch.
#[derive(Clone, Copy, Debug, PartialEq, Eq, Structural)]
pub struct FileAttr {
    pub ino: u64,
    pub size: u64,
    pub blksize: u32,
    pub blocks: u64,
    pub atime: u64,
    pub mtime: u64,
    pub ctime: u64,
    pub crtime: u64,
    pub kind: FileType,
    pub perm: u16,
    pub nlink: u32,
    pub uid: u32,
    pub gid: u32,
    pub rdev: u32,
    pub flags: u32,
}

/// A node of the namespace: its attributes, the object key it stands for,
/// its final path component, and the inode of its parent (0 for the root).
#[derive(Clone, Debug)]
pub struct FSNode {
    pub attr: FileAttr,
    pub key: String,
    pub name: String,
    pub parent: u64,
}

/// The mathematical image of a node: keys and names as character sequences.
pub ghost struct NodeView {
    pub attr: FileAttr,
    pub key: Seq<char>,
    pub name: Seq<char>,
    pub parent: u64,
}

impl View for FSNode {
    type V = NodeView;

    open spec fn view(&self) -> NodeView {
        NodeView { attr: self.attr, key: self.key@, name: self.name@, parent: self.parent }
    }
}

/// The indexer's input: a listed object. `size` comes signed from the store;
/// `modified_time` counts seconds since the epoch.
pub struct FSObject {
    pub key: String,
    pub size: i64,
    pub modified_time: u64,
}

/// The mathematical image of a listed object.
pub ghost struct ObjectView {
    pub key: Seq<char>,
    pub size: i64,
    pub modified_time: u64,
}

impl View for FSObject {
    type V = ObjectView;

    open spec fn view(&self) -> ObjectView {
        ObjectView { key: self.key@, size: self.size, modified_time: self.modified_time }
    }
}

/// The error carried by the object-store port.
#[derive(Debug)]
pub struct FSError {
    pub message: String,
}

impl FSError {
    /// The error's text, for callers that report it.
    pub fn description(&self) -> (r: &str)
        ensures
            r@ == self.message@,
    {
        self.message.as_str()
    }
}

} // verus!
