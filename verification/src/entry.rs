//! Value types shared by the merger and its callers: tree entries, entry
//! pairs, full-path construction, and the mode classifier.

use vstd::prelude::*;

verus! {

/// Format mask: the high bits of a mode that classify the entry kind.
pub const S_IFMT: u32 = 0o170000;

/// Format value, under `S_IFMT`, that marks a directory entry.
pub const S_IFDIR: u32 = 0o040000;

/// The path separator joining a prefix to a local name.
pub const SLASH: u8 = 47;

/// One immediate child of a tree, as the tree source lists it: local
/// name, mode bits, and an opaque content identifier.
#[derive(Clone, Debug, PartialEq, Eq)]
pub struct RawEntry {
    pub name: Vec<u8>,
    pub mode: u32,
    pub oid: Vec<u8>,
}

/// Mathematical image of a [`RawEntry`].
pub struct RawEntryView {
    pub name: Seq<u8>,
    pub mode: u32,
    pub oid: Seq<u8>,
}

impl View for RawEntry {
    type V = RawEntryView;

    open spec fn view(&self) -> RawEntryView {
        RawEntryView { name: self.name@, mode: self.mode, oid: self.oid@ }
    }
}

/// One child within a tree, carrying its full slash-joined path from the
/// tree root rather than just the local name.
#[derive(Clone, Debug, PartialEq, Eq)]
pub struct TreeEntry {
    pub path: Vec<u8>,
    pub mode: u32,
    pub oid: Vec<u8>,
}

/// Mathematical image of a [`TreeEntry`].
pub struct TreeEntryView {
    pub path: Seq<u8>,
    pub mode: u32,
    pub oid: Seq<u8>,
}

impl View for TreeEntry {
    type V = TreeEntryView;

    open spec fn view(&self) -> TreeEntryView {
        TreeEntryView { path: self.path@, mode: self.mode, oid: self.oid@ }
    }
}

impl TreeEntry {
    /// A copy with the same path, mode and identifier.
    pub fn duplicate(&self) -> (r: TreeEntry)
        ensures
            r@ == self@,
    {
        TreeEntry {
            path: clone_bytes(&self.path),
            mode: self.mode,
            oid: clone_bytes(&self.oid),
        }
    }
}

/// One element of the merger's output: a match (both present, same
/// path), a deletion (left only) or an addition (right only).
#[derive(Clone, Debug, PartialEq, Eq)]
pub struct TreeEntryPair {
    pub left: Option<TreeEntry>,
    pub right: Option<TreeEntry>,
}

/// Mathematical image of a [`TreeEntryPair`].
pub struct TreeEntryPairView {
    pub left: Option<TreeEntryView>,
    pub right: Option<TreeEntryView>,
}

impl View for TreeEntryPair {
    type V = TreeEntryPairView;

    open spec fn view(&self) -> TreeEntryPairView {
        TreeEntryPairView {
            left: match self.left {
                Option::None => Option::None,
                Option::Some(e) => Option::Some(e@),
            },
            right: match self.right {
                Option::None => Option::None,
                Option::Some(e) => Option::Some(e@),
            },
        }
    }
}

impl TreeEntryPairView {
    /// Every pair the merger emits carries at least one side.
    pub open spec fn is_present(self) -> bool {
        self.left is Some || self.right is Some
    }
}

/// An exact copy of a byte vector.
pub fn clone_bytes(v: &Vec<u8>) -> (r: Vec<u8>)
    ensures
        r@ == v@,
{
    let r = v.clone();
    proof {
        assert(r@ =~= v@);
    }
    r
}

/// The full path of a child named `name` under `prefix`: the two joined
/// by a slash, with no separator prepended when the prefix is empty.
pub open spec fn join_path(prefix: Seq<u8>, name: Seq<u8>) -> Seq<u8> {
    if prefix.len() == 0 {
        name
    } else {
        prefix + seq![SLASH] + name
    }
}

/// Builds the slash-joined full path of `name` under `prefix`.
pub fn path_join(prefix: &Vec<u8>, name: &Vec<u8>) -> (r: Vec<u8>)
    ensures
        r@ == join_path(prefix@, name@),
{
    let mut r: Vec<u8> = Vec::new();
    if prefix.len() > 0 {
        r.extend_from_slice(prefix.as_slice());
        r.push(SLASH);
    }
    r.extend_from_slice(name.as_slice());
    proof {
        assert(r@ =~= join_path(prefix@, name@));
    }
    r
}

/// Whether mode bits denote a directory: the format bits equal the
/// directory format value.
pub open spec fn is_dir_mode(mode: u32) -> bool {
    mode & S_IFMT == S_IFDIR
}

/// What the classifier answers for a possibly absent entry: absent
/// entries are not directories.
pub open spec fn entry_is_tree(entry: Option<TreeEntryView>) -> bool {
    match entry {
        Option::None => false,
        Option::Some(e) => is_dir_mode(e.mode),
    }
}

/// The view of an optional borrowed entry.
pub open spec fn opt_entry_view(entry: Option<&TreeEntry>) -> Option<TreeEntryView> {
    match entry {
        Option::None => Option::None,
        Option::Some(e) => Option::Some(e@),
    }
}

/// Classifies mode bits: true exactly when they denote a directory.
pub fn is_tree_mode(mode: u32) -> (r: bool)
    ensures
        r == is_dir_mode(mode),
{
    mode & S_IFMT == S_IFDIR
}

/// Mode classifier: answers whether `entry` denotes a directory,
/// treating an absent entry as "not a directory".
pub fn is_tree(entry: Option<&TreeEntry>) -> (r: bool)
    ensures
        r == entry_is_tree(opt_entry_view(entry)),
{
    match entry {
        Option::None => false,
        Option::Some(e) => is_tree_mode(e.mode),
    }
}

} // verus!
