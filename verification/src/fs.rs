//! A snapshot of a directory tree: the paths that exist, which of them are
//! directories, their modification times and the text of the files.
//!
//! The library decides everything over such a snapshot; reading the tree from
//! disk is left to the program around it.
use vstd::prelude::*;

use crate::path::{normalize, normalized, parent, parent_path};

verus! {

/// One path of a snapshot.
pub struct FsEntry {
    /// The absolute, normalised path.
    pub path: String,
    pub is_dir: bool,
    /// The modification time in nanoseconds since the epoch, where known.
    pub mtime: Option<u128>,
    /// The text of a file, where it was read.
    pub contents: Option<String>,
}

/// One path of a snapshot, as a mathematical value.
pub struct FsNode {
    pub path: Seq<char>,
    pub is_dir: bool,
    pub mtime: Option<u128>,
    pub contents: Option<Seq<char>>,
}

impl View for FsEntry {
    type V = FsNode;

    open spec fn view(&self) -> FsNode {
        FsNode {
            path: self.path@,
            is_dir: self.is_dir,
            mtime: self.mtime,
            contents: match self.contents {
                Some(c) => Some(c@),
                None => None,
            },
        }
    }
}

/// A snapshot of a directory tree; its paths are normalised.
pub struct FsSnapshot {
    entries: Vec<FsEntry>,
}

impl View for FsSnapshot {
    type V = Seq<FsNode>;

    closed spec fn view(&self) -> Seq<FsNode> {
        self.entries@.map_values(|e: FsEntry| e@)
    }
}

/// Every path of the nodes is normalised.
pub open spec fn nodes_wf(nodes: Seq<FsNode>) -> bool {
    forall|i: int| 0 <= i < nodes.len() ==> normalized(#[trigger] nodes[i].path) == nodes[i].path
}

/// The first node with path `p`.
pub open spec fn find_node(nodes: Seq<FsNode>, p: Seq<char>) -> Option<FsNode>
    decreases nodes.len(),
{
    if nodes.len() == 0 {
        None
    } else if nodes[0].path == p {
        Some(nodes[0])
    } else {
        find_node(nodes.drop_first(), p)
    }
}

/// The node that the path `p` names: the first one at `p` once normalised,
/// so that `a//b` and `a/b/` name what `a/b` names.
pub open spec fn node_at(nodes: Seq<FsNode>, p: Seq<char>) -> Option<FsNode> {
    find_node(nodes, normalized(p))
}

pub open spec fn node_exists(nodes: Seq<FsNode>, p: Seq<char>) -> bool {
    node_at(nodes, p) is Some
}

pub open spec fn node_is_dir(nodes: Seq<FsNode>, p: Seq<char>) -> bool {
    node_at(nodes, p) matches Some(n) && n.is_dir
}

pub open spec fn node_is_file(nodes: Seq<FsNode>, p: Seq<char>) -> bool {
    node_at(nodes, p) matches Some(n) && !n.is_dir
}

pub open spec fn node_mtime(nodes: Seq<FsNode>, p: Seq<char>) -> Option<u128> {
    match node_at(nodes, p) {
        Some(n) => n.mtime,
        None => None,
    }
}

/// The text of the file at `p`, when it is a file whose text is known.
pub open spec fn node_contents(nodes: Seq<FsNode>, p: Seq<char>) -> Option<Seq<char>> {
    match node_at(nodes, p) {
        Some(n) => if n.is_dir {
            None
        } else {
            n.contents
        },
        None => None,
    }
}

/// The paths whose parent is `dir`, in snapshot order.
pub open spec fn dir_children(nodes: Seq<FsNode>, dir: Seq<char>) -> Seq<Seq<char>>
    decreases nodes.len(),
{
    if nodes.len() == 0 {
        Seq::empty()
    } else {
        dir_children(nodes.drop_last(), dir) + if parent_path(nodes.last().path) == Some(dir) {
            seq![nodes.last().path]
        } else {
            Seq::empty()
        }
    }
}

/// The length of the longest path among the nodes.
pub open spec fn max_path_len(nodes: Seq<FsNode>) -> nat
    decreases nodes.len(),
{
    if nodes.len() == 0 {
        0
    } else {
        let m = max_path_len(nodes.drop_last());
        if nodes.last().path.len() > m {
            nodes.last().path.len()
        } else {
            m
        }
    }
}

/// No path of the nodes is longer than `max_path_len`.
pub proof fn lemma_max_path_len(nodes: Seq<FsNode>, i: int)
    requires
        0 <= i < nodes.len(),
    ensures
        nodes[i].path.len() <= max_path_len(nodes),
    decreases nodes.len(),
{
    if i < nodes.len() - 1 {
        assert(nodes.drop_last()[i] == nodes[i]);
        lemma_max_path_len(nodes.drop_last(), i);
    }
}

/// A path that exists is, once normalised, no longer than the longest path of the nodes.
pub proof fn lemma_node_exists_len(nodes: Seq<FsNode>, p: Seq<char>)
    requires
        node_exists(nodes, p),
    ensures
        normalized(p).len() <= max_path_len(nodes),
{
    let i = lemma_find_node_index(nodes, normalized(p));
    lemma_max_path_len(nodes, i);
}

/// Where the node found for `p` stands.
proof fn lemma_find_node_index(nodes: Seq<FsNode>, p: Seq<char>) -> (i: int)
    requires
        find_node(nodes, p) is Some,
    ensures
        0 <= i < nodes.len(),
        nodes[i].path == p,
        find_node(nodes, p) == Some(nodes[i]),
    decreases nodes.len(),
{
    if nodes[0].path == p {
        0
    } else {
        let j = lemma_find_node_index(nodes.drop_first(), p);
        assert(nodes.drop_first()[j] == nodes[j + 1]);
        j + 1
    }
}

/// Each entry of a directory is the path of a node, and its parent is the directory.
pub proof fn lemma_dir_children(nodes: Seq<FsNode>, dir: Seq<char>, k: int)
    requires
        0 <= k < dir_children(nodes, dir).len(),
    ensures
        exists|i: int| 0 <= i < nodes.len() && #[trigger] nodes[i].path == dir_children(nodes, dir)[k],
        parent_path(dir_children(nodes, dir)[k]) == Some(dir),
    decreases nodes.len(),
{
    let d = nodes.drop_last();
    let prev = dir_children(d, dir);
    if k < prev.len() {
        lemma_dir_children(d, dir, k);
        let i = choose|i: int| 0 <= i < d.len() && #[trigger] d[i].path == prev[k];
        assert(nodes[i].path == d[i].path);
    } else {
        assert(dir_children(nodes, dir)[k] == nodes.last().path);
        assert(nodes[nodes.len() - 1].path == nodes.last().path);
    }
}

impl FsSnapshot {
    #[verifier::type_invariant]
    pub open spec fn paths_normalized(&self) -> bool {
        nodes_wf(self@)
    }

    /// An empty snapshot.
    pub fn new() -> (r: FsSnapshot)
        ensures
            r@ == Seq::<FsNode>::empty(),
    {
        let r = FsSnapshot { entries: Vec::new() };
        assert(r@ =~= Seq::<FsNode>::empty());
        r
    }

    /// Records a directory; its path is normalised first.
    pub fn add_dir(&mut self, path: &str, mtime: Option<u128>)
        ensures
            final(self)@ == old(self)@.push(
                FsNode { path: crate::path::normalized(path@), is_dir: true, mtime, contents: None },
            ),
    {
        proof {
            use_type_invariant(&*self);
            crate::path::lemma_normalized_idempotent(path@);
        }
        let p = normalize(path);
        let e = FsEntry { path: p, is_dir: true, mtime, contents: None };
        let ghost ev = e@;
        let ghost before = self@;
        let mut entries: Vec<FsEntry> = Vec::new();
        std::mem::swap(&mut entries, &mut self.entries);
        entries.push(e);
        assert(nodes_wf(before.push(ev))) by {
            assert forall|i: int| 0 <= i < before.push(ev).len() implies normalized(
                #[trigger] before.push(ev)[i].path,
            ) == before.push(ev)[i].path by {
                if i < before.len() {
                    assert(before.push(ev)[i] == before[i]);
                }
            }
        }
        assert(entries@.map_values(|e: FsEntry| e@) =~= before.push(ev));
        self.entries = entries;
        assert(self@ =~= before.push(ev));
    }

    /// Records a file and its text; its path is normalised first.
    pub fn add_file(&mut self, path: &str, mtime: Option<u128>, contents: Option<String>)
        ensures
            final(self)@ == old(self)@.push(
                FsNode {
                    path: crate::path::normalized(path@),
                    is_dir: false,
                    mtime,
                    contents: match contents {
                        Some(c) => Some(c@),
                        None => None,
                    },
                },
            ),
    {
        proof {
            use_type_invariant(&*self);
            crate::path::lemma_normalized_idempotent(path@);
        }
        let p = normalize(path);
        let e = FsEntry { path: p, is_dir: false, mtime, contents };
        let ghost ev = e@;
        let ghost before = self@;
        let mut entries: Vec<FsEntry> = Vec::new();
        std::mem::swap(&mut entries, &mut self.entries);
        entries.push(e);
        assert(nodes_wf(before.push(ev))) by {
            assert forall|i: int| 0 <= i < before.push(ev).len() implies normalized(
                #[trigger] before.push(ev)[i].path,
            ) == before.push(ev)[i].path by {
                if i < before.len() {
                    assert(before.push(ev)[i] == before[i]);
                }
            }
        }
        assert(entries@.map_values(|e: FsEntry| e@) =~= before.push(ev));
        self.entries = entries;
        assert(self@ =~= before.push(ev));
    }

    /// The index of the first entry at `p`, once normalised.
    fn find(&self, p: &str) -> (r: Option<usize>)
        ensures
            r matches Some(i) ==> i < self@.len() && node_at(self@, p@) == Some(self@[i as int]),
            r is None ==> node_at(self@, p@) is None,
    {
        let key = normalize(p);
        let ghost nodes = self@;
        let mut i: usize = 0;
        assert(nodes.skip(0) =~= nodes);
        while i < self.entries.len()
            invariant
                i <= self.entries.len(),
                nodes == self@,
                key@ == normalized(p@),
                find_node(nodes, key@) == find_node(nodes.skip(i as int), key@),
            decreases self.entries.len() - i,
        {
            assert(nodes.skip(i as int)[0] == nodes[i as int]);
            assert(nodes.skip(i as int).drop_first() =~= nodes.skip(i + 1));
            if self.entries[i].path == key {
                return Some(i);
            }
            i += 1;
        }
        assert(nodes.skip(i as int) =~= Seq::<FsNode>::empty());
        None
    }

    /// Whether something exists at `p`.
    pub fn path_exists(&self, p: &str) -> (r: bool)
        ensures
            r == node_exists(self@, p@),
    {
        self.find(p).is_some()
    }

    /// Whether `p` is a directory.
    pub fn is_dir(&self, p: &str) -> (r: bool)
        ensures
            r == node_is_dir(self@, p@),
    {
        match self.find(p) {
            Some(i) => self.entries[i].is_dir,
            None => false,
        }
    }

    /// Whether `p` is a file.
    pub fn is_file(&self, p: &str) -> (r: bool)
        ensures
            r == node_is_file(self@, p@),
    {
        match self.find(p) {
            Some(i) => !self.entries[i].is_dir,
            None => false,
        }
    }

    /// The modification time of `p`, where known.
    pub fn mtime(&self, p: &str) -> (r: Option<u128>)
        ensures
            r == node_mtime(self@, p@),
    {
        match self.find(p) {
            Some(i) => self.entries[i].mtime,
            None => None,
        }
    }

    /// The text of the file at `p`.
    pub fn read_to_string(&self, p: &str) -> (r: Option<String>)
        ensures
            r matches Some(t) ==> node_contents(self@, p@) == Some(t@),
            r is None ==> node_contents(self@, p@) is None,
    {
        match self.find(p) {
            Some(i) => {
                if self.entries[i].is_dir {
                    None
                } else {
                    match &self.entries[i].contents {
                        Some(c) => Some(c.clone()),
                        None => None,
                    }
                }
            },
            None => None,
        }
    }

    /// The paths directly inside `dir`, once normalised, in snapshot order
    /// (the paths of a snapshot are all normalised).
    pub fn read_dir(&self, dir: &str) -> (r: Vec<String>)
        ensures
            r@.map_values(|s: String| s@) == dir_children(self@, normalized(dir@)),
            nodes_wf(self@),
    {
        proof {
            use_type_invariant(self);
        }
        let d = normalize(dir);
        let mut out: Vec<String> = Vec::new();
        let ghost nodes = self@;
        let mut i: usize = 0;
        while i < self.entries.len()
            invariant
                i <= self.entries.len(),
                nodes == self@,
                d@ == normalized(dir@),
                out@.map_values(|s: String| s@) == dir_children(nodes.take(i as int), d@),
            decreases self.entries.len() - i,
        {
            let ghost pre = nodes.take(i as int);
            let ghost post = nodes.take(i + 1);
            assert(post.drop_last() =~= pre);
            assert(post.last() == nodes[i as int]);
            let ghost before = out@;
            match parent(self.entries[i].path.as_str()) {
                Some(q) => {
                    if crate::text::str_eq(q.as_str(), d.as_str()) {
                        out.push(self.entries[i].path.clone());
                        assert(out@.map_values(|s: String| s@) =~= before.map_values(
                            |s: String| s@,
                        ).push(nodes[i as int].path));
                    }
                },
                None => {},
            }
            assert(out@.map_values(|s: String| s@) =~= dir_children(post, d@));
            i += 1;
        }
        assert(nodes.take(self.entries.len() as int) =~= nodes);
        out
    }
}

} // verus!
