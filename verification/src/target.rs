//! Where the metadata of an item is looked for.
use vstd::prelude::*;

use crate::error::{Error, ErrorV};
use crate::fs::{node_exists, node_is_dir, node_is_file, FsNode, FsSnapshot};
use crate::metadata::{MetaBlock, MetaTarget};
use crate::path::{join, join_path, normalize, normalized, parent, parent_path};

verus! {

/// The directory whose metadata file speaks of the item at `p` (normalised):
/// its parent for the siblings' file, the item itself for a directory's own file.
pub open spec fn target_dir(mt: MetaTarget, nodes: Seq<FsNode>, p: Seq<char>) -> Option<Seq<char>> {
    let q = normalized(p);
    if !node_exists(nodes, q) {
        None
    } else {
        match mt {
            MetaTarget::Siblings => parent_path(q),
            MetaTarget::Contains => if node_is_dir(nodes, q) {
                Some(q)
            } else {
                None
            },
        }
    }
}

pub open spec fn self_meta_name() -> Seq<char> {
    seq!['t', 'a', 'g', 'g', 'u', '_', 's', 'e', 'l', 'f', '.', 'y', 'm', 'l']
}

pub open spec fn item_meta_name() -> Seq<char> {
    seq!['t', 'a', 'g', 'g', 'u', '_', 'i', 't', 'e', 'm', '.', 'y', 'm', 'l']
}

/// The default metadata file for an item and target, or the reason there is none.
pub open spec fn target_meta_path(mt: MetaTarget, nodes: Seq<FsNode>, item: Seq<char>) -> Result<
    Seq<char>,
    ErrorV,
> {
    if !node_exists(nodes, item) {
        Err(ErrorV::DoesNotExist(item))
    } else {
        let meta = match mt {
            MetaTarget::Contains => if node_is_dir(nodes, item) {
                Ok(join_path(item, self_meta_name()))
            } else {
                Err(ErrorV::NotADirectory(item))
            },
            MetaTarget::Siblings => match parent_path(item) {
                Some(d) => Ok(join_path(d, item_meta_name())),
                None => Err(ErrorV::CappedAtRoot),
            },
        };
        match meta {
            Err(e) => Err(e),
            Ok(m) => if !node_exists(nodes, m) {
                Err(ErrorV::DoesNotExist(m))
            } else if !node_is_file(nodes, m) {
                Err(ErrorV::NotAFile(m))
            } else {
                Ok(m)
            },
        }
    }
}

impl MetaTarget {
    /// The targets in the order in which their metadata is consulted.
    pub fn priority_order() -> (r: Vec<MetaTarget>)
        ensures
            r@ == seq![MetaTarget::Contains, MetaTarget::Siblings],
    {
        let mut r: Vec<MetaTarget> = Vec::new();
        r.push(MetaTarget::Contains);
        r.push(MetaTarget::Siblings);
        assert(r@ =~= seq![MetaTarget::Contains, MetaTarget::Siblings]);
        r
    }

    /// The directory whose metadata file of this target speaks of the item.
    pub fn target_dir_path(&self, fs: &FsSnapshot, abs_meta_path: &str) -> (r: Option<String>)
        ensures
            r matches Some(d) ==> target_dir(*self, fs@, abs_meta_path@) == Some(d@),
            r is None ==> target_dir(*self, fs@, abs_meta_path@) is None,
    {
        let p = normalize(abs_meta_path);
        if !fs.path_exists(p.as_str()) {
            return None;
        }
        match self {
            MetaTarget::Siblings => parent(p.as_str()),
            MetaTarget::Contains => {
                if fs.is_dir(p.as_str()) {
                    Some(p)
                } else {
                    None
                }
            },
        }
    }

    /// The default metadata file of this target for an item, which must exist
    /// and be a file.
    pub fn get_target_meta_path(&self, fs: &FsSnapshot, item_path: &str) -> (r: Result<String, Error>)
        ensures
            r matches Ok(m) ==> target_meta_path(*self, fs@, item_path@) == Ok::<Seq<char>, ErrorV>(m@),
            r matches Err(e) ==> target_meta_path(*self, fs@, item_path@) == Err::<Seq<char>, ErrorV>(e@),
    {
        if !fs.path_exists(item_path) {
            return Err(Error::DoesNotExist(String::from_str(item_path)));
        }
        let meta_path = match self {
            MetaTarget::Contains => {
                if !fs.is_dir(item_path) {
                    return Err(Error::NotADirectory(String::from_str(item_path)));
                }
                proof {
                    reveal_strlit("taggu_self.yml");
                    assert("taggu_self.yml"@ =~= self_meta_name());
                }
                join(item_path, "taggu_self.yml")
            },
            MetaTarget::Siblings => match parent(item_path) {
                Some(item_path_parent) => {
                    proof {
                        reveal_strlit("taggu_item.yml");
                        assert("taggu_item.yml"@ =~= item_meta_name());
                    }
                    join(item_path_parent.as_str(), "taggu_item.yml")
                },
                None => {
                    return Err(Error::CappedAtRoot);
                },
            },
        };
        if !fs.path_exists(meta_path.as_str()) {
            return Err(Error::DoesNotExist(meta_path));
        }
        if !fs.is_file(meta_path.as_str()) {
            return Err(Error::NotAFile(meta_path));
        }
        Ok(meta_path)
    }

    /// The metadata of this target for an item, by item path; nothing is
    /// gathered yet, so the listing is empty.
    pub fn get_target_metadata(&self, fs: &FsSnapshot, item_path: &str) -> (r: Result<
        Vec<(String, MetaBlock)>,
        Error,
    >)
        ensures
            r matches Ok(v) && v@.len() == 0,
    {
        Ok(Vec::new())
    }
}

} // verus!
