//! Finding metadata files for items and items for metadata files, lazily.  No
//! source of metadata is registered yet, so both searches find nothing.
use vstd::prelude::*;

use crate::library::MediaLibrary;
use crate::metadata::MetaBlock;

verus! {

/// The metadata files that speak of the item at `abs_item_path`: none yet.
pub fn meta_fps_from_item_fp(media_library: &MediaLibrary, abs_item_path: &str) -> (r: Vec<String>)
    ensures
        r@.len() == 0,
{
    Vec::new()
}

/// The items that the metadata file at `abs_item_path` speaks of: none yet.
pub fn item_fps_from_meta_fp(abs_item_path: &str) -> (r: Vec<(String, MetaBlock)>)
    ensures
        r@.len() == 0,
{
    Vec::new()
}

} // verus!
