//! A media library whose items take their metadata from YAML files placed
//! beside them (about the items of a directory) or inside them (about a
//! directory itself), with lookups of a field in an item's own metadata, in
//! that of its ancestors, or gathered from its descendants.
//!
//! The library works on a snapshot of a directory tree; reading the tree from
//! disk is left to the program around it.
pub mod text;
pub mod path;
pub mod helpers;
pub mod error;
pub mod fs;
pub mod metadata;
pub mod selection;
pub mod sort_order;
pub mod yaml;
pub mod plexer;
pub mod target;
pub mod library;
pub mod path_map;
pub mod lookup;
pub mod cacher;
pub mod resolver;
pub mod discovery;
pub mod test_helpers;
