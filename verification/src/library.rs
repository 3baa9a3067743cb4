//! A media library: a root directory, the metadata files that it uses, which
//! entries count as items, and the order of items.
use vstd::prelude::*;

use crate::error::{error_agrees, Error, ErrorV};
use crate::fs::{
    dir_children, node_contents, node_exists, node_is_dir, node_is_file, FsNode, FsSnapshot,
};
use crate::metadata::{lookup, MetaBlock, MetaTarget, MetaVal, MetadataV};
use crate::path::{
    file_name, file_name_of, is_plain_name, join, join_path, lemma_normalized_idempotent, normalize,
    normalized, parent, parent_path, path_starts_with, starts_with,
};
use crate::plexer::{multiplex, plex_spec, records_view, relevant_names, resolved, RecordV};
use crate::selection::{is_selected, selected_in_dir, Selection};
use crate::sort_order::{sorted_paths, strings_view, SortOrder};
use crate::target::target_dir;
use crate::yaml::{read_yaml_file, yaml_as_metadata, yaml_documents, yaml_metadata};

verus! {

broadcast use crate::metadata::lemma_meta_val_unfold;

/// A media library over a snapshot of its directory tree.
pub struct MediaLibrary {
    root_dir: String,
    meta_target_pairs: Vec<(String, MetaTarget)>,
    selection: Selection,
    sort_order: SortOrder,
    fs: FsSnapshot,
}

/// A media library as a mathematical value.
pub struct LibV {
    /// The normalised root directory.
    pub root: Seq<char>,
    /// The metadata file names, each with the items its files speak of, in the
    /// order in which they are consulted.
    pub pairs: Seq<(Seq<char>, MetaTarget)>,
    pub sel: Selection,
    pub order: SortOrder,
    pub nodes: Seq<FsNode>,
}

pub open spec fn pairs_view(ps: Seq<(String, MetaTarget)>) -> Seq<(Seq<char>, MetaTarget)> {
    ps.map_values(|p: (String, MetaTarget)| (p.0@, p.1))
}

impl View for MediaLibrary {
    type V = LibV;

    closed spec fn view(&self) -> LibV {
        LibV {
            root: self.root_dir@,
            pairs: pairs_view(self.meta_target_pairs@),
            sel: self.selection,
            order: self.sort_order,
            nodes: self.fs@,
        }
    }
}

pub type ItemRecordV = (Seq<char>, Seq<(Seq<char>, MetaVal)>);

pub open spec fn item_records_view(v: Seq<(String, MetaBlock)>) -> Seq<ItemRecordV> {
    v.map_values(|p: (String, MetaBlock)| (p.0@, p.1@))
}

// =================================================================================================
// Model
// =================================================================================================

/// Whether `p`, normalised, lies under the root.
pub open spec fn proper(lib: LibV, p: Seq<char>) -> bool {
    path_starts_with(normalized(p), lib.root)
}

/// What one metadata file name and target add to the metadata files of an item.
pub open spec fn meta_fps_step(
    lib: LibV,
    q: Seq<char>,
    acc: Seq<Seq<char>>,
    pair: (Seq<char>, MetaTarget),
) -> Seq<Seq<char>> {
    match target_dir(pair.1, lib.nodes, q) {
        Some(d) => {
            let m = join_path(d, pair.0);
            if proper(lib, d) && node_is_file(lib.nodes, m) {
                acc.push(m)
            } else {
                acc
            }
        },
        None => acc,
    }
}

pub open spec fn meta_fps_fold(lib: LibV, q: Seq<char>, pairs: Seq<(Seq<char>, MetaTarget)>) -> Seq<
    Seq<char>,
>
    decreases pairs.len(),
{
    if pairs.len() == 0 {
        Seq::empty()
    } else {
        meta_fps_step(lib, q, meta_fps_fold(lib, q, pairs.drop_last()), pairs.last())
    }
}

/// The metadata files that speak of the item at `p`, in the order of the
/// configured file names: for each, the file of that name in the target
/// directory, when that directory lies under the root and the file exists.
pub open spec fn meta_fps(lib: LibV, p: Seq<char>) -> Result<Seq<Seq<char>>, ErrorV> {
    let q = normalized(p);
    if !proper(lib, q) {
        Err(ErrorV::InvalidSubPath(q, lib.root))
    } else if !node_exists(lib.nodes, q) {
        Err(ErrorV::DoesNotExist(q))
    } else {
        Ok(meta_fps_fold(lib, q, lib.pairs))
    }
}

pub open spec fn empty_yaml_msg() -> Seq<char> {
    seq![
        'e', 'm', 'p', 't', 'y', ' ', 'Y', 'A', 'M', 'L', ' ', 'd', 'o', 'c', 'u', 'm', 'e', 'n', 't',
    ]
}

/// The items that a metadata file speaks of, each with its block, from metadata
/// that has been read.
pub open spec fn records_for(lib: LibV, md: MetadataV, wd: Seq<char>) -> Seq<ItemRecordV> {
    plex_spec(md, relevant_names(md, lib.nodes, wd, lib.sel, lib.order), true).map_values(
        |r: RecordV| (resolved(r.0, wd), r.1),
    )
}

/// The items that the metadata file at `p` speaks of, each with its block; an
/// error names what went wrong (for a YAML scanning error, only that it is one).
pub open spec fn item_fps(lib: LibV, p: Seq<char>) -> Result<Seq<ItemRecordV>, Option<ErrorV>> {
    let q = normalized(p);
    if !proper(lib, q) {
        Err(Some(ErrorV::InvalidSubPath(q, lib.root)))
    } else if !node_is_file(lib.nodes, q) {
        Err(Some(ErrorV::NotAFile(q)))
    } else {
        match (parent_path(q), file_name_of(q)) {
            (Some(wd), Some(fname)) => match lookup(lib.pairs, fname) {
                None => Err(Some(ErrorV::InvalidMetaFileName(fname))),
                Some(mt) => match node_contents(lib.nodes, q) {
                    None => Err(Some(ErrorV::Io(q))),
                    Some(text) => match yaml_documents(text) {
                        None => Err(None),
                        Some(docs) => if docs.len() < 1 {
                            Err(Some(ErrorV::Msg(empty_yaml_msg())))
                        } else {
                            match yaml_metadata(docs[0], mt) {
                                None => Err(Some(ErrorV::InvalidMetadata)),
                                Some(md) => Ok(records_for(lib, md, wd)),
                            }
                        },
                    },
                },
            },
            _ => Ok(Seq::empty()),
        }
    }
}

/// The selected entries of the directory at `p`, in the library's order.
pub open spec fn children(lib: LibV, p: Seq<char>) -> Seq<Seq<char>> {
    sorted_paths(lib.order, lib.nodes, selected_in_dir(lib.sel, lib.nodes, p))
}

/// The children of a directory are its selected entries, each as often as in
/// the snapshot, in the library's order: none comes after one it precedes.
pub proof fn law_children_in_order(lib: LibV, p: Seq<char>)
    ensures
        crate::sort_order::is_sorted_by(lib.order, lib.nodes, children(lib, p)),
        children(lib, p).to_multiset() == selected_in_dir(lib.sel, lib.nodes, p).to_multiset(),
{
    crate::sort_order::law_sorted_paths(lib.order, lib.nodes, selected_in_dir(lib.sel, lib.nodes, p));
}

/// Whether the item at `p` is a media item of the library: under the root and
/// selected by its rule.
pub open spec fn media_item(lib: LibV, p: Seq<char>) -> bool {
    proper(lib, p) && is_selected(lib.sel, lib.nodes, normalized(p))
}

/// The media items among the paths, in order.
pub open spec fn media_items(lib: LibV, ps: Seq<Seq<char>>) -> Seq<Seq<char>>
    decreases ps.len(),
{
    if ps.len() == 0 {
        Seq::empty()
    } else {
        media_items(lib, ps.drop_last()) + if media_item(lib, ps.last()) {
            seq![ps.last()]
        } else {
            Seq::empty()
        }
    }
}

/// The directory whose metadata file of target `mt` speaks of the item at `p`,
/// when the item is under the root and exists and that directory is under the root.
pub open spec fn target_meta_dir(lib: LibV, p: Seq<char>, mt: MetaTarget) -> Option<Seq<char>> {
    let q = normalized(p);
    if !(proper(lib, q) && node_exists(lib.nodes, q)) {
        None
    } else {
        match mt {
            MetaTarget::Contains => if node_is_dir(lib.nodes, q) {
                Some(q)
            } else {
                None
            },
            MetaTarget::Siblings => match parent_path(q) {
                Some(d) => if proper(lib, d) {
                    Some(d)
                } else {
                    None
                },
                None => None,
            },
        }
    }
}

/// The name of the first metadata file of target `mt`.
pub open spec fn meta_file_name(pairs: Seq<(Seq<char>, MetaTarget)>, mt: MetaTarget) -> Option<Seq<char>>
    decreases pairs.len(),
{
    if pairs.len() == 0 {
        None
    } else if pairs[0].1 == mt {
        Some(pairs[0].0)
    } else {
        meta_file_name(pairs.drop_first(), mt)
    }
}

// =================================================================================================
// Operations
// =================================================================================================

impl MediaLibrary {
    /// Creates a library rooted at `root_dir`, which (once normalised) must be a
    /// directory of the snapshot; a root that does not exist cannot be resolved,
    /// which is an I/O error.
    pub fn new(
        root_dir: &str,
        fs: FsSnapshot,
        meta_target_pairs: Vec<(String, MetaTarget)>,
        selection: Selection,
        sort_order: SortOrder,
    ) -> (r: Result<MediaLibrary, Error>)
        ensures
            r matches Ok(lib) ==> lib@ == (LibV {
                root: normalized(root_dir@),
                pairs: pairs_view(meta_target_pairs@),
                sel: selection,
                order: sort_order,
                nodes: fs@,
            }),
            r is Ok <==> node_is_dir(fs@, normalized(root_dir@)),
            r matches Err(e) ==> e@ == (if node_exists(fs@, normalized(root_dir@)) {
                ErrorV::NotADirectory(normalized(root_dir@))
            } else {
                ErrorV::Io(normalized(root_dir@))
            }),
    {
        let root = normalize(root_dir);
        if !fs.path_exists(root.as_str()) {
            return Err(Error::Io(root));
        }
        if !fs.is_dir(root.as_str()) {
            return Err(Error::NotADirectory(root));
        }
        Ok(MediaLibrary { root_dir: root, meta_target_pairs, selection, sort_order, fs })
    }

    /// The snapshot that the library works on.
    pub fn fs(&self) -> (r: &FsSnapshot)
        ensures
            r@ == self@.nodes,
    {
        &self.fs
    }

    /// The normalised root directory.
    pub fn root_dir(&self) -> (r: &String)
        ensures
            r@ == self@.root,
    {
        &self.root_dir
    }

    /// Whether `abs_sub_path`, normalised, lies under the root.
    pub fn is_proper_sub_path(&self, abs_sub_path: &str) -> (r: bool)
        ensures
            r == proper(self@, abs_sub_path@),
    {
        let p = normalize(abs_sub_path);
        starts_with(p.as_str(), self.root_dir.as_str())
    }

    /// The metadata files that speak of the item at `abs_item_path`.
    pub fn meta_fps_from_item_fp(&self, abs_item_path: &str) -> (r: Result<Vec<String>, Error>)
        ensures
            r matches Ok(v) ==> meta_fps(self@, abs_item_path@) == Ok::<Seq<Seq<char>>, ErrorV>(
                strings_view(v@),
            ),
            r matches Err(e) ==> meta_fps(self@, abs_item_path@) == Err::<Seq<Seq<char>>, ErrorV>(
                e@,
            ),
    {
        let q = normalize(abs_item_path);
        proof {
            lemma_normalized_idempotent(abs_item_path@);
        }
        if !self.is_proper_sub_path(q.as_str()) {
            return Err(Error::InvalidSubPath(q, self.root_dir.clone()));
        }
        if !self.fs.path_exists(q.as_str()) {
            return Err(Error::DoesNotExist(q));
        }
        let mut results: Vec<String> = Vec::new();
        let ghost lib = self@;
        let ghost pairs = lib.pairs;
        let mut i: usize = 0;
        assert(strings_view(results@) =~= meta_fps_fold(lib, q@, pairs.take(0)));
        while i < self.meta_target_pairs.len()
            invariant
                i <= self.meta_target_pairs.len(),
                lib == self@,
                pairs == lib.pairs,
                q@ == normalized(abs_item_path@),
                strings_view(results@) == meta_fps_fold(lib, q@, pairs.take(i as int)),
            decreases self.meta_target_pairs.len() - i,
        {
            let ghost pre = pairs.take(i as int);
            let ghost post = pairs.take(i + 1);
            assert(post.drop_last() =~= pre);
            assert(post.last() == (self.meta_target_pairs@[i as int].0@, self.meta_target_pairs@[i as int].1));
            let meta_file_name = &self.meta_target_pairs[i].0;
            let meta_target = self.meta_target_pairs[i].1;
            match meta_target.target_dir_path(&self.fs, q.as_str()) {
                Some(meta_target_dir_path) => {
                    if self.is_proper_sub_path(meta_target_dir_path.as_str()) {
                        let meta_file_path = join(
                            meta_target_dir_path.as_str(),
                            meta_file_name.as_str(),
                        );
                        if self.fs.is_file(meta_file_path.as_str()) {
                            let ghost before = results@;
                            let ghost mv = meta_file_path@;
                            results.push(meta_file_path);
                            assert(strings_view(results@) =~= strings_view(before).push(mv));
                        }
                    }
                },
                None => {},
            }
            i += 1;
        }
        assert(pairs.take(self.meta_target_pairs.len() as int) =~= pairs);
        Ok(results)
    }

    /// The target of the first configured metadata file name equal to `name`.
    fn target_for_name(&self, name: &str) -> (r: Option<MetaTarget>)
        ensures
            r == lookup(self@.pairs, name@),
    {
        let ghost pairs = self@.pairs;
        let mut i: usize = 0;
        assert(pairs.skip(0) =~= pairs);
        while i < self.meta_target_pairs.len()
            invariant
                i <= self.meta_target_pairs.len(),
                pairs == self@.pairs,
                lookup(pairs, name@) == lookup(pairs.skip(i as int), name@),
            decreases self.meta_target_pairs.len() - i,
        {
            assert(pairs.skip(i as int)[0] == pairs[i as int]);
            assert(pairs.skip(i as int).drop_first() =~= pairs.skip(i + 1));
            if crate::text::str_eq(self.meta_target_pairs[i].0.as_str(), name) {
                return Some(self.meta_target_pairs[i].1);
            }
            i += 1;
        }
        assert(pairs.skip(i as int) =~= Seq::<(Seq<char>, MetaTarget)>::empty());
        None
    }

    /// The items that the metadata file at `abs_meta_path` speaks of, each with
    /// a copy of its block.
    pub fn item_fps_from_meta_fp(&self, abs_meta_path: &str) -> (r: Result<
        Vec<(String, MetaBlock)>,
        Error,
    >)
        ensures
            r matches Ok(v) ==> item_fps(self@, abs_meta_path@) == Ok::<
                Seq<ItemRecordV>,
                Option<ErrorV>,
            >(item_records_view(v@)),
            r matches Err(e) ==> item_fps(self@, abs_meta_path@) matches Err(x) && error_agrees(
                e,
                x,
            ),
    {
        let q = normalize(abs_meta_path);
        proof {
            lemma_normalized_idempotent(abs_meta_path@);
        }
        if !self.is_proper_sub_path(q.as_str()) {
            return Err(Error::InvalidSubPath(q, self.root_dir.clone()));
        }
        if !self.fs.is_file(q.as_str()) {
            return Err(Error::NotAFile(q));
        }
        let mut results: Vec<(String, MetaBlock)> = Vec::new();
        let working_dir_path = match parent(q.as_str()) {
            Some(w) => w,
            None => {
                assert(item_records_view(results@) =~= Seq::<ItemRecordV>::empty());
                return Ok(results);
            },
        };
        let found_meta_fn = match file_name(q.as_str()) {
            Some(f) => f,
            None => {
                assert(item_records_view(results@) =~= Seq::<ItemRecordV>::empty());
                return Ok(results);
            },
        };
        let meta_target = match self.target_for_name(found_meta_fn.as_str()) {
            Some(mt) => mt,
            None => {
                return Err(Error::InvalidMetaFileName(found_meta_fn));
            },
        };
        let yaml_data = match read_yaml_file(&self.fs, q.as_str()) {
            Ok(y) => y,
            Err(e) => {
                proof {
                    reveal_strlit("empty YAML document");
                    assert("empty YAML document"@ =~= empty_yaml_msg());
                }
                return Err(e);
            },
        };
        let md = match yaml_as_metadata(&yaml_data, meta_target) {
            Ok(md) => md,
            Err(_) => {
                return Err(Error::InvalidMetadata);
            },
        };
        let plex_results = match multiplex(
            &md,
            &self.fs,
            working_dir_path.as_str(),
            &self.selection,
            self.sort_order,
            true,
        ) {
            Ok(p) => p,
            Err(e) => {
                return Err(e);
            },
        };
        let ghost recs = records_view(plex_results@);
        let ghost wd = working_dir_path@;
        let ghost expected = recs.map_values(|r: RecordV| (resolved(r.0, wd), r.1));
        let mut i: usize = 0;
        while i < plex_results.len()
            invariant
                i <= plex_results.len(),
                recs == records_view(plex_results@),
                wd == working_dir_path@,
                expected == recs.map_values(|r: RecordV| (resolved(r.0, wd), r.1)),
                item_records_view(results@) == expected.take(i as int),
            decreases plex_results.len() - i,
        {
            let item_path = plex_results[i].0.resolve(working_dir_path.as_str());
            let mb = plex_results[i].1.deep_copy();
            let ghost pair = (item_path@, mb@);
            let ghost before = results@;
            results.push((item_path, mb));
            assert(item_records_view(results@) =~= item_records_view(before).push(pair));
            assert(expected.take(i + 1) =~= expected.take(i as int).push(expected[i as int]));
            i += 1;
        }
        assert(expected.take(plex_results.len() as int) =~= expected);
        Ok(results)
    }

    /// The selected entries of the directory at `abs_dir_path`, in the library's order.
    pub fn children_paths(&self, abs_dir_path: &str) -> (r: Vec<String>)
        ensures
            strings_view(r@) == children(self@, abs_dir_path@),
            forall|k: int|
                0 <= k < r@.len() ==> {
                    &&& node_exists(self@.nodes, #[trigger] r@[k]@)
                    &&& normalized(r@[k]@) == r@[k]@
                    &&& parent_path(r@[k]@) == Some(normalized(abs_dir_path@))
                },
    {
        proof {
            use_type_invariant(&self.fs);
        }
        let entries = self.selection.selected_entries_in_dir(&self.fs, abs_dir_path);
        let ghost es = strings_view(entries@);
        let r = self.sort_order.sort_paths(&self.fs, entries);
        let ghost nodes = self.fs@;
        let ghost dir = normalized(abs_dir_path@);
        let ghost out = strings_view(r@);
        assert forall|k: int| 0 <= k < r@.len() implies {
            &&& node_exists(nodes, #[trigger] r@[k]@)
            &&& normalized(r@[k]@) == r@[k]@
            &&& parent_path(r@[k]@) == Some(dir)
        } by {
            assert(out[k] == r@[k]@);
            assert(out.contains(out[k]));
            out.to_multiset_ensures();
            es.to_multiset_ensures();
            assert(out.to_multiset().count(out[k]) > 0);
            assert(es.to_multiset().count(out[k]) > 0);
            assert(es.contains(out[k]));
            let j = choose|j: int| 0 <= j < es.len() && es[j] == out[k];
            let dc = dir_children(nodes, dir);
            crate::selection::lemma_select_paths(self.selection, nodes, dc, j);
            let m = choose|m: int| 0 <= m < dc.len() && #[trigger] dc[m] == es[j];
            crate::fs::lemma_dir_children(nodes, dir, m);
            let i = choose|i: int| 0 <= i < nodes.len() && #[trigger] nodes[i].path == dc[m];
            assert(normalized(nodes[i].path) == nodes[i].path);
            lemma_normalized_idempotent(r@[k]@);
        }
        r
    }

    /// Whether the item at `abs_item_path` is under the root and selected.
    pub fn is_selected_media_item(&self, abs_item_path: &str) -> (r: bool)
        ensures
            r == media_item(self@, abs_item_path@),
    {
        let p = normalize(abs_item_path);
        proof {
            lemma_normalized_idempotent(abs_item_path@);
        }
        self.is_proper_sub_path(p.as_str()) && self.selection.is_selected_path(&self.fs, p.as_str())
    }

    /// The item itself, when it is a directory under the root.
    pub fn get_contains_dir(&self, abs_item_path: &str) -> (r: Option<String>)
        ensures
            r matches Some(d) ==> target_meta_dir(self@, abs_item_path@, MetaTarget::Contains) == Some(d@),
            r is None ==> target_meta_dir(self@, abs_item_path@, MetaTarget::Contains) is None,
    {
        self.get_target_meta_dir(abs_item_path, MetaTarget::Contains)
    }

    /// The parent of the item, when the item exists under the root and so does its parent.
    pub fn get_siblings_dir(&self, abs_item_path: &str) -> (r: Option<String>)
        ensures
            r matches Some(d) ==> target_meta_dir(self@, abs_item_path@, MetaTarget::Siblings) == Some(d@),
            r is None ==> target_meta_dir(self@, abs_item_path@, MetaTarget::Siblings) is None,
    {
        self.get_target_meta_dir(abs_item_path, MetaTarget::Siblings)
    }

    /// The entries of the directory at `abs_sub_dir_path`, in snapshot order.
    pub fn all_entries_in_dir(&self, abs_sub_dir_path: &str) -> (r: Vec<String>)
        ensures
            strings_view(r@) == dir_children(self@.nodes, normalized(abs_sub_dir_path@)),
    {
        self.fs.read_dir(abs_sub_dir_path)
    }

    /// The entries of the directory that are media items, in snapshot order.
    pub fn selected_entries_in_dir(&self, abs_sub_dir_path: &str) -> (r: Vec<String>)
        ensures
            strings_view(r@) == media_items(self@, dir_children(self@.nodes, normalized(abs_sub_dir_path@))),
    {
        let entries = self.all_entries_in_dir(abs_sub_dir_path);
        let ghost ps = strings_view(entries@);
        let mut out: Vec<String> = Vec::new();
        let mut i: usize = 0;
        assert(ps.take(0) =~= Seq::<Seq<char>>::empty());
        while i < entries.len()
            invariant
                i <= entries.len(),
                ps == strings_view(entries@),
                strings_view(out@) == media_items(self@, ps.take(i as int)),
            decreases entries.len() - i,
        {
            assert(ps.take(i + 1).drop_last() =~= ps.take(i as int));
            assert(ps.take(i + 1).last() == entries@[i as int]@);
            let ghost before = out@;
            if self.is_selected_media_item(entries[i].as_str()) {
                out.push(entries[i].clone());
                assert(strings_view(out@) =~= strings_view(before).push(entries@[i as int]@));
            }
            assert(strings_view(out@) =~= media_items(self@, ps.take(i + 1)));
            i += 1;
        }
        assert(ps.take(entries.len() as int) =~= ps);
        out
    }

    /// The entries put in the library's order.
    pub fn sort_entries(&self, entries: Vec<String>) -> (r: Vec<String>)
        ensures
            strings_view(r@) == sorted_paths(self@.order, self@.nodes, strings_view(entries@)),
    {
        self.sort_order.sort_paths(&self.fs, entries)
    }

    /// The name of the first metadata file of target `mt`.
    pub fn get_meta_file_name(&self, mt: &MetaTarget) -> (r: Option<&String>)
        ensures
            r matches Some(n) ==> meta_file_name(self@.pairs, *mt) == Some(n@),
            r is None ==> meta_file_name(self@.pairs, *mt) is None,
    {
        let ghost ps = self@.pairs;
        let mut i: usize = 0;
        assert(ps.skip(0) =~= ps);
        while i < self.meta_target_pairs.len()
            invariant
                i <= self.meta_target_pairs.len(),
                ps == self@.pairs,
                ps == pairs_view(self.meta_target_pairs@),
                meta_file_name(ps, *mt) == meta_file_name(ps.skip(i as int), *mt),
            decreases self.meta_target_pairs.len() - i,
        {
            assert(ps.skip(i as int)[0] == ps[i as int]);
            assert(ps.skip(i as int).drop_first() =~= ps.skip(i + 1));
            if self.meta_target_pairs[i].1 == *mt {
                return Some(&self.meta_target_pairs[i].0);
            }
            i += 1;
        }
        assert(ps.skip(i as int) =~= Seq::<(Seq<char>, MetaTarget)>::empty());
        None
    }

    /// The directory whose metadata file of target `mt` speaks of the item.
    pub fn get_target_meta_dir(&self, abs_item_path: &str, mt: MetaTarget) -> (r: Option<String>)
        ensures
            r matches Some(d) ==> target_meta_dir(self@, abs_item_path@, mt) == Some(d@),
            r is None ==> target_meta_dir(self@, abs_item_path@, mt) is None,
    {
        let p = normalize(abs_item_path);
        if !(self.is_proper_sub_path(p.as_str()) && self.fs.path_exists(p.as_str())) {
            return None;
        }
        match mt {
            MetaTarget::Contains => {
                if self.fs.is_dir(p.as_str()) {
                    Some(p)
                } else {
                    None
                }
            },
            MetaTarget::Siblings => match parent(p.as_str()) {
                Some(d) => {
                    if self.is_proper_sub_path(d.as_str()) {
                        Some(d)
                    } else {
                        None
                    }
                },
                None => None,
            },
        }
    }

    /// Whether `file_name` can name an item: one normal component, unchanged by
    /// normalisation.
    pub fn is_valid_item_name(file_name: &str) -> (r: bool)
        ensures
            r == is_plain_name(file_name@),
    {
        crate::path::is_valid_item_name(file_name)
    }
}

} // verus!
