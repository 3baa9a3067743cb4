//! Caches of what metadata files say of items: for each metadata file, the
//! block of each item that it speaks of.
use vstd::prelude::*;

use crate::error::{error_agrees, Error, ErrorV};
use crate::library::{item_fps, item_records_view, meta_fps, ItemRecordV, LibV, MediaLibrary};
use crate::metadata::{MetaBlock, MetaVal};
use crate::path::{components, PathComp};
use crate::path_map::PathMap;
use crate::sort_order::strings_view;

verus! {

broadcast use crate::metadata::lemma_meta_val_unfold;

/// A metadata block as a mathematical value.
pub type BlockV = Seq<(Seq<char>, MetaVal)>;

/// The blocks that one metadata file gives, by item path.
pub type MetadataCache = PathMap<MetaBlock>;

/// The cached metadata files, by path.
pub type MetaFileCache = PathMap<MetadataCache>;

/// A cache as a mathematical value: metadata file, then item, to block.
pub type CacheV = Map<Seq<PathComp>, Map<Seq<PathComp>, BlockV>>;

/// The blocks that the records give, by item; a later record for the same item wins.
pub open spec fn records_map(recs: Seq<ItemRecordV>) -> Map<Seq<PathComp>, BlockV>
    decreases recs.len(),
{
    if recs.len() == 0 {
        Map::empty()
    } else {
        records_map(recs.drop_last()).insert(components(recs.last().0), recs.last().1)
    }
}

/// The blocks cached for metadata file `k`; none when it is not cached.
pub open spec fn sub_cache(c: CacheV, k: Seq<PathComp>) -> Map<Seq<PathComp>, BlockV> {
    if c.dom().contains(k) {
        c[k]
    } else {
        Map::empty()
    }
}

// =================================================================================================
// A cache filled by hand
// =================================================================================================

/// A cache that is filled one block at a time.
pub struct NewLookupCacher {
    cache: MetaFileCache,
}

impl View for NewLookupCacher {
    type V = CacheV;

    closed spec fn view(&self) -> CacheV {
        self.cache@
    }
}

impl NewLookupCacher {
    /// An empty cache.
    pub fn new() -> (r: NewLookupCacher)
        ensures
            r@ == CacheV::empty(),
    {
        NewLookupCacher { cache: PathMap::new() }
    }

    /// Caches `meta_block` for item `item_fp` of metadata file `meta_fp`;
    /// whether the item had no block there before.
    pub fn cache_entry(&mut self, meta_fp: &str, item_fp: &str, meta_block: MetaBlock) -> (r: bool)
        ensures
            final(self)@ == old(self)@.insert(
                components(meta_fp@),
                sub_cache(old(self)@, components(meta_fp@)).insert(components(item_fp@), meta_block@),
            ),
            r == !sub_cache(old(self)@, components(meta_fp@)).dom().contains(components(item_fp@)),
    {
        let mut sub_map: MetadataCache = match self.cache.remove(meta_fp) {
            Some(m) => m,
            None => PathMap::new(),
        };
        let old_val = sub_map.insert(String::from_str(item_fp), meta_block);
        self.cache.insert(String::from_str(meta_fp), sub_map);
        proof {
            let k = components(meta_fp@);
            assert(old(self)@.remove(k).insert(k, sub_map@) =~= old(self)@.insert(k, sub_map@));
        }
        old_val.is_none()
    }

    /// The cached metadata files.
    pub fn cache(&self) -> (r: &MetaFileCache)
        ensures
            r@ == self@,
    {
        &self.cache
    }
}

// =================================================================================================
// A cache over a library
// =================================================================================================

/// Caching one metadata file: a cached file is kept unless `force`; otherwise
/// its entry is dropped and, when the file can be read, replaced by what it says.
pub open spec fn cache_step(lib: LibV, c: CacheV, m: Seq<char>, force: bool) -> Result<
    CacheV,
    (CacheV, Option<ErrorV>),
> {
    let k = components(m);
    if !force && c.dom().contains(k) {
        Ok(c)
    } else {
        match item_fps(lib, m) {
            Err(e) => Err((c.remove(k), e)),
            Ok(recs) => Ok(c.remove(k).insert(k, records_map(recs))),
        }
    }
}

/// Caching metadata files in turn, stopping at the first error (with the cache
/// as it then stands).
pub open spec fn cache_metas(lib: LibV, c: CacheV, ms: Seq<Seq<char>>, force: bool) -> Result<
    CacheV,
    (CacheV, Option<ErrorV>),
>
    decreases ms.len(),
{
    if ms.len() == 0 {
        Ok(c)
    } else {
        match cache_metas(lib, c, ms.drop_last(), force) {
            Err(x) => Err(x),
            Ok(c1) => cache_step(lib, c1, ms.last(), force),
        }
    }
}

/// Caching the metadata files of items in turn.
pub open spec fn cache_items(lib: LibV, c: CacheV, items: Seq<Seq<char>>, force: bool) -> Result<
    CacheV,
    (CacheV, Option<ErrorV>),
>
    decreases items.len(),
{
    if items.len() == 0 {
        Ok(c)
    } else {
        match cache_items(lib, c, items.drop_last(), force) {
            Err(x) => Err(x),
            Ok(c1) => match meta_fps(lib, items.last()) {
                Err(e) => Err((c1, Some(e))),
                Ok(ms) => cache_metas(lib, c1, ms, force),
            },
        }
    }
}

/// Dropping metadata files from the cache.
pub open spec fn clear_metas(c: CacheV, ms: Seq<Seq<char>>) -> CacheV
    decreases ms.len(),
{
    if ms.len() == 0 {
        c
    } else {
        clear_metas(c, ms.drop_last()).remove(components(ms.last()))
    }
}

/// Dropping the metadata files of items from the cache, stopping at the first
/// item whose metadata files cannot be found.
pub open spec fn clear_items(lib: LibV, c: CacheV, items: Seq<Seq<char>>) -> Result<
    CacheV,
    (CacheV, Option<ErrorV>),
>
    decreases items.len(),
{
    if items.len() == 0 {
        Ok(c)
    } else {
        match clear_items(lib, c, items.drop_last()) {
            Err(x) => Err(x),
            Ok(c1) => match meta_fps(lib, items.last()) {
                Err(e) => Err((c1, Some(e))),
                Ok(ms) => Ok(clear_metas(c1, ms)),
            },
        }
    }
}

/// Whether the result and the cache after a call are what the model says.
pub open spec fn cache_agrees(
    r: Result<(), Error>,
    after: CacheV,
    m: Result<CacheV, (CacheV, Option<ErrorV>)>,
) -> bool {
    match r {
        Ok(_) => m == Ok::<CacheV, (CacheV, Option<ErrorV>)>(after),
        Err(e) => m matches Err(p) && p.0 == after && error_agrees(e, p.1),
    }
}

/// A cache of metadata files of a library, filled on request.
pub struct LookupCacher<'a> {
    cache: MetaFileCache,
    media_lib: &'a MediaLibrary,
}

impl<'a> View for LookupCacher<'a> {
    type V = CacheV;

    closed spec fn view(&self) -> CacheV {
        self.cache@
    }
}

impl<'a> LookupCacher<'a> {
    /// The library whose files are cached.
    pub closed spec fn lib(&self) -> LibV {
        self.media_lib@
    }

    /// An empty cache over `media_lib`.
    pub fn new(media_lib: &'a MediaLibrary) -> (r: LookupCacher<'a>)
        ensures
            r@ == CacheV::empty(),
            r.lib() == media_lib@,
    {
        LookupCacher { cache: PathMap::new(), media_lib }
    }

    /// The cached metadata files.
    pub fn cache(&self) -> (r: &MetaFileCache)
        ensures
            r@ == self@,
    {
        &self.cache
    }

    /// The blocks that the records give, by item.
    fn records_cache(records: &Vec<(String, MetaBlock)>) -> (r: MetadataCache)
        ensures
            r@ == records_map(item_records_view(records@)),
    {
        let ghost recs = item_records_view(records@);
        let mut temp: MetadataCache = PathMap::new();
        let mut j: usize = 0;
        assert(recs.take(0) =~= Seq::<ItemRecordV>::empty());
        while j < records.len()
            invariant
                j <= records.len(),
                recs == item_records_view(records@),
                temp@ == records_map(recs.take(j as int)),
            decreases records.len() - j,
        {
            let item_fp = records[j].0.clone();
            let meta_block = records[j].1.clone();
            assert(recs.take(j + 1).drop_last() =~= recs.take(j as int));
            assert(recs.take(j + 1).last() == recs[j as int]);
            temp.insert(item_fp, meta_block);
            j += 1;
        }
        assert(recs.take(records.len() as int) =~= recs);
        temp
    }

    /// Caches one metadata file (see `cache_step`).
    fn cache_one(&mut self, meta_fp: &str, force: bool) -> (r: Result<(), Error>)
        ensures
            final(self).lib() == old(self).lib(),
            cache_agrees(r, final(self)@, cache_step(old(self).lib(), old(self)@, meta_fp@, force)),
    {
        if !force && self.cache.contains_key(meta_fp) {
            return Ok(());
        }
        let _ = self.cache.remove(meta_fp);
        let records = self.media_lib.item_fps_from_meta_fp(meta_fp)?;
        let temp = LookupCacher::records_cache(&records);
        self.cache.insert(String::from_str(meta_fp), temp);
        Ok(())
    }

    /// Caches metadata files in turn; a cached one is kept unless `force`.
    /// On success every other file is left as it was and each listed file holds
    /// `cached_value`; on failure the first file that could not be read is
    /// dropped and the files after it are left as they were.
    pub fn cache_meta_files(&mut self, meta_fps: &Vec<String>, force: bool) -> (r: Result<(), Error>)
        ensures
            final(self).lib() == old(self).lib(),
            cache_agrees(
                r,
                final(self)@,
                cache_metas(old(self).lib(), old(self)@, strings_view(meta_fps@), force),
            ),
            r is Ok ==> forall|k: Seq<PathComp>|
                !(exists|j: int| 0 <= j < meta_fps@.len() && components(#[trigger] meta_fps@[j]@) == k)
                    ==> ((#[trigger] final(self)@.dom().contains(k) <==> old(self)@.dom().contains(k))
                    && (old(self)@.dom().contains(k) ==> final(self)@[k] == old(self)@[k])),
            r is Ok ==> forall|j: int|
                0 <= j < meta_fps@.len() ==> final(self)@.dom().contains(components(#[trigger] meta_fps@[j]@))
                    && final(self)@[components(meta_fps@[j]@)] == cached_value(
                    old(self).lib(),
                    old(self)@,
                    meta_fps@[j]@,
                    force,
                ),
            r is Err ==> exists|k: int|
                #[trigger] cache_metas_fails_at(old(self).lib(), old(self)@, strings_view(meta_fps@), force, k),
    {
        let ghost lib = self.lib();
        let ghost c0 = self@;
        let ghost ms = strings_view(meta_fps@);
        let mut i: usize = 0;
        assert(ms.take(0) =~= Seq::<Seq<char>>::empty());
        while i < meta_fps.len()
            invariant
                i <= meta_fps.len(),
                lib == self.lib(),
                lib == old(self).lib(),
                c0 == old(self)@,
                ms == strings_view(meta_fps@),
                cache_metas(lib, c0, ms.take(i as int), force) == Ok::<
                    CacheV,
                    (CacheV, Option<ErrorV>),
                >(self@),
            decreases meta_fps.len() - i,
        {
            assert(ms.take(i + 1).drop_last() =~= ms.take(i as int));
            assert(ms.take(i + 1).last() == meta_fps@[i as int]@);
            match self.cache_one(meta_fps[i].as_str(), force) {
                Ok(()) => {},
                Err(e) => {
                    proof {
                        lemma_cache_metas_err(lib, c0, ms, force, i + 1);
                        law_cache_metas_failure(lib, c0, ms, force);
                    }
                    return Err(e);
                },
            }
            i += 1;
        }
        assert(ms.take(meta_fps.len() as int) =~= ms);
        proof {
            law_cache_metas_entries(lib, c0, ms, force);
            assert forall|j: int| 0 <= j < meta_fps@.len() implies ms[j] == #[trigger] meta_fps@[j]@ by {}
            assert forall|k: Seq<PathComp>|
                !(exists|j: int| 0 <= j < meta_fps@.len() && components(#[trigger] meta_fps@[j]@) == k)
                implies ((#[trigger] self@.dom().contains(k) <==> c0.dom().contains(k)) && (c0.dom().contains(
                k,
            ) ==> self@[k] == c0[k])) by {
                if exists|j: int| 0 <= j < ms.len() && components(#[trigger] ms[j]) == k {
                    let j = choose|j: int| 0 <= j < ms.len() && components(#[trigger] ms[j]) == k;
                    assert(ms[j] == meta_fps@[j]@);
                }
            }
        }
        Ok(())
    }

    /// Caches one metadata file; a cached one is kept unless `force`.
    pub fn cache_meta_file(&mut self, meta_fp: &str, force: bool) -> (r: Result<(), Error>)
        ensures
            final(self).lib() == old(self).lib(),
            cache_agrees(r, final(self)@, cache_step(old(self).lib(), old(self)@, meta_fp@, force)),
    {
        let mut v: Vec<String> = Vec::new();
        v.push(String::from_str(meta_fp));
        let ghost ms = strings_view(v@);
        assert(ms =~= seq![meta_fp@]);
        assert(ms.drop_last() =~= Seq::<Seq<char>>::empty());
        assert(ms.last() == meta_fp@);
        let ghost lib = self.lib();
        let ghost c0 = self@;
        assert(cache_metas(lib, c0, ms.drop_last(), force) == Ok::<CacheV, (CacheV, Option<ErrorV>)>(
            c0,
        ));
        assert(cache_metas(lib, c0, ms, force) == cache_step(lib, c0, meta_fp@, force));
        self.cache_meta_files(&v, force)
    }

    /// Caches the metadata files of items in turn.
    pub fn cache_item_files(&mut self, item_fps: &Vec<String>, force: bool) -> (r: Result<(), Error>)
        ensures
            final(self).lib() == old(self).lib(),
            cache_agrees(
                r,
                final(self)@,
                cache_items(old(self).lib(), old(self)@, strings_view(item_fps@), force),
            ),
    {
        let ghost lib = self.lib();
        let ghost c0 = self@;
        let ghost its = strings_view(item_fps@);
        let mut i: usize = 0;
        assert(its.take(0) =~= Seq::<Seq<char>>::empty());
        while i < item_fps.len()
            invariant
                i <= item_fps.len(),
                lib == self.lib(),
                lib == old(self).lib(),
                c0 == old(self)@,
                its == strings_view(item_fps@),
                cache_items(lib, c0, its.take(i as int), force) == Ok::<
                    CacheV,
                    (CacheV, Option<ErrorV>),
                >(self@),
            decreases item_fps.len() - i,
        {
            assert(its.take(i + 1).drop_last() =~= its.take(i as int));
            assert(its.take(i + 1).last() == item_fps@[i as int]@);
            let meta_fps = match self.media_lib.meta_fps_from_item_fp(item_fps[i].as_str()) {
                Ok(v) => v,
                Err(e) => {
                    proof {
                        lemma_cache_items_err(lib, c0, its, force, i + 1);
                    }
                    return Err(e);
                },
            };
            match self.cache_meta_files(&meta_fps, force) {
                Ok(()) => {},
                Err(e) => {
                    proof {
                        lemma_cache_items_err(lib, c0, its, force, i + 1);
                    }
                    return Err(e);
                },
            }
            i += 1;
        }
        assert(its.take(item_fps.len() as int) =~= its);
        Ok(())
    }

    /// Caches the metadata files of one item.
    pub fn cache_item_file(&mut self, item_fp: &str, force: bool) -> (r: Result<(), Error>)
        ensures
            final(self).lib() == old(self).lib(),
            cache_agrees(r, final(self)@, cache_items(old(self).lib(), old(self)@, seq![item_fp@], force)),
    {
        let mut v: Vec<String> = Vec::new();
        v.push(String::from_str(item_fp));
        assert(strings_view(v@) =~= seq![item_fp@]);
        self.cache_item_files(&v, force)
    }

    /// Empties the cache.
    pub fn clear(&mut self) -> (r: Result<(), Error>)
        ensures
            final(self).lib() == old(self).lib(),
            r is Ok,
            final(self)@ == CacheV::empty(),
    {
        self.cache.clear();
        Ok(())
    }

    /// Drops metadata files from the cache.
    pub fn clear_meta_files(&mut self, meta_fps: &Vec<String>) -> (r: Result<(), Error>)
        ensures
            final(self).lib() == old(self).lib(),
            r is Ok,
            final(self)@ == clear_metas(old(self)@, strings_view(meta_fps@)),
    {
        let ghost ms = strings_view(meta_fps@);
        let mut i: usize = 0;
        assert(ms.take(0) =~= Seq::<Seq<char>>::empty());
        while i < meta_fps.len()
            invariant
                i <= meta_fps.len(),
                self.lib() == old(self).lib(),
                ms == strings_view(meta_fps@),
                self@ == clear_metas(old(self)@, ms.take(i as int)),
            decreases meta_fps.len() - i,
        {
            assert(ms.take(i + 1).drop_last() =~= ms.take(i as int));
            assert(ms.take(i + 1).last() == meta_fps@[i as int]@);
            let _ = self.cache.remove(meta_fps[i].as_str());
            i += 1;
        }
        assert(ms.take(meta_fps.len() as int) =~= ms);
        Ok(())
    }

    /// Drops one metadata file from the cache.
    pub fn clear_meta_file(&mut self, meta_fp: &str) -> (r: Result<(), Error>)
        ensures
            final(self).lib() == old(self).lib(),
            r is Ok,
            final(self)@ == old(self)@.remove(components(meta_fp@)),
    {
        let mut v: Vec<String> = Vec::new();
        v.push(String::from_str(meta_fp));
        let ghost ms = strings_view(v@);
        assert(ms =~= seq![meta_fp@]);
        assert(ms.drop_last() =~= Seq::<Seq<char>>::empty());
        assert(ms.last() == meta_fp@);
        let ghost c0 = self@;
        assert(clear_metas(c0, ms.drop_last()) == c0);
        assert(clear_metas(c0, ms) == c0.remove(components(meta_fp@)));
        self.clear_meta_files(&v)
    }

    /// Drops the metadata files of items from the cache.
    pub fn clear_item_files(&mut self, item_fps: &Vec<String>) -> (r: Result<(), Error>)
        ensures
            final(self).lib() == old(self).lib(),
            cache_agrees(r, final(self)@, clear_items(old(self).lib(), old(self)@, strings_view(item_fps@))),
    {
        let ghost lib = self.lib();
        let ghost c0 = self@;
        let ghost its = strings_view(item_fps@);
        let mut i: usize = 0;
        assert(its.take(0) =~= Seq::<Seq<char>>::empty());
        while i < item_fps.len()
            invariant
                i <= item_fps.len(),
                lib == self.lib(),
                lib == old(self).lib(),
                c0 == old(self)@,
                its == strings_view(item_fps@),
                clear_items(lib, c0, its.take(i as int)) == Ok::<CacheV, (CacheV, Option<ErrorV>)>(
                    self@,
                ),
            decreases item_fps.len() - i,
        {
            assert(its.take(i + 1).drop_last() =~= its.take(i as int));
            assert(its.take(i + 1).last() == item_fps@[i as int]@);
            let meta_fps = match self.media_lib.meta_fps_from_item_fp(item_fps[i].as_str()) {
                Ok(v) => v,
                Err(e) => {
                    proof {
                        lemma_clear_items_err(lib, c0, its, i + 1);
                    }
                    return Err(e);
                },
            };
            let _ = self.clear_meta_files(&meta_fps);
            i += 1;
        }
        assert(its.take(item_fps.len() as int) =~= its);
        Ok(())
    }

    /// Drops the metadata files of one item from the cache.
    pub fn clear_item_file(&mut self, item_fp: &str) -> (r: Result<(), Error>)
        ensures
            final(self).lib() == old(self).lib(),
            cache_agrees(r, final(self)@, clear_items(old(self).lib(), old(self)@, seq![item_fp@])),
    {
        let mut v: Vec<String> = Vec::new();
        v.push(String::from_str(item_fp));
        assert(strings_view(v@) =~= seq![item_fp@]);
        self.clear_item_files(&v)
    }

    /// The blocks of metadata file `meta_fp`: the cached ones, left as they are;
    /// else the file is read and cached, and its blocks returned; when it cannot
    /// be read, the error, with the cache left as it was.
    pub fn get_meta_file(&mut self, meta_fp: &str) -> (r: Result<Option<&MetadataCache>, Error>)
        ensures
            final(self).lib() == old(self).lib(),
            r matches Err(e) ==> cache_step(old(self).lib(), old(self)@, meta_fp@, false) matches Err(p)
                && p.0 == final(self)@ && error_agrees(e, p.1),
            r matches Ok(x) ==> (cache_step(old(self).lib(), old(self)@, meta_fp@, false)
                == Ok::<CacheV, (CacheV, Option<ErrorV>)>(final(self)@) && (x matches Some(b) && b@
                == final(self)@[components(meta_fp@)])),
            old(self)@.dom().contains(components(meta_fp@)) ==> (r matches Ok(Some(b)) && b@ == old(
                self,
            )@[components(meta_fp@)] && final(self)@ == old(self)@),
            !old(self)@.dom().contains(components(meta_fp@)) ==> match item_fps(old(self).lib(), meta_fp@) {
                Ok(recs) => r matches Ok(Some(b)) && b@ == records_map(recs) && final(self)@ == old(
                    self,
                )@.insert(components(meta_fp@), records_map(recs)),
                Err(e) => r matches Err(err) && error_agrees(err, e) && final(self)@ == old(self)@,
            },
    {
        let ghost c0 = self@;
        let ghost k = components(meta_fp@);
        proof {
            law_get_meta_step(self.lib(), c0, meta_fp@);
        }
        self.cache_meta_file(meta_fp, false)?;
        let result = self.cache.get(meta_fp);
        Ok(result)
    }
}

// =================================================================================================
// Lemmas and laws
// =================================================================================================

proof fn lemma_cache_metas_err(lib: LibV, c: CacheV, ms: Seq<Seq<char>>, force: bool, k: int)
    requires
        0 <= k <= ms.len(),
        cache_metas(lib, c, ms.take(k), force) is Err,
    ensures
        cache_metas(lib, c, ms, force) == cache_metas(lib, c, ms.take(k), force),
    decreases ms.len(),
{
    if k == ms.len() {
        assert(ms.take(k) =~= ms);
    } else {
        assert(ms.drop_last().take(k) =~= ms.take(k));
        lemma_cache_metas_err(lib, c, ms.drop_last(), force, k);
    }
}

proof fn lemma_cache_items_err(lib: LibV, c: CacheV, its: Seq<Seq<char>>, force: bool, k: int)
    requires
        0 <= k <= its.len(),
        cache_items(lib, c, its.take(k), force) is Err,
    ensures
        cache_items(lib, c, its, force) == cache_items(lib, c, its.take(k), force),
    decreases its.len(),
{
    if k == its.len() {
        assert(its.take(k) =~= its);
    } else {
        assert(its.drop_last().take(k) =~= its.take(k));
        lemma_cache_items_err(lib, c, its.drop_last(), force, k);
    }
}

proof fn lemma_clear_items_err(lib: LibV, c: CacheV, its: Seq<Seq<char>>, k: int)
    requires
        0 <= k <= its.len(),
        clear_items(lib, c, its.take(k)) is Err,
    ensures
        clear_items(lib, c, its) == clear_items(lib, c, its.take(k)),
    decreases its.len(),
{
    if k == its.len() {
        assert(its.take(k) =~= its);
    } else {
        assert(its.drop_last().take(k) =~= its.take(k));
        lemma_clear_items_err(lib, c, its.drop_last(), k);
    }
}

/// Once a metadata file is cached, it is in the cache, with the blocks that the
/// file gives; every other cached file is left as it was.
pub proof fn law_cache_step_holds(lib: LibV, c: CacheV, m: Seq<char>, force: bool)
    requires
        cache_step(lib, c, m, force) is Ok,
    ensures
        cache_step(lib, c, m, force)->Ok_0.dom().contains(components(m)),
        (force || !c.dom().contains(components(m))) ==> (item_fps(lib, m) matches Ok(recs)
            && cache_step(lib, c, m, force)->Ok_0[components(m)] == records_map(recs)),
        forall|k: Seq<PathComp>|
            k != components(m) ==> (#[trigger] cache_step(lib, c, m, force)->Ok_0.dom().contains(k)
                <==> c.dom().contains(k)) && (c.dom().contains(k) ==> cache_step(
                lib,
                c,
                m,
                force,
            )->Ok_0[k] == c[k]),
{
}

/// Caching a metadata file again, without forcing, changes nothing.
pub proof fn law_cache_step_idempotent(lib: LibV, c: CacheV, m: Seq<char>, force: bool)
    requires
        cache_step(lib, c, m, force) is Ok,
    ensures
        cache_step(lib, cache_step(lib, c, m, force)->Ok_0, m, false) == cache_step(lib, c, m, force),
{
}

/// Dropping metadata files leaves exactly the other files, unchanged.
pub proof fn law_clear_metas(c: CacheV, ms: Seq<Seq<char>>, k: Seq<PathComp>)
    ensures
        clear_metas(c, ms).dom().contains(k) <==> (c.dom().contains(k) && !(exists|i: int|
            0 <= i < ms.len() && components(#[trigger] ms[i]) == k)),
        clear_metas(c, ms).dom().contains(k) ==> clear_metas(c, ms)[k] == c[k],
    decreases ms.len(),
{
    if ms.len() > 0 {
        let d = ms.drop_last();
        law_clear_metas(c, d, k);
        if exists|i: int| 0 <= i < d.len() && components(#[trigger] d[i]) == k {
            let i = choose|i: int| 0 <= i < d.len() && components(#[trigger] d[i]) == k;
            assert(ms[i] == d[i]);
        }
        if exists|i: int| 0 <= i < ms.len() && components(#[trigger] ms[i]) == k {
            let i = choose|i: int| 0 <= i < ms.len() && components(#[trigger] ms[i]) == k;
            if i < d.len() {
                assert(d[i] == ms[i]);
            } else {
                assert(ms[i] == ms.last());
            }
        }
    }
}

/// Caching metadata files keeps every file that was cached, and caches each of them.
pub proof fn law_cache_metas_holds(lib: LibV, c: CacheV, ms: Seq<Seq<char>>, force: bool)
    requires
        cache_metas(lib, c, ms, force) is Ok,
    ensures
        forall|k: Seq<PathComp>|
            c.dom().contains(k) ==> #[trigger] cache_metas(lib, c, ms, force)->Ok_0.dom().contains(k),
        forall|j: int|
            0 <= j < ms.len() ==> cache_metas(lib, c, ms, force)->Ok_0.dom().contains(
                components(#[trigger] ms[j]),
            ),
    decreases ms.len(),
{
    if ms.len() > 0 {
        let d = ms.drop_last();
        law_cache_metas_holds(lib, c, d, force);
        let c1 = cache_metas(lib, c, d, force)->Ok_0;
        law_cache_step_holds(lib, c1, ms.last(), force);
        assert forall|j: int| 0 <= j < ms.len() implies cache_metas(
            lib,
            c,
            ms,
            force,
        )->Ok_0.dom().contains(components(#[trigger] ms[j])) by {
            if j < d.len() {
                assert(ms[j] == d[j]);
            } else {
                assert(ms[j] == ms.last());
            }
        }
    }
}

/// Caching the metadata files of items keeps every file that was cached, and
/// caches every metadata file of each item.
#[verifier::spinoff_prover]
pub proof fn law_cache_items_holds(lib: LibV, c: CacheV, items: Seq<Seq<char>>, force: bool)
    requires
        cache_items(lib, c, items, force) is Ok,
    ensures
        forall|k: Seq<PathComp>|
            c.dom().contains(k) ==> #[trigger] cache_items(lib, c, items, force)->Ok_0.dom().contains(k),
        forall|i: int, j: int|
            0 <= i < items.len() && meta_fps(lib, items[i]) is Ok && 0 <= j < meta_fps(
                lib,
                items[i],
            )->Ok_0.len() ==> cache_items(lib, c, items, force)->Ok_0.dom().contains(
                components(#[trigger] meta_fps(lib, #[trigger] items[i])->Ok_0[j]),
            ),
    decreases items.len(),
{
    if items.len() > 0 {
        let d = items.drop_last();
        law_cache_items_holds(lib, c, d, force);
        let c1 = cache_items(lib, c, d, force)->Ok_0;
        let ms = meta_fps(lib, items.last())->Ok_0;
        law_cache_metas_holds(lib, c1, ms, force);
        assert forall|i: int, j: int|
            0 <= i < items.len() && meta_fps(lib, items[i]) is Ok && 0 <= j < meta_fps(
                lib,
                items[i],
            )->Ok_0.len() implies cache_items(lib, c, items, force)->Ok_0.dom().contains(
            components(#[trigger] meta_fps(lib, #[trigger] items[i])->Ok_0[j]),
        ) by {
            if i < d.len() {
                assert(items[i] == d[i]);
            } else {
                assert(items[i] == items.last());
            }
        }
    }
}

/// What a metadata file holds after caching files in turn: what it held
/// before when it was cached and not forced, else what the file says.
pub open spec fn cached_value(lib: LibV, c: CacheV, m: Seq<char>, force: bool) -> Map<
    Seq<PathComp>,
    BlockV,
> {
    if !force && c.dom().contains(components(m)) {
        c[components(m)]
    } else {
        records_map(item_fps(lib, m)->Ok_0)
    }
}

/// Two paths with the same components name the same metadata file.
proof fn lemma_item_fps_by_components(lib: LibV, a: Seq<char>, b: Seq<char>)
    requires
        components(a) == components(b),
    ensures
        item_fps(lib, a) == item_fps(lib, b),
{
    assert(crate::path::normalized(a) == crate::path::normalized(b));
}

/// Caching metadata files in turn, when it succeeds, leaves every other file
/// as it was, and gives each of the files the blocks it held before (when it
/// was cached and not forced) or else the blocks that the file says.
pub proof fn law_cache_metas_entries(lib: LibV, c: CacheV, ms: Seq<Seq<char>>, force: bool)
    requires
        cache_metas(lib, c, ms, force) is Ok,
    ensures
        forall|k: Seq<PathComp>|
            !(exists|j: int| 0 <= j < ms.len() && components(#[trigger] ms[j]) == k) ==> ((
            #[trigger] cache_metas(lib, c, ms, force)->Ok_0.dom().contains(k) <==> c.dom().contains(k))
                && (c.dom().contains(k) ==> cache_metas(lib, c, ms, force)->Ok_0[k] == c[k])),
        forall|j: int|
            0 <= j < ms.len() ==> cache_metas(lib, c, ms, force)->Ok_0.dom().contains(
                components(#[trigger] ms[j]),
            ) && cache_metas(lib, c, ms, force)->Ok_0[components(ms[j])] == cached_value(
                lib,
                c,
                ms[j],
                force,
            ),
    decreases ms.len(),
{
    if ms.len() > 0 {
        let d = ms.drop_last();
        let m = ms.last();
        let km = components(m);
        law_cache_metas_entries(lib, c, d, force);
        let c1 = cache_metas(lib, c, d, force)->Ok_0;
        let c2 = cache_metas(lib, c, ms, force)->Ok_0;
        assert(c2 == cache_step(lib, c1, m, force)->Ok_0);
        law_cache_step_holds(lib, c1, m, force);
        let earlier = exists|j: int| 0 <= j < d.len() && components(#[trigger] d[j]) == km;
        assert(c2.dom().contains(km));
        assert(c2[km] == cached_value(lib, c, m, force)) by {
            if earlier {
                let j = choose|j: int| 0 <= j < d.len() && components(#[trigger] d[j]) == km;
                lemma_item_fps_by_components(lib, d[j], m);
                assert(c1[km] == cached_value(lib, c, d[j], force));
            } else {
                assert forall|j: int| 0 <= j < d.len() implies components(#[trigger] d[j]) != km by {}
            }
        }
        assert forall|k: Seq<PathComp>|
            !(exists|j: int| 0 <= j < ms.len() && components(#[trigger] ms[j]) == k) implies ((
            #[trigger] c2.dom().contains(k) <==> c.dom().contains(k)) && (c.dom().contains(k) ==> c2[k]
                == c[k])) by {
            assert(k != km) by {
                if k == km {
                    assert(components(ms[ms.len() - 1]) == k);
                }
            }
            assert(!(exists|j: int| 0 <= j < d.len() && components(#[trigger] d[j]) == k)) by {
                if exists|j: int| 0 <= j < d.len() && components(#[trigger] d[j]) == k {
                    let j = choose|j: int| 0 <= j < d.len() && components(#[trigger] d[j]) == k;
                    assert(ms[j] == d[j]);
                }
            }
        }
        assert forall|j: int| 0 <= j < ms.len() implies c2.dom().contains(components(
            #[trigger] ms[j],
        )) && c2[components(ms[j])] == cached_value(lib, c, ms[j], force) by {
            if j < d.len() {
                assert(ms[j] == d[j]);
                let kj = components(d[j]);
                if kj == km {
                    lemma_item_fps_by_components(lib, d[j], m);
                }
            } else {
                assert(ms[j] == m);
            }
        }
    }
}

/// Where caching metadata files in turn fails: at the file at `k`, which was
/// to be read (forced, or not yet cached) and could not be; the files before
/// it were cached with success, and the failure drops that file from the cache.
pub open spec fn cache_metas_fails_at(lib: LibV, c: CacheV, ms: Seq<Seq<char>>, force: bool, k: int) -> bool {
    &&& 0 <= k < ms.len()
    &&& match (cache_metas(lib, c, ms.take(k), force), item_fps(lib, ms[k])) {
        (Ok(c1), Err(e)) => {
            &&& force || !c1.dom().contains(components(ms[k]))
            &&& cache_metas(lib, c, ms, force) == Err::<CacheV, (CacheV, Option<ErrorV>)>(
                (c1.remove(components(ms[k])), e),
            )
        },
        _ => false,
    }
}

proof fn lemma_cache_metas_fails_at(lib: LibV, c: CacheV, ms: Seq<Seq<char>>, force: bool) -> (k: int)
    requires
        cache_metas(lib, c, ms, force) is Err,
    ensures
        cache_metas_fails_at(lib, c, ms, force, k),
    decreases ms.len(),
{
    let d = ms.drop_last();
    assert(ms.len() > 0);
    if cache_metas(lib, c, d, force) is Err {
        let k = lemma_cache_metas_fails_at(lib, c, d, force);
        assert(d.take(k) =~= ms.take(k));
        assert(d[k] == ms[k]);
        k
    } else {
        let k = ms.len() - 1;
        assert(ms.take(k) =~= d);
        assert(ms[k] == ms.last());
        k
    }
}

/// Caching metadata files in turn, when it fails, fails at one file (see
/// `cache_metas_fails_at`): that file is no longer cached, each file before it
/// holds `cached_value`, and every file that is neither it nor before it is
/// left as it was.
#[verifier::spinoff_prover]
pub proof fn law_cache_metas_failure(lib: LibV, c: CacheV, ms: Seq<Seq<char>>, force: bool) -> (k: int)
    requires
        cache_metas(lib, c, ms, force) is Err,
    ensures
        cache_metas_fails_at(lib, c, ms, force, k),
        !cache_metas(lib, c, ms, force)->Err_0.0.dom().contains(components(ms[k])),
        forall|j: int|
            0 <= j < k && components(#[trigger] ms[j]) != components(ms[k]) ==> cache_metas(
                lib,
                c,
                ms,
                force,
            )->Err_0.0.dom().contains(components(ms[j])) && cache_metas(lib, c, ms, force)->Err_0.0[components(
                ms[j],
            )] == cached_value(lib, c, ms[j], force),
        forall|key: Seq<PathComp>|
            !(exists|j: int| 0 <= j <= k && components(#[trigger] ms[j]) == key) ==> ((
            #[trigger] cache_metas(lib, c, ms, force)->Err_0.0.dom().contains(key) <==> c.dom().contains(key))
                && (c.dom().contains(key) ==> cache_metas(lib, c, ms, force)->Err_0.0[key] == c[key])),
{
    let k = lemma_cache_metas_fails_at(lib, c, ms, force);
    let pre = ms.take(k);
    law_cache_metas_entries(lib, c, pre, force);
    let after = cache_metas(lib, c, ms, force)->Err_0.0;
    let km = components(ms[k]);
    let c1 = cache_metas(lib, c, pre, force)->Ok_0;
    assert(after == c1.remove(km));
    assert forall|j: int| 0 <= j < k && components(#[trigger] ms[j]) != km implies after.dom().contains(
        components(ms[j]),
    ) && after[components(ms[j])] == cached_value(lib, c, ms[j], force) by {
        assert(pre[j] == ms[j]);
    }
    assert forall|key: Seq<PathComp>|
        !(exists|j: int| 0 <= j <= k && components(#[trigger] ms[j]) == key) implies ((
        #[trigger] after.dom().contains(key) <==> c.dom().contains(key)) && (c.dom().contains(key) ==> after[key]
            == c[key])) by {
        assert(components(ms[k]) == km);
        assert(key != km);
        if exists|j: int| 0 <= j < pre.len() && components(#[trigger] pre[j]) == key {
            let j = choose|j: int| 0 <= j < pre.len() && components(#[trigger] pre[j]) == key;
            assert(pre[j] == ms[j]);
        }
        assert(c1.dom().contains(key) <==> c.dom().contains(key));
        assert(after.dom().contains(key) <==> c1.dom().contains(key));
    }
    k
}

/// Looking up a metadata file without forcing: a cached file is kept as it is;
/// otherwise a file that can be read is cached with its blocks, and one that
/// cannot is an error that leaves the cache as it was.
pub proof fn law_get_meta_step(lib: LibV, c: CacheV, m: Seq<char>)
    ensures
        c.dom().contains(components(m)) ==> cache_step(lib, c, m, false) == Ok::<
            CacheV,
            (CacheV, Option<ErrorV>),
        >(c),
        !c.dom().contains(components(m)) ==> match item_fps(lib, m) {
            Ok(recs) => cache_step(lib, c, m, false) == Ok::<CacheV, (CacheV, Option<ErrorV>)>(
                c.insert(components(m), records_map(recs)),
            ),
            Err(e) => cache_step(lib, c, m, false) == Err::<CacheV, (CacheV, Option<ErrorV>)>((c, e)),
        },
{
    let k = components(m);
    if !c.dom().contains(k) {
        assert(c.remove(k) =~= c);
    }
}

} // verus!
