use std::collections::HashSet;

use taggu::cacher::{LookupCacher, MetaFileCache, NewLookupCacher};
use taggu::metadata::{MetaBlock, MetaValue};
use taggu::test_helpers::default_setup;

fn extract_all_meta_fps(raw_cache: &MetaFileCache) -> HashSet<String> {
    raw_cache.entries().iter().map(|(k, _)| k.clone()).collect()
}

fn extract_all_item_fps(raw_cache: &MetaFileCache) -> HashSet<String> {
    raw_cache
        .entries()
        .iter()
        .flat_map(|(_, item_fp_to_mb)| item_fp_to_mb.entries().iter().map(|(k, _)| k.clone()))
        .collect()
}

fn extract_sub_item_fps(raw_cache: &MetaFileCache, meta_fp: &str) -> HashSet<String> {
    raw_cache
        .get(meta_fp)
        .expect("key not found in cache")
        .entries()
        .iter()
        .map(|(k, _)| k.clone())
        .collect()
}

fn set(v: Vec<String>) -> HashSet<String> {
    v.into_iter().collect()
}

#[test]
fn cacher_test_new() {
    let (_tp, media_lib) = default_setup("test_new");

    let cacher = LookupCacher::new(&media_lib);

    assert!(cacher.cache().is_empty());
}

#[test]
fn test_cache_meta_file() {
    let (tp, media_lib) = default_setup("test_cache_meta_file");

    let mut cacher = LookupCacher::new(&media_lib);

    let meta_fp = format!("{}/ALBUM_01/item.yml", tp);
    cacher.cache_meta_file(&meta_fp, false).expect("unable to cache meta file");

    let expected_meta_fps = set(vec![format!("{}/ALBUM_01/item.yml", tp)]);
    assert_eq!(expected_meta_fps, extract_all_meta_fps(cacher.cache()));

    let expected_item_fps = set(vec![format!("{}/ALBUM_01/DISC_01", tp), format!("{}/ALBUM_01/DISC_02", tp)]);
    assert_eq!(expected_item_fps, extract_sub_item_fps(cacher.cache(), &meta_fp));

    let meta_fp = format!("{}/ALBUM_01/item.yml", tp);
    cacher.cache_meta_file(&meta_fp, false).expect("unable to cache meta file");

    let expected_meta_fps = set(vec![format!("{}/ALBUM_01/item.yml", tp)]);
    assert_eq!(expected_meta_fps, extract_all_meta_fps(cacher.cache()));

    let expected_item_fps = set(vec![format!("{}/ALBUM_01/DISC_01", tp), format!("{}/ALBUM_01/DISC_02", tp)]);
    assert_eq!(expected_item_fps, extract_sub_item_fps(cacher.cache(), &meta_fp));

    let meta_fp = format!("{}/ALBUM_01/self.yml", tp);
    cacher.cache_meta_file(&meta_fp, false).expect("unable to cache meta file");

    let expected_meta_fps = set(vec![format!("{}/ALBUM_01/item.yml", tp), format!("{}/ALBUM_01/self.yml", tp)]);
    assert_eq!(expected_meta_fps, extract_all_meta_fps(cacher.cache()));

    let expected_item_fps = set(vec![format!("{}/ALBUM_01", tp)]);
    assert_eq!(expected_item_fps, extract_sub_item_fps(cacher.cache(), &meta_fp));
}

#[test]
fn test_cache_item_file() {
    let (tp, media_lib) = default_setup("test_cache_item_file");

    let mut cacher = LookupCacher::new(&media_lib);

    let item_fp = format!("{}/ALBUM_01/DISC_01", tp);
    cacher.cache_item_file(&item_fp, false).expect("unable to cache item file");

    let expected_meta_fps = set(vec![
        format!("{}/ALBUM_01/item.yml", tp),
        format!("{}/ALBUM_01/DISC_01/self.yml", tp),
    ]);
    assert_eq!(expected_meta_fps, extract_all_meta_fps(cacher.cache()));

    let expected_item_fps = set(vec![
        format!("{}/ALBUM_01/DISC_01", tp),
        // All item files pointed to by the item's meta file are cached.
        format!("{}/ALBUM_01/DISC_02", tp),
    ]);
    assert_eq!(expected_item_fps, extract_all_item_fps(cacher.cache()));

    let item_fp = format!("{}/ALBUM_01/DISC_02", tp);
    cacher.cache_item_file(&item_fp, false).expect("unable to cache item file");

    let expected_meta_fps = set(vec![
        // This should already be present from the first lookup.
        format!("{}/ALBUM_01/item.yml", tp),
        format!("{}/ALBUM_01/DISC_01/self.yml", tp),
        format!("{}/ALBUM_01/DISC_02/self.yml", tp),
    ]);
    assert_eq!(expected_meta_fps, extract_all_meta_fps(cacher.cache()));

    let expected_item_fps = set(vec![
        format!("{}/ALBUM_01/DISC_01", tp),
        // All item files pointed to by the item's meta file are cached.
        format!("{}/ALBUM_01/DISC_02", tp),
    ]);
    assert_eq!(expected_item_fps, extract_all_item_fps(cacher.cache()));

    let item_fp = format!("{}/ALBUM_01/DISC_01/TRACK_01.flac", tp);
    cacher.cache_item_file(&item_fp, false).expect("unable to cache item file");

    let expected_meta_fps = set(vec![
        // This should already be present from the first lookup.
        format!("{}/ALBUM_01/item.yml", tp),
        format!("{}/ALBUM_01/DISC_01/self.yml", tp),
        format!("{}/ALBUM_01/DISC_01/item.yml", tp),
        format!("{}/ALBUM_01/DISC_02/self.yml", tp),
    ]);
    assert_eq!(expected_meta_fps, extract_all_meta_fps(cacher.cache()));

    let expected_item_fps = set(vec![
        format!("{}/ALBUM_01/DISC_01", tp),
        // All item files pointed to by the item's meta file are cached.
        format!("{}/ALBUM_01/DISC_01/TRACK_01.flac", tp),
        format!("{}/ALBUM_01/DISC_01/TRACK_02.flac", tp),
        format!("{}/ALBUM_01/DISC_01/TRACK_03.flac", tp),
        format!("{}/ALBUM_01/DISC_02", tp),
    ]);
    assert_eq!(expected_item_fps, extract_all_item_fps(cacher.cache()));
}

#[test]
fn test_clear() {
    let (tp, media_lib) = default_setup("test_clear");

    let mut cacher = LookupCacher::new(&media_lib);

    cacher.cache_item_file(&format!("{}/ALBUM_01", tp), false).expect("unable to cache item file");
    cacher.cache_item_file(&format!("{}/ALBUM_02", tp), false).expect("unable to cache item file");
    cacher.cache_item_file(&format!("{}/ALBUM_03", tp), false).expect("unable to cache item file");
    cacher.cache_item_file(&format!("{}/ALBUM_05", tp), false).expect("unable to cache item file");

    let expected_meta_fps = set(vec![
        format!("{}/item.yml", tp),
        format!("{}/ALBUM_01/self.yml", tp),
        format!("{}/ALBUM_02/self.yml", tp),
        format!("{}/ALBUM_03/self.yml", tp),
        format!("{}/ALBUM_05/self.yml", tp),
    ]);
    assert_eq!(expected_meta_fps, extract_all_meta_fps(cacher.cache()));

    cacher.clear().expect("unable to clear cache");

    let expected_meta_fps: HashSet<String> = HashSet::new();
    assert_eq!(expected_meta_fps, extract_all_meta_fps(cacher.cache()));
}

#[test]
fn clearing_meta_and_item_files_drops_just_those() {
    let (tp, media_lib) = default_setup("clear_some");
    let mut cacher = LookupCacher::new(&media_lib);
    cacher.cache_item_file(&format!("{}/ALBUM_01/DISC_01", tp), false).unwrap();
    cacher.clear_meta_file(&format!("{}/ALBUM_01/item.yml", tp)).unwrap();
    assert_eq!(
        set(vec![format!("{}/ALBUM_01/DISC_01/self.yml", tp)]),
        extract_all_meta_fps(cacher.cache())
    );
    cacher.cache_item_file(&format!("{}/ALBUM_01/DISC_01", tp), false).unwrap();
    cacher.clear_item_file(&format!("{}/ALBUM_01/DISC_01", tp)).unwrap();
    assert!(cacher.cache().is_empty());
    assert!(cacher.clear_item_file(&format!("{}/NOPE", tp)).is_err());
}

#[test]
fn caching_a_missing_file_fails_and_leaves_it_out() {
    let (tp, media_lib) = default_setup("cache_missing");
    let mut cacher = LookupCacher::new(&media_lib);
    assert!(cacher.cache_meta_file(&format!("{}/ALBUM_04.flac", tp), false).is_err());
    assert!(cacher.cache().is_empty());
    assert!(cacher.cache_item_file(&format!("{}/NOPE", tp), false).is_err());
}

#[test]
fn get_meta_file_caches_then_gives_the_blocks() {
    let (tp, media_lib) = default_setup("get_meta_file");
    let mut cacher = LookupCacher::new(&media_lib);
    let meta_fp = format!("{}/ALBUM_01/self.yml", tp);
    let blocks = cacher.get_meta_file(&meta_fp).unwrap().expect("cached");
    let album = format!("{}/ALBUM_01", tp);
    let block = blocks.get(&album).expect("the album's block");
    assert_eq!(block.get("ALBUM_01_self_key"), Some(&MetaValue::Str("ALBUM_01_self_val".to_string())));
}

#[test]
fn new_cacher_caches_entries_by_hand() {
    let mut c = NewLookupCacher::new();
    assert!(c.cache_entry("/m/item.yml", "/m/a", MetaBlock::new()));
    assert!(c.cache_entry("/m/item.yml", "/m/b", MetaBlock::new()));
    assert!(!c.cache_entry("/m/item.yml", "/m/./a", MetaBlock::new()));
    assert!(c.cache_entry("/m/self.yml", "/m", MetaBlock::new()));
    assert_eq!(c.cache().entries().len(), 2);
    assert_eq!(c.cache().get("/m//item.yml").unwrap().entries().len(), 2);
}

#[test]
fn caching_an_item_caches_each_of_its_metadata_files() {
    let (tp, media_lib) = default_setup("cache_all_metas");
    let mut cacher = LookupCacher::new(&media_lib);
    let item = format!("{}/ALBUM_03/DISC_02/TRACK_01", tp);
    cacher.cache_item_file(&item, false).unwrap();
    let metas = media_lib.meta_fps_from_item_fp(&item).unwrap();
    assert_eq!(metas.len(), 2);
    for m in &metas {
        assert!(cacher.cache().contains_key(m));
    }
}

#[test]
fn a_failing_file_is_dropped_and_later_files_are_left_alone() {
    let (tp, media_lib) = default_setup("cache_partial");
    let mut cacher = LookupCacher::new(&media_lib);
    let first = format!("{}/ALBUM_01/self.yml", tp);
    let bad = format!("{}/ALBUM_04.flac", tp);
    let later = format!("{}/ALBUM_02/self.yml", tp);
    cacher.cache_meta_file(&later, false).unwrap();
    let before_later = extract_sub_item_fps(cacher.cache(), &later);
    let r = cacher.cache_meta_files(&vec![first.clone(), bad.clone(), later.clone()], true);
    assert!(r.is_err());
    assert_eq!(extract_all_meta_fps(cacher.cache()), set(vec![first.clone(), later.clone()]));
    assert_eq!(extract_sub_item_fps(cacher.cache(), &later), before_later);
    assert!(!cacher.cache().contains_key(&bad));
}

#[test]
fn get_meta_file_keeps_a_cached_file_and_reports_an_unreadable_one() {
    let (tp, media_lib) = default_setup("get_meta_cached");
    let mut cacher = LookupCacher::new(&media_lib);
    let meta_fp = format!("{}/ALBUM_01/self.yml", tp);
    cacher.cache_meta_file(&meta_fp, false).unwrap();
    let n = cacher.get_meta_file(&meta_fp).unwrap().expect("cached").entries().len();
    assert_eq!(n, 1);
    assert_eq!(extract_all_meta_fps(cacher.cache()), set(vec![meta_fp.clone()]));
    assert!(cacher.get_meta_file(&format!("{}/ALBUM_04.flac", tp)).is_err());
    assert_eq!(extract_all_meta_fps(cacher.cache()), set(vec![meta_fp]));
}
