use std::cmp::Ordering;
use std::collections::HashSet;

use taggu::error::Error;
use taggu::fs::FsSnapshot;
use taggu::library::MediaLibrary;
use taggu::metadata::{MetaBlock, MetaTarget, MetaValue};
use taggu::selection::{RegexPattern, Selection};
use taggu::sort_order::SortOrder;

fn flac_or_dir() -> Selection {
    Selection::Or(
        Box::new(Selection::IsDir),
        Box::new(Selection::And(Box::new(Selection::IsFile), Box::new(Selection::Ext("flac".to_string())))),
    )
}

fn block(pairs: Vec<(&str, MetaValue)>) -> MetaBlock {
    let mut mb = MetaBlock::new();
    for (k, v) in pairs {
        mb.insert(String::from(k), v);
    }
    mb
}

fn s(v: &str) -> MetaValue {
    MetaValue::Str(v.to_string())
}

/// The tree of the metadata tests: a root with a sub directory and two media
/// files, and metadata files beside them.
fn sample_fs(tp: &str) -> FsSnapshot {
    let mut fs = FsSnapshot::new();
    fs.add_dir(tp, Some(0));
    fs.add_dir(&format!("{}/subdir", tp), Some(30));
    fs.add_file(&format!("{}/item.flac", tp), Some(10), Some(String::new()));
    fs.add_file(&format!("{}/subdir/subitem.flac", tp), Some(30), Some(String::new()));
    fs.add_file(
        &format!("{}/self.yml", tp),
        Some(40),
        Some("title: PsyStyle Nation\nartist: [lapix, Massive New Krew]\n".to_string()),
    );
    fs.add_file(
        &format!("{}/item.yml", tp),
        Some(41),
        Some("item.flac:\n  title: Black Mamba\n  artist: lapix\nsubdir:\n  title: What Is This?\n".to_string()),
    );
    fs.add_file(
        &format!("{}/item_map.yml", tp),
        Some(42),
        Some("item.flac:\n  title: Black Mamba\n  artist: lapix\nsubdir:\n  title: What Is This?\n".to_string()),
    );
    fs.add_file(
        &format!("{}/item_seq.yml", tp),
        Some(43),
        Some("- title: Black Mamba\n  artist: lapix\n- title: What Is This?\n".to_string()),
    );
    fs.add_file(
        &format!("{}/subdir/self.yml", tp),
        Some(44),
        Some("title: A Subtrack?\nartist: Massive New Krew\n".to_string()),
    );
    fs
}

#[test]
fn mod_test_is_proper_sub_path() {
    let tp = "/tmp/test_is_proper_sub_path";
    let mut fs = FsSnapshot::new();
    fs.add_dir(tp, None);
    let ml = MediaLibrary::new(tp, fs, vec![], Selection::True, SortOrder::Name).unwrap();

    let inputs_and_expected = vec![
        (format!("{}/sub", tp), true),
        (format!("{}/sub/more", tp), true),
        (format!("{}/..", tp), false),
        (format!("{}/.", tp), true),
        ("/tmp/other".to_string(), false),
        (format!("{}/sub/more/../back", tp), true),
        (format!("{}/sub/more/../..", tp), true),
        (format!("{}/sub/../..", tp), false),
        (format!("{}/./sub/.", tp), true),
    ];

    for (input, expected) in inputs_and_expected {
        let produced = ml.is_proper_sub_path(&input);
        assert_eq!(expected, produced);
    }
}

#[test]
fn test_meta_fps_from_item_fp() {
    let tp = "/tmp/test_meta_fps_from_item_fp";
    let meta_targets = vec![
        (String::from("self.yml"), MetaTarget::Contains),
        (String::from("item.yml"), MetaTarget::Siblings),
    ];
    let media_lib = MediaLibrary::new(tp, sample_fs(tp), meta_targets, flac_or_dir(), SortOrder::Name)
        .expect("Unable to create media library");

    let found = media_lib.meta_fps_from_item_fp(tp).expect("Unable to get meta fps");
    assert_eq!(vec![format!("{}/self.yml", tp)], found);

    let found = media_lib.meta_fps_from_item_fp(&format!("{}/item.flac", tp)).expect("Unable to get meta fps");
    assert_eq!(vec![format!("{}/item.yml", tp)], found);

    let found = media_lib.meta_fps_from_item_fp(&format!("{}/subdir", tp)).expect("Unable to get meta fps");
    assert_eq!(vec![format!("{}/subdir/self.yml", tp), format!("{}/item.yml", tp)], found);

    assert!(media_lib.meta_fps_from_item_fp(&format!("{}/DOES_NOT_EXIST", tp)).is_err());

    let found = media_lib
        .meta_fps_from_item_fp(&format!("{}/subdir/subitem.flac", tp))
        .expect("Unable to get meta fps");
    assert_eq!(Vec::<String>::new(), found);
}

#[test]
fn test_item_fps_from_meta_fp() {
    let tp = "/tmp/test_item_fps_from_meta_fp";
    let meta_targets_map = vec![
        (String::from("self.yml"), MetaTarget::Contains),
        (String::from("item_map.yml"), MetaTarget::Siblings),
    ];
    let meta_targets_seq = vec![
        (String::from("self.yml"), MetaTarget::Contains),
        (String::from("item_seq.yml"), MetaTarget::Siblings),
    ];
    let media_lib_map = MediaLibrary::new(tp, sample_fs(tp), meta_targets_map, flac_or_dir(), SortOrder::Name)
        .expect("Unable to create media library");
    let media_lib_seq = MediaLibrary::new(tp, sample_fs(tp), meta_targets_seq, flac_or_dir(), SortOrder::ModTime)
        .expect("Unable to create media library");

    let found = media_lib_map.item_fps_from_meta_fp(&format!("{}/self.yml", tp)).expect("Unable to get item fps");
    assert_eq!(
        vec![(
            tp.to_string(),
            block(vec![
                ("title", s("PsyStyle Nation")),
                ("artist", MetaValue::Sequence(vec![s("lapix"), s("Massive New Krew")])),
            ])
        )],
        found
    );

    let found = media_lib_map.item_fps_from_meta_fp(&format!("{}/item_map.yml", tp)).expect("Unable to get item fps");
    assert_eq!(
        vec![
            (format!("{}/item.flac", tp), block(vec![("artist", s("lapix")), ("title", s("Black Mamba"))])),
            (format!("{}/subdir", tp), block(vec![("title", s("What Is This?"))])),
        ],
        found
    );

    let found = media_lib_seq.item_fps_from_meta_fp(&format!("{}/item_seq.yml", tp)).expect("Unable to get item fps");
    assert_eq!(
        vec![
            (format!("{}/item.flac", tp), block(vec![("artist", s("lapix")), ("title", s("Black Mamba"))])),
            (format!("{}/subdir", tp), block(vec![("title", s("What Is This?"))])),
        ],
        found
    );

    let found = media_lib_map
        .item_fps_from_meta_fp(&format!("{}/subdir/self.yml", tp))
        .expect("Unable to get item fps");
    assert_eq!(
        vec![(
            format!("{}/subdir", tp),
            block(vec![("title", s("A Subtrack?")), ("artist", s("Massive New Krew"))])
        )],
        found
    );

    assert!(media_lib_map.item_fps_from_meta_fp(&format!("{}/DOES_NOT_EXIST", tp)).is_err());
}

#[test]
fn mod_test_new() {
    let tp = "/tmp/test_new";
    let mut fs = FsSnapshot::new();
    fs.add_dir(tp, None);
    fs.add_dir(&format!("{}/test", tp), None);
    fs.add_file(&format!("{}/file", tp), None, None);

    let ml = MediaLibrary::new(&format!("{}/test", tp), fs, vec![], Selection::True, SortOrder::Name);
    assert!(ml.is_ok());

    let mut fs = FsSnapshot::new();
    fs.add_dir(tp, None);
    fs.add_file(&format!("{}/file", tp), None, None);
    let ml = MediaLibrary::new(&format!("{}/DOES_NOT_EXIST", tp), fs, vec![], Selection::True, SortOrder::Name);
    assert!(matches!(ml, Err(Error::Io(_))));

    let mut fs = FsSnapshot::new();
    fs.add_dir(tp, None);
    fs.add_file(&format!("{}/file", tp), None, None);
    let ml = MediaLibrary::new(&format!("{}/file", tp), fs, vec![], Selection::True, SortOrder::Name);
    assert!(matches!(ml, Err(Error::NotADirectory(_))));
}

#[test]
fn test_is_selected_path() {
    let tp = "/tmp/test_is_selected_path";
    let mut paths_and_flags: Vec<(String, bool)> = Vec::new();
    let exts = vec!["flac", "ogg"];
    let suffixes = vec!["_a", "_b", "_aa"];
    for suffix in &suffixes {
        paths_and_flags.push((format!("{}/file{}", tp, suffix), false));
        paths_and_flags.push((format!("{}/dir{}", tp, suffix), true));
        for ext in &exts {
            paths_and_flags.push((format!("{}/file{}.{}", tp, suffix, ext), false));
            paths_and_flags.push((format!("{}/dir{}.{}", tp, suffix, ext), true));
        }
    }
    let mut fs = FsSnapshot::new();
    fs.add_dir(tp, None);
    for (path, is_dir) in &paths_and_flags {
        if *is_dir {
            fs.add_dir(path, None);
        } else {
            fs.add_file(path, None, None);
        }
    }

    let selections_and_true_indices: Vec<(Selection, Vec<usize>)> = vec![
        (Selection::IsFile, vec![0, 2, 4, 6, 8, 10, 12, 14, 16]),
        (Selection::IsDir, vec![1, 3, 5, 7, 9, 11, 13, 15, 17]),
        (Selection::Ext("flac".to_string()), vec![2, 3, 8, 9, 14, 15]),
        (Selection::Ext("ogg".to_string()), vec![4, 5, 10, 11, 16, 17]),
        (Selection::Regex(RegexPattern::new(r".*_a\..*").unwrap()), vec![2, 3, 4, 5]),
        (
            Selection::And(Box::new(Selection::IsFile), Box::new(Selection::Ext("ogg".to_string()))),
            vec![4, 10, 16],
        ),
        (
            Selection::Or(
                Box::new(Selection::Ext("ogg".to_string())),
                Box::new(Selection::Ext("flac".to_string())),
            ),
            vec![2, 3, 4, 5, 8, 9, 10, 11, 14, 15, 16, 17],
        ),
        (flac_or_dir(), vec![1, 2, 3, 5, 7, 8, 9, 11, 13, 14, 15, 17]),
        (Selection::Not(Box::new(Selection::IsFile)), vec![1, 3, 5, 7, 9, 11, 13, 15, 17]),
        (
            Selection::Not(Box::new(Selection::Ext("flac".to_string()))),
            vec![0, 1, 4, 5, 6, 7, 10, 11, 12, 13, 16, 17],
        ),
        (
            Selection::Xor(Box::new(Selection::IsDir), Box::new(Selection::Ext("flac".to_string()))),
            vec![1, 2, 5, 7, 8, 11, 13, 14, 17],
        ),
        (Selection::True, (0..18).collect()),
        (Selection::False, vec![]),
    ];

    for (selection, true_indices) in selections_and_true_indices {
        for (index, (abs_path, _)) in paths_and_flags.iter().enumerate() {
            let expected = true_indices.contains(&index);
            let produced = selection.is_selected_path(&fs, abs_path);
            assert_eq!(expected, produced);
        }
    }
    assert!(!Selection::True.is_selected_path(&fs, "/tmp/test_is_selected_path/NOPE"));
}

#[test]
fn test_path_sort_cmp() {
    let tp = "/tmp/sort";
    let fps = vec![
        format!("{}/file_b", tp),
        format!("{}/file_a", tp),
        format!("{}/file_d", tp),
        format!("{}/file_e", tp),
        format!("{}/file_c", tp),
    ];
    let mut fs = FsSnapshot::new();
    fs.add_dir(tp, Some(0));
    for (i, fp) in fps.iter().enumerate() {
        fs.add_file(fp, Some(10 * (i as u128 + 1)), None);
    }

    let sort_order = SortOrder::ModTime;
    for (o_i, o_val) in fps.iter().enumerate() {
        for (i_i, i_val) in fps.iter().enumerate() {
            assert_eq!(o_i.cmp(&i_i), sort_order.path_sort_cmp(&fs, o_val, i_val));
        }
    }

    let sort_order = SortOrder::Name;
    for o_val in fps.iter() {
        for i_val in fps.iter() {
            let a = o_val.rsplit('/').next();
            let b = i_val.rsplit('/').next();
            assert_eq!(a.cmp(&b), sort_order.path_sort_cmp(&fs, o_val, i_val));
        }
    }
}

#[test]
fn sort_order_test_get_mtime() {
    let tp = "/tmp/mtime";
    let mut fs = FsSnapshot::new();
    fs.add_dir(tp, Some(1));
    fs.add_file(&format!("{}/file.txt", tp), Some(5), None);
    fs.add_dir(&format!("{}/dir", tp), Some(6));
    fs.add_file(&format!("{}/time_a.txt", tp), Some(7), None);
    fs.add_file(&format!("{}/time_b.txt", tp), Some(17), None);
    assert!(SortOrder::get_mtime(&fs, &format!("{}/file.txt", tp)).is_some());
    assert!(SortOrder::get_mtime(&fs, &format!("{}/dir", tp)).is_some());
    assert!(SortOrder::get_mtime(&fs, &format!("{}/NON_EXISTENT", tp)).is_none());
    let time_a = SortOrder::get_mtime(&fs, &format!("{}/time_a.txt", tp));
    let time_b = SortOrder::get_mtime(&fs, &format!("{}/time_b.txt", tp));
    assert!(time_a < time_b);
    assert_eq!(SortOrder::ModTime.path_sort_cmp(&fs, "/tmp/mtime/time_a.txt", "/tmp/mtime/time_b.txt"), Ordering::Less);
}

#[test]
fn children_are_selected_entries_in_order() {
    let tp = "/tmp/children";
    let meta_targets = vec![(String::from("self.yml"), MetaTarget::Contains)];
    let media_lib = MediaLibrary::new(tp, sample_fs(tp), meta_targets, flac_or_dir(), SortOrder::ModTime).unwrap();
    assert_eq!(
        media_lib.children_paths(tp),
        vec![format!("{}/item.flac", tp), format!("{}/subdir", tp)]
    );
    let mut all = media_lib.all_entries_in_dir(tp);
    all.sort();
    assert_eq!(all.len(), 6);
    assert_eq!(
        media_lib.selected_entries_in_dir(tp),
        vec![format!("{}/subdir", tp), format!("{}/item.flac", tp)]
    );
    assert!(media_lib.is_selected_media_item(&format!("{}/subdir/../item.flac", tp)));
    assert!(!media_lib.is_selected_media_item(&format!("{}/self.yml", tp)));
}

#[test]
fn target_meta_dirs_of_items() {
    let tp = "/tmp/targets";
    let meta_targets = vec![
        (String::from("self.yml"), MetaTarget::Contains),
        (String::from("item.yml"), MetaTarget::Siblings),
    ];
    let media_lib = MediaLibrary::new(tp, sample_fs(tp), meta_targets, flac_or_dir(), SortOrder::Name).unwrap();
    let sub = format!("{}/subdir", tp);
    assert_eq!(media_lib.get_contains_dir(&sub), Some(sub.clone()));
    assert_eq!(media_lib.get_contains_dir(&format!("{}/item.flac", tp)), None);
    assert_eq!(media_lib.get_siblings_dir(&sub), Some(tp.to_string()));
    assert_eq!(media_lib.get_siblings_dir(tp), None);
    assert_eq!(media_lib.get_siblings_dir(&format!("{}/NOPE", tp)), None);
    assert_eq!(media_lib.get_meta_file_name(&MetaTarget::Siblings), Some(&"item.yml".to_string()));
    assert!(MediaLibrary::is_valid_item_name("x.flac"));
    assert!(!MediaLibrary::is_valid_item_name("a/b"));
}

fn named_metas() -> Vec<(String, MetaTarget)> {
    vec![
        (String::from("item_meta.yml"), MetaTarget::Siblings),
        (String::from("self_meta.yml"), MetaTarget::Contains),
    ]
}

fn root_only(tp: &str) -> FsSnapshot {
    let mut fs = FsSnapshot::new();
    fs.add_dir(tp, None);
    fs
}

#[test]
fn library_test_is_proper_sub_path() {
    let tp = "/tmp/test_is_proper_sub_path_lib";
    let ml = MediaLibrary::new(tp, root_only(tp), named_metas(), Selection::True, SortOrder::Name).unwrap();

    let inputs_and_expected = vec![
        (format!("{}/sub", tp), true),
        (format!("{}/sub/more", tp), true),
        (format!("{}/..", tp), false),
        (format!("{}/.", tp), true),
        ("/tmp/other".to_string(), false),
        (format!("{}/sub/more/../back", tp), true),
        (format!("{}/sub/more/../..", tp), true),
        (format!("{}/sub/../..", tp), false),
        (format!("{}/./sub/.", tp), true),
    ];

    for (input, expected) in inputs_and_expected {
        let produced = ml.is_proper_sub_path(&input);
        assert_eq!(expected, produced);
    }
}

/// Files `a`, `b`, `c` and a directory `sub` in each of three nested levels.
fn nested_fs(tp: &str) -> (FsSnapshot, Vec<(String, Option<String>)>, Vec<(String, Option<String>)>) {
    let mut fs = root_only(tp);
    let mut contains = vec![(tp.to_string(), Some(tp.to_string()))];
    let mut siblings = vec![(tp.to_string(), None)];
    let mut curr_dir = tp.to_string();
    for _ in 0..3 {
        for f in ["a", "b", "c"] {
            let curr_f = format!("{}/{}", curr_dir, f);
            fs.add_file(&curr_f, None, None);
            contains.push((curr_f.clone(), None));
            siblings.push((curr_f, Some(curr_dir.clone())));
        }
        let old_dir = curr_dir.clone();
        curr_dir = format!("{}/sub", curr_dir);
        fs.add_dir(&curr_dir, None);
        contains.push((curr_dir.clone(), Some(curr_dir.clone())));
        siblings.push((curr_dir.clone(), Some(old_dir)));
    }
    contains.push((format!("{}/DOES_NOT_EXIST", tp), None));
    siblings.push((format!("{}/DOES_NOT_EXIST", tp), None));
    (fs, contains, siblings)
}

#[test]
fn test_get_contains_dir() {
    let tp = "/tmp/test_get_contains_dir";
    let (fs, inputs_and_expected, _) = nested_fs(tp);
    let ml = MediaLibrary::new(tp, fs, named_metas(), Selection::True, SortOrder::Name).unwrap();
    for (input, expected) in inputs_and_expected {
        let produced = ml.get_contains_dir(&input);
        assert_eq!(expected, produced);
    }
}

#[test]
fn test_get_siblings_dir() {
    let tp = "/tmp/test_get_siblings_dir";
    let (fs, _, inputs_and_expected) = nested_fs(tp);
    let ml = MediaLibrary::new(tp, fs, named_metas(), Selection::True, SortOrder::Name).unwrap();
    for (input, expected) in inputs_and_expected {
        let produced = ml.get_siblings_dir(&input);
        assert_eq!(expected, produced);
    }
}

fn flat_fs(tp: &str, with_sub: bool) -> (FsSnapshot, Vec<String>) {
    let mut fs = root_only(tp);
    let mut paths = Vec::new();
    for name in ["file_a.flac", "file_b.flac", "file_c.flac"] {
        let p = format!("{}/{}", tp, name);
        fs.add_file(&p, None, None);
        paths.push(p);
    }
    if with_sub {
        let p = format!("{}/sub", tp);
        fs.add_dir(&p, None);
        paths.push(p);
    }
    for name in ["file_d.yml", "file_e.jpg"] {
        let p = format!("{}/{}", tp, name);
        fs.add_file(&p, None, None);
        paths.push(p);
    }
    (fs, paths)
}

#[test]
fn test_all_entries_in_dir() {
    let tp = "/tmp/test_all_entries_in_dir";
    let (fs, paths) = flat_fs(tp, false);
    let ml = MediaLibrary::new(tp, fs, named_metas(), Selection::True, SortOrder::Name).unwrap();
    let expected: HashSet<String> = paths.into_iter().collect();
    let produced: HashSet<String> = ml.all_entries_in_dir(tp).into_iter().collect();
    assert_eq!(expected, produced);
}

#[test]
fn test_selected_entries_in_dir() {
    let tp = "/tmp/test_selected_entries_in_dir";
    let (fs, paths) = flat_fs(tp, true);
    let ml = MediaLibrary::new(tp, fs, named_metas(), Selection::True, SortOrder::Name).unwrap();
    let expected: HashSet<String> = paths.iter().cloned().collect();
    let produced: HashSet<String> = ml.selected_entries_in_dir(tp).into_iter().collect();
    assert_eq!(expected, produced);

    let (fs, _) = flat_fs(tp, true);
    let ml = MediaLibrary::new(tp, fs, named_metas(), Selection::Ext("flac".to_string()), SortOrder::Name).unwrap();
    let expected: HashSet<String> = paths.iter().take(3).cloned().collect();
    let produced: HashSet<String> = ml.selected_entries_in_dir(tp).into_iter().collect();
    assert_eq!(expected, produced);

    let (fs, _) = flat_fs(tp, true);
    let ml = MediaLibrary::new(tp, fs, named_metas(), flac_or_dir(), SortOrder::Name).unwrap();
    let expected: HashSet<String> = paths.iter().take(4).cloned().collect();
    let produced: HashSet<String> = ml.selected_entries_in_dir(tp).into_iter().collect();
    assert_eq!(expected, produced);
}

#[test]
fn library_test_new() {
    let tp = "/tmp/test_new_lib";
    let mut fs = root_only(tp);
    fs.add_dir(&format!("{}/test", tp), None);
    let ml = MediaLibrary::new(&format!("{}/test", tp), fs, named_metas(), Selection::True, SortOrder::Name);
    assert!(ml.is_ok());

    let ml = MediaLibrary::new(&format!("{}/DOES_NOT_EXIST", tp), root_only(tp), named_metas(), Selection::True, SortOrder::Name);
    assert!(ml.is_err());
}

#[test]
fn library_test_is_valid_item_name() {
    let inputs_and_expected = vec![
        ("simple", true),
        ("simple.ext", true),
        ("spaces ok", true),
        ("questions?", true),
        ("exclamation!", true),
        ("period.", true),
        (".period", true),
        ("", false),
        (".", false),
        ("..", false),
        ("/simple", false),
        ("./simple", false),
        ("simple/", false),
        ("simple/.", false),
        ("/", false),
        ("/simple/more", false),
        ("simple/more", false),
    ];

    for (input, expected) in inputs_and_expected {
        let produced = MediaLibrary::is_valid_item_name(input);
        assert_eq!(expected, produced);
    }
}

#[test]
fn a_metadata_file_that_does_not_scan_gives_the_scanner_error() {
    let tp = "/tmp/bad_yaml";
    let mut fs = root_only(tp);
    fs.add_file(&format!("{}/self_meta.yml", tp), None, Some("a: [b".to_string()));
    let ml = MediaLibrary::new(tp, fs, named_metas(), Selection::True, SortOrder::Name).unwrap();
    assert!(matches!(ml.item_fps_from_meta_fp(&format!("{}/self_meta.yml", tp)), Err(Error::Yaml(_))));
}
