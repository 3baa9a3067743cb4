use taggu::lookup::{lookup_children, lookup_origin, lookup_parents, LookupOptions};
use taggu::metadata::MetaValue;
use taggu::test_helpers::default_setup;

fn s(v: &str) -> Option<MetaValue> {
    Some(MetaValue::Str(v.to_string()))
}

#[test]
fn test_lookup_origin() {
    let (tp, media_lib) = default_setup("test_lookup_origin");
    let disc = format!("{}/ALBUM_01/DISC_01", tp);

    let inputs_and_expected = vec![
        ((disc.clone(), "const_key"), s("const_val")),
        ((disc.clone(), "DISC_01_self_key"), s("DISC_01_self_val")),
        ((disc.clone(), "DISC_01_item_key"), s("DISC_01_item_val")),
        ((disc.clone(), "ALBUM_01_item_key"), None),
        ((disc.clone(), "ALBUM_01_self_key"), None),
        ((disc.clone(), "NON_EXISTENT_KEY"), None),
        ((tp.clone(), "ROOT_item_key"), None),
        ((tp.clone(), "ROOT_self_key"), s("ROOT_self_val")),
    ];

    for ((target_item_path, field_name), expected) in inputs_and_expected {
        let produced = lookup_origin(&media_lib, &target_item_path, &LookupOptions::new(field_name)).unwrap();

        assert_eq!(expected, produced);
    }
}

#[test]
fn test_lookup_parents() {
    let (tp, media_lib) = default_setup("test_lookup_origin");
    let disc = format!("{}/ALBUM_01/DISC_01", tp);

    let inputs_and_expected = vec![
        ((disc.clone(), "const_key"), s("const_val")),
        ((disc.clone(), "DISC_01_self_key"), None),
        ((disc.clone(), "DISC_01_item_key"), None),
        ((disc.clone(), "ALBUM_01_item_key"), s("ALBUM_01_item_val")),
        ((disc.clone(), "ALBUM_01_self_key"), s("ALBUM_01_self_val")),
        ((disc.clone(), "NON_EXISTENT_KEY"), None),
        ((disc.clone(), "ROOT_item_key"), None),
        ((disc.clone(), "ROOT_self_key"), s("ROOT_self_val")),
    ];

    for ((target_item_path, field_name), expected) in inputs_and_expected {
        let produced = lookup_parents(&media_lib, &target_item_path, &LookupOptions::new(field_name)).unwrap();

        assert_eq!(expected, produced);
    }
}

#[test]
fn test_lookup_children() {
    let (tp, media_lib) = default_setup("test_lookup_children");
    let album = format!("{}/ALBUM_01", tp);

    let inputs_and_expected = vec![
        (
            (album.clone(), "const_key"),
            Some(MetaValue::Sequence(vec![
                MetaValue::Str("const_val".to_string()),
                MetaValue::Str("const_val".to_string()),
            ])),
        ),
        (
            (album.clone(), "TRACK_01_item_key"),
            Some(MetaValue::Sequence(vec![
                MetaValue::Sequence(vec![MetaValue::Str("TRACK_01_item_val".to_string())]),
                MetaValue::Sequence(vec![MetaValue::Str("TRACK_01_item_val".to_string())]),
            ])),
        ),
    ];

    for ((target_item_path, field_name), expected) in inputs_and_expected {
        let produced = lookup_children(&media_lib, &target_item_path, &LookupOptions::new(field_name)).unwrap();

        assert_eq!(expected, produced);
    }
}

#[test]
fn lookup_children_of_a_file_is_nothing() {
    let (tp, media_lib) = default_setup("children_of_file");
    let track = format!("{}/ALBUM_01/DISC_01/TRACK_01.flac", tp);
    assert_eq!(lookup_children(&media_lib, &track, &LookupOptions::new("const_key")).unwrap(), None);
}

#[test]
fn lookup_children_leaves_holes_for_items_without_the_field() {
    let (tp, media_lib) = default_setup("children_holes");
    let disc = format!("{}/ALBUM_01/DISC_01", tp);
    assert_eq!(
        lookup_children(&media_lib, &disc, &LookupOptions::new("TRACK_02_item_key")).unwrap(),
        Some(MetaValue::Sequence(vec![MetaValue::Str("TRACK_02_item_val".to_string())]))
    );
    assert_eq!(
        lookup_children(&media_lib, &disc, &LookupOptions::new("NON_EXISTENT_KEY")).unwrap(),
        Some(MetaValue::Sequence(vec![]))
    );
}

#[test]
fn lookup_origin_outside_the_root_fails() {
    let (_tp, media_lib) = default_setup("origin_outside");
    assert!(lookup_origin(&media_lib, "/elsewhere", &LookupOptions::new("const_key")).is_err());
    assert!(lookup_origin(&media_lib, "/tmp/origin_outside/NOPE", &LookupOptions::new("const_key")).is_err());
}

#[test]
fn lookup_parents_stops_at_the_root() {
    let (tp, media_lib) = default_setup("parents_root");
    assert_eq!(lookup_parents(&media_lib, &tp, &LookupOptions::new("const_key")).unwrap(), None);
}

#[test]
fn lookup_options_collect_labels() {
    let mut opts = LookupOptions::new("title");
    assert_eq!(opts.field_name(), "title");
    opts.add_label("a").add_label("b");
    opts.add_labels(&vec!["b", "c"]);
    assert_eq!(opts.field_name(), "title");
}

#[test]
fn parents_lookup_is_parent_origin_then_its_parents() {
    let (tp, media_lib) = default_setup("parents_step");
    let track = format!("{}/ALBUM_03/DISC_02/TRACK_01/SUBTRACK_02.flac", tp);
    let parent = format!("{}/ALBUM_03/DISC_02/TRACK_01", tp);
    for field in ["const_key", "TRACK_01_self_key", "DISC_02_item_key", "ALBUM_03_self_key", "ROOT_self_key", "NONE"] {
        let opts = LookupOptions::new(field);
        let via_parents = lookup_parents(&media_lib, &track, &opts).unwrap();
        let expected = match lookup_origin(&media_lib, &parent, &opts).unwrap() {
            Some(v) => Some(v),
            None => lookup_parents(&media_lib, &parent, &opts).unwrap(),
        };
        assert_eq!(via_parents, expected);
    }
}
