use std::collections::HashSet;

use taggu::metadata::{MetaBlock, MetaBlockMap, MetaBlockSeq, MetaValue};
use taggu::plexer::{plex_multiple_map, plex_multiple_seq, plex_singular, PlexTarget};

fn block(pairs: Vec<(&str, MetaValue)>) -> MetaBlock {
    let mut mb = MetaBlock::new();
    for (k, v) in pairs {
        mb.insert(String::from(k), v);
    }
    mb
}

#[test]
fn test_plex_singular() {
    let mb = block(vec![
        ("artist", MetaValue::Str(String::from("lapix"))),
        ("title", MetaValue::Str(String::from("Core Signal"))),
    ]);

    let expected = vec![(PlexTarget::WorkingDir, &mb)];
    let produced = plex_singular(&mb);

    assert_eq!(expected, produced);
}

fn sample_blocks() -> Vec<MetaBlock> {
    vec![
        block(vec![
            (
                "artist",
                MetaValue::Sequence(vec![
                    MetaValue::Str(String::from("MK")),
                    MetaValue::Str(String::from("Kanae Asaba")),
                ]),
            ),
            ("title", MetaValue::Str(String::from("I'm Falling Love With You"))),
        ]),
        block(vec![
            ("artist", MetaValue::Str(String::from("Taishi"))),
            ("title", MetaValue::Str(String::from("Floating Disk"))),
        ]),
        block(vec![
            ("artist", MetaValue::Str(String::from("Nhato"))),
            ("title", MetaValue::Str(String::from("Jupiter Junction"))),
        ]),
    ]
}

#[test]
fn test_plex_multiple_seq() {
    let mb_seq: MetaBlockSeq = sample_blocks();

    let names: Vec<&str> = vec!["TRACK01.flac", "TRACK02.flac", "TRACK03.flac"];

    let expected = vec![
        (PlexTarget::SubItem(names[0].to_string()), &mb_seq[0]),
        (PlexTarget::SubItem(names[1].to_string()), &mb_seq[1]),
        (PlexTarget::SubItem(names[2].to_string()), &mb_seq[2]),
    ];
    let produced = plex_multiple_seq(&mb_seq, &names);

    assert_eq!(expected, produced);
}

#[test]
fn test_plex_multiple_map() {
    let mut mb_map = MetaBlockMap::new();
    let mut blocks = sample_blocks().into_iter();
    mb_map.insert(String::from("TRACK01.flac"), blocks.next().unwrap());
    mb_map.insert(String::from("TRACK02.flac"), blocks.next().unwrap());
    mb_map.insert(String::from("TRACK03.flac"), blocks.next().unwrap());

    let names: Vec<&str> = vec!["TRACK01.flac", "TRACK02.flac", "TRACK03.flac"];

    let expected: HashSet<(PlexTarget, &MetaBlock)> = vec![
        (PlexTarget::SubItem(names[1].to_string()), mb_map.get("TRACK02.flac").unwrap()),
        (PlexTarget::SubItem(names[0].to_string()), mb_map.get("TRACK01.flac").unwrap()),
        (PlexTarget::SubItem(names[2].to_string()), mb_map.get("TRACK03.flac").unwrap()),
    ]
    .into_iter()
    .collect();
    let produced: HashSet<_> = plex_multiple_map(&mb_map, &names, true).into_iter().collect();

    assert_eq!(expected, produced);
}

#[test]
fn plex_seq_leaves_extra_blocks_and_names_over() {
    let mb_seq: MetaBlockSeq = sample_blocks();
    let names: Vec<&str> = vec!["A.flac", "B.flac"];
    let produced = plex_multiple_seq(&mb_seq, &names);
    assert_eq!(produced.len(), 2);
    assert_eq!(produced[1].0, PlexTarget::SubItem("B.flac".to_string()));
    let names: Vec<&str> = vec!["A", "B", "C", "D"];
    assert_eq!(plex_multiple_seq(&mb_seq, &names).len(), 3);
}

#[test]
fn plex_map_fuzzy_matches_prefixes_and_skips_invalid_names() {
    let mut mb_map = MetaBlockMap::new();
    let mut blocks = sample_blocks().into_iter();
    mb_map.insert(String::from("TRACK01"), blocks.next().unwrap());
    mb_map.insert(String::from("bad/name"), blocks.next().unwrap());
    mb_map.insert(String::from("NOPE"), blocks.next().unwrap());
    let names: Vec<&str> = vec!["TRACK01.flac", "TRACK02.flac"];
    let produced = plex_multiple_map(&mb_map, &names, true);
    assert_eq!(produced.len(), 1);
    assert_eq!(produced[0].0, PlexTarget::SubItem("TRACK01.flac".to_string()));
    let produced = plex_multiple_map(&mb_map, &names, false);
    assert_eq!(produced.len(), 0);
}

#[test]
fn plex_target_resolves_against_the_working_dir() {
    assert_eq!(PlexTarget::WorkingDir.resolve("/music/a"), "/music/a");
    assert_eq!(PlexTarget::SubItem("t.flac".to_string()).resolve("/music/a"), "/music/a/t.flac");
}

#[test]
fn plex_map_records_come_in_key_order_and_name_their_items() {
    let mut mb_map = MetaBlockMap::new();
    let mut blocks = sample_blocks().into_iter();
    mb_map.insert(String::from("c.flac"), blocks.next().unwrap());
    mb_map.insert(String::from("a.flac"), blocks.next().unwrap());
    mb_map.insert(String::from("b.flac"), blocks.next().unwrap());
    let names: Vec<&str> = vec!["c.flac", "x.flac", "a.flac", "a.flac"];
    let produced = plex_multiple_map(&mb_map, &names, false);
    assert_eq!(produced.len(), 2);
    assert_eq!(produced[0].0, PlexTarget::SubItem("a.flac".to_string()));
    assert_eq!(produced[0].1, mb_map.get("a.flac").unwrap());
    assert_eq!(produced[1].0, PlexTarget::SubItem("c.flac".to_string()));
    assert_eq!(produced[1].1, mb_map.get("c.flac").unwrap());

    let names: Vec<&str> = vec!["c.flac", "b.flac", "a.flac"];
    let produced = plex_multiple_map(&mb_map, &names, true);
    assert_eq!(produced.len(), 3);
    assert_eq!(produced[0].0, PlexTarget::SubItem("a.flac".to_string()));
    assert_eq!(produced[1].0, PlexTarget::SubItem("b.flac".to_string()));
    assert_eq!(produced[2].0, PlexTarget::SubItem("c.flac".to_string()));
}
