use taggu::metadata::{MappingIterScheme, MetaBlock, MetaKey, MetaMap, MetaValue};
use taggu::resolver::{ltr_overwrite_vals, map_update_vals};

#[test]
fn test_meta_value_collect_data() {
    let str_sample_a = "Goldfish".to_string();
    let str_sample_b = "DIMMI".to_string();
    let seq_sample = vec![MetaValue::Str(str_sample_a.clone()), MetaValue::Str(str_sample_b.clone())];

    let inputs_and_expected: Vec<(MetaValue, Vec<&String>)> = vec![
        (MetaValue::Nil, vec![]),
        (MetaValue::Str(str_sample_a.clone()), vec![&str_sample_a]),
        (MetaValue::Sequence(seq_sample.clone()), vec![&str_sample_a, &str_sample_b]),
    ];

    for (input, expected) in inputs_and_expected {
        let produced: Vec<&String> = input.collect_data();
        assert_eq!(expected, produced);
    }
}

#[test]
fn test_meta_value_flatten() {
    let str_sample_a = "Goldfish".to_string();
    let str_sample_b = "DIMMI".to_string();
    let seq_sample = vec![MetaValue::Str(str_sample_a.clone()), MetaValue::Str(str_sample_b.clone())];

    let mis = MappingIterScheme::Both;

    let inputs_and_expected: Vec<(MetaValue, Vec<&String>)> = vec![
        (MetaValue::Nil, vec![]),
        (MetaValue::Str(str_sample_a.clone()), vec![&str_sample_a]),
        (MetaValue::Sequence(seq_sample.clone()), vec![&str_sample_a, &str_sample_b]),
    ];

    for (input, expected) in inputs_and_expected {
        let produced: Vec<&String> = input.iter_over(mis);
        assert_eq!(expected, produced);
    }
}

fn sample_mapping() -> MetaValue {
    let mut m = MetaMap::new();
    m.insert(MetaKey::Str("title".to_string()), MetaValue::Str("Core Signal".to_string()));
    m.insert(MetaKey::Str("artist".to_string()), MetaValue::Str("lapix".to_string()));
    m.insert(MetaKey::Nil, MetaValue::Str("root".to_string()));
    MetaValue::Mapping(m)
}

#[test]
fn iter_over_walks_mappings_by_scheme() {
    let v = sample_mapping();
    let keys: Vec<String> = v.iter_over(MappingIterScheme::Keys).into_iter().cloned().collect();
    assert_eq!(keys, vec!["artist".to_string(), "title".to_string()]);
    let vals: Vec<String> = v.iter_over(MappingIterScheme::Vals).into_iter().cloned().collect();
    assert_eq!(vals, vec!["root".to_string(), "lapix".to_string(), "Core Signal".to_string()]);
    let both: Vec<String> = v.iter_over(MappingIterScheme::Both).into_iter().cloned().collect();
    assert_eq!(
        both,
        vec!["root".to_string(), "artist".to_string(), "lapix".to_string(), "title".to_string(), "Core Signal".to_string()]
    );
    let all: Vec<String> = v.collect_data().into_iter().cloned().collect();
    assert_eq!(all, both);
}

#[test]
fn mapping_keys_stay_sorted_and_unique() {
    let mut m = MetaMap::new();
    m.insert(MetaKey::Str("b".to_string()), MetaValue::Nil);
    m.insert(MetaKey::Str("a".to_string()), MetaValue::Nil);
    m.insert(MetaKey::Str("b".to_string()), MetaValue::Str("x".to_string()));
    m.insert(MetaKey::Nil, MetaValue::Nil);
    let keys: Vec<MetaKey> = m.entries().iter().map(|(k, _)| k.clone()).collect();
    assert_eq!(keys, vec![MetaKey::Nil, MetaKey::Str("a".to_string()), MetaKey::Str("b".to_string())]);
    assert_eq!(m.entries()[2].1, MetaValue::Str("x".to_string()));
}

#[test]
fn block_insert_replaces_and_get_finds() {
    let mut b = MetaBlock::new();
    b.insert("title".to_string(), MetaValue::Str("A".to_string()));
    b.insert("artist".to_string(), MetaValue::Str("B".to_string()));
    b.insert("title".to_string(), MetaValue::Str("C".to_string()));
    assert_eq!(b.len(), 2);
    assert_eq!(b.get("title"), Some(&MetaValue::Str("C".to_string())));
    assert_eq!(b.get("artist"), Some(&MetaValue::Str("B".to_string())));
    assert_eq!(b.get("missing"), None);
}

#[test]
fn overwrite_takes_the_right_value() {
    let l = MetaValue::Str("left".to_string());
    let r = MetaValue::Sequence(vec![MetaValue::Nil]);
    assert_eq!(ltr_overwrite_vals(&l, &r), r);
}

#[test]
fn update_of_a_non_mapping_is_the_right_value() {
    let l = MetaValue::Str("left".to_string());
    let r = sample_mapping();
    assert_eq!(map_update_vals(&l, &r), r);
}

#[test]
fn update_of_a_mapping_by_a_plain_value_sets_the_null_key() {
    let mut lm = MetaMap::new();
    lm.insert(MetaKey::Str("a".to_string()), MetaValue::Str("1".to_string()));
    let l = MetaValue::Mapping(lm);
    let r = MetaValue::Str("x".to_string());
    let mut expected = MetaMap::new();
    expected.insert(MetaKey::Nil, MetaValue::Str("x".to_string()));
    expected.insert(MetaKey::Str("a".to_string()), MetaValue::Str("1".to_string()));
    assert_eq!(map_update_vals(&l, &r), MetaValue::Mapping(expected));
}

#[test]
fn update_of_a_mapping_by_a_mapping_lets_the_right_win() {
    let mut lm = MetaMap::new();
    lm.insert(MetaKey::Str("a".to_string()), MetaValue::Str("1".to_string()));
    lm.insert(MetaKey::Str("b".to_string()), MetaValue::Str("2".to_string()));
    let mut rm = MetaMap::new();
    rm.insert(MetaKey::Str("b".to_string()), MetaValue::Str("3".to_string()));
    rm.insert(MetaKey::Str("c".to_string()), MetaValue::Str("4".to_string()));
    let mut expected = MetaMap::new();
    expected.insert(MetaKey::Str("a".to_string()), MetaValue::Str("1".to_string()));
    expected.insert(MetaKey::Str("b".to_string()), MetaValue::Str("3".to_string()));
    expected.insert(MetaKey::Str("c".to_string()), MetaValue::Str("4".to_string()));
    let produced = map_update_vals(&MetaValue::Mapping(lm), &MetaValue::Mapping(rm));
    assert_eq!(produced, MetaValue::Mapping(expected));
}
