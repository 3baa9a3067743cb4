use taggu::fs::FsSnapshot;
use taggu::error::Error;
use taggu::metadata::{MetaTarget, MetaValue, Metadata};
use taggu::yaml::{yaml_as_meta_value, yaml_as_string, MetaReader, YamlMetaReader, YamlNode};

#[test]
fn scalars_read_as_text() {
    assert_eq!(yaml_as_string(&YamlNode::Integer(-42)), Ok("-42".to_string()));
    assert_eq!(yaml_as_string(&YamlNode::Boolean(true)), Ok("true".to_string()));
    assert_eq!(yaml_as_string(&YamlNode::Real("1.5".to_string())), Ok("1.5".to_string()));
    assert_eq!(
        yaml_as_string(&YamlNode::Null),
        Err(Error::Msg("cannot convert null to string".to_string()))
    );
    assert_eq!(
        yaml_as_meta_value(&YamlNode::Alias(3)),
        Err(Error::Msg("cannot convert YAML to meta value".to_string()))
    );
}

#[test]
fn a_directory_block_reads_from_a_mapping() {
    let md = YamlMetaReader::from_str("title: Core Signal\nartist: [lapix, MK]\nyear: 2017\n", MetaTarget::Contains)
        .unwrap();
    match md {
        Metadata::Contains(b) => {
            assert_eq!(b.get("title"), Some(&MetaValue::Str("Core Signal".to_string())));
            assert_eq!(b.get("year"), Some(&MetaValue::Str("2017".to_string())));
            assert_eq!(
                b.get("artist"),
                Some(&MetaValue::Sequence(vec![
                    MetaValue::Str("lapix".to_string()),
                    MetaValue::Str("MK".to_string())
                ]))
            );
        },
        _ => panic!("expected a block"),
    }
}

#[test]
fn sibling_metadata_is_a_sequence_or_else_a_mapping() {
    let md = YamlMetaReader::from_str("- a: 1\n- b: 2\n", MetaTarget::Siblings).unwrap();
    assert!(matches!(md, Metadata::SiblingsSeq(ref v) if v.len() == 2));
    let md = YamlMetaReader::from_str("x.flac:\n  a: 1\n", MetaTarget::Siblings).unwrap();
    assert!(matches!(md, Metadata::SiblingsMap(ref m) if m.len() == 1));
}

#[test]
fn malformed_metadata_fails_with_the_first_reason() {
    assert_eq!(
        YamlMetaReader::from_str("- a\n- b\n", MetaTarget::Contains).unwrap_err(),
        Error::Msg("cannot convert YAML to meta block".to_string())
    );
    assert_eq!(
        YamlMetaReader::from_str("just text", MetaTarget::Siblings).unwrap_err(),
        Error::Msg("cannot convert YAML to meta block mapping".to_string())
    );
    assert_eq!(
        YamlMetaReader::from_str("? [a, b]\n: c\n", MetaTarget::Contains).unwrap_err(),
        Error::Msg("cannot convert sequence to string".to_string())
    );
    assert_eq!(
        YamlMetaReader::from_str("", MetaTarget::Contains).unwrap_err(),
        Error::Msg("empty YAML document".to_string())
    );
    assert!(matches!(
        YamlMetaReader::from_str("a: [b", MetaTarget::Contains).unwrap_err(),
        Error::Yaml(_)
    ));
}

#[test]
fn reading_a_file_reports_a_parse_failure_or_a_missing_text() {
    let mut fs = FsSnapshot::new();
    fs.add_dir("/m", None);
    fs.add_file("/m/bad.yml", None, Some("- a\n".to_string()));
    fs.add_file("/m/good.yml", None, Some("a: 1\n".to_string()));
    fs.add_file("/m/unread.yml", None, None);
    assert_eq!(
        YamlMetaReader::from_file(&fs, "/m/bad.yml", MetaTarget::Contains).unwrap_err(),
        Error::Msg("umable to parse YAML text".to_string())
    );
    assert!(YamlMetaReader::from_file(&fs, "/m/good.yml", MetaTarget::Contains).is_ok());
    assert_eq!(
        YamlMetaReader::from_file(&fs, "/m/unread.yml", MetaTarget::Contains).unwrap_err(),
        Error::Io("/m/unread.yml".to_string())
    );
}

#[test]
fn a_path_spelled_otherwise_names_the_same_file() {
    let mut fs = FsSnapshot::new();
    fs.add_dir("/m", Some(5));
    fs.add_file("/m/good.yml", Some(7), Some("a: 1\n".to_string()));
    assert!(YamlMetaReader::from_file(&fs, "/m//good.yml", MetaTarget::Contains).is_ok());
    assert!(YamlMetaReader::from_file(&fs, "/m/./good.yml", MetaTarget::Contains).is_ok());
    assert!(taggu::yaml::read_yaml_file(&fs, "/m//good.yml").is_ok());
    assert_eq!(taggu::sort_order::SortOrder::get_mtime(&fs, "/m//good.yml"), Some(7));
    assert_eq!(taggu::sort_order::SortOrder::get_mtime(&fs, "/m/"), Some(5));
    assert!(fs.is_dir("/m/"));
    assert_eq!(fs.read_dir("/m/"), vec!["/m/good.yml".to_string()]);
}
