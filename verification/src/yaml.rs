//! Reading metadata from YAML text.
//!
//! The text is scanned by the `yaml-rust` crate; its documents are taken over as
//! `YamlNode` values, which the library then turns into metadata.
use vstd::prelude::*;

use crate::error::{Error, ErrorV};
use crate::fs::{node_contents, FsSnapshot};
use crate::metadata::{
    key_order, sorted_insert, str_order, MetaBlock, MetaBlockMap, MetaBlockSeq, MetaKey, MetaMap,
    MetaTarget, MetaVal, MetaValue, Metadata, MetadataV, blocks_view,
};
use crate::text::{i64_to_string, signed_decimal};
use yaml_rust::Yaml;

verus! {

broadcast use crate::metadata::lemma_meta_val_unfold;

// =================================================================================================
// YAML documents
// =================================================================================================

/// A YAML node, as the scanner leaves it.
#[derive(Debug, PartialEq)]
pub enum YamlNode {
    /// A float, kept as its text.
    Real(String),
    Integer(i64),
    Str(String),
    Boolean(bool),
    Array(Vec<YamlNode>),
    /// A mapping, in the order of its text.
    Hash(Vec<(YamlNode, YamlNode)>),
    Alias(usize),
    Null,
    BadValue,
}

#[verifier::external_type_specification]
#[verifier::external_body]
pub struct ExYaml(yaml_rust::Yaml);

/// The documents that `yaml_rust::YamlLoader::load_from_str` reads from `text`,
/// or none when it fails to scan the text.
pub uninterp spec fn yaml_documents(text: Seq<char>) -> Option<Seq<YamlNode>>;

/// Takes a `yaml_rust::Yaml` value over as a `YamlNode`, variant by variant.
#[verifier::external_body]
fn node_from_yaml(y: &Yaml) -> YamlNode {
    match y {
        Yaml::Real(r) => YamlNode::Real(r.clone()),
        Yaml::Integer(i) => YamlNode::Integer(*i),
        Yaml::String(s) => YamlNode::Str(s.clone()),
        Yaml::Boolean(b) => YamlNode::Boolean(*b),
        Yaml::Array(a) => YamlNode::Array(a.iter().map(node_from_yaml).collect()),
        Yaml::Hash(h) => YamlNode::Hash(
            h.iter().map(|(k, v)| (node_from_yaml(k), node_from_yaml(v))).collect(),
        ),
        Yaml::Alias(a) => YamlNode::Alias(*a),
        Yaml::Null => YamlNode::Null,
        Yaml::BadValue => YamlNode::BadValue,
    }
}

/// Scans `text` with `yaml_rust::YamlLoader::load_from_str`.
/// Trusted: on success the documents are those the crate reads from `text`
/// (a function of the text alone); the error message is the scanner's and is
/// not stated.
#[verifier::external_body]
fn load_yaml_documents(text: &str) -> (r: Result<Vec<YamlNode>, String>)
    ensures
        r matches Ok(d) ==> yaml_documents(text@) == Some(d@),
        r is Err <==> yaml_documents(text@) is None,
{
    match yaml_rust::YamlLoader::load_from_str(text) {
        Ok(docs) => Ok(docs.iter().map(node_from_yaml).collect()),
        Err(e) => Err(e.to_string()),
    }
}

// =================================================================================================
// Model of the conversions
// =================================================================================================

/// The text of a scalar; none for null, sequences, mappings, aliases and bad values.
pub open spec fn yaml_text(y: YamlNode) -> Option<Seq<char>> {
    match y {
        YamlNode::Str(s) => Some(s@),
        YamlNode::Real(r) => Some(r@),
        YamlNode::Integer(i) => Some(signed_decimal(i as int)),
        YamlNode::Boolean(b) => Some(
            if b {
                seq!['t', 'r', 'u', 'e']
            } else {
                seq!['f', 'a', 'l', 's', 'e']
            },
        ),
        _ => None,
    }
}

/// The text of a boolean scalar is its display text, `true` or `false`, so the
/// two booleans give different texts.
pub proof fn law_boolean_text(b: bool)
    ensures
        yaml_text(YamlNode::Boolean(b)) != yaml_text(YamlNode::Boolean(!b)),
        b ==> yaml_text(YamlNode::Boolean(b)) == Some(seq!['t', 'r', 'u', 'e']),
        !b ==> yaml_text(YamlNode::Boolean(b)) == Some(seq!['f', 'a', 'l', 's', 'e']),
{
    assert(seq!['t', 'r', 'u', 'e'].len() != seq!['f', 'a', 'l', 's', 'e'].len());
}

/// A mapping key: null, or the text of a scalar.
pub open spec fn yaml_key(y: YamlNode) -> Option<Option<Seq<char>>> {
    match y {
        YamlNode::Null => Some(None),
        _ => match yaml_text(y) {
            Some(s) => Some(Some(s)),
            None => None,
        },
    }
}

/// A metadata value: null, a sequence, a mapping (whose pairs are inserted in
/// text order, a later key replacing an earlier one), or the text of a scalar.
pub open spec fn yaml_value(y: YamlNode) -> Option<MetaVal>
    decreases y,
{
    match y {
        YamlNode::Null => Some(MetaVal::Nil),
        YamlNode::Array(xs) => match yaml_values(xs@) {
            Some(vs) => Some(MetaVal::Sequence(vs)),
            None => None,
        },
        YamlNode::Hash(ps) => match yaml_pairs(ps@) {
            Some(m) => Some(MetaVal::Mapping(m)),
            None => None,
        },
        _ => match yaml_text(y) {
            Some(s) => Some(MetaVal::Str(s)),
            None => None,
        },
    }
}

pub open spec fn yaml_values(xs: Seq<YamlNode>) -> Option<Seq<MetaVal>>
    decreases xs,
{
    if xs.len() == 0 {
        Some(Seq::empty())
    } else {
        match (yaml_values(xs.drop_last()), yaml_value(xs.last())) {
            (Some(vs), Some(v)) => Some(vs.push(v)),
            _ => None,
        }
    }
}

pub open spec fn yaml_pairs(ps: Seq<(YamlNode, YamlNode)>) -> Option<Seq<(Option<Seq<char>>, MetaVal)>>
    decreases ps,
{
    if ps.len() == 0 {
        Some(Seq::empty())
    } else {
        match (yaml_pairs(ps.drop_last()), yaml_key(ps.last().0), yaml_value(ps.last().1)) {
            (Some(m), Some(k), Some(v)) => Some(sorted_insert(m, k, v, key_order())),
            _ => None,
        }
    }
}

/// A block: a mapping with scalar keys.
pub open spec fn yaml_block(y: YamlNode) -> Option<Seq<(Seq<char>, MetaVal)>> {
    match y {
        YamlNode::Hash(ps) => yaml_block_pairs(ps@),
        _ => None,
    }
}

pub open spec fn yaml_block_pairs(ps: Seq<(YamlNode, YamlNode)>) -> Option<Seq<(Seq<char>, MetaVal)>>
    decreases ps.len(),
{
    if ps.len() == 0 {
        Some(Seq::empty())
    } else {
        match (yaml_block_pairs(ps.drop_last()), yaml_text(ps.last().0), yaml_value(ps.last().1)) {
            (Some(m), Some(k), Some(v)) => Some(sorted_insert(m, k, v, str_order())),
            _ => None,
        }
    }
}

/// A sequence of blocks.
pub open spec fn yaml_block_seq(y: YamlNode) -> Option<Seq<Seq<(Seq<char>, MetaVal)>>> {
    match y {
        YamlNode::Array(xs) => yaml_block_list(xs@),
        _ => None,
    }
}

pub open spec fn yaml_block_list(xs: Seq<YamlNode>) -> Option<Seq<Seq<(Seq<char>, MetaVal)>>>
    decreases xs.len(),
{
    if xs.len() == 0 {
        Some(Seq::empty())
    } else {
        match (yaml_block_list(xs.drop_last()), yaml_block(xs.last())) {
            (Some(bs), Some(b)) => Some(bs.push(b)),
            _ => None,
        }
    }
}

/// A mapping of item names to blocks.
pub open spec fn yaml_block_map(y: YamlNode) -> Option<Seq<(Seq<char>, Seq<(Seq<char>, MetaVal)>)>> {
    match y {
        YamlNode::Hash(ps) => yaml_block_map_pairs(ps@),
        _ => None,
    }
}

pub open spec fn yaml_block_map_pairs(ps: Seq<(YamlNode, YamlNode)>) -> Option<
    Seq<(Seq<char>, Seq<(Seq<char>, MetaVal)>)>,
>
    decreases ps.len(),
{
    if ps.len() == 0 {
        Some(Seq::empty())
    } else {
        match (yaml_block_map_pairs(ps.drop_last()), yaml_text(ps.last().0), yaml_block(ps.last().1)) {
            (Some(m), Some(k), Some(b)) => Some(sorted_insert(m, k, b, str_order())),
            _ => None,
        }
    }
}

/// The metadata of a node for a target: a block for the directory; for the
/// siblings, a sequence of blocks, or failing that a mapping of names to blocks.
pub open spec fn yaml_metadata(y: YamlNode, mt: MetaTarget) -> Option<MetadataV> {
    match mt {
        MetaTarget::Contains => match yaml_block(y) {
            Some(b) => Some(MetadataV::Contains(b)),
            None => None,
        },
        MetaTarget::Siblings => match yaml_block_seq(y) {
            Some(bs) => Some(MetadataV::SiblingsSeq(bs)),
            None => match yaml_block_map(y) {
                Some(m) => Some(MetadataV::SiblingsMap(m)),
                None => None,
            },
        },
    }
}

/// The metadata in the first document of `text`.
pub open spec fn text_metadata(text: Seq<char>, mt: MetaTarget) -> Option<MetadataV> {
    match yaml_documents(text) {
        Some(docs) => if docs.len() >= 1 {
            yaml_metadata(docs[0], mt)
        } else {
            None
        },
        None => None,
    }
}

/// Why a node has no text: the message for each kind of node.
pub open spec fn text_error(y: YamlNode) -> Seq<char> {
    match y {
        YamlNode::Null => "cannot convert null to string"@,
        YamlNode::Array(_) => "cannot convert sequence to string"@,
        YamlNode::Hash(_) => "cannot convert mapping to string"@,
        YamlNode::Alias(_) => "cannot convert alias to string"@,
        YamlNode::BadValue => "cannot convert bad value to string"@,
        _ => Seq::empty(),
    }
}

/// Why a node is no metadata value: the message of its first failing part.
pub open spec fn value_error(y: YamlNode) -> Seq<char>
    decreases y,
{
    match y {
        YamlNode::Array(xs) => values_error(xs@),
        YamlNode::Hash(ps) => pairs_error(ps@),
        _ => "cannot convert YAML to meta value"@,
    }
}

pub open spec fn values_error(xs: Seq<YamlNode>) -> Seq<char>
    decreases xs,
{
    if xs.len() == 0 {
        Seq::empty()
    } else if yaml_values(xs.drop_last()) is None {
        values_error(xs.drop_last())
    } else {
        value_error(xs.last())
    }
}

pub open spec fn pairs_error(ps: Seq<(YamlNode, YamlNode)>) -> Seq<char>
    decreases ps,
{
    if ps.len() == 0 {
        Seq::empty()
    } else if yaml_pairs(ps.drop_last()) is None {
        pairs_error(ps.drop_last())
    } else if yaml_key(ps.last().0) is None {
        "cannot convert YAML to meta key"@
    } else {
        value_error(ps.last().1)
    }
}

/// Why a node is no block.
pub open spec fn block_error(y: YamlNode) -> Seq<char> {
    match y {
        YamlNode::Hash(ps) => block_pairs_error(ps@),
        _ => "cannot convert YAML to meta block"@,
    }
}

pub open spec fn block_pairs_error(ps: Seq<(YamlNode, YamlNode)>) -> Seq<char>
    decreases ps.len(),
{
    if ps.len() == 0 {
        Seq::empty()
    } else if yaml_block_pairs(ps.drop_last()) is None {
        block_pairs_error(ps.drop_last())
    } else if yaml_text(ps.last().0) is None {
        text_error(ps.last().0)
    } else {
        value_error(ps.last().1)
    }
}

/// Why a node is no sequence of blocks.
pub open spec fn block_seq_error(y: YamlNode) -> Seq<char> {
    match y {
        YamlNode::Array(xs) => block_list_error(xs@),
        _ => "cannot convert YAML to meta block sequence"@,
    }
}

pub open spec fn block_list_error(xs: Seq<YamlNode>) -> Seq<char>
    decreases xs.len(),
{
    if xs.len() == 0 {
        Seq::empty()
    } else if yaml_block_list(xs.drop_last()) is None {
        block_list_error(xs.drop_last())
    } else {
        block_error(xs.last())
    }
}

/// Why a node is no mapping of names to blocks.
pub open spec fn block_map_error(y: YamlNode) -> Seq<char> {
    match y {
        YamlNode::Hash(ps) => block_map_pairs_error(ps@),
        _ => "cannot convert YAML to meta block mapping"@,
    }
}

pub open spec fn block_map_pairs_error(ps: Seq<(YamlNode, YamlNode)>) -> Seq<char>
    decreases ps.len(),
{
    if ps.len() == 0 {
        Seq::empty()
    } else if yaml_block_map_pairs(ps.drop_last()) is None {
        block_map_pairs_error(ps.drop_last())
    } else if yaml_text(ps.last().0) is None {
        text_error(ps.last().0)
    } else {
        block_error(ps.last().1)
    }
}

/// Why a node is no metadata for a target (for the siblings, the reason it is
/// no mapping, once it is no sequence either).
pub open spec fn metadata_error(y: YamlNode, mt: MetaTarget) -> Seq<char> {
    match mt {
        MetaTarget::Contains => block_error(y),
        MetaTarget::Siblings => block_map_error(y),
    }
}

/// The error of reading metadata from `text` when it fails: the scanner's (its
/// message not stated), an empty text, or the first failing part of the first
/// document.
pub open spec fn text_metadata_error(e: Error, text: Seq<char>, mt: MetaTarget) -> bool {
    match yaml_documents(text) {
        None => e is Yaml,
        Some(docs) => if docs.len() == 0 {
            e@ == ErrorV::Msg("empty YAML document"@)
        } else {
            e@ == ErrorV::Msg(metadata_error(docs[0], mt))
        },
    }
}

// =================================================================================================
// Conversions
// =================================================================================================

fn msg(s: &str) -> (e: Error)
    ensures
        e matches Error::Msg(m) && m@ == s@,
{
    Error::Msg(String::from_str(s))
}

/// The text of a scalar node.
pub fn yaml_as_string(y: &YamlNode) -> (r: Result<String, Error>)
    ensures
        r matches Ok(s) ==> yaml_text(*y) == Some(s@),
        r is Err <==> yaml_text(*y) is None,
        r matches Err(e) ==> e@ == ErrorV::Msg(text_error(*y)),
{
    match y {
        YamlNode::Null => Err(msg("cannot convert null to string")),
        YamlNode::Array(_) => Err(msg("cannot convert sequence to string")),
        YamlNode::Hash(_) => Err(msg("cannot convert mapping to string")),
        YamlNode::Str(s) => Ok(s.clone()),
        YamlNode::Real(r) => Ok(r.clone()),
        YamlNode::Integer(i) => Ok(i64_to_string(*i)),
        YamlNode::Boolean(b) => {
            if *b {
                let t = String::from_str("true");
                proof {
                    reveal_strlit("true");
                }
                assert(t@ =~= seq!['t', 'r', 'u', 'e']);
                Ok(t)
            } else {
                let f = String::from_str("false");
                proof {
                    reveal_strlit("false");
                }
                assert(f@ =~= seq!['f', 'a', 'l', 's', 'e']);
                Ok(f)
            }
        },
        YamlNode::Alias(_) => Err(msg("cannot convert alias to string")),
        YamlNode::BadValue => Err(msg("cannot convert bad value to string")),
    }
}

/// A mapping key: null, or the text of a scalar.
pub fn yaml_as_meta_key(y: &YamlNode) -> (r: Result<MetaKey, Error>)
    ensures
        r matches Ok(k) ==> yaml_key(*y) == Some(crate::metadata::key_view(k)),
        r is Err <==> yaml_key(*y) is None,
        r matches Err(e) ==> e@ == ErrorV::Msg("cannot convert YAML to meta key"@),
{
    match y {
        YamlNode::Null => Ok(MetaKey::Nil),
        _ => match yaml_as_string(y) {
            Ok(s) => Ok(MetaKey::Str(s)),
            Err(_) => Err(msg("cannot convert YAML to meta key")),
        },
    }
}

/// A metadata value.
pub fn yaml_as_meta_value(y: &YamlNode) -> (r: Result<MetaValue, Error>)
    ensures
        r matches Ok(v) ==> yaml_value(*y) == Some(v@),
        r is Err <==> yaml_value(*y) is None,
        r matches Err(e) ==> e@ == ErrorV::Msg(value_error(*y)),
    decreases y,
{
    match y {
        YamlNode::Null => Ok(MetaValue::Nil),
        YamlNode::Array(arr) => {
            let mut seq: Vec<MetaValue> = Vec::new();
            let mut i: usize = 0;
            while i < arr.len()
                invariant
                    i <= arr.len(),
                    *y == YamlNode::Array(*arr),
                    yaml_values(arr@.take(i as int)) matches Some(vs) && vs == seq@.map_values(
                        |v: MetaValue| v@,
                    ),
                decreases arr.len() - i,
            {
                proof {
                    assert(decreases_to!(*y => y->Array_0));
                    assert(decreases_to!(*arr => arr@));
                    assert(decreases_to!(arr@ => arr@[i as int]));
                }
                let ghost pre = arr@.take(i as int);
                let ghost post = arr@.take(i + 1);
                assert(post.drop_last() =~= pre);
                assert(post.last() == arr@[i as int]);
                let v = yaml_as_meta_value(&arr[i]);
                match v {
                    Ok(v) => {
                        let ghost before = seq@;
                        let ghost vv = v@;
                        seq.push(v);
                        assert(seq@.map_values(|v: MetaValue| v@) =~= before.map_values(
                            |v: MetaValue| v@,
                        ).push(vv));
                    },
                    Err(e) => {
                        proof {
                            lemma_values_fail(arr@, i as int);
                        }
                        return Err(e);
                    },
                }
                i += 1;
            }
            assert(arr@.take(arr.len() as int) =~= arr@);
            let r = MetaValue::Sequence(seq);
            assert(r@->Sequence_0 =~= seq@.map_values(|v: MetaValue| v@));
            Ok(r)
        },
        YamlNode::Hash(hsh) => {
            let mut map = MetaMap::new();
            let mut i: usize = 0;
            while i < hsh.len()
                invariant
                    i <= hsh.len(),
                    *y == YamlNode::Hash(*hsh),
                    yaml_pairs(hsh@.take(i as int)) == Some(map@),
                decreases hsh.len() - i,
            {
                proof {
                    assert(decreases_to!(*y => y->Hash_0));
                    assert(decreases_to!(*hsh => hsh@));
                    assert(decreases_to!(hsh@ => hsh@[i as int]));
                    assert(decreases_to!(hsh@[i as int] => hsh@[i as int].1));
                }
                let ghost pre = hsh@.take(i as int);
                let ghost post = hsh@.take(i + 1);
                assert(post.drop_last() =~= pre);
                assert(post.last() == hsh@[i as int]);
                let key = match yaml_as_meta_key(&hsh[i].0) {
                    Ok(k) => k,
                    Err(e) => {
                        proof {
                            lemma_pairs_fail(hsh@, i as int);
                        }
                        return Err(e);
                    },
                };
                let val = match yaml_as_meta_value(&hsh[i].1) {
                    Ok(v) => v,
                    Err(e) => {
                        proof {
                            lemma_pairs_fail(hsh@, i as int);
                        }
                        return Err(e);
                    },
                };
                map.insert(key, val);
                i += 1;
            }
            assert(hsh@.take(hsh.len() as int) =~= hsh@);
            let r = MetaValue::Mapping(map);
            proof {
                crate::metadata::lemma_mapping_view(map);
            }
            Ok(r)
        },
        _ => match yaml_as_string(y) {
            Ok(s) => Ok(MetaValue::Str(s)),
            Err(_) => Err(msg("cannot convert YAML to meta value")),
        },
    }
}

/// Once one element fails after a prefix that converts, the whole sequence
/// fails, with that element's message.
proof fn lemma_values_fail(xs: Seq<YamlNode>, i: int)
    requires
        0 <= i < xs.len(),
        yaml_values(xs.take(i)) is Some,
        yaml_value(xs[i]) is None,
    ensures
        yaml_values(xs) is None,
        values_error(xs) == value_error(xs[i]),
    decreases xs.len(),
{
    let d = xs.drop_last();
    if i < xs.len() - 1 {
        assert(d.take(i) =~= xs.take(i));
        assert(d[i] == xs[i]);
        lemma_values_fail(d, i);
    } else {
        assert(d =~= xs.take(i));
    }
}

proof fn lemma_pairs_fail(ps: Seq<(YamlNode, YamlNode)>, i: int)
    requires
        0 <= i < ps.len(),
        yaml_pairs(ps.take(i)) is Some,
        yaml_key(ps[i].0) is None || yaml_value(ps[i].1) is None,
    ensures
        yaml_pairs(ps) is None,
        pairs_error(ps) == if yaml_key(ps[i].0) is None {
            "cannot convert YAML to meta key"@
        } else {
            value_error(ps[i].1)
        },
    decreases ps.len(),
{
    let d = ps.drop_last();
    if i < ps.len() - 1 {
        assert(d.take(i) =~= ps.take(i));
        assert(d[i] == ps[i]);
        lemma_pairs_fail(d, i);
    } else {
        assert(d =~= ps.take(i));
    }
}

proof fn lemma_block_pairs_fail(ps: Seq<(YamlNode, YamlNode)>, i: int)
    requires
        0 <= i < ps.len(),
        yaml_block_pairs(ps.take(i)) is Some,
        yaml_text(ps[i].0) is None || yaml_value(ps[i].1) is None,
    ensures
        yaml_block_pairs(ps) is None,
        block_pairs_error(ps) == if yaml_text(ps[i].0) is None {
            text_error(ps[i].0)
        } else {
            value_error(ps[i].1)
        },
    decreases ps.len(),
{
    let d = ps.drop_last();
    if i < ps.len() - 1 {
        assert(d.take(i) =~= ps.take(i));
        assert(d[i] == ps[i]);
        lemma_block_pairs_fail(d, i);
    } else {
        assert(d =~= ps.take(i));
    }
}

proof fn lemma_block_list_fail(xs: Seq<YamlNode>, i: int)
    requires
        0 <= i < xs.len(),
        yaml_block_list(xs.take(i)) is Some,
        yaml_block(xs[i]) is None,
    ensures
        yaml_block_list(xs) is None,
        block_list_error(xs) == block_error(xs[i]),
    decreases xs.len(),
{
    let d = xs.drop_last();
    if i < xs.len() - 1 {
        assert(d.take(i) =~= xs.take(i));
        assert(d[i] == xs[i]);
        lemma_block_list_fail(d, i);
    } else {
        assert(d =~= xs.take(i));
    }
}

proof fn lemma_block_map_pairs_fail(ps: Seq<(YamlNode, YamlNode)>, i: int)
    requires
        0 <= i < ps.len(),
        yaml_block_map_pairs(ps.take(i)) is Some,
        yaml_text(ps[i].0) is None || yaml_block(ps[i].1) is None,
    ensures
        yaml_block_map_pairs(ps) is None,
        block_map_pairs_error(ps) == if yaml_text(ps[i].0) is None {
            text_error(ps[i].0)
        } else {
            block_error(ps[i].1)
        },
    decreases ps.len(),
{
    let d = ps.drop_last();
    if i < ps.len() - 1 {
        assert(d.take(i) =~= ps.take(i));
        assert(d[i] == ps[i]);
        lemma_block_map_pairs_fail(d, i);
    } else {
        assert(d =~= ps.take(i));
    }
}

/// A block: a mapping whose keys are scalars.
pub fn yaml_as_meta_block(y: &YamlNode) -> (r: Result<MetaBlock, Error>)
    ensures
        r matches Ok(b) ==> yaml_block(*y) == Some(b@),
        r is Err <==> yaml_block(*y) is None,
        r matches Err(e) ==> e@ == ErrorV::Msg(block_error(*y)),
{
    match y {
        YamlNode::Hash(hsh) => {
            let mut mb = MetaBlock::new();
            let mut i: usize = 0;
            while i < hsh.len()
                invariant
                    i <= hsh.len(),
                    *y == YamlNode::Hash(*hsh),
                    yaml_block_pairs(hsh@.take(i as int)) == Some(mb@),
                decreases hsh.len() - i,
            {
                let ghost pre = hsh@.take(i as int);
                let ghost post = hsh@.take(i + 1);
                assert(post.drop_last() =~= pre);
                assert(post.last() == hsh@[i as int]);
                let key = match yaml_as_string(&hsh[i].0) {
                    Ok(k) => k,
                    Err(e) => {
                        proof {
                            lemma_block_pairs_fail(hsh@, i as int);
                        }
                        return Err(e);
                    },
                };
                let val = match yaml_as_meta_value(&hsh[i].1) {
                    Ok(v) => v,
                    Err(e) => {
                        proof {
                            lemma_block_pairs_fail(hsh@, i as int);
                        }
                        return Err(e);
                    },
                };
                mb.insert(key, val);
                i += 1;
            }
            assert(hsh@.take(hsh.len() as int) =~= hsh@);
            Ok(mb)
        },
        _ => Err(msg("cannot convert YAML to meta block")),
    }
}

/// A sequence of blocks.
pub fn yaml_as_meta_block_seq(y: &YamlNode) -> (r: Result<MetaBlockSeq, Error>)
    ensures
        r matches Ok(bs) ==> yaml_block_seq(*y) == Some(blocks_view(bs@)),
        r is Err <==> yaml_block_seq(*y) is None,
        r matches Err(e) ==> e@ == ErrorV::Msg(block_seq_error(*y)),
{
    match y {
        YamlNode::Array(arr) => {
            let mut item_seq: Vec<MetaBlock> = Vec::new();
            let mut i: usize = 0;
            while i < arr.len()
                invariant
                    i <= arr.len(),
                    *y == YamlNode::Array(*arr),
                    yaml_block_list(arr@.take(i as int)) == Some(blocks_view(item_seq@)),
                decreases arr.len() - i,
            {
                let ghost pre = arr@.take(i as int);
                let ghost post = arr@.take(i + 1);
                assert(post.drop_last() =~= pre);
                assert(post.last() == arr@[i as int]);
                match yaml_as_meta_block(&arr[i]) {
                    Ok(b) => {
                        let ghost before = item_seq@;
                        let ghost bv = b@;
                        item_seq.push(b);
                        assert(blocks_view(item_seq@) =~= blocks_view(before).push(bv));
                    },
                    Err(e) => {
                        proof {
                            lemma_block_list_fail(arr@, i as int);
                        }
                        return Err(e);
                    },
                }
                i += 1;
            }
            assert(arr@.take(arr.len() as int) =~= arr@);
            Ok(item_seq)
        },
        _ => Err(msg("cannot convert YAML to meta block sequence")),
    }
}

/// A mapping of item names to blocks.
pub fn yaml_as_meta_block_map(y: &YamlNode) -> (r: Result<MetaBlockMap, Error>)
    ensures
        r matches Ok(m) ==> yaml_block_map(*y) == Some(m@),
        r is Err <==> yaml_block_map(*y) is None,
        r matches Err(e) ==> e@ == ErrorV::Msg(block_map_error(*y)),
{
    match y {
        YamlNode::Hash(hsh) => {
            let mut item_map = MetaBlockMap::new();
            let mut i: usize = 0;
            while i < hsh.len()
                invariant
                    i <= hsh.len(),
                    *y == YamlNode::Hash(*hsh),
                    yaml_block_map_pairs(hsh@.take(i as int)) == Some(item_map@),
                decreases hsh.len() - i,
            {
                let ghost pre = hsh@.take(i as int);
                let ghost post = hsh@.take(i + 1);
                assert(post.drop_last() =~= pre);
                assert(post.last() == hsh@[i as int]);
                let key = match yaml_as_string(&hsh[i].0) {
                    Ok(k) => k,
                    Err(e) => {
                        proof {
                            lemma_block_map_pairs_fail(hsh@, i as int);
                        }
                        return Err(e);
                    },
                };
                let val = match yaml_as_meta_block(&hsh[i].1) {
                    Ok(v) => v,
                    Err(e) => {
                        proof {
                            lemma_block_map_pairs_fail(hsh@, i as int);
                        }
                        return Err(e);
                    },
                };
                item_map.insert(key, val);
                i += 1;
            }
            assert(hsh@.take(hsh.len() as int) =~= hsh@);
            Ok(item_map)
        },
        _ => Err(msg("cannot convert YAML to meta block mapping")),
    }
}

/// The metadata of a node for a target.
pub fn yaml_as_metadata(y: &YamlNode, meta_target: MetaTarget) -> (r: Result<Metadata, Error>)
    ensures
        r matches Ok(md) ==> yaml_metadata(*y, meta_target) == Some(md@),
        r is Err <==> yaml_metadata(*y, meta_target) is None,
        r matches Err(e) ==> e@ == ErrorV::Msg(metadata_error(*y, meta_target)),
{
    match meta_target {
        MetaTarget::Contains => match yaml_as_meta_block(y) {
            Ok(m) => Ok(Metadata::Contains(m)),
            Err(e) => Err(e),
        },
        MetaTarget::Siblings => match yaml_as_meta_block_seq(y) {
            Ok(m) => Ok(Metadata::SiblingsSeq(m)),
            Err(_) => match yaml_as_meta_block_map(y) {
                Ok(m) => Ok(Metadata::SiblingsMap(m)),
                Err(e) => Err(e),
            },
        },
    }
}

/// The first YAML document of `text`.
pub fn first_document(text: &str) -> (r: Result<YamlNode, Error>)
    ensures
        r matches Ok(d) ==> yaml_documents(text@) matches Some(docs) && docs.len() >= 1 && docs[0]
            == d,
        r is Err <==> !(yaml_documents(text@) matches Some(docs) && docs.len() >= 1),
        r matches Err(e) ==> match yaml_documents(text@) {
            None => e is Yaml,
            Some(_) => e@ == crate::error::ErrorV::Msg("empty YAML document"@),
        },
{
    match load_yaml_documents(text) {
        Ok(mut docs) => {
            if docs.len() < 1 {
                return Err(msg("empty YAML document"));
            }
            let ghost all = docs@;
            let d = docs.swap_remove(0);
            assert(d == all[0]);
            Ok(d)
        },
        Err(e) => Err(Error::Yaml(e)),
    }
}

/// A reader of metadata from text: it says what metadata of a target a text
/// gives, and reads the text of a file through it.
pub trait MetaReader {
    /// The metadata of a target that `s` gives, or `None` where it gives none.
    spec fn parses(s: Seq<char>, mt: MetaTarget) -> Option<MetadataV>;

    /// The metadata of a target that `s` gives.
    fn from_str(s: &str, mt: MetaTarget) -> (r: Result<Metadata, Error>)
        ensures
            r matches Ok(md) ==> Self::parses(s@, mt) == Some(md@),
            r is Err <==> Self::parses(s@, mt) is None,
    ;

    /// The metadata of a target that the text of the file at `p` gives; when
    /// the text gives none, the failure is reported as one to parse the YAML
    /// text, and when there is no text, as one to read `p`.
    fn from_file(fs: &FsSnapshot, p: &str, mt: MetaTarget) -> (r: Result<Metadata, Error>)
        ensures
            r matches Ok(md) ==> node_contents(fs@, p@) matches Some(t) && Self::parses(t, mt)
                == Some(md@),
            r is Err <==> !(node_contents(fs@, p@) matches Some(t) && Self::parses(t, mt) is Some),
            r matches Err(e) ==> match node_contents(fs@, p@) {
                None => e@ == ErrorV::Io(p@),
                Some(t) => e@ == ErrorV::Msg("umable to parse YAML text"@),
            },
    {
        match fs.read_to_string(p) {
            Some(text) => match Self::from_str(text.as_str(), mt) {
                Ok(md) => Ok(md),
                Err(_) => Err(msg("umable to parse YAML text")),
            },
            None => Err(Error::Io(String::from_str(p))),
        }
    }
}

/// Reads metadata written as YAML: the metadata of a target in the first
/// document of the text.
pub struct YamlMetaReader;

impl MetaReader for YamlMetaReader {
    open spec fn parses(s: Seq<char>, mt: MetaTarget) -> Option<MetadataV> {
        text_metadata(s, mt)
    }

    fn from_str(s: &str, mt: MetaTarget) -> (r: Result<Metadata, Error>)
        ensures
            r matches Err(e) ==> text_metadata_error(e, s@, mt),
    {
        let doc = first_document(s)?;
        yaml_as_metadata(&doc, mt)
    }
}

/// Reads the first YAML document of the file at `yaml_fp`.
pub fn read_yaml_file(fs: &FsSnapshot, yaml_fp: &str) -> (r: Result<YamlNode, Error>)
    ensures
        r matches Ok(d) ==> node_contents(fs@, yaml_fp@) matches Some(t) && yaml_documents(t) matches Some(
            docs,
        ) && docs.len() >= 1 && docs[0] == d,
        r is Err <==> !(node_contents(fs@, yaml_fp@) matches Some(t) && yaml_documents(t) matches Some(
            docs,
        ) && docs.len() >= 1),
        r matches Err(e) ==> match node_contents(fs@, yaml_fp@) {
            None => e@ == crate::error::ErrorV::Io(yaml_fp@),
            Some(t) => match yaml_documents(t) {
                None => e is Yaml,
                Some(_) => e@ == crate::error::ErrorV::Msg("empty YAML document"@),
            },
        },
{
    match fs.read_to_string(yaml_fp) {
        Some(text) => first_document(text.as_str()),
        None => Err(Error::Io(String::from_str(yaml_fp))),
    }
}

} // verus!
