//! Matching up media items with metadata blocks.
use vstd::prelude::*;

use crate::error::Error;
use crate::fs::{FsNode, FsSnapshot};
use crate::helpers::{
    count_flagged, fuzzy_name_match, fuzzy_pattern, glob_pattern_is_valid, match_flags,
};
use crate::metadata::{
    chars_lt, sorted_by, str_order, MetaBlock, MetaBlockMap, MetaBlockSeq, MetaVal, Metadata, MetadataV,
};
use crate::path::{is_plain_name, is_valid_item_name, join, join_path};
use crate::selection::Selection;
use crate::sort_order::SortOrder;
use crate::text::str_eq;

verus! {

broadcast use crate::metadata::lemma_meta_val_unfold;

/// The item that a metadata block is for: the working directory itself, or an
/// item inside it, by name.
#[derive(Debug, PartialEq, Eq, PartialOrd, Ord, Hash)]
pub enum PlexTarget {
    WorkingDir,
    SubItem(String),
}

/// The target as a value: none for the working directory, else the item name.
pub open spec fn target_view(t: PlexTarget) -> Option<Seq<char>> {
    match t {
        PlexTarget::WorkingDir => None,
        PlexTarget::SubItem(s) => Some(s@),
    }
}

/// The path that a target names, given the working directory.
pub open spec fn resolved(t: Option<Seq<char>>, dir: Seq<char>) -> Seq<char> {
    match t {
        None => dir,
        Some(n) => join_path(dir, n),
    }
}

impl PlexTarget {
    /// The path of this target inside `working_dir_path`.
    pub fn resolve(&self, working_dir_path: &str) -> (r: String)
        ensures
            r@ == resolved(target_view(*self), working_dir_path@),
    {
        match self {
            PlexTarget::WorkingDir => String::from_str(working_dir_path),
            PlexTarget::SubItem(s) => join(working_dir_path, s.as_str()),
        }
    }
}

/// A target together with the block it gets.
pub type PlexRecord<'a> = (PlexTarget, &'a MetaBlock);

pub type RecordV = (Option<Seq<char>>, Seq<(Seq<char>, MetaVal)>);

pub open spec fn records_view(rs: Seq<PlexRecord>) -> Seq<RecordV> {
    rs.map_values(|r: PlexRecord| (target_view(r.0), r.1@))
}

pub open spec fn names_view(ns: Seq<&str>) -> Seq<Seq<char>> {
    ns.map_values(|s: &str| s@)
}

// =================================================================================================
// Model
// =================================================================================================

/// The blocks matched one to one with the names, in order, as far as both go.
pub open spec fn plex_seq_spec(blocks: Seq<Seq<(Seq<char>, MetaVal)>>, names: Seq<Seq<char>>) -> Seq<
    RecordV,
> {
    Seq::new(
        if blocks.len() < names.len() {
            blocks.len()
        } else {
            names.len()
        },
        |i: int| (Some(names[i]), blocks[i]),
    )
}

/// The names without repeats, each at its first place.
pub open spec fn dedup(ns: Seq<Seq<char>>) -> Seq<Seq<char>>
    decreases ns.len(),
{
    if ns.len() == 0 {
        Seq::empty()
    } else if dedup(ns.drop_last()).contains(ns.last()) {
        dedup(ns.drop_last())
    } else {
        dedup(ns.drop_last()).push(ns.last())
    }
}

/// The one name of `remaining` that the pattern `name*` matches, if exactly one does.
pub open spec fn fuzzy_pick(name: Seq<char>, remaining: Seq<Seq<char>>) -> Option<Seq<char>> {
    let pattern = fuzzy_pattern(name);
    let flags = remaining.map_values(|s: Seq<char>| crate::helpers::glob_pattern_matches(pattern, s));
    if glob_pattern_is_valid(pattern) && count_flagged(flags) == 1 {
        Some(remaining[crate::helpers::first_flagged(flags)])
    } else {
        None
    }
}

/// `s` without its first `x`.
pub open spec fn remove_first(s: Seq<Seq<char>>, x: Seq<char>) -> Seq<Seq<char>> {
    s.remove(s.index_of(x))
}

/// One step of matching a mapping entry `(name, block)` against the remaining
/// item names: invalid names are skipped; with fuzzy matching the name stands
/// for the one remaining name it is a prefix pattern of; a name that is not
/// (or no longer) among the remaining ones is skipped; else it is taken.
pub open spec fn plex_map_step(
    state: (Seq<Seq<char>>, Seq<RecordV>),
    entry: (Seq<char>, Seq<(Seq<char>, MetaVal)>),
    fuzzy: bool,
) -> (Seq<Seq<char>>, Seq<RecordV>) {
    let (remaining, out) = state;
    let (name, block) = entry;
    if !is_plain_name(name) {
        state
    } else {
        match plex_needle(name, remaining, fuzzy) {
            None => state,
            Some(n) => if remaining.contains(n) {
                (remove_first(remaining, n), out.push((Some(n), block)))
            } else {
                state
            },
        }
    }
}

pub open spec fn plex_map_fold(
    entries: Seq<(Seq<char>, Seq<(Seq<char>, MetaVal)>)>,
    names: Seq<Seq<char>>,
    fuzzy: bool,
) -> (Seq<Seq<char>>, Seq<RecordV>)
    decreases entries.len(),
{
    if entries.len() == 0 {
        (dedup(names), Seq::empty())
    } else {
        plex_map_step(plex_map_fold(entries.drop_last(), names, fuzzy), entries.last(), fuzzy)
    }
}

/// The records that matching a block mapping against the item names gives.
pub open spec fn plex_map_spec(
    entries: Seq<(Seq<char>, Seq<(Seq<char>, MetaVal)>)>,
    names: Seq<Seq<char>>,
    fuzzy: bool,
) -> Seq<RecordV> {
    plex_map_fold(entries, names, fuzzy).1
}

/// The records for metadata, given the item names of the working directory.
pub open spec fn plex_spec(md: MetadataV, names: Seq<Seq<char>>, fuzzy: bool) -> Seq<RecordV> {
    match md {
        MetadataV::Contains(b) => seq![(None, b)],
        MetadataV::SiblingsSeq(bs) => plex_seq_spec(bs, names),
        MetadataV::SiblingsMap(m) => plex_map_spec(m, names, fuzzy),
    }
}

/// What holds through the matching of a block mapping: the remaining names are
/// item names, each once; every record is for an item name no longer remaining,
/// and no two records are for the same name.
pub open spec fn plex_map_state_ok(names: Seq<Seq<char>>, st: (Seq<Seq<char>>, Seq<RecordV>)) -> bool {
    &&& st.0.no_duplicates()
    &&& forall|x: Seq<char>| #[trigger] st.0.contains(x) ==> names.contains(x)
    &&& forall|i: int|
        0 <= i < st.1.len() ==> ((#[trigger] st.1[i]).0 matches Some(n) && names.contains(n)
            && !st.0.contains(n))
    &&& forall|i: int, j: int| 0 <= i < j < st.1.len() ==> (#[trigger] st.1[i]).0 != (#[trigger] st.1[j]).0
}

proof fn lemma_plex_map_step_ok(
    names: Seq<Seq<char>>,
    st: (Seq<Seq<char>>, Seq<RecordV>),
    entry: (Seq<char>, Seq<(Seq<char>, MetaVal)>),
    fuzzy: bool,
)
    requires
        plex_map_state_ok(names, st),
    ensures
        plex_map_state_ok(names, plex_map_step(st, entry, fuzzy)),
{
    let (remaining, out) = st;
    let next = plex_map_step(st, entry, fuzzy);
    if next != st {
        let n = next.1.last().0->0;
        assert(remaining.contains(n));
        let k = remaining.index_of(n);
        let rest = remaining.remove(k);
        assert(next.0 == rest);
        assert forall|x: Seq<char>| #[trigger] rest.contains(x) implies remaining.contains(x) && x != n by {
            let j = choose|j: int| 0 <= j < rest.len() && rest[j] == x;
            let j0 = if j < k { j } else { j + 1 };
            assert(remaining[j0] == x);
            assert(j0 != k);
        }
        assert(rest.no_duplicates()) by {
            assert forall|a: int, b: int| 0 <= a < rest.len() && 0 <= b < rest.len() && a != b implies rest[a]
                != rest[b] by {
                let a0 = if a < k { a } else { a + 1 };
                let b0 = if b < k { b } else { b + 1 };
                assert(rest[a] == remaining[a0] && rest[b] == remaining[b0]);
            }
        }
        let o = next.1;
        assert(o == out.push((Some(n), entry.1)));
        assert forall|i: int| 0 <= i < o.len() implies ((#[trigger] o[i]).0 matches Some(m) && names.contains(m)
            && !rest.contains(m)) by {
            if i < out.len() {
                assert(o[i] == out[i]);
            }
        }
        assert forall|i: int, j: int| 0 <= i < j < o.len() implies (#[trigger] o[i]).0 != (#[trigger] o[j]).0 by {
            assert(o[i] == out[i]);
            if j < out.len() {
                assert(o[j] == out[j]);
            }
        }
    }
}

/// Matching a block mapping against item names gives records for item names
/// only, and never two records for the same item.
pub proof fn law_plex_map_distinct(
    entries: Seq<(Seq<char>, Seq<(Seq<char>, MetaVal)>)>,
    names: Seq<Seq<char>>,
    fuzzy: bool,
)
    ensures
        forall|i: int|
            0 <= i < plex_map_spec(entries, names, fuzzy).len() ==> ((#[trigger] plex_map_spec(
                entries,
                names,
                fuzzy,
            )[i]).0 matches Some(n) && names.contains(n)),
        forall|i: int, j: int|
            0 <= i < j < plex_map_spec(entries, names, fuzzy).len() ==> (#[trigger] plex_map_spec(
                entries,
                names,
                fuzzy,
            )[i]).0 != (#[trigger] plex_map_spec(entries, names, fuzzy)[j]).0,
{
    lemma_plex_map_fold_ok(entries, names, fuzzy);
}

proof fn lemma_plex_map_fold_ok(
    entries: Seq<(Seq<char>, Seq<(Seq<char>, MetaVal)>)>,
    names: Seq<Seq<char>>,
    fuzzy: bool,
)
    ensures
        plex_map_state_ok(names, plex_map_fold(entries, names, fuzzy)),
    decreases entries.len(),
{
    if entries.len() == 0 {
        lemma_dedup_no_dups(names);
    } else {
        lemma_plex_map_fold_ok(entries.drop_last(), names, fuzzy);
        lemma_plex_map_step_ok(names, plex_map_fold(entries.drop_last(), names, fuzzy), entries.last(), fuzzy);
    }
}

/// The names still unmatched when the entry at `k` is reached.
pub open spec fn remaining_before(
    entries: Seq<(Seq<char>, Seq<(Seq<char>, MetaVal)>)>,
    names: Seq<Seq<char>>,
    fuzzy: bool,
    k: int,
) -> Seq<Seq<char>> {
    plex_map_fold(entries.take(k), names, fuzzy).0
}

/// The name an entry's key stands for: with fuzzy matching the one remaining
/// name that the key is a prefix pattern of, else the key itself.
pub open spec fn plex_needle(key: Seq<char>, remaining: Seq<Seq<char>>, fuzzy: bool) -> Option<Seq<char>> {
    if fuzzy {
        fuzzy_pick(key, remaining)
    } else {
        Some(key)
    }
}

/// The places in `entries` of the entries that gave the records of
/// `plex_map_spec(entries, names, fuzzy)`, in the order of the records.
pub open spec fn plex_map_sources(
    entries: Seq<(Seq<char>, Seq<(Seq<char>, MetaVal)>)>,
    names: Seq<Seq<char>>,
    fuzzy: bool,
) -> Seq<int>
    decreases entries.len(),
{
    if entries.len() == 0 {
        Seq::empty()
    } else {
        let prev = plex_map_sources(entries.drop_last(), names, fuzzy);
        if plex_map_fold(entries, names, fuzzy).1.len() > plex_map_fold(entries.drop_last(), names, fuzzy).1.len() {
            prev.push(entries.len() - 1)
        } else {
            prev
        }
    }
}

/// Whether the entry at `k` gives a record: its key is a plain name that
/// stands for a name still unmatched.
pub open spec fn entry_taken(
    entries: Seq<(Seq<char>, Seq<(Seq<char>, MetaVal)>)>,
    names: Seq<Seq<char>>,
    fuzzy: bool,
    k: int,
) -> bool {
    let rem = remaining_before(entries, names, fuzzy, k);
    is_plain_name(entries[k].0) && (plex_needle(entries[k].0, rem, fuzzy) matches Some(n) && rem.contains(n))
}

proof fn lemma_plex_map_sources(
    entries: Seq<(Seq<char>, Seq<(Seq<char>, MetaVal)>)>,
    names: Seq<Seq<char>>,
    fuzzy: bool,
)
    ensures
        ({
            let recs = plex_map_spec(entries, names, fuzzy);
            let src = plex_map_sources(entries, names, fuzzy);
            &&& src.len() == recs.len()
            &&& forall|i: int|
                0 <= i < src.len() ==> {
                    &&& 0 <= #[trigger] src[i] < entries.len()
                    &&& recs[i].1 == entries[src[i]].1
                    &&& recs[i].0 == plex_needle(
                        entries[src[i]].0,
                        remaining_before(entries, names, fuzzy, src[i]),
                        fuzzy,
                    )
                }
            &&& forall|i: int, j: int| 0 <= i < j < src.len() ==> #[trigger] src[i] < #[trigger] src[j]
            &&& forall|k: int|
                0 <= k < entries.len() ==> (src.contains(k) <==> #[trigger] entry_taken(
                    entries,
                    names,
                    fuzzy,
                    k,
                ))
        }),
    decreases entries.len(),
{
    if entries.len() > 0 {
        let e = entries.drop_last();
        let last = entries.len() - 1;
        lemma_plex_map_sources(e, names, fuzzy);
        let recs0 = plex_map_spec(e, names, fuzzy);
        let src0 = plex_map_sources(e, names, fuzzy);
        let recs = plex_map_spec(entries, names, fuzzy);
        let src = plex_map_sources(entries, names, fuzzy);
        assert(entries.take(last) =~= e);
        let st = plex_map_fold(e, names, fuzzy);
        assert(plex_map_fold(entries, names, fuzzy) == plex_map_step(st, entries.last(), fuzzy));
        assert(remaining_before(entries, names, fuzzy, last) == st.0);
        assert(entries[last] == entries.last());
        assert forall|k: int| 0 <= k < last implies remaining_before(entries, names, fuzzy, k)
            == remaining_before(e, names, fuzzy, k) && entries[k] == e[k] by {
            assert(entries.take(k) =~= e.take(k));
        }
        let taken = entry_taken(entries, names, fuzzy, last);
        if taken {
            assert(recs == recs0.push((plex_needle(entries[last].0, st.0, fuzzy), entries[last].1)));
            assert(src == src0.push(last));
        } else {
            assert(recs == recs0);
            assert(src == src0);
        }
        assert forall|i: int| 0 <= i < src.len() implies {
            &&& 0 <= #[trigger] src[i] < entries.len()
            &&& recs[i].1 == entries[src[i]].1
            &&& recs[i].0 == plex_needle(entries[src[i]].0, remaining_before(entries, names, fuzzy, src[i]), fuzzy)
        } by {
            if i < src0.len() {
                assert(src[i] == src0[i]);
                assert(recs[i] == recs0[i]);
            }
        }
        assert forall|i: int, j: int| 0 <= i < j < src.len() implies #[trigger] src[i] < #[trigger] src[j] by {
            assert(src[i] == src0[i]);
            assert(0 <= src0[i] < e.len());
            if j < src0.len() {
                assert(src[j] == src0[j]);
            }
        }
        assert forall|k: int| 0 <= k < entries.len() implies (src.contains(k) <==> #[trigger] entry_taken(
            entries,
            names,
            fuzzy,
            k,
        )) by {
            if k < last {
                assert(entry_taken(entries, names, fuzzy, k) == entry_taken(e, names, fuzzy, k));
                if src.contains(k) {
                    let i = choose|i: int| 0 <= i < src.len() && src[i] == k;
                    if i < src0.len() {
                        assert(src0[i] == k);
                        assert(src0.contains(k));
                    }
                }
                if src0.contains(k) {
                    let i = choose|i: int| 0 <= i < src0.len() && src0[i] == k;
                    assert(src[i] == k);
                }
            } else {
                if src.contains(k) {
                    let i = choose|i: int| 0 <= i < src.len() && src[i] == k;
                    if i < src0.len() {
                        assert(src0[i] < e.len());
                    }
                }
                if taken {
                    assert(src[src.len() - 1] == k);
                }
            }
        }
    }
}

/// A name that is not an earlier key is unmatched, without fuzzy matching,
/// exactly when it is an item name.
proof fn lemma_exact_remaining(
    entries: Seq<(Seq<char>, Seq<(Seq<char>, MetaVal)>)>,
    names: Seq<Seq<char>>,
    x: Seq<char>,
)
    requires
        forall|j: int| 0 <= j < entries.len() ==> (#[trigger] entries[j]).0 != x,
    ensures
        plex_map_fold(entries, names, false).0.contains(x) <==> names.contains(x),
    decreases entries.len(),
{
    if entries.len() == 0 {
        lemma_dedup_no_dups(names);
    } else {
        let e = entries.drop_last();
        assert forall|j: int| 0 <= j < e.len() implies (#[trigger] e[j]).0 != x by {
            assert(e[j] == entries[j]);
        }
        lemma_exact_remaining(e, names, x);
        let st = plex_map_fold(e, names, false);
        let key = entries.last().0;
        assert(entries[entries.len() - 1] == entries.last());
        if is_plain_name(key) && st.0.contains(key) {
            let rem = st.0;
            let k = rem.index_of(key);
            let rest = rem.remove(k);
            assert(plex_map_fold(entries, names, false).0 == rest);
            assert(rest.contains(x) <==> rem.contains(x)) by {
                if rest.contains(x) {
                    let j = choose|j: int| 0 <= j < rest.len() && rest[j] == x;
                    let j0 = if j < k { j } else { j + 1 };
                    assert(rem[j0] == x);
                }
                if rem.contains(x) {
                    let j = choose|j: int| 0 <= j < rem.len() && rem[j] == x;
                    assert(j != k);
                    let j1 = if j < k { j } else { j - 1 };
                    assert(rest[j1] == x);
                }
            }
        }
    }
}

/// Matching a block mapping, whose keys are in ascending order, against item
/// names: each record comes from one entry, with that entry's block, and the
/// entries that give records come in the order of the mapping, so their keys
/// ascend. An entry gives a record exactly when its key is a plain name and,
/// without fuzzy matching, an item name, or, with fuzzy matching, a prefix
/// pattern of exactly one item name still unmatched when the entry is reached.
/// The record is for that item name: the key itself without fuzzy matching,
/// else the one name the pattern picked.
pub proof fn law_plex_map_records(
    entries: Seq<(Seq<char>, Seq<(Seq<char>, MetaVal)>)>,
    names: Seq<Seq<char>>,
    fuzzy: bool,
)
    requires
        sorted_by(entries, str_order()),
    ensures
        ({
            let recs = plex_map_spec(entries, names, fuzzy);
            let src = plex_map_sources(entries, names, fuzzy);
            &&& src.len() == recs.len()
            &&& forall|i: int|
                0 <= i < src.len() ==> {
                    &&& 0 <= #[trigger] src[i] < entries.len()
                    &&& is_plain_name(entries[src[i]].0)
                    &&& recs[i].1 == entries[src[i]].1
                    &&& !fuzzy ==> recs[i].0 == Some(entries[src[i]].0)
                    &&& fuzzy ==> recs[i].0 == fuzzy_pick(
                        entries[src[i]].0,
                        remaining_before(entries, names, fuzzy, src[i]),
                    )
                }
            &&& forall|i: int, j: int|
                0 <= i < j < src.len() ==> #[trigger] src[i] < #[trigger] src[j] && chars_lt(
                    entries[src[i]].0,
                    entries[src[j]].0,
                )
            &&& forall|k: int|
                0 <= k < entries.len() ==> (src.contains(k) <==> is_plain_name(#[trigger] entries[k].0) && if fuzzy {
                    fuzzy_pick(entries[k].0, remaining_before(entries, names, fuzzy, k)) is Some
                } else {
                    names.contains(entries[k].0)
                })
        }),
{
    lemma_plex_map_sources(entries, names, fuzzy);
    let src = plex_map_sources(entries, names, fuzzy);
    assert forall|i: int| 0 <= i < src.len() implies is_plain_name(entries[#[trigger] src[i]].0) by {
        assert(src.contains(src[i]));
        assert(entry_taken(entries, names, fuzzy, src[i]));
    }
    assert forall|i: int, j: int| 0 <= i < j < src.len() implies chars_lt(
        entries[#[trigger] src[i]].0,
        entries[#[trigger] src[j]].0,
    ) by {
        assert(src[i] < src[j]);
    }
    assert forall|k: int| 0 <= k < entries.len() implies (src.contains(k) <==> is_plain_name(
        #[trigger] entries[k].0,
    ) && if fuzzy {
        fuzzy_pick(entries[k].0, remaining_before(entries, names, fuzzy, k)) is Some
    } else {
        names.contains(entries[k].0)
    }) by {
        assert(entry_taken(entries, names, fuzzy, k) == (src.contains(k)));
        let rem = remaining_before(entries, names, fuzzy, k);
        let key = entries[k].0;
        if fuzzy {
            if fuzzy_pick(key, rem) is Some {
                let pattern = fuzzy_pattern(key);
                let flags = rem.map_values(|s: Seq<char>| crate::helpers::glob_pattern_matches(pattern, s));
                crate::helpers::lemma_count_pos_exists(flags);
                let j = choose|j: int| 0 <= j < flags.len() && flags[j];
                crate::helpers::lemma_first_flagged(flags, j);
                assert(rem.contains(rem[crate::helpers::first_flagged(flags)]));
            }
        } else {
            let pre = entries.take(k);
            assert forall|j: int| 0 <= j < pre.len() implies (#[trigger] pre[j]).0 != key by {
                assert(pre[j] == entries[j]);
                assert(chars_lt(entries[j].0, entries[k].0));
                crate::metadata::lemma_chars_lt_asym(entries[j].0, entries[k].0);
            }
            lemma_exact_remaining(pre, names, key);
        }
    }
}

// =================================================================================================
// Matching
// =================================================================================================

/// The one block of a directory's own metadata, for the directory.
pub fn plex_singular(meta_block: &MetaBlock) -> (r: Vec<PlexRecord>)
    ensures
        records_view(r@) == seq![(None::<Seq<char>>, meta_block@)],
{
    let mut results: Vec<PlexRecord> = Vec::new();
    results.push((PlexTarget::WorkingDir, meta_block));
    assert(records_view(results@) =~= seq![(None::<Seq<char>>, meta_block@)]);
    results
}

/// Blocks in sequence, matched one to one with the item names in order; extra
/// blocks or names are left over.
pub fn plex_multiple_seq<'a>(meta_block_seq: &'a MetaBlockSeq, item_file_names: &Vec<&str>) -> (r:
    Vec<PlexRecord<'a>>)
    ensures
        records_view(r@) == plex_seq_spec(
            crate::metadata::blocks_view(meta_block_seq@),
            names_view(item_file_names@),
        ),
{
    let mut results: Vec<PlexRecord<'a>> = Vec::new();
    let ghost spec = plex_seq_spec(
        crate::metadata::blocks_view(meta_block_seq@),
        names_view(item_file_names@),
    );
    let mut i: usize = 0;
    while i < item_file_names.len() && i < meta_block_seq.len()
        invariant
            i <= item_file_names.len(),
            i <= meta_block_seq.len(),
            spec == plex_seq_spec(
                crate::metadata::blocks_view(meta_block_seq@),
                names_view(item_file_names@),
            ),
            records_view(results@) == spec.take(i as int),
            results@.len() == i,
        decreases item_file_names.len() - i,
    {
        let t = PlexTarget::SubItem(String::from_str(item_file_names[i]));
        let ghost before = results@;
        assert(spec.len() > i);
        assert(spec[i as int] == (Some(item_file_names@[i as int]@), meta_block_seq@[i as int]@));
        let ghost tv = target_view(t);
        assert(tv == Some(item_file_names@[i as int]@));
        results.push((t, &meta_block_seq[i]));
        assert(records_view(results@)[i as int] == (tv, meta_block_seq@[i as int]@));
        assert(records_view(results@) =~= spec.take(i + 1));
        i += 1;
    }
    assert(records_view(results@) =~= spec);
    results
}

proof fn lemma_dedup_no_dups(ns: Seq<Seq<char>>)
    ensures
        dedup(ns).no_duplicates(),
        forall|x: Seq<char>| dedup(ns).contains(x) <==> ns.contains(x),
    decreases ns.len(),
{
    if ns.len() > 0 {
        let p = ns.drop_last();
        let l = ns.last();
        lemma_dedup_no_dups(p);
        let d = dedup(p);
        assert forall|x: Seq<char>| ns.contains(x) <==> (p.contains(x) || x == l) by {
            if ns.contains(x) {
                let k = choose|k: int| 0 <= k < ns.len() && ns[k] == x;
                if k < ns.len() - 1 {
                    assert(p[k] == x);
                }
            }
            if p.contains(x) {
                let k = choose|k: int| 0 <= k < p.len() && p[k] == x;
                assert(ns[k] == x);
            }
            if x == l {
                assert(ns[ns.len() - 1] == x);
            }
        }
        if !d.contains(l) {
            let e = d.push(l);
            assert forall|x: Seq<char>| e.contains(x) <==> (d.contains(x) || x == l) by {
                if e.contains(x) {
                    let k = choose|k: int| 0 <= k < e.len() && e[k] == x;
                    if k < d.len() {
                        assert(d[k] == x);
                    }
                }
                if d.contains(x) {
                    let k = choose|k: int| 0 <= k < d.len() && d[k] == x;
                    assert(e[k] == x);
                }
                if x == l {
                    assert(e[d.len() as int] == x);
                }
            }
            assert forall|a: int, b: int| 0 <= a < e.len() && 0 <= b < e.len() && a != b implies e[a]
                != e[b] by {
                if a < d.len() && b < d.len() {
                } else if a < d.len() {
                    assert(e[b] == l);
                    assert(d.contains(e[a]));
                } else if b < d.len() {
                    assert(e[a] == l);
                    assert(d.contains(e[b]));
                }
            }
        }
    }
}

pub(crate) proof fn lemma_push_contains(s: Seq<Seq<char>>, a: Seq<char>, x: Seq<char>)
    ensures
        s.push(a).contains(x) <==> (s.contains(x) || a == x),
{
    if s.push(a).contains(x) {
        let k = choose|k: int| 0 <= k < s.len() + 1 && s.push(a)[k] == x;
        if k < s.len() {
            assert(s[k] == x);
        }
    }
    if s.contains(x) {
        let k = choose|k: int| 0 <= k < s.len() && s[k] == x;
        assert(s.push(a)[k] == x);
    }
    if a == x {
        assert(s.push(a)[s.len() as int] == x);
    }
}

/// The names without repeats.
fn dedup_names<'b>(names: &Vec<&'b str>) -> (r: Vec<&'b str>)
    ensures
        names_view(r@) == dedup(names_view(names@)),
{
    let mut out: Vec<&'b str> = Vec::new();
    let mut i: usize = 0;
    while i < names.len()
        invariant
            i <= names.len(),
            names_view(out@) == dedup(names_view(names@).take(i as int)),
        decreases names.len() - i,
    {
        let ghost pre = names_view(names@).take(i as int);
        let ghost post = names_view(names@).take(i + 1);
        assert(post.drop_last() =~= pre);
        assert(post.last() == names@[i as int]@);
        let mut found = false;
        let mut j: usize = 0;
        while j < out.len()
            invariant
                i < names.len(),
                j <= out.len(),
                found == names_view(out@).take(j as int).contains(names@[i as int]@),
            decreases out.len() - j,
        {
            if str_eq(out[j], names[i]) {
                found = true;
            }
            assert(names_view(out@).take(j + 1) =~= names_view(out@).take(j as int).push(
                out@[j as int]@,
            ));
            proof {
                lemma_push_contains(names_view(out@).take(j as int), out@[j as int]@, names@[i as int]@);
            }
            j += 1;
        }
        assert(names_view(out@).take(out.len() as int) =~= names_view(out@));
        if !found {
            let ghost before = out@;
            out.push(names[i]);
            assert(names_view(out@) =~= names_view(before).push(names@[i as int]@));
        }
        i += 1;
    }
    assert(names_view(names@).take(names.len() as int) =~= names_view(names@));
    out
}

/// The place of `x` among `names`, if it is there.
fn position_of(names: &Vec<&str>, x: &str) -> (r: Option<usize>)
    ensures
        r matches Some(i) ==> i < names.len() && names_view(names@)[i as int] == x@,
        r is None ==> !names_view(names@).contains(x@),
{
    let ghost ns = names_view(names@);
    let mut i: usize = 0;
    while i < names.len()
        invariant
            i <= names.len(),
            ns == names_view(names@),
            forall|j: int| 0 <= j < i ==> ns[j] != x@,
        decreases names.len() - i,
    {
        if str_eq(names[i], x) {
            assert(ns[i as int] == x@);
            return Some(i);
        }
        i += 1;
    }
    None
}

/// Blocks by item name, matched against the item names: a name that is not a
/// valid item name is skipped; with fuzzy matching a name stands for the one
/// remaining item name that it is a prefix pattern of; each item name is taken
/// at most once.
pub fn plex_multiple_map<'a>(
    meta_block_map: &'a MetaBlockMap,
    item_file_names: &Vec<&str>,
    use_fuzzy_match: bool,
) -> (r: Vec<PlexRecord<'a>>)
    ensures
        records_view(r@) == plex_map_spec(meta_block_map@, names_view(item_file_names@), use_fuzzy_match),
{
    let mut results: Vec<PlexRecord<'a>> = Vec::new();
    let mut remaining = dedup_names(item_file_names);
    proof {
        lemma_dedup_no_dups(names_view(item_file_names@));
    }
    let ghost entries = meta_block_map@;
    let map_entries = meta_block_map.entries();
    assert(crate::metadata::str_pairs_view(map_entries@).len() == map_entries@.len());
    let ghost names = names_view(item_file_names@);
    let mut i: usize = 0;
    assert(entries.take(0) =~= Seq::<(Seq<char>, Seq<(Seq<char>, MetaVal)>)>::empty());
    assert(records_view(results@) =~= Seq::<RecordV>::empty());
    while i < map_entries.len()
        invariant
            i <= map_entries.len(),
            entries == meta_block_map@,
            entries == crate::metadata::str_pairs_view(map_entries@),
            names == names_view(item_file_names@),
            names_view(remaining@).no_duplicates(),
            plex_map_fold(entries.take(i as int), names, use_fuzzy_match) == (
                names_view(remaining@),
                records_view(results@),
            ),
        decreases map_entries.len() - i,
    {
        let ghost pre = entries.take(i as int);
        let ghost post = entries.take(i + 1);
        assert(post.drop_last() =~= pre);
        assert(post.last() == entries[i as int]);
        let ghost st = plex_map_fold(pre, names, use_fuzzy_match);
        let search_name_string = &map_entries[i].0;
        let mb = &map_entries[i].1;
        if is_valid_item_name(search_name_string.as_str()) {
            let needle: Option<&str> = if use_fuzzy_match {
                match fuzzy_name_match(search_name_string.as_str(), &remaining) {
                    Ok(matched_name) => {
                        proof {
                            lemma_fuzzy_pick(search_name_string@, remaining@);
                        }
                        Some(matched_name)
                    },
                    Err(_) => {
                        proof {
                            lemma_fuzzy_pick(search_name_string@, remaining@);
                        }
                        None
                    },
                }
            } else {
                Some(search_name_string.as_str())
            };
            match needle {
                Some(n) => {
                    match position_of(&remaining, n) {
                        Some(k) => {
                            let ghost before = names_view(remaining@);
                            assert(before.contains(n@));
                            let ghost j = before.index_of(n@);
                            assert(j == k as int);
                            let n_owned = String::from_str(n);
                            remaining.remove(k);
                            assert(names_view(remaining@) =~= before.remove(k as int));
                            assert(names_view(remaining@).no_duplicates()) by {
                                let a = names_view(remaining@);
                                assert forall|x: int, y: int| 0 <= x < a.len() && 0 <= y < a.len() && x != y implies a[x] != a[y] by {
                                    let xo = if x < k { x } else { x + 1 };
                                    let yo = if y < k { y } else { y + 1 };
                                    assert(a[x] == before[xo]);
                                    assert(a[y] == before[yo]);
                                }
                            }
                            let ghost rb = records_view(results@);
                            results.push((PlexTarget::SubItem(n_owned), mb));
                            assert(records_view(results@) =~= rb.push((Some(n@), mb@)));
                        },
                        None => {},
                    }
                },
                None => {},
            }
        }
        assert(plex_map_fold(post, names, use_fuzzy_match) == (
            names_view(remaining@),
            records_view(results@),
        ));
        i += 1;
    }
    assert(entries.take(map_entries.len() as int) =~= entries);
    results
}

/// What the fuzzy match over the remaining names returns, in terms of `fuzzy_pick`.
proof fn lemma_fuzzy_pick(name: Seq<char>, remaining: Seq<&str>)
    ensures
        ({
            let pattern = fuzzy_pattern(name);
            let flags = match_flags(pattern, remaining);
            &&& (glob_pattern_is_valid(pattern) && count_flagged(flags) == 1) ==> fuzzy_pick(
                name,
                names_view(remaining),
            ) == Some(remaining[crate::helpers::first_flagged(flags)]@)
            &&& !(glob_pattern_is_valid(pattern) && count_flagged(flags) == 1) ==> fuzzy_pick(
                name,
                names_view(remaining),
            ) is None
        }),
{
    let pattern = fuzzy_pattern(name);
    let flags = match_flags(pattern, remaining);
    let f2 = names_view(remaining).map_values(
        |s: Seq<char>| crate::helpers::glob_pattern_matches(pattern, s),
    );
    assert(flags =~= f2);
    if glob_pattern_is_valid(pattern) && count_flagged(flags) == 1 {
        crate::helpers::lemma_count_pos_exists(flags);
        let k = choose|k: int| 0 <= k < flags.len() && flags[k];
        crate::helpers::lemma_first_flagged(flags, k);
        assert(names_view(remaining)[crate::helpers::first_flagged(flags)] == remaining[crate::helpers::first_flagged(flags)]@);
    }
}


/// The records for metadata, given the item names of the working directory.
pub fn plex<'a>(metadata: &'a Metadata, item_file_names: &Vec<&str>, use_fuzzy_match: bool) -> (r: Vec<
    PlexRecord<'a>,
>)
    ensures
        records_view(r@) == plex_spec(metadata@, names_view(item_file_names@), use_fuzzy_match),
{
    match metadata {
        Metadata::Contains(mb) => plex_singular(mb),
        Metadata::SiblingsSeq(mb_seq) => plex_multiple_seq(mb_seq, item_file_names),
        Metadata::SiblingsMap(mb_map) => plex_multiple_map(mb_map, item_file_names, use_fuzzy_match),
    }
}

/// The file names of the paths, skipping paths that have none.
pub open spec fn names_of(ps: Seq<Seq<char>>) -> Seq<Seq<char>>
    decreases ps.len(),
{
    if ps.len() == 0 {
        Seq::empty()
    } else {
        names_of(ps.drop_last()) + match crate::path::file_name_of(ps.last()) {
            Some(n) => seq![n],
            None => Seq::empty(),
        }
    }
}

/// The names of the items that metadata speaks of: none for a directory's own
/// block; the selected entries of the working directory, sorted, for a block
/// sequence; and in snapshot order for a block mapping.
pub open spec fn relevant_names(
    md: MetadataV,
    nodes: Seq<FsNode>,
    dir: Seq<char>,
    sel: Selection,
    order: SortOrder,
) -> Seq<Seq<char>> {
    match md {
        MetadataV::Contains(_) => Seq::empty(),
        MetadataV::SiblingsSeq(_) => names_of(
            crate::sort_order::sorted_paths(
                order,
                nodes,
                crate::selection::selected_in_dir(sel, nodes, dir),
            ),
        ),
        MetadataV::SiblingsMap(_) => names_of(crate::selection::selected_in_dir(sel, nodes, dir)),
    }
}

/// The items that a block sequence speaks of are the selected entries of the
/// working directory, each once as in the snapshot, taken in the configured
/// order: the names are those of a rearrangement of the entries in which no
/// entry comes after one that it precedes in that order.
pub proof fn law_sequence_names_in_order(
    md: MetadataV,
    nodes: Seq<FsNode>,
    dir: Seq<char>,
    sel: Selection,
    order: SortOrder,
)
    requires
        md is SiblingsSeq,
    ensures
        exists|ps: Seq<Seq<char>>|
            #![trigger names_of(ps)]
            crate::sort_order::is_sorted_by(order, nodes, ps) && ps.to_multiset()
                == crate::selection::selected_in_dir(sel, nodes, dir).to_multiset() && relevant_names(
                md,
                nodes,
                dir,
                sel,
                order,
            ) == names_of(ps),
{
    let ps = crate::sort_order::sorted_paths(order, nodes, crate::selection::selected_in_dir(sel, nodes, dir));
    crate::sort_order::law_sorted_paths(order, nodes, crate::selection::selected_in_dir(sel, nodes, dir));
    assert(relevant_names(md, nodes, dir, sel, order) == names_of(ps));
}

/// The file names of the paths.
fn file_names_of(ps: &Vec<String>) -> (r: Vec<String>)
    ensures
        crate::sort_order::strings_view(r@) == names_of(crate::sort_order::strings_view(ps@)),
{
    let ghost v = crate::sort_order::strings_view(ps@);
    let mut out: Vec<String> = Vec::new();
    let mut i: usize = 0;
    while i < ps.len()
        invariant
            i <= ps.len(),
            v == crate::sort_order::strings_view(ps@),
            crate::sort_order::strings_view(out@) == names_of(v.take(i as int)),
        decreases ps.len() - i,
    {
        let ghost pre = v.take(i as int);
        let ghost post = v.take(i + 1);
        assert(post.drop_last() =~= pre);
        assert(post.last() == ps@[i as int]@);
        let ghost before = out@;
        match crate::path::file_name(ps[i].as_str()) {
            Some(n) => {
                let ghost nv = n@;
                out.push(n);
                assert(crate::sort_order::strings_view(out@) =~= crate::sort_order::strings_view(
                    before,
                ).push(nv));
            },
            None => {},
        }
        assert(crate::sort_order::strings_view(out@) =~= names_of(post));
        i += 1;
    }
    assert(v.take(ps.len() as int) =~= v);
    out
}

impl Metadata {
    /// The names of the items that this metadata speaks of, in the working directory.
    pub fn source_item_names(
        &self,
        fs: &FsSnapshot,
        working_dir_path: &str,
        selection: &Selection,
        sort_order: SortOrder,
    ) -> (r: Result<Vec<String>, Error>)
        ensures
            r matches Ok(ns) && crate::sort_order::strings_view(ns@) == relevant_names(
                self@,
                fs@,
                working_dir_path@,
                *selection,
                sort_order,
            ),
    {
        match self {
            Metadata::Contains(_) => {
                let v: Vec<String> = Vec::new();
                assert(crate::sort_order::strings_view(v@) =~= Seq::<Seq<char>>::empty());
                Ok(v)
            },
            Metadata::SiblingsSeq(_) => {
                let entries = selection.selected_entries_in_dir(fs, working_dir_path);
                let sorted = sort_order.sort_paths(fs, entries);
                Ok(file_names_of(&sorted))
            },
            Metadata::SiblingsMap(_) => {
                let entries = selection.selected_entries_in_dir(fs, working_dir_path);
                Ok(file_names_of(&entries))
            },
        }
    }
}

/// Borrowed views of the names.
fn name_refs(names: &Vec<String>) -> (r: Vec<&str>)
    ensures
        names_view(r@) == crate::sort_order::strings_view(names@),
{
    let mut out: Vec<&str> = Vec::new();
    let mut i: usize = 0;
    while i < names.len()
        invariant
            i <= names.len(),
            names_view(out@) == crate::sort_order::strings_view(names@).take(i as int),
            out@.len() == i,
        decreases names.len() - i,
    {
        let r = names[i].as_str();
        assert(r@ == names@[i as int]@);
        out.push(r);
        assert(names_view(out@)[i as int] == r@);
        assert(names_view(out@) =~= crate::sort_order::strings_view(names@).take(i + 1));
        i += 1;
    }
    assert(crate::sort_order::strings_view(names@).take(names.len() as int)
        =~= crate::sort_order::strings_view(names@));
    out
}

/// Matches metadata read in `working_dir_path` with the items that it speaks of.
pub fn multiplex<'a>(
    metadata: &'a Metadata,
    fs: &FsSnapshot,
    working_dir_path: &str,
    selection: &Selection,
    sort_order: SortOrder,
    use_fuzzy_match: bool,
) -> (r: Result<Vec<PlexRecord<'a>>, Error>)
    ensures
        r matches Ok(rs) && records_view(rs@) == plex_spec(
            metadata@,
            relevant_names(metadata@, fs@, working_dir_path@, *selection, sort_order),
            use_fuzzy_match,
        ),
{
    let item_file_names = metadata.source_item_names(fs, working_dir_path, selection, sort_order)?;
    let refs = name_refs(&item_file_names);
    Ok(plex(metadata, &refs, use_fuzzy_match))
}

} // verus!
