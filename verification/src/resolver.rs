//! Combining metadata values that an item gets from several places.
use vstd::prelude::*;

use crate::cacher::{CacheV, LookupCacher};
use crate::library::LibV;
use crate::metadata::{
    key_order, key_view, law_sorted_insert, lemma_key_order_total, lookup, sorted_by, sorted_insert,
    MetaKey, MetaVal, MetaValue,
};

verus! {

broadcast use crate::metadata::lemma_meta_val_unfold;

/// Resolves the fields of items over a lookup cache.
pub struct Resolver<'a> {
    lookup_ctx: &'a LookupCacher<'a>,
}

impl<'a> Resolver<'a> {
    /// The cache that the resolver reads.
    pub closed spec fn cache(&self) -> CacheV {
        self.lookup_ctx@
    }

    /// The library of that cache.
    pub closed spec fn lib(&self) -> LibV {
        self.lookup_ctx.lib()
    }

    /// A resolver over `lookup_ctx`.
    pub fn new(lookup_ctx: &'a LookupCacher<'a>) -> (r: Resolver<'a>)
        ensures
            r.cache() == lookup_ctx@,
            r.lib() == lookup_ctx.lib(),
    {
        Resolver { lookup_ctx }
    }

    /// Resolves a field of an item.  No rule of resolution is applied yet, so
    /// nothing changes.
    pub fn resolve(&mut self, abs_item_path: &str, field_name: &str)
        ensures
            final(self).cache() == old(self).cache(),
            final(self).lib() == old(self).lib(),
    {
    }
}

/// Overwriting left to right: the right value.
pub fn ltr_overwrite_vals(lv: &MetaValue, rv: &MetaValue) -> (r: MetaValue)
    ensures
        r@ == rv@,
{
    rv.clone()
}

/// The pairs of `r` set in the mapping `l`, in turn; a later pair wins.
pub open spec fn update_pairs(
    l: Seq<(Option<Seq<char>>, MetaVal)>,
    r: Seq<(Option<Seq<char>>, MetaVal)>,
) -> Seq<(Option<Seq<char>>, MetaVal)>
    decreases r.len(),
{
    if r.len() == 0 {
        l
    } else {
        let p = r.last();
        sorted_insert(update_pairs(l, r.drop_last()), p.0, p.1, key_order())
    }
}

/// Updating `l` with `r`, the right side winning: a mapping on the left takes
/// the pairs of a mapping on the right, or any other right value under the
/// null key; any other left value is replaced by the right one.
pub open spec fn map_update(l: MetaVal, r: MetaVal) -> MetaVal {
    match l {
        MetaVal::Mapping(lm) => match r {
            MetaVal::Mapping(rm) => MetaVal::Mapping(update_pairs(lm, rm)),
            _ => MetaVal::Mapping(sorted_insert(lm, None, r, key_order())),
        },
        _ => r,
    }
}

/// What key `k` reads after the mapping `lm` is updated with `r`: the right
/// side's value where it has one for `k`, else the left side's.
pub open spec fn right_wins(lm: Seq<(Option<Seq<char>>, MetaVal)>, r: MetaVal, k: Option<Seq<char>>) -> Option<
    MetaVal,
> {
    match r {
        MetaVal::Mapping(rm) => match lookup_last(rm, k) {
            Some(v) => Some(v),
            None => lookup(lm, k),
        },
        _ => if k is None {
            Some(r)
        } else {
            lookup(lm, k)
        },
    }
}

/// Updates `lv` with `rv` left to right; values on the right win.
pub fn map_update_vals(lv: &MetaValue, rv: &MetaValue) -> (r: MetaValue)
    ensures
        r@ == map_update(lv@, rv@),
        lv@ matches MetaVal::Mapping(lm) ==> (r@ matches MetaVal::Mapping(m) && sorted_by(
            m,
            key_order(),
        ) && forall|k: Option<Seq<char>>| #[trigger] lookup(m, k) == right_wins(lm, rv@, k)),
{
    match lv {
        MetaValue::Mapping(l_m) => {
            proof {
                crate::metadata::lemma_mapping_view(*l_m);
                use_type_invariant(l_m);
                assert forall|k: Option<Seq<char>>| #[trigger] lookup(
                    map_update(lv@, rv@)->Mapping_0,
                    k,
                ) == right_wins(l_m@, rv@, k) by {
                    law_map_update_right_wins(lv@, rv@, k);
                }
                law_map_update_right_wins(lv@, rv@, None);
            }
            match rv {
                MetaValue::Mapping(r_m) => {
                    proof {
                        crate::metadata::lemma_mapping_view(*r_m);
                    }
                    let mut new_map = l_m.deep_copy();
                    let ghost rs = r_m@;
                    let r_entries = r_m.entries();
                    let mut i: usize = 0;
                    while i < r_entries.len()
                        invariant
                            i <= r_entries.len(),
                            rs == r_m@,
                            rs == crate::metadata::key_pairs_view(r_entries@),
                            new_map@ == update_pairs(l_m@, rs.take(i as int)),
                        decreases r_entries.len() - i,
                    {
                        assert(rs.take(i + 1).drop_last() =~= rs.take(i as int));
                        assert(rs.take(i + 1).last() == rs[i as int]);
                        assert(rs[i as int] == (key_view(r_entries@[i as int].0), r_entries@[i as int].1@));
                        let k = r_entries[i].0.copy();
                        let v = r_entries[i].1.deep_copy();
                        new_map.insert(k, v);
                        i += 1;
                    }
                    assert(rs.take(r_entries.len() as int) =~= rs);
                    let r = MetaValue::Mapping(new_map);
                    proof {
                        crate::metadata::lemma_mapping_view(new_map);
                    }
                    r
                },
                _ => {
                    let mut new_map = l_m.deep_copy();
                    new_map.insert(MetaKey::Nil, rv.clone());
                    let r = MetaValue::Mapping(new_map);
                    proof {
                        crate::metadata::lemma_mapping_view(new_map);
                    }
                    r
                },
            }
        },
        _ => rv.clone(),
    }
}

/// The value of the last pair with key `k`.
pub open spec fn lookup_last<K, V>(s: Seq<(K, V)>, k: K) -> Option<V>
    decreases s.len(),
{
    if s.len() == 0 {
        None
    } else if s.last().0 == k {
        Some(s.last().1)
    } else {
        lookup_last(s.drop_last(), k)
    }
}

/// Updating a sorted mapping with pairs keeps it sorted, and each key then reads
/// the last value that the pairs give it, or else its old value.
pub proof fn law_update_pairs_right_wins(
    l: Seq<(Option<Seq<char>>, MetaVal)>,
    r: Seq<(Option<Seq<char>>, MetaVal)>,
    k: Option<Seq<char>>,
)
    requires
        sorted_by(l, key_order()),
    ensures
        sorted_by(update_pairs(l, r), key_order()),
        lookup(update_pairs(l, r), k) == match lookup_last(r, k) {
            Some(v) => Some(v),
            None => lookup(l, k),
        },
    decreases r.len(),
{
    lemma_key_order_total();
    if r.len() > 0 {
        law_update_pairs_right_wins(l, r.drop_last(), k);
        let p = r.last();
        law_sorted_insert(update_pairs(l, r.drop_last()), p.0, p.1, key_order());
    }
}

/// Updating left to right, the right side wins: a value that is not a mapping
/// is replaced; in a sorted mapping, each key of a right mapping reads the
/// right value and every other key keeps its value, and a right value that is
/// not a mapping goes under the null key.
pub proof fn law_map_update_right_wins(l: MetaVal, r: MetaVal, k: Option<Seq<char>>)
    requires
        l matches MetaVal::Mapping(lm) ==> sorted_by(lm, key_order()),
    ensures
        !(l is Mapping) ==> map_update(l, r) == r,
        l matches MetaVal::Mapping(lm) ==> (map_update(l, r) matches MetaVal::Mapping(m) && sorted_by(
            m,
            key_order(),
        ) && lookup(m, k) == match r {
            MetaVal::Mapping(rm) => match lookup_last(rm, k) {
                Some(v) => Some(v),
                None => lookup(lm, k),
            },
            _ => if k is None {
                Some(r)
            } else {
                lookup(lm, k)
            },
        }),
{
    lemma_key_order_total();
    match l {
        MetaVal::Mapping(lm) => match r {
            MetaVal::Mapping(rm) => {
                law_update_pairs_right_wins(lm, rm, k);
            },
            _ => {
                law_sorted_insert(lm, None, r, key_order());
            },
        },
        _ => {},
    }
}

} // verus!
