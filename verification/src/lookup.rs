//! Looking up a metadata field for an item: in the item's own metadata, in that
//! of its ancestors, or gathered from its descendants.
use vstd::prelude::*;

use crate::error::{error_agrees, Error, ErrorV};
use crate::fs::{max_path_len, node_is_dir};
use crate::library::{children, item_fps, meta_fps, proper, ItemRecordV, LibV, MediaLibrary};
use crate::metadata::{lookup, MetaVal, MetaValue};
use crate::path::{
    components, has_root, lemma_norm_stack_fixed, lemma_normal_absolute,
    lemma_normalized_idempotent, lemma_normalized_keeps_root, lemma_parent_components, normalize,
    normalized, parent, parent_path, render, same_path, PathComp,
};
use crate::sort_order::strings_view;
use crate::text::str_eq;

verus! {

broadcast use crate::metadata::lemma_meta_val_unfold;

/// Where a lookup looks.
#[derive(Debug, Clone, Copy, PartialEq, Eq)]
pub enum LookupDirection {
    Origin,
    Parents,
    Children,
}

/// What a lookup looks for: a field name, and optionally a set of labels.
pub struct LookupOptions {
    field_name: String,
    labels: Option<Vec<String>>,
}

/// The labels as a set: none when no label was ever added.
pub open spec fn labels_set(labels: Option<Vec<String>>) -> Option<Set<Seq<char>>> {
    match labels {
        None => None,
        Some(v) => Some(strings_view(v@).to_set()),
    }
}

impl LookupOptions {
    /// The name of the field to look up.
    pub closed spec fn field(&self) -> Seq<char> {
        self.field_name@
    }

    /// The labels added so far.
    pub closed spec fn labels(&self) -> Option<Set<Seq<char>>> {
        labels_set(self.labels)
    }

    /// Options for looking up `field_name`, without labels.
    pub fn new(field_name: &str) -> (r: LookupOptions)
        ensures
            r.field() == field_name@,
            r.labels() is None,
    {
        LookupOptions { field_name: String::from_str(field_name), labels: None }
    }

    /// The field name.
    pub fn field_name(&self) -> (r: &String)
        ensures
            r@ == self.field(),
    {
        &self.field_name
    }

    /// Adds a label.
    pub fn add_label(&mut self, label: &str) -> (r: &mut LookupOptions)
        ensures
            r.field() == old(self).field(),
            r.labels() == Some(
                match old(self).labels() {
                    None => Set::<Seq<char>>::empty(),
                    Some(s) => s,
                }.insert(label@),
            ),
            *final(self) == *final(r),
    {
        let l = String::from_str(label);
        let ghost lv = l@;
        let mut cur: Option<Vec<String>> = None;
        std::mem::swap(&mut cur, &mut self.labels);
        let next: Vec<String> = match cur {
            None => {
                let mut v: Vec<String> = Vec::new();
                v.push(l);
                assert(strings_view(v@) =~= seq![lv]);
                assert(seq![lv].to_set() =~= Set::<Seq<char>>::empty().insert(lv)) by {
                    assert forall|x: Seq<char>| seq![lv].to_set().contains(x) <==> x == lv by {
                        if x == lv {
                            assert(seq![lv][0] == x);
                        }
                    }
                }
                v
            },
            Some(mut hs) => {
                let ghost before = strings_view(hs@);
                let mut found = false;
                let mut j: usize = 0;
                while j < hs.len()
                    invariant
                        j <= hs.len(),
                        before == strings_view(hs@),
                        lv == l@,
                        found == before.take(j as int).contains(lv),
                    decreases hs.len() - j,
                {
                    assert(before[j as int] == hs@[j as int]@);
                    if str_eq(hs[j].as_str(), l.as_str()) {
                        found = true;
                    }
                    proof {
                        crate::plexer::lemma_push_contains(before.take(j as int), before[j as int], lv);
                    }
                    assert(before.take(j + 1) =~= before.take(j as int).push(before[j as int]));
                    j += 1;
                }
                assert(before.take(hs.len() as int) =~= before);
                if found {
                    assert(before.to_set() =~= before.to_set().insert(lv));
                } else {
                    hs.push(l);
                    assert(strings_view(hs@) =~= before.push(lv));
                    assert forall|x: Seq<char>| #![auto]
                        before.push(lv).to_set().contains(x) <==> before.to_set().insert(
                            lv,
                        ).contains(x) by {
                        crate::plexer::lemma_push_contains(before, lv, x);
                    }
                    assert(before.push(lv).to_set() =~= before.to_set().insert(lv));
                }
                hs
            },
        };
        self.labels = Some(next);
        self
    }

    /// Adds each of the labels; the options have labels afterwards, even when
    /// there are none to add.
    pub fn add_labels(&mut self, labels: &Vec<&str>) -> (r: &mut LookupOptions)
        ensures
            r.field() == old(self).field(),
            r.labels() == Some(
                match old(self).labels() {
                    None => Set::<Seq<char>>::empty(),
                    Some(s) => s,
                }.union(crate::plexer::names_view(labels@).to_set()),
            ),
            *final(self) == *final(r),
    {
        let ghost start = match self.labels() {
            None => Set::<Seq<char>>::empty(),
            Some(s) => s,
        };
        if self.labels.is_none() {
            self.labels = Some(Vec::new());
            assert(strings_view(Seq::<String>::empty()).to_set() =~= Set::<Seq<char>>::empty());
        }
        let ghost ns = crate::plexer::names_view(labels@);
        assert(start.union(ns.take(0).to_set()) =~= start);
        let mut i: usize = 0;
        while i < labels.len()
            invariant
                i <= labels.len(),
                self.field() == old(self).field(),
                ns == crate::plexer::names_view(labels@),
                self.labels() == Some(start.union(ns.take(i as int).to_set())),
            decreases labels.len() - i,
        {
            self.add_label(labels[i]);
            assert(ns[i as int] == labels@[i as int]@);
            assert(ns.take(i + 1) =~= ns.take(i as int).push(ns[i as int]));
            assert forall|x: Seq<char>| #![auto]
                start.union(ns.take(i + 1).to_set()).contains(x) <==> start.union(
                    ns.take(i as int).to_set(),
                ).insert(ns[i as int]).contains(x) by {
                crate::plexer::lemma_push_contains(ns.take(i as int), ns[i as int], x);
            }
            assert(start.union(ns.take(i + 1).to_set()) =~= start.union(ns.take(i as int).to_set()).insert(
                ns[i as int],
            ));
            i += 1;
        }
        assert(ns.take(labels.len() as int) =~= ns);
        self
    }
}

// =================================================================================================
// Model
// =================================================================================================

pub open spec fn opt_view(v: Option<MetaValue>) -> Option<MetaVal> {
    match v {
        Some(x) => Some(x@),
        None => None,
    }
}

/// Whether `r` is what the model says, an error agreeing with the model's.
pub open spec fn lookup_agrees(r: Result<Option<MetaValue>, Error>, m: Result<Option<MetaVal>, Option<ErrorV>>) -> bool {
    match r {
        Ok(v) => m == Ok::<Option<MetaVal>, Option<ErrorV>>(opt_view(v)),
        Err(e) => m matches Err(x) && error_agrees(e, x),
    }
}

/// The value of the field in the first record for the item (by components)
/// whose block has the field.
pub open spec fn find_field(recs: Seq<ItemRecordV>, q: Seq<char>, f: Seq<char>) -> Option<MetaVal>
    decreases recs.len(),
{
    if recs.len() == 0 {
        None
    } else if components(recs[0].0) == components(q) && lookup(recs[0].1, f) is Some {
        lookup(recs[0].1, f)
    } else {
        find_field(recs.drop_first(), q, f)
    }
}

/// The search through the metadata files, in order, for the field of the item.
pub open spec fn origin_search(lib: LibV, q: Seq<char>, f: Seq<char>, metas: Seq<Seq<char>>) -> Result<
    Option<MetaVal>,
    Option<ErrorV>,
>
    decreases metas.len(),
{
    if metas.len() == 0 {
        Ok(None)
    } else {
        match item_fps(lib, metas[0]) {
            Err(e) => Err(e),
            Ok(recs) => match find_field(recs, q, f) {
                Some(v) => Ok(Some(v)),
                None => origin_search(lib, q, f, metas.drop_first()),
            },
        }
    }
}

/// The value of field `f` that the item at `p` gets from its own metadata
/// files: the first found, in the order of the files.
pub open spec fn origin(lib: LibV, p: Seq<char>, f: Seq<char>) -> Result<Option<MetaVal>, Option<ErrorV>> {
    let q = normalized(p);
    match meta_fps(lib, q) {
        Err(e) => Err(Some(e)),
        Ok(ms) => origin_search(lib, q, f, ms),
    }
}

/// The search up through the ancestors of the path whose components are `cs`:
/// its parent, then the parent's parent, and so on while they lie under the
/// root; the first that has the field in its own metadata gives the value.
pub open spec fn parents_search(lib: LibV, cs: Seq<PathComp>, f: Seq<char>) -> Result<
    Option<MetaVal>,
    Option<ErrorV>,
>
    decreases cs.len(),
{
    if cs.len() == 0 || cs.last() is Root {
        Ok(None)
    } else {
        let par = render(cs.drop_last());
        if !proper(lib, par) {
            Ok(None)
        } else {
            match origin(lib, par, f) {
                Err(e) => Err(e),
                Ok(Some(v)) => Ok(Some(v)),
                Ok(None) => parents_search(lib, cs.drop_last(), f),
            }
        }
    }
}

/// The value of field `f` that the item at `p` inherits from its nearest
/// ancestor under the root that has it.
pub open spec fn parents(lib: LibV, p: Seq<char>, f: Seq<char>) -> Result<Option<MetaVal>, Option<ErrorV>> {
    parents_search(lib, components(normalized(p)), f)
}

pub open spec fn vals_view(s: Seq<MetaValue>) -> Seq<MetaVal> {
    s.map_values(|v: MetaValue| v@)
}

/// The value gathered from the descendants of the directory at `q` (a
/// normalised path): for each child in the library's order, its own value if
/// it has one, else what is gathered from its descendants, skipping children
/// that are not directories and have no value.  Not a directory: nothing.
pub open spec fn descend(lib: LibV, q: Seq<char>, f: Seq<char>) -> Result<Option<MetaVal>, Option<ErrorV>>
    decreases max_path_len(lib.nodes) - q.len(), 1int, 0int,
{
    if !node_is_dir(lib.nodes, q) {
        Ok(None)
    } else {
        match gather(lib, q, f, children(lib, q)) {
            Err(e) => Err(e),
            Ok(vs) => Ok(Some(MetaVal::Sequence(vs))),
        }
    }
}

/// The values gathered for the children `cs` of the directory `q`, in order.
/// (Children are longer than `q` and no longer than the longest path of the
/// snapshot; the recursion relies on it.)
pub open spec fn gather(lib: LibV, q: Seq<char>, f: Seq<char>, cs: Seq<Seq<char>>) -> Result<
    Seq<MetaVal>,
    Option<ErrorV>,
>
    decreases max_path_len(lib.nodes) - q.len(), 0int, cs.len(),
{
    if cs.len() == 0 {
        Ok(Seq::empty())
    } else {
        match gather(lib, q, f, cs.drop_last()) {
            Err(e) => Err(e),
            Ok(vs) => {
                let c = cs.last();
                match origin(lib, c, f) {
                    Err(e) => Err(e),
                    Ok(Some(v)) => Ok(vs.push(v)),
                    Ok(None) => if q.len() < c.len() <= max_path_len(lib.nodes) {
                        match descend(lib, c, f) {
                            Err(e) => Err(e),
                            Ok(Some(s)) => Ok(vs.push(s)),
                            Ok(None) => Ok(vs),
                        }
                    } else {
                        Ok(vs)
                    },
                }
            },
        }
    }
}

/// The value of field `f` gathered from the descendants of the item at `p`.
pub open spec fn descendants(lib: LibV, p: Seq<char>, f: Seq<char>) -> Result<Option<MetaVal>, Option<ErrorV>> {
    descend(lib, normalized(p), f)
}

/// The values gathered for one more child.
proof fn lemma_gather_step(lib: LibV, q: Seq<char>, f: Seq<char>, cs: Seq<Seq<char>>, i: int)
    requires
        0 <= i < cs.len(),
    ensures
        gather(lib, q, f, cs.take(i + 1)) == match gather(lib, q, f, cs.take(i)) {
            Err(e) => Err(e),
            Ok(vs) => match origin(lib, cs[i], f) {
                Err(e) => Err(e),
                Ok(Some(v)) => Ok(vs.push(v)),
                Ok(None) => if q.len() < cs[i].len() <= max_path_len(lib.nodes) {
                    match descend(lib, cs[i], f) {
                        Err(e) => Err(e),
                        Ok(Some(s)) => Ok(vs.push(s)),
                        Ok(None) => Ok(vs),
                    }
                } else {
                    Ok(vs)
                },
            },
        },
{
    assert(cs.take(i + 1).drop_last() =~= cs.take(i));
    assert(cs.take(i + 1).last() == cs[i]);
}

/// Once the values gathered for a prefix of the children of a directory end in
/// an error, that error is what is gathered from the directory.
proof fn lemma_descend_err(lib: LibV, q: Seq<char>, f: Seq<char>, i: int)
    requires
        node_is_dir(lib.nodes, q),
        0 <= i <= children(lib, q).len(),
        gather(lib, q, f, children(lib, q).take(i)) is Err,
    ensures
        descend(lib, q, f) == Err::<Option<MetaVal>, Option<ErrorV>>(
            gather(lib, q, f, children(lib, q).take(i))->Err_0,
        ),
{
    lemma_gather_err(lib, q, f, children(lib, q), i);
}

/// Once the values of a prefix of the children end in an error, so do those of
/// all the children.
proof fn lemma_gather_err(lib: LibV, q: Seq<char>, f: Seq<char>, cs: Seq<Seq<char>>, k: int)
    requires
        0 <= k <= cs.len(),
        gather(lib, q, f, cs.take(k)) is Err,
    ensures
        gather(lib, q, f, cs) == gather(lib, q, f, cs.take(k)),
    decreases cs.len(),
{
    if k == cs.len() {
        assert(cs.take(k) =~= cs);
    } else {
        assert(cs.drop_last().take(k) =~= cs.take(k));
        lemma_gather_err(lib, q, f, cs.drop_last(), k);
    }
}

/// Looking through the ancestors of an absolute item is looking in its parent,
/// while that lies under the root, and then, when the parent's own metadata
/// lacks the field, through the ancestors of the parent.
pub proof fn law_parents_step(lib: LibV, p: Seq<char>, f: Seq<char>)
    requires
        has_root(p),
    ensures
        parent_path(normalized(p)) is None ==> parents(lib, p, f) == Ok::<
            Option<MetaVal>,
            Option<ErrorV>,
        >(None),
        parent_path(normalized(p)) matches Some(par) ==> parents(lib, p, f) == if !proper(lib, par) {
            Ok(None)
        } else {
            match origin(lib, par, f) {
                Ok(None) => parents(lib, par, f),
                r => r,
            }
        },
{
    let q = normalized(p);
    lemma_normalized_keeps_root(p);
    lemma_normalized_idempotent(p);
    lemma_normal_absolute(q);
    let cs = components(q);
    if cs.len() > 0 && !(cs.last() is Root) {
        assert(cs.len() > 1) by {
            if cs.len() == 1 {
                assert(cs.last() == cs[0]);
            }
        }
        lemma_parent_components(cs);
        let d = cs.drop_last();
        let par = render(d);
        assert(d.len() > 0);
        lemma_norm_stack_fixed(d);
        assert(normalized(par) == par);
    }
}

/// Nothing is gathered from below an item that is not a directory; below a
/// directory, a sequence is gathered unless an error stops it.
pub proof fn law_descendants_of_dirs_only(lib: LibV, p: Seq<char>, f: Seq<char>)
    ensures
        !node_is_dir(lib.nodes, normalized(p)) ==> descendants(lib, p, f) == Ok::<
            Option<MetaVal>,
            Option<ErrorV>,
        >(None),
        node_is_dir(lib.nodes, normalized(p)) ==> (descendants(lib, p, f) is Err || descendants(
            lib,
            p,
            f,
        ) matches Ok(Some(MetaVal::Sequence(_)))),
{
}

/// Gathering from the children `cs`: when it gives values, the values gathered
/// from the first `i` children are the start of them.
proof fn lemma_gather_prefix(lib: LibV, q: Seq<char>, f: Seq<char>, cs: Seq<Seq<char>>, i: int)
    requires
        0 <= i <= cs.len(),
        gather(lib, q, f, cs) is Ok,
    ensures
        gather(lib, q, f, cs.take(i)) matches Ok(ws) && ws.len() <= gather(lib, q, f, cs)->Ok_0.len()
            && gather(lib, q, f, cs)->Ok_0.take(ws.len() as int) == ws,
    decreases cs.len(),
{
    if i == cs.len() {
        assert(cs.take(i) =~= cs);
        assert(gather(lib, q, f, cs)->Ok_0.take(gather(lib, q, f, cs)->Ok_0.len() as int) =~= gather(
            lib,
            q,
            f,
            cs,
        )->Ok_0);
    } else {
        let d = cs.drop_last();
        assert(d.take(i) =~= cs.take(i));
        lemma_gather_prefix(lib, q, f, d, i);
        let vs = gather(lib, q, f, cs)->Ok_0;
        let us = gather(lib, q, f, d)->Ok_0;
        let ws = gather(lib, q, f, cs.take(i))->Ok_0;
        assert(vs == us || (vs.len() == us.len() + 1 && vs.take(us.len() as int) =~= us));
        assert(vs.take(ws.len() as int) =~= us.take(ws.len() as int));
    }
}

/// Gathering when each of the first `i` children has the field in its own
/// metadata gives their values, in the children's order.
proof fn lemma_gather_all_have(lib: LibV, q: Seq<char>, f: Seq<char>, cs: Seq<Seq<char>>, i: int)
    requires
        0 <= i <= cs.len(),
        forall|k: int| 0 <= k < cs.len() ==> #[trigger] origin(lib, cs[k], f) matches Ok(Some(_)),
    ensures
        gather(lib, q, f, cs.take(i)) == Ok::<Seq<MetaVal>, Option<ErrorV>>(
            Seq::new(i as nat, |k: int| origin(lib, cs[k], f)->Ok_0->Some_0),
        ),
    decreases i,
{
    if i > 0 {
        lemma_gather_all_have(lib, q, f, cs, i - 1);
        lemma_gather_step(lib, q, f, cs, i - 1);
        assert(origin(lib, cs[i - 1], f) matches Ok(Some(_)));
        assert(Seq::new((i - 1) as nat, |k: int| origin(lib, cs[k], f)->Ok_0->Some_0).push(
            origin(lib, cs[i - 1], f)->Ok_0->Some_0,
        ) =~= Seq::new(i as nat, |k: int| origin(lib, cs[k], f)->Ok_0->Some_0));
    } else {
        assert(cs.take(0) =~= Seq::<Seq<char>>::empty());
        assert(Seq::new(0, |k: int| origin(lib, cs[k], f)->Ok_0->Some_0) =~= Seq::<MetaVal>::empty());
    }
}

/// Gathering from a directory goes child by child in the library's order of
/// its children: when every child has the field in its own metadata, the
/// result is their values, one per child, in that order; and in general, what
/// the first `i` children give is the start of the gathered sequence, so a
/// first child that has the field gives the first value.
pub proof fn law_descendants_child_order(lib: LibV, p: Seq<char>, f: Seq<char>, i: int)
    requires
        0 <= i <= children(lib, normalized(p)).len(),
    ensures
        (node_is_dir(lib.nodes, normalized(p)) && forall|k: int|
            0 <= k < children(lib, normalized(p)).len() ==> #[trigger] origin(
                lib,
                children(lib, normalized(p))[k],
                f,
            ) matches Ok(Some(_))) ==> descendants(lib, p, f) == Ok::<Option<MetaVal>, Option<ErrorV>>(
            Some(
                MetaVal::Sequence(
                    Seq::new(
                        children(lib, normalized(p)).len(),
                        |k: int| origin(lib, children(lib, normalized(p))[k], f)->Ok_0->Some_0,
                    ),
                ),
            ),
        ),
        descendants(lib, p, f) matches Ok(Some(MetaVal::Sequence(vs))) ==> (gather(
            lib,
            normalized(p),
            f,
            children(lib, normalized(p)).take(i),
        ) matches Ok(ws) && ws.len() <= vs.len() && vs.take(ws.len() as int) == ws),
        descendants(lib, p, f) matches Ok(Some(MetaVal::Sequence(vs))) ==> (children(
            lib,
            normalized(p),
        ).len() > 0 ==> (origin(lib, children(lib, normalized(p))[0], f) matches Ok(Some(v)) ==> (vs.len()
            > 0 && vs[0] == v))),
{
    let q = normalized(p);
    let cs = children(lib, q);
    if node_is_dir(lib.nodes, q) {
        if forall|k: int| 0 <= k < cs.len() ==> #[trigger] origin(lib, cs[k], f) matches Ok(Some(_)) {
            lemma_gather_all_have(lib, q, f, cs, cs.len() as int);
            assert(cs.take(cs.len() as int) =~= cs);
        }
        if gather(lib, q, f, cs) is Ok {
            assert(cs.take(cs.len() as int) =~= cs);
            lemma_gather_prefix(lib, q, f, cs, i);
            if cs.len() > 0 {
                lemma_gather_prefix(lib, q, f, cs, 1);
                lemma_gather_step(lib, q, f, cs, 0);
                assert(cs.take(0) =~= Seq::<Seq<char>>::empty());
                let vs = gather(lib, q, f, cs)->Ok_0;
                let ws = gather(lib, q, f, cs.take(1))->Ok_0;
                if origin(lib, cs[0], f) is Ok && origin(lib, cs[0], f)->Ok_0 is Some {
                    assert(ws.len() == 1);
                    assert(vs[0] == vs.take(1)[0]);
                }
            }
        }
    }
}

/// The records of a metadata file are searched from first to last: the first
/// record for the item (by components) whose block has the field gives the
/// value, whatever later records say; and a value found is the field's value
/// in some record for the item.
pub proof fn law_find_field_first(recs: Seq<ItemRecordV>, q: Seq<char>, f: Seq<char>, k: int)
    ensures
        (0 <= k < recs.len() && components(recs[k].0) == components(q) && lookup(recs[k].1, f) is Some
            && forall|j: int|
            0 <= j < k ==> !(components(#[trigger] recs[j].0) == components(q) && lookup(recs[j].1, f) is Some))
            ==> find_field(recs, q, f) == lookup(recs[k].1, f),
        find_field(recs, q, f) is Some ==> exists|j: int|
            0 <= j < recs.len() && components(#[trigger] recs[j].0) == components(q) && lookup(recs[j].1, f)
                == find_field(recs, q, f),
    decreases recs.len(),
{
    if recs.len() > 0 {
        let t = recs.drop_first();
        law_find_field_first(t, q, f, k - 1);
        if 0 < k < recs.len() && forall|j: int|
            0 <= j < k ==> !(components(#[trigger] recs[j].0) == components(q) && lookup(recs[j].1, f) is Some) {
            assert(!(components(recs[0].0) == components(q) && lookup(recs[0].1, f) is Some));
            assert(t[k - 1] == recs[k]);
            assert forall|j: int| 0 <= j < k - 1 implies !(components(#[trigger] t[j].0) == components(q)
                && lookup(t[j].1, f) is Some) by {
                assert(t[j] == recs[j + 1]);
            }
        }
        if find_field(recs, q, f) is Some && !(components(recs[0].0) == components(q) && lookup(recs[0].1, f) is Some) {
            let j = choose|j: int|
                0 <= j < t.len() && components(#[trigger] t[j].0) == components(q) && lookup(t[j].1, f)
                    == find_field(t, q, f);
            assert(recs[j + 1] == t[j]);
        }
    }
}

/// The search through the metadata files, from the `k`-th on, once the files
/// before it were read and had no value.
proof fn lemma_origin_search_at(lib: LibV, q: Seq<char>, f: Seq<char>, ms: Seq<Seq<char>>, k: int)
    requires
        0 <= k < ms.len(),
        forall|j: int|
            0 <= j < k ==> #[trigger] item_fps(lib, ms[j]) is Ok && find_field(
                item_fps(lib, ms[j])->Ok_0,
                q,
                f,
            ) is None,
        item_fps(lib, ms[k]) is Ok,
        find_field(item_fps(lib, ms[k])->Ok_0, q, f) is Some,
    ensures
        origin_search(lib, q, f, ms) == Ok::<Option<MetaVal>, Option<ErrorV>>(
            find_field(item_fps(lib, ms[k])->Ok_0, q, f),
        ),
    decreases k,
{
    if k > 0 {
        let t = ms.drop_first();
        assert(item_fps(lib, ms[0]) is Ok);
        assert forall|j: int| 0 <= j < k - 1 implies #[trigger] item_fps(lib, t[j]) is Ok && find_field(
            item_fps(lib, t[j])->Ok_0,
            q,
            f,
        ) is None by {
            assert(t[j] == ms[j + 1]);
            assert(item_fps(lib, ms[j + 1]) is Ok);
        }
        assert(t[k - 1] == ms[k]);
        lemma_origin_search_at(lib, q, f, t, k - 1);
    }
}

/// An item's own metadata files are searched from first to last: when the
/// files before the `k`-th can be read and none has the field for the item, and
/// the `k`-th can be read and has it, the value is the one in the `k`-th file;
/// in particular the first file, when it has the field, gives the value.
pub proof fn law_origin_first_file(lib: LibV, p: Seq<char>, f: Seq<char>, k: int)
    requires
        meta_fps(lib, normalized(p)) is Ok,
        0 <= k < meta_fps(lib, normalized(p))->Ok_0.len(),
        forall|j: int|
            0 <= j < k ==> #[trigger] item_fps(lib, meta_fps(lib, normalized(p))->Ok_0[j]) is Ok && find_field(
                item_fps(lib, meta_fps(lib, normalized(p))->Ok_0[j])->Ok_0,
                normalized(p),
                f,
            ) is None,
        item_fps(lib, meta_fps(lib, normalized(p))->Ok_0[k]) is Ok,
        find_field(item_fps(lib, meta_fps(lib, normalized(p))->Ok_0[k])->Ok_0, normalized(p), f) is Some,
    ensures
        origin(lib, p, f) == Ok::<Option<MetaVal>, Option<ErrorV>>(
            find_field(item_fps(lib, meta_fps(lib, normalized(p))->Ok_0[k])->Ok_0, normalized(p), f),
        ),
{
    lemma_origin_search_at(lib, normalized(p), f, meta_fps(lib, normalized(p))->Ok_0, k);
}

// =================================================================================================
// Lookups
// =================================================================================================

/// Looks up a field of an item in the item's own metadata files, in the order
/// of the files; the first record for the item that has the field gives the value.
pub fn lookup_origin(media_library: &MediaLibrary, abs_item_path: &str, options: &LookupOptions) -> (r:
    Result<Option<MetaValue>, Error>)
    ensures
        lookup_agrees(r, origin(media_library@, abs_item_path@, options.field())),
{
    let q = normalize(abs_item_path);
    proof {
        lemma_normalized_idempotent(abs_item_path@);
    }
    let meta_file_paths = media_library.meta_fps_from_item_fp(q.as_str())?;
    let ghost lib = media_library@;
    let ghost f = options.field();
    let ghost metas = strings_view(meta_file_paths@);
    let mut i: usize = 0;
    assert(metas.skip(0) =~= metas);
    while i < meta_file_paths.len()
        invariant
            i <= meta_file_paths.len(),
            lib == media_library@,
            f == options.field(),
            metas == strings_view(meta_file_paths@),
            origin(lib, abs_item_path@, f) == origin_search(lib, q@, f, metas.skip(i as int)),
        decreases meta_file_paths.len() - i,
    {
        assert(metas.skip(i as int)[0] == meta_file_paths@[i as int]@);
        assert(metas.skip(i as int).drop_first() =~= metas.skip(i + 1));
        let records = media_library.item_fps_from_meta_fp(meta_file_paths[i].as_str())?;
        let ghost recs = crate::library::item_records_view(records@);
        let mut j: usize = 0;
        assert(recs.skip(0) =~= recs);
        while j < records.len()
            invariant
                j <= records.len(),
                recs == crate::library::item_records_view(records@),
                find_field(recs, q@, f) == find_field(recs.skip(j as int), q@, f),
                f == options.field(),
                i < meta_file_paths.len(),
                lib == media_library@,
                metas == strings_view(meta_file_paths@),
                metas.skip(i as int)[0] == meta_file_paths@[i as int]@,
                item_fps(lib, meta_file_paths@[i as int]@) == Ok::<Seq<ItemRecordV>, Option<ErrorV>>(recs),
                origin(lib, abs_item_path@, f) == origin_search(lib, q@, f, metas.skip(i as int)),
            decreases records.len() - j,
        {
            assert(recs.skip(j as int)[0] == (records@[j as int].0@, records@[j as int].1@));
            assert(recs.skip(j as int).drop_first() =~= recs.skip(j + 1));
            if same_path(q.as_str(), records[j].0.as_str()) {
                match records[j].1.get(options.field_name.as_str()) {
                    Some(val) => {
                        return Ok(Some(val.clone()));
                    },
                    None => {},
                }
            }
            j += 1;
        }
        assert(recs.skip(j as int) =~= Seq::<ItemRecordV>::empty());
        i += 1;
    }
    assert(metas.skip(i as int) =~= Seq::<Seq<char>>::empty());
    Ok(None)
}

/// Looks up a field of an item in the metadata of its ancestors, nearest first,
/// as far up as the library's root.
pub fn lookup_parents(media_library: &MediaLibrary, abs_item_path: &str, options: &LookupOptions) -> (r:
    Result<Option<MetaValue>, Error>)
    ensures
        lookup_agrees(r, parents(media_library@, abs_item_path@, options.field())),
{
    let mut curr_item_path = normalize(abs_item_path);
    let ghost lib = media_library@;
    let ghost f = options.field();
    proof {
        crate::path::lemma_normalized_components(abs_item_path@);
    }
    loop
        invariant
            lib == media_library@,
            f == options.field(),
            parents(lib, abs_item_path@, f) == parents_search(lib, components(curr_item_path@), f),
            crate::path::is_normal_stack(components(curr_item_path@)) || components(curr_item_path@)
                == seq![PathComp::Cur],
        decreases components(curr_item_path@).len(),
    {
        let ghost cs = components(curr_item_path@);
        let curr_item_parent = match parent(curr_item_path.as_str()) {
            Some(par) => par,
            None => {
                return Ok(None);
            },
        };
        proof {
            crate::path::lemma_parent_components(cs);
        }
        if !media_library.is_proper_sub_path(curr_item_parent.as_str()) {
            return Ok(None);
        }
        match lookup_origin(media_library, curr_item_parent.as_str(), options)? {
            Some(results) => {
                return Ok(Some(results));
            },
            None => {},
        }
        curr_item_path = curr_item_parent;
    }
}

/// Gathers a field from the descendants of a directory item: for each child, in
/// the library's order, its own value if it has one, else what is gathered from
/// its own descendants.  A non-directory has no descendants.
pub fn lookup_children(media_library: &MediaLibrary, abs_item_path: &str, options: &LookupOptions) -> (r:
    Result<Option<MetaValue>, Error>)
    ensures
        lookup_agrees(r, descendants(media_library@, abs_item_path@, options.field())),
    decreases max_path_len(media_library@.nodes) - normalized(abs_item_path@).len(),
{
    let curr_item_path = normalize(abs_item_path);
    let ghost lib = media_library@;
    let ghost f = options.field();
    let ghost q = curr_item_path@;
    if !media_library.fs().is_dir(curr_item_path.as_str()) {
        return Ok(None);
    }
    proof {
        lemma_normalized_idempotent(abs_item_path@);
    }
    let kids = media_library.children_paths(curr_item_path.as_str());
    let ghost cs = strings_view(kids@);
    let mut agg_results: Vec<MetaValue> = Vec::new();
    let mut i: usize = 0;
    assert(cs.take(0) =~= Seq::<Seq<char>>::empty());
    assert(vals_view(agg_results@) =~= Seq::<MetaVal>::empty());
    while i < kids.len()
        invariant
            i <= kids.len(),
            lib == media_library@,
            f == options.field(),
            q == normalized(abs_item_path@),
            normalized(q) == q,
            node_is_dir(lib.nodes, q),
            cs == strings_view(kids@),
            cs == children(lib, q),
            forall|k: int|
                0 <= k < kids@.len() ==> {
                    &&& crate::fs::node_exists(lib.nodes, #[trigger] kids@[k]@)
                    &&& normalized(kids@[k]@) == kids@[k]@
                    &&& parent_path(kids@[k]@) == Some(q)
                },
            gather(lib, q, f, cs.take(i as int)) == Ok::<Seq<MetaVal>, Option<ErrorV>>(
                vals_view(agg_results@),
            ),
        decreases kids.len() - i,
    {
        let ghost before = agg_results@;
        let ghost c = kids@[i as int]@;
        proof {
            lemma_gather_step(lib, q, f, cs, i as int);
            assert(cs[i as int] == c);
        }
        let child = &kids[i];
        let child_results = match lookup_origin(media_library, child.as_str(), options) {
            Ok(x) => x,
            Err(e) => {
                proof {
                    lemma_descend_err(lib, q, f, i + 1);
                }
                return Err(e);
            },
        };
        match child_results {
            Some(child_values) => {
                agg_results.push(child_values);
                assert(vals_view(agg_results@) =~= vals_view(before).push(child_values@));
            },
            None => {
                proof {
                    crate::path::lemma_parent_shorter(c);
                    crate::fs::lemma_node_exists_len(lib.nodes, c);
                }
                let sub_result = match lookup_children(media_library, child.as_str(), options) {
                    Ok(x) => x,
                    Err(e) => {
                        proof {
                            lemma_descend_err(lib, q, f, i + 1);
                        }
                        return Err(e);
                    },
                };
                match sub_result {
                    Some(sub_values) => {
                        agg_results.push(sub_values);
                        assert(vals_view(agg_results@) =~= vals_view(before).push(sub_values@));
                    },
                    None => {},
                }
            },
        }
        i += 1;
    }
    assert(cs.take(kids.len() as int) =~= cs);
    let r = MetaValue::Sequence(agg_results);
    assert(r@->Sequence_0 =~= vals_view(agg_results@));
    Ok(Some(r))
}

} // verus!
