//! The orders in which the items of a directory are taken.
use vstd::prelude::*;

use std::cmp::Ordering;

use crate::fs::{node_mtime, FsNode, FsSnapshot};
use crate::metadata::{key_lt, lemma_key_lt_facts, lemma_key_lt_trans, str_lt};
use crate::path::{file_name, file_name_of};

verus! {

/// How the items of a directory are ordered.
#[derive(Copy, Clone, Debug, PartialEq, Eq)]
pub enum SortOrder {
    /// By file name.
    Name,
    /// By modification time; unknown times come first.
    ModTime,
}

/// Unknown times first, then earlier before later.
pub open spec fn mtime_lt(a: Option<u128>, b: Option<u128>) -> bool {
    match (a, b) {
        (None, Some(_)) => true,
        (Some(x), Some(y)) => x < y,
        _ => false,
    }
}

/// Whether path `a` strictly precedes path `b` in the order.
pub open spec fn sorts_before(order: SortOrder, nodes: Seq<FsNode>, a: Seq<char>, b: Seq<char>) -> bool {
    match order {
        SortOrder::Name => key_lt(file_name_of(a), file_name_of(b)),
        SortOrder::ModTime => mtime_lt(node_mtime(nodes, a), node_mtime(nodes, b)),
    }
}

/// Whether the paths are in the order (ties in any order).
pub open spec fn is_sorted_by(order: SortOrder, nodes: Seq<FsNode>, ps: Seq<Seq<char>>) -> bool {
    forall|i: int, j: int| 0 <= i < j < ps.len() ==> !sorts_before(order, nodes, #[trigger] ps[j], #[trigger] ps[i])
}

pub proof fn lemma_sorts_before_trans(order: SortOrder, nodes: Seq<FsNode>, a: Seq<char>, b: Seq<char>, c: Seq<char>)
    requires
        sorts_before(order, nodes, a, b),
        sorts_before(order, nodes, b, c),
    ensures
        sorts_before(order, nodes, a, c),
{
    match order {
        SortOrder::Name => {
            lemma_key_lt_trans(file_name_of(a), file_name_of(b), file_name_of(c));
        },
        SortOrder::ModTime => {},
    }
}

pub proof fn lemma_sorts_before_asym(order: SortOrder, nodes: Seq<FsNode>, a: Seq<char>, b: Seq<char>)
    ensures
        sorts_before(order, nodes, a, b) ==> !sorts_before(order, nodes, b, a),
{
    match order {
        SortOrder::Name => {
            lemma_key_lt_facts(file_name_of(a), file_name_of(b));
        },
        SortOrder::ModTime => {},
    }
}

/// Where `x` goes in `s`: before the first path that it strictly precedes.
pub open spec fn insert_pos(order: SortOrder, nodes: Seq<FsNode>, s: Seq<Seq<char>>, x: Seq<char>) -> int
    decreases s.len(),
{
    if s.len() == 0 {
        0
    } else if sorts_before(order, nodes, x, s[0]) {
        0
    } else {
        1 + insert_pos(order, nodes, s.drop_first(), x)
    }
}

/// The paths sorted by inserting each in turn after the paths it does not
/// precede; paths that tie keep their relative order.
pub open spec fn sorted_paths(order: SortOrder, nodes: Seq<FsNode>, ps: Seq<Seq<char>>) -> Seq<Seq<char>>
    decreases ps.len(),
{
    if ps.len() == 0 {
        Seq::empty()
    } else {
        let s = sorted_paths(order, nodes, ps.drop_last());
        s.insert(insert_pos(order, nodes, s, ps.last()), ps.last())
    }
}

proof fn lemma_insert_pos(order: SortOrder, nodes: Seq<FsNode>, s: Seq<Seq<char>>, x: Seq<char>, p: int)
    requires
        0 <= p <= s.len(),
        forall|j: int| 0 <= j < p ==> !sorts_before(order, nodes, x, #[trigger] s[j]),
        p < s.len() ==> sorts_before(order, nodes, x, s[p]),
    ensures
        insert_pos(order, nodes, s, x) == p,
    decreases p,
{
    if p > 0 {
        assert(!sorts_before(order, nodes, x, s[0]));
        assert forall|j: int| 0 <= j < p - 1 implies !sorts_before(order, nodes, x, #[trigger] s.drop_first()[j]) by {
            assert(s.drop_first()[j] == s[j + 1]);
        }
        if p < s.len() {
            assert(s.drop_first()[p - 1] == s[p]);
        }
        lemma_insert_pos(order, nodes, s.drop_first(), x, p - 1);
    }
}

/// Where `x` goes: it precedes none of the paths before that place, and it
/// precedes the path at that place, if there is one.
proof fn lemma_insert_pos_facts(order: SortOrder, nodes: Seq<FsNode>, s: Seq<Seq<char>>, x: Seq<char>)
    ensures
        0 <= insert_pos(order, nodes, s, x) <= s.len(),
        forall|j: int|
            0 <= j < insert_pos(order, nodes, s, x) ==> !sorts_before(order, nodes, x, #[trigger] s[j]),
        insert_pos(order, nodes, s, x) < s.len() ==> sorts_before(
            order,
            nodes,
            x,
            s[insert_pos(order, nodes, s, x)],
        ),
    decreases s.len(),
{
    if s.len() > 0 && !sorts_before(order, nodes, x, s[0]) {
        let t = s.drop_first();
        lemma_insert_pos_facts(order, nodes, t, x);
        assert forall|j: int| 0 <= j < insert_pos(order, nodes, s, x) implies !sorts_before(
            order,
            nodes,
            x,
            #[trigger] s[j],
        ) by {
            if j > 0 {
                assert(s[j] == t[j - 1]);
            }
        }
        if insert_pos(order, nodes, s, x) < s.len() {
            assert(s[insert_pos(order, nodes, s, x)] == t[insert_pos(order, nodes, t, x)]);
        }
    }
}

/// Sorting paths gives the same paths, each as often, in the order: no path
/// comes after one that it precedes.
pub proof fn law_sorted_paths(order: SortOrder, nodes: Seq<FsNode>, ps: Seq<Seq<char>>)
    ensures
        is_sorted_by(order, nodes, sorted_paths(order, nodes, ps)),
        sorted_paths(order, nodes, ps).to_multiset() == ps.to_multiset(),
    decreases ps.len(),
{
    broadcast use vstd::seq_lib::to_multiset_build, vstd::seq_lib::to_multiset_insert;

    if ps.len() > 0 {
        let d = ps.drop_last();
        let x = ps.last();
        law_sorted_paths(order, nodes, d);
        let s = sorted_paths(order, nodes, d);
        let p = insert_pos(order, nodes, s, x);
        lemma_insert_pos_facts(order, nodes, s, x);
        let t = s.insert(p, x);
        assert(ps =~= d.push(x));
        assert(t.to_multiset() == s.to_multiset().insert(x));
        assert(d.push(x).to_multiset() == d.to_multiset().insert(x));
        assert forall|i: int, j: int| 0 <= i < j < t.len() implies !sorts_before(
            order,
            nodes,
            #[trigger] t[j],
            #[trigger] t[i],
        ) by {
            if j < p {
                assert(t[i] == s[i] && t[j] == s[j]);
            } else if j == p {
                assert(t[i] == s[i] && t[j] == x);
            } else if i < p {
                assert(t[i] == s[i] && t[j] == s[j - 1]);
            } else if i == p {
                assert(t[i] == x && t[j] == s[j - 1]);
                lemma_sorts_before_asym(order, nodes, x, s[p]);
                if j - 1 > p && sorts_before(order, nodes, s[j - 1], x) {
                    lemma_sorts_before_trans(order, nodes, s[j - 1], x, s[p]);
                }
            } else {
                assert(t[i] == s[i - 1] && t[j] == s[j - 1]);
            }
        }
    } else {
        assert(ps =~= Seq::<Seq<char>>::empty());
    }
}

pub open spec fn strings_view(v: Seq<String>) -> Seq<Seq<char>> {
    v.map_values(|s: String| s@)
}

impl SortOrder {
    /// The modification time of `abs_path`, where known.
    pub fn get_mtime(fs: &FsSnapshot, abs_path: &str) -> (r: Option<u128>)
        ensures
            r == node_mtime(fs@, abs_path@),
    {
        fs.mtime(abs_path)
    }

    /// Whether path `a` strictly precedes path `b` in this order.
    pub fn precedes(&self, fs: &FsSnapshot, a: &str, b: &str) -> (r: bool)
        ensures
            r == sorts_before(*self, fs@, a@, b@),
    {
        match self {
            SortOrder::Name => {
                let fa = file_name(a);
                let fb = file_name(b);
                match (fa, fb) {
                    (None, Some(_)) => true,
                    (Some(x), Some(y)) => str_lt(&x, &y),
                    _ => false,
                }
            },
            SortOrder::ModTime => {
                let ma = SortOrder::get_mtime(fs, a);
                let mb = SortOrder::get_mtime(fs, b);
                match (ma, mb) {
                    (None, Some(_)) => true,
                    (Some(x), Some(y)) => x < y,
                    _ => false,
                }
            },
        }
    }

    /// Compares two paths in this order.
    pub fn path_sort_cmp(&self, fs: &FsSnapshot, abs_item_path_a: &str, abs_item_path_b: &str) -> (r: Ordering)
        ensures
            r == (if sorts_before(*self, fs@, abs_item_path_a@, abs_item_path_b@) {
                Ordering::Less
            } else if sorts_before(*self, fs@, abs_item_path_b@, abs_item_path_a@) {
                Ordering::Greater
            } else {
                Ordering::Equal
            }),
    {
        if self.precedes(fs, abs_item_path_a, abs_item_path_b) {
            Ordering::Less
        } else if self.precedes(fs, abs_item_path_b, abs_item_path_a) {
            Ordering::Greater
        } else {
            Ordering::Equal
        }
    }

    /// The paths put in this order; paths that tie keep no particular order.
    pub fn sort_paths(&self, fs: &FsSnapshot, paths: Vec<String>) -> (r: Vec<String>)
        ensures
            strings_view(r@) == sorted_paths(*self, fs@, strings_view(paths@)),
            is_sorted_by(*self, fs@, strings_view(r@)),
            strings_view(r@).to_multiset() == strings_view(paths@).to_multiset(),
    {
        let mut out: Vec<String> = Vec::new();
        let mut i: usize = 0;
        let ghost input = strings_view(paths@);
        assert(strings_view(out@) =~= Seq::<Seq<char>>::empty());
        assert(input.take(0) =~= Seq::<Seq<char>>::empty());
        while i < paths.len()
            invariant
                i <= paths.len(),
                input == strings_view(paths@),
                is_sorted_by(*self, fs@, strings_view(out@)),
                strings_view(out@) == sorted_paths(*self, fs@, input.take(i as int)),
                strings_view(out@).to_multiset() == input.take(i as int).to_multiset(),
            decreases paths.len() - i,
        {
            let x = &paths[i];
            let ghost o = strings_view(out@);
            let mut p: usize = 0;
            while p < out.len() && !self.precedes(fs, x.as_str(), out[p].as_str())
                invariant
                    p <= out.len(),
                    o == strings_view(out@),
                    forall|j: int| 0 <= j < p ==> !sorts_before(*self, fs@, x@, #[trigger] o[j]),
                decreases out.len() - p,
            {
                p += 1;
            }
            let ghost xv = x@;
            proof {
                lemma_insert_pos(*self, fs@, o, xv, p as int);
                assert(input.take(i + 1).drop_last() =~= input.take(i as int));
                assert(input.take(i + 1).last() == xv);
            }
            out.insert(p, x.clone());
            let ghost n = strings_view(out@);
            assert(n =~= o.insert(p as int, xv));
            assert forall|a: int, b: int| 0 <= a < b < n.len() implies !sorts_before(
                *self,
                fs@,
                #[trigger] n[b],
                #[trigger] n[a],
            ) by {
                if a < p && b < p {
                    assert(n[a] == o[a] && n[b] == o[b]);
                } else if a < p && b == p {
                    assert(n[a] == o[a]);
                    assert(n[b] == xv);
                    assert(!sorts_before(*self, fs@, xv, o[a]));
                } else if a < p {
                    assert(n[a] == o[a] && n[b] == o[b - 1]);
                } else if a == p {
                    assert(n[a] == xv);
                    assert(n[b] == o[b - 1]);
                    assert(p < o.len());
                    assert(sorts_before(*self, fs@, xv, o[p as int]));
                    lemma_sorts_before_asym(*self, fs@, o[p as int], xv);
                    if sorts_before(*self, fs@, o[b - 1], xv) {
                        lemma_sorts_before_trans(*self, fs@, o[b - 1], xv, o[p as int]);
                        if b - 1 > p {
                            assert(!sorts_before(*self, fs@, o[b - 1], o[p as int]));
                        }
                    }
                } else {
                    assert(n[a] == o[a - 1] && n[b] == o[b - 1]);
                }
            }
            proof {
                vstd::seq_lib::to_multiset_insert(o, p as int, xv);
                vstd::seq_lib::to_multiset_build(input.take(i as int), xv);
                assert(input.take(i + 1) =~= input.take(i as int).push(xv));
            }
            i += 1;
        }
        assert(input.take(paths.len() as int) =~= input);
        out
    }
}

} // verus!
