//! A map keyed by paths, where two keys are the same path when they have the
//! same components (as two `PathBuf`s compare equal).
use vstd::prelude::*;

use crate::path::{components, same_path, PathComp};

verus! {

/// A map from paths to values; no two keys have the same components.
pub struct PathMap<V> {
    entries: Vec<(String, V)>,
}

/// No two keys of the pairs have the same components.
pub open spec fn keys_distinct<V>(s: Seq<(String, V)>) -> bool {
    forall|i: int, j: int|
        0 <= i < j < s.len() ==> components(#[trigger] s[i].0@) != components(#[trigger] s[j].0@)
}

/// The map that the pairs make, a later pair for the same path winning.
pub open spec fn map_of<V: View>(s: Seq<(String, V)>) -> Map<Seq<PathComp>, V::V>
    decreases s.len(),
{
    if s.len() == 0 {
        Map::empty()
    } else {
        map_of(s.drop_last()).insert(components(s.last().0@), s.last().1@)
    }
}

/// The map holds a path exactly when some pair has it.
pub proof fn lemma_map_of_dom<V: View>(s: Seq<(String, V)>, k: Seq<PathComp>)
    ensures
        map_of(s).dom().contains(k) <==> exists|i: int|
            0 <= i < s.len() && components(#[trigger] s[i].0@) == k,
    decreases s.len(),
{
    if s.len() > 0 {
        let d = s.drop_last();
        lemma_map_of_dom(d, k);
        if map_of(s).dom().contains(k) && components(s.last().0@) != k {
            let i = choose|i: int| 0 <= i < d.len() && components(#[trigger] d[i].0@) == k;
            assert(s[i] == d[i]);
        }
        if exists|i: int| 0 <= i < s.len() && components(#[trigger] s[i].0@) == k {
            let i = choose|i: int| 0 <= i < s.len() && components(#[trigger] s[i].0@) == k;
            if i < d.len() {
                assert(d[i] == s[i]);
            } else {
                assert(s[i] == s.last());
            }
        }
    }
}

/// With distinct keys, the value of a pair's path is the pair's value.
pub proof fn lemma_map_of_index<V: View>(s: Seq<(String, V)>, i: int)
    requires
        keys_distinct(s),
        0 <= i < s.len(),
    ensures
        map_of(s).dom().contains(components(s[i].0@)),
        map_of(s)[components(s[i].0@)] == s[i].1@,
    decreases s.len(),
{
    let d = s.drop_last();
    if i < s.len() - 1 {
        assert(d[i] == s[i]);
        lemma_map_of_index(d, i);
        assert(components(s[i].0@) != components(s[s.len() - 1].0@));
    }
}

/// With distinct keys, removing a pair removes its path from the map.
pub proof fn lemma_map_of_remove<V: View>(s: Seq<(String, V)>, i: int)
    requires
        keys_distinct(s),
        0 <= i < s.len(),
    ensures
        map_of(s.remove(i)) == map_of(s).remove(components(s[i].0@)),
        keys_distinct(s.remove(i)),
    decreases s.len(),
{
    let d = s.drop_last();
    let k = components(s[i].0@);
    assert(keys_distinct(d)) by {
        assert forall|a: int, b: int| 0 <= a < b < d.len() implies components(#[trigger] d[a].0@)
            != components(#[trigger] d[b].0@) by {
            assert(d[a] == s[a] && d[b] == s[b]);
        }
    }
    if i == s.len() - 1 {
        assert(s.remove(i) =~= d);
        lemma_map_of_dom(d, k);
        assert(!map_of(d).dom().contains(k)) by {
            if map_of(d).dom().contains(k) {
                let j = choose|j: int| 0 <= j < d.len() && components(#[trigger] d[j].0@) == k;
                assert(d[j] == s[j]);
            }
        }
        assert(map_of(s).remove(k) =~= map_of(d));
    } else {
        lemma_map_of_remove(d, i);
        assert(s.remove(i) =~= d.remove(i).push(s.last()));
        assert(s.remove(i).drop_last() =~= d.remove(i));
        assert(s[i] == d[i]);
        assert(components(s.last().0@) != k) by {
            assert(s.last() == s[s.len() - 1]);
        }
        assert(map_of(s.remove(i)) =~= map_of(s).remove(k));
        let r = s.remove(i);
        assert forall|a: int, b: int| 0 <= a < b < r.len() implies components(#[trigger] r[a].0@)
            != components(#[trigger] r[b].0@) by {
            let sa = if a < i { a } else { a + 1 };
            let sb = if b < i { b } else { b + 1 };
            assert(r[a] == s[sa] && r[b] == s[sb]);
        }
    }
}

/// Adding a pair whose path is new keeps the keys distinct.
proof fn lemma_push_distinct<V: View>(s: Seq<(String, V)>, e: (String, V))
    requires
        keys_distinct(s),
        !map_of(s).dom().contains(components(e.0@)),
    ensures
        keys_distinct(s.push(e)),
        map_of(s.push(e)) == map_of(s).insert(components(e.0@), e.1@),
{
    let t = s.push(e);
    lemma_map_of_dom(s, components(e.0@));
    assert forall|a: int, b: int| 0 <= a < b < t.len() implies components(#[trigger] t[a].0@)
        != components(#[trigger] t[b].0@) by {
        assert(t[a] == s[a]);
        if b < s.len() {
            assert(t[b] == s[b]);
        } else {
            assert(t[b] == e);
        }
    }
    assert(t.drop_last() =~= s);
}

impl<V: View> View for PathMap<V> {
    type V = Map<Seq<PathComp>, V::V>;

    closed spec fn view(&self) -> Map<Seq<PathComp>, V::V> {
        map_of(self.entries@)
    }
}

impl<V> PathMap<V> {
    #[verifier::type_invariant]
    closed spec fn wf(&self) -> bool {
        keys_distinct(self.entries@)
    }
}

impl<V: View> PathMap<V> {
    /// An empty map.
    pub fn new() -> (r: PathMap<V>)
        ensures
            r@ == Map::<Seq<PathComp>, V::V>::empty(),
    {
        PathMap { entries: Vec::new() }
    }

    /// The pairs of the map, one per path.
    pub fn entries(&self) -> (r: &Vec<(String, V)>)
        ensures
            map_of(r@) == self@,
            keys_distinct(r@),
    {
        proof {
            use_type_invariant(self);
        }
        &self.entries
    }

    /// Whether the map is empty.
    pub fn is_empty(&self) -> (r: bool)
        ensures
            r == (self@ == Map::<Seq<PathComp>, V::V>::empty()),
    {
        if self.entries.len() == 0 {
            true
        } else {
            let ghost s = self.entries@;
            assert(map_of(s).dom().contains(components(s.last().0@)));
            assert(!Map::<Seq<PathComp>, V::V>::empty().dom().contains(components(s.last().0@)));
            false
        }
    }

    /// Where the pair for path `k` stands.
    fn find(&self, k: &str) -> (r: Option<usize>)
        ensures
            r matches Some(i) ==> i < self.entries@.len() && components(self.entries@[i as int].0@)
                == components(k@),
            r is None ==> !self@.dom().contains(components(k@)),
    {
        let mut i: usize = 0;
        while i < self.entries.len()
            invariant
                i <= self.entries.len(),
                forall|j: int| 0 <= j < i ==> components(#[trigger] self.entries@[j].0@) != components(k@),
            decreases self.entries.len() - i,
        {
            if same_path(self.entries[i].0.as_str(), k) {
                return Some(i);
            }
            i += 1;
        }
        proof {
            lemma_map_of_dom(self.entries@, components(k@));
        }
        None
    }

    /// Whether the map has path `k`.
    pub fn contains_key(&self, k: &str) -> (r: bool)
        ensures
            r == self@.dom().contains(components(k@)),
    {
        proof {
            use_type_invariant(self);
        }
        match self.find(k) {
            Some(i) => {
                proof {
                    lemma_map_of_index(self.entries@, i as int);
                }
                true
            },
            None => false,
        }
    }

    /// The value of path `k`.
    pub fn get(&self, k: &str) -> (r: Option<&V>)
        ensures
            r matches Some(v) ==> self@.dom().contains(components(k@)) && self@[components(k@)]
                == v@,
            r is None ==> !self@.dom().contains(components(k@)),
    {
        proof {
            use_type_invariant(self);
        }
        match self.find(k) {
            Some(i) => {
                proof {
                    lemma_map_of_index(self.entries@, i as int);
                }
                Some(&self.entries[i].1)
            },
            None => None,
        }
    }

    /// Removes path `k`, giving back its value.
    pub fn remove(&mut self, k: &str) -> (r: Option<V>)
        ensures
            final(self)@ == old(self)@.remove(components(k@)),
            r matches Some(v) ==> old(self)@.dom().contains(components(k@)) && old(self)@[components(
                k@,
            )] == v@,
            r is None ==> !old(self)@.dom().contains(components(k@)),
    {
        proof {
            use_type_invariant(&*self);
        }
        match self.find(k) {
            Some(i) => {
                let mut es: Vec<(String, V)> = Vec::new();
                std::mem::swap(&mut es, &mut self.entries);
                let ghost s = es@;
                proof {
                    lemma_map_of_index(s, i as int);
                    lemma_map_of_remove(s, i as int);
                }
                let (_, v) = es.remove(i);
                self.entries = es;
                Some(v)
            },
            None => {
                assert(old(self)@.remove(components(k@)) =~= old(self)@);
                None
            },
        }
    }

    /// Sets the value of path `k`, giving back the value it replaces.
    pub fn insert(&mut self, k: String, v: V) -> (r: Option<V>)
        ensures
            final(self)@ == old(self)@.insert(components(k@), v@),
            r matches Some(o) ==> old(self)@.dom().contains(components(k@)) && old(self)@[components(
                k@,
            )] == o@,
            r is None ==> !old(self)@.dom().contains(components(k@)),
    {
        let ghost kc = components(k@);
        let old_value = self.remove(k.as_str());
        proof {
            use_type_invariant(&*self);
        }
        let mut es: Vec<(String, V)> = Vec::new();
        std::mem::swap(&mut es, &mut self.entries);
        let ghost vv = v@;
        proof {
            assert(!map_of(es@).dom().contains(kc));
            lemma_push_distinct(es@, (k, v));
        }
        es.push((k, v));
        self.entries = es;
        assert(old(self)@.remove(kc).insert(kc, vv) =~= old(self)@.insert(kc, vv));
        old_value
    }

    /// Removes every path.
    pub fn clear(&mut self)
        ensures
            final(self)@ == Map::<Seq<PathComp>, V::V>::empty(),
    {
        self.entries = Vec::new();
    }
}

} // verus!
