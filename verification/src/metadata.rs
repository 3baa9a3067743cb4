//! Metadata values and blocks, independent of the text they were read from.
//!
//! Mappings are kept as lists sorted by key with no key twice, so that they are
//! walked in key order, as an ordered map would be.
use vstd::prelude::*;

verus! {

// =================================================================================================
// Ordering of keys
// =================================================================================================

/// Lexicographic order of character sequences (the order of `str`).
pub open spec fn chars_lt(a: Seq<char>, b: Seq<char>) -> bool
    decreases a.len(),
{
    if a.len() == 0 {
        b.len() > 0
    } else if b.len() == 0 {
        false
    } else if a[0] != b[0] {
        a[0] < b[0]
    } else {
        chars_lt(a.drop_first(), b.drop_first())
    }
}

/// The order of mapping keys: the null key first, then strings in their order.
pub open spec fn key_lt(a: Option<Seq<char>>, b: Option<Seq<char>>) -> bool {
    match (a, b) {
        (None, Some(_)) => true,
        (Some(x), Some(y)) => chars_lt(x, y),
        _ => false,
    }
}

pub proof fn lemma_chars_lt_asym(a: Seq<char>, b: Seq<char>)
    ensures
        chars_lt(a, b) ==> !chars_lt(b, a) && a != b,
    decreases a.len(),
{
    if a.len() > 0 && b.len() > 0 && a[0] == b[0] {
        lemma_chars_lt_asym(a.drop_first(), b.drop_first());
        if a == b {
            assert(a.drop_first() == b.drop_first());
        }
    }
}

pub proof fn lemma_chars_lt_total(a: Seq<char>, b: Seq<char>)
    ensures
        a != b ==> chars_lt(a, b) || chars_lt(b, a),
    decreases a.len(),
{
    if a.len() > 0 && b.len() > 0 && a[0] == b[0] {
        lemma_chars_lt_total(a.drop_first(), b.drop_first());
        if a.drop_first() == b.drop_first() {
            assert(a =~= seq![a[0]] + a.drop_first());
            assert(b =~= seq![b[0]] + b.drop_first());
        }
    } else if a.len() == 0 && b.len() == 0 {
        assert(a =~= b);
    } else if a.len() > 0 && b.len() > 0 {
    }
}

pub proof fn lemma_chars_lt_trans(a: Seq<char>, b: Seq<char>, c: Seq<char>)
    requires
        chars_lt(a, b),
        chars_lt(b, c),
    ensures
        chars_lt(a, c),
    decreases a.len(),
{
    if a.len() > 0 && b.len() > 0 && c.len() > 0 && a[0] == b[0] && b[0] == c[0] {
        lemma_chars_lt_trans(a.drop_first(), b.drop_first(), c.drop_first());
    }
}

pub proof fn lemma_key_lt_facts(a: Option<Seq<char>>, b: Option<Seq<char>>)
    ensures
        key_lt(a, b) ==> !key_lt(b, a) && a != b,
        a != b ==> key_lt(a, b) || key_lt(b, a),
{
    match (a, b) {
        (Some(x), Some(y)) => {
            lemma_chars_lt_asym(x, y);
            lemma_chars_lt_total(x, y);
        },
        _ => {},
    }
}

pub proof fn lemma_key_lt_trans(a: Option<Seq<char>>, b: Option<Seq<char>>, c: Option<Seq<char>>)
    requires
        key_lt(a, b),
        key_lt(b, c),
    ensures
        key_lt(a, c),
{
    match (a, b, c) {
        (Some(x), Some(y), Some(z)) => {
            lemma_chars_lt_trans(x, y, z);
        },
        _ => {},
    }
}

/// Whether `a` sorts before `b`.
pub fn str_lt(a: &String, b: &String) -> (r: bool)
    ensures
        r == chars_lt(a@, b@),
{
    let x = crate::text::chars_of(a.as_str());
    let y = crate::text::chars_of(b.as_str());
    let mut i: usize = 0;
    assert(a@.skip(0) =~= a@);
    assert(b@.skip(0) =~= b@);
    while i < x.len() && i < y.len()
        invariant
            i <= x.len(),
            i <= y.len(),
            x@ == a@,
            y@ == b@,
            x@.take(i as int) == y@.take(i as int),
            chars_lt(a@, b@) == chars_lt(a@.skip(i as int), b@.skip(i as int)),
        decreases x.len() - i,
    {
        let ghost xs = a@.skip(i as int);
        let ghost ys = b@.skip(i as int);
        assert(xs[0] == x@[i as int]);
        assert(ys[0] == y@[i as int]);
        if x[i] != y[i] {
            return x[i] < y[i];
        }
        assert(xs.drop_first() =~= a@.skip(i + 1));
        assert(ys.drop_first() =~= b@.skip(i + 1));
        assert(x@.take(i + 1) =~= x@.take(i as int).push(x@[i as int]));
        assert(y@.take(i + 1) =~= y@.take(i as int).push(y@[i as int]));
        i += 1;
    }
    let ghost xs = a@.skip(i as int);
    let ghost ys = b@.skip(i as int);
    assert(xs.len() == 0 || ys.len() == 0);
    i == x.len() && i < y.len()
}

// =================================================================================================
// Values
// =================================================================================================

/// A key of a metadata mapping: null or a string.
#[derive(PartialEq, Eq, PartialOrd, Ord, Hash, Debug, Clone)]
pub enum MetaKey {
    Nil,
    Str(String),
}

/// A metadata value: null, a string, a sequence of values, or a mapping.
#[derive(PartialEq, Eq, Debug, Hash)]
pub enum MetaValue {
    Nil,
    Str(String),
    Sequence(Vec<MetaValue>),
    Mapping(MetaMap),
}

/// A mapping of keys to values, kept sorted by key with no key twice.
#[derive(PartialEq, Eq, Debug, Hash)]
pub struct MetaMap {
    entries: Vec<(MetaKey, MetaValue)>,
}

/// A metadata value as a mathematical value.
pub enum MetaVal {
    Nil,
    Str(Seq<char>),
    Sequence(Seq<MetaVal>),
    Mapping(Seq<(Option<Seq<char>>, MetaVal)>),
}

pub open spec fn key_view(k: MetaKey) -> Option<Seq<char>> {
    match k {
        MetaKey::Nil => None,
        MetaKey::Str(s) => Some(s@),
    }
}

/// A value as a mathematical value.
pub closed spec fn meta_val(v: MetaValue) -> MetaVal
    decreases v,
{
    match v {
        MetaValue::Nil => MetaVal::Nil,
        MetaValue::Str(s) => MetaVal::Str(s@),
        MetaValue::Sequence(xs) => MetaVal::Sequence(
            Seq::new(
                xs@.len(),
                |i: int|
                    if 0 <= i < xs@.len() {
                        meta_val(xs@[i])
                    } else {
                        MetaVal::Nil
                    },
            ),
        ),
        MetaValue::Mapping(m) => MetaVal::Mapping(
            Seq::new(
                m.entries@.len(),
                |i: int|
                    if 0 <= i < m.entries@.len() {
                        (key_view(m.entries@[i].0), meta_val(m.entries@[i].1))
                    } else {
                        (None, MetaVal::Nil)
                    },
            ),
        ),
    }
}

impl View for MetaValue {
    type V = MetaVal;

    open spec fn view(&self) -> MetaVal {
        meta_val(*self)
    }
}

impl View for MetaMap {
    type V = Seq<(Option<Seq<char>>, MetaVal)>;

    closed spec fn view(&self) -> Seq<(Option<Seq<char>>, MetaVal)> {
        Seq::new(self.entries@.len(), |i: int| (key_view(self.entries@[i].0), self.entries@[i].1@))
    }
}

impl MetaMap {
    /// Its keys strictly increase, so no key occurs twice.
    #[verifier::type_invariant]
    pub open spec fn keys_sorted(&self) -> bool {
        sorted_by(self@, key_order())
    }

    /// The pairs of the mapping, in ascending key order.
    pub fn entries(&self) -> (r: &Vec<(MetaKey, MetaValue)>)
        ensures
            key_pairs_view(r@) == self@,
            sorted_by(self@, key_order()),
    {
        proof {
            use_type_invariant(self);
        }
        assert(key_pairs_view(self.entries@) =~= self@);
        &self.entries
    }
}

/// The view of a value, one level down: a sequence is the sequence of the
/// views of its elements, a mapping the view of the mapping.
pub broadcast proof fn lemma_meta_val_unfold(v: MetaValue)
    ensures
        #[trigger] meta_val(v) == match v {
            MetaValue::Nil => MetaVal::Nil,
            MetaValue::Str(s) => MetaVal::Str(s@),
            MetaValue::Sequence(xs) => MetaVal::Sequence(xs@.map_values(|x: MetaValue| x@)),
            MetaValue::Mapping(m) => MetaVal::Mapping(m@),
        },
{
    match v {
        MetaValue::Sequence(xs) => {
            assert(meta_val(v)->Sequence_0 =~= xs@.map_values(|x: MetaValue| x@));
        },
        MetaValue::Mapping(m) => {
            assert(meta_val(v)->Mapping_0 =~= m@);
        },
        _ => {},
    }
}

pub proof fn lemma_mapping_view(m: MetaMap)
    ensures
        MetaValue::Mapping(m)@ == MetaVal::Mapping(m@),
{
    assert(MetaValue::Mapping(m)@->Mapping_0 =~= m@);
}

/// Whether `lt` is a strict total order.
pub open spec fn is_strict_total<K>(lt: spec_fn(K, K) -> bool) -> bool {
    &&& forall|a: K, b: K| #[trigger] lt(a, b) ==> !lt(b, a) && a != b
    &&& forall|a: K, b: K| a != b ==> #[trigger] lt(a, b) || lt(b, a)
    &&& forall|a: K, b: K, c: K| #[trigger] lt(a, b) && #[trigger] lt(b, c) ==> lt(a, c)
}

/// Whether the keys of a list of pairs strictly increase under `lt`.
pub open spec fn sorted_by<K, V>(s: Seq<(K, V)>, lt: spec_fn(K, K) -> bool) -> bool {
    forall|i: int, j: int| 0 <= i < j < s.len() ==> lt(#[trigger] s[i].0, #[trigger] s[j].0)
}

/// `s` with `(k, v)` put at its place: a pair with key `k` is replaced, else the
/// pair goes before the first greater key.
pub open spec fn sorted_insert<K, V>(s: Seq<(K, V)>, k: K, v: V, lt: spec_fn(K, K) -> bool) -> Seq<
    (K, V),
>
    decreases s.len(),
{
    if s.len() == 0 {
        seq![(k, v)]
    } else if lt(k, s[0].0) {
        seq![(k, v)] + s
    } else if k == s[0].0 {
        seq![(k, v)] + s.drop_first()
    } else {
        seq![s[0]] + sorted_insert(s.drop_first(), k, v, lt)
    }
}

/// The value of the first pair with key `k`.
pub open spec fn lookup<K, V>(s: Seq<(K, V)>, k: K) -> Option<V>
    decreases s.len(),
{
    if s.len() == 0 {
        None
    } else if s[0].0 == k {
        Some(s[0].1)
    } else {
        lookup(s.drop_first(), k)
    }
}

pub open spec fn key_order() -> spec_fn(Option<Seq<char>>, Option<Seq<char>>) -> bool {
    |a: Option<Seq<char>>, b: Option<Seq<char>>| key_lt(a, b)
}

pub open spec fn str_order() -> spec_fn(Seq<char>, Seq<char>) -> bool {
    |a: Seq<char>, b: Seq<char>| chars_lt(a, b)
}

pub proof fn lemma_key_order_total()
    ensures
        is_strict_total(key_order()),
{
    assert forall|a: Option<Seq<char>>, b: Option<Seq<char>>| #[trigger] key_order()(a, b) implies !key_order()(
        b,
        a,
    ) && a != b by {
        lemma_key_lt_facts(a, b);
    }
    assert forall|a: Option<Seq<char>>, b: Option<Seq<char>>| a != b implies #[trigger] key_order()(
        a,
        b,
    ) || key_order()(b, a) by {
        lemma_key_lt_facts(a, b);
    }
    assert forall|a: Option<Seq<char>>, b: Option<Seq<char>>, c: Option<Seq<char>>| #[trigger] key_order()(
        a,
        b,
    ) && #[trigger] key_order()(b, c) implies key_order()(a, c) by {
        lemma_key_lt_trans(a, b, c);
    }
}

pub proof fn lemma_str_order_total()
    ensures
        is_strict_total(str_order()),
{
    assert forall|a: Seq<char>, b: Seq<char>| #[trigger] str_order()(a, b) implies !str_order()(b, a)
        && a != b by {
        lemma_chars_lt_asym(a, b);
    }
    assert forall|a: Seq<char>, b: Seq<char>| a != b implies #[trigger] str_order()(a, b) || str_order()(
        b,
        a,
    ) by {
        lemma_chars_lt_total(a, b);
    }
    assert forall|a: Seq<char>, b: Seq<char>, c: Seq<char>| #[trigger] str_order()(a, b) && #[trigger] str_order()(
        b,
        c,
    ) implies str_order()(a, c) by {
        lemma_chars_lt_trans(a, b, c);
    }
}

/// Every key after an insert is the inserted key or an old key.
proof fn lemma_insert_keys<K, V>(s: Seq<(K, V)>, k: K, v: V, lt: spec_fn(K, K) -> bool, i: int)
    requires
        0 <= i < sorted_insert(s, k, v, lt).len(),
    ensures
        sorted_insert(s, k, v, lt)[i].0 == k || exists|m: int|
            0 <= m < s.len() && s[m].0 == sorted_insert(s, k, v, lt)[i].0,
    decreases s.len(),
{
    let r = sorted_insert(s, k, v, lt);
    if s.len() > 0 {
        if lt(k, s[0].0) {
            if i > 0 {
                assert(r[i] == s[i - 1]);
            }
        } else if k == s[0].0 {
            if i > 0 {
                assert(r[i] == s[i]);
            }
        } else {
            if i > 0 {
                let d = s.drop_first();
                lemma_insert_keys(d, k, v, lt, i - 1);
                let rd = sorted_insert(d, k, v, lt);
                assert(r[i] == rd[i - 1]);
                if rd[i - 1].0 != k {
                    let m = choose|m: int| 0 <= m < d.len() && d[m].0 == rd[i - 1].0;
                    assert(s[m + 1] == d[m]);
                }
            }
        }
    }
}

/// Inserting into a sorted list keeps it sorted, and a lookup after the insert
/// reads the inserted value for its key and the old value for every other key.
pub proof fn law_sorted_insert<K, V>(s: Seq<(K, V)>, k: K, v: V, lt: spec_fn(K, K) -> bool)
    requires
        is_strict_total(lt),
        sorted_by(s, lt),
    ensures
        sorted_by(sorted_insert(s, k, v, lt), lt),
        lookup(sorted_insert(s, k, v, lt), k) == Some(v),
        forall|j: K| j != k ==> #[trigger] lookup(sorted_insert(s, k, v, lt), j) == lookup(s, j),
    decreases s.len(),
{
    let r = sorted_insert(s, k, v, lt);
    if s.len() == 0 {
        assert(r =~= seq![(k, v)]);
        assert forall|j: K| j != k implies #[trigger] lookup(r, j) == lookup(s, j) by {
            assert(r.drop_first() =~= Seq::<(K, V)>::empty());
            assert(lookup(r.drop_first(), j) == None::<V>);
        }
    } else {
        let d = s.drop_first();
        assert(sorted_by(d, lt)) by {
            assert forall|i: int, j: int| 0 <= i < j < d.len() implies lt(
                #[trigger] d[i].0,
                #[trigger] d[j].0,
            ) by {
                assert(d[i] == s[i + 1]);
                assert(d[j] == s[j + 1]);
            }
        }
        if lt(k, s[0].0) {
            assert forall|i: int, j: int| 0 <= i < j < r.len() implies lt(
                #[trigger] r[i].0,
                #[trigger] r[j].0,
            ) by {
                if i == 0 {
                    if j > 1 {
                        assert(lt(s[0].0, s[j - 1].0));
                    }
                } else {
                    assert(r[i] == s[i - 1]);
                    assert(r[j] == s[j - 1]);
                }
            }
            assert forall|j: K| j != k implies #[trigger] lookup(r, j) == lookup(s, j) by {
                assert(r.drop_first() =~= s);
            }
        } else if k == s[0].0 {
            assert forall|i: int, j: int| 0 <= i < j < r.len() implies lt(
                #[trigger] r[i].0,
                #[trigger] r[j].0,
            ) by {
                if i == 0 {
                    assert(r[j] == s[j]);
                } else {
                    assert(r[i] == s[i]);
                    assert(r[j] == s[j]);
                }
            }
            assert forall|j: K| j != k implies #[trigger] lookup(r, j) == lookup(s, j) by {
                assert(r.drop_first() =~= d);
            }
        } else {
            law_sorted_insert(d, k, v, lt);
            let rd = sorted_insert(d, k, v, lt);
            assert(r == seq![s[0]] + rd);
            assert(lt(s[0].0, k));
            // Every key of the rest is greater than the first key.
            assert forall|i: int| 0 <= i < rd.len() implies lt(s[0].0, #[trigger] rd[i].0) by {
                lemma_insert_keys(d, k, v, lt, i);
                if rd[i].0 != k {
                    let m = choose|m: int| 0 <= m < d.len() && d[m].0 == rd[i].0;
                    assert(s[m + 1] == d[m]);
                }
            }
            assert forall|i: int, j: int| 0 <= i < j < r.len() implies lt(
                #[trigger] r[i].0,
                #[trigger] r[j].0,
            ) by {
                if i == 0 {
                    assert(r[j] == rd[j - 1]);
                } else {
                    assert(r[i] == rd[i - 1]);
                    assert(r[j] == rd[j - 1]);
                }
            }
            assert(r.drop_first() =~= rd);
            assert forall|j: K| j != k implies #[trigger] lookup(r, j) == lookup(s, j) by {
                assert(lookup(rd, j) == lookup(d, j));
            }
        }
    }
}

/// When every key before `i` is below `k`, the insert leaves that prefix alone.
proof fn lemma_sorted_insert_skip<K, V>(s: Seq<(K, V)>, k: K, v: V, lt: spec_fn(K, K) -> bool, i: int)
    requires
        is_strict_total(lt),
        0 <= i <= s.len(),
        forall|j: int| 0 <= j < i ==> lt(#[trigger] s[j].0, k),
    ensures
        sorted_insert(s, k, v, lt) == s.take(i) + sorted_insert(s.skip(i), k, v, lt),
    decreases i,
{
    if i == 0 {
        assert(s.skip(0) =~= s);
        assert(s.take(0) + sorted_insert(s, k, v, lt) =~= sorted_insert(s, k, v, lt));
    } else {
        let d = s.drop_first();
        assert(lt(s[0].0, k));
        assert(!lt(k, s[0].0) && s[0].0 != k);
        assert forall|j: int| 0 <= j < i - 1 implies lt(#[trigger] d[j].0, k) by {
            assert(d[j] == s[j + 1]);
        }
        lemma_sorted_insert_skip(d, k, v, lt, i - 1);
        assert(d.skip(i - 1) =~= s.skip(i));
        assert(s.take(i) =~= seq![s[0]] + d.take(i - 1));
        assert(sorted_insert(s, k, v, lt) =~= s.take(i) + sorted_insert(s.skip(i), k, v, lt));
    }
}


// =================================================================================================
// Sorted lists of pairs
// =================================================================================================

pub open spec fn str_pairs_view<V: View>(s: Seq<(String, V)>) -> Seq<(Seq<char>, V::V)> {
    s.map_values(|p: (String, V)| (p.0@, p.1@))
}

pub open spec fn key_pairs_view(s: Seq<(MetaKey, MetaValue)>) -> Seq<(Option<Seq<char>>, MetaVal)> {
    s.map_values(|p: (MetaKey, MetaValue)| (key_view(p.0), p.1@))
}

/// Puts `(k, v)` into a list sorted by string key.
pub fn insert_by_str_key<V: View>(entries: &mut Vec<(String, V)>, k: String, v: V)
    ensures
        str_pairs_view(final(entries)@) == sorted_insert(
            str_pairs_view(old(entries)@),
            k@,
            v@,
            str_order(),
        ),
{
    let ghost s = str_pairs_view(entries@);
    let mut i: usize = 0;
    while i < entries.len() && str_lt(&entries[i].0, &k)
        invariant
            i <= entries.len(),
            s == str_pairs_view(entries@),
            forall|j: int| 0 <= j < i ==> chars_lt(#[trigger] s[j].0, k@),
        decreases entries.len() - i,
    {
        i += 1;
    }
    proof {
        lemma_str_order_total();
        lemma_sorted_insert_skip(s, k@, v@, str_order(), i as int);
    }
    let ghost kv = k@;
    let ghost vv = v@;
    if i < entries.len() && entries[i].0 == k {
        assert(s[i as int].0 == kv);
        entries.remove(i);
        entries.insert(i, (k, v));
        assert(s.skip(i as int).drop_first() =~= s.skip(i + 1));
        assert(str_pairs_view(entries@) =~= s.take(i as int) + (seq![(kv, vv)] + s.skip(
            i as int,
        ).drop_first()));
    } else {
        if i < entries.len() {
            assert(!chars_lt(s[i as int].0, kv));
            assert(s[i as int].0 != kv);
            assert(chars_lt(kv, s[i as int].0)) by {
                lemma_chars_lt_total(kv, s[i as int].0);
            }
        } else {
            assert(s.skip(i as int) =~= Seq::<(Seq<char>, V::V)>::empty());
        }
        entries.insert(i, (k, v));
        assert(str_pairs_view(entries@) =~= s.take(i as int) + (seq![(kv, vv)] + s.skip(
            i as int,
        )));
    }
}

/// Whether two mapping keys are equal.
fn key_eq(a: &MetaKey, b: &MetaKey) -> (r: bool)
    ensures
        r == (key_view(*a) == key_view(*b)),
{
    match (a, b) {
        (MetaKey::Nil, MetaKey::Nil) => true,
        (MetaKey::Str(x), MetaKey::Str(y)) => crate::text::str_eq(x.as_str(), y.as_str()),
        _ => false,
    }
}

/// Whether mapping key `a` sorts before `b`.
fn key_less(a: &MetaKey, b: &MetaKey) -> (r: bool)
    ensures
        r == key_lt(key_view(*a), key_view(*b)),
{
    match (a, b) {
        (MetaKey::Nil, MetaKey::Str(_)) => true,
        (MetaKey::Str(x), MetaKey::Str(y)) => str_lt(x, y),
        _ => false,
    }
}

/// Puts `(k, v)` into a list sorted by mapping key.
fn insert_by_meta_key(entries: &mut Vec<(MetaKey, MetaValue)>, k: MetaKey, v: MetaValue)
    ensures
        key_pairs_view(final(entries)@) == sorted_insert(
            key_pairs_view(old(entries)@),
            key_view(k),
            v@,
            key_order(),
        ),
{
    let ghost s = key_pairs_view(entries@);
    let mut i: usize = 0;
    while i < entries.len() && key_less(&entries[i].0, &k)
        invariant
            i <= entries.len(),
            s == key_pairs_view(entries@),
            forall|j: int| 0 <= j < i ==> key_lt(#[trigger] s[j].0, key_view(k)),
        decreases entries.len() - i,
    {
        i += 1;
    }
    proof {
        lemma_key_order_total();
        lemma_sorted_insert_skip(s, key_view(k), v@, key_order(), i as int);
    }
    let ghost kv = key_view(k);
    let ghost vv = v@;
    if i < entries.len() && key_eq(&entries[i].0, &k) {
        entries.remove(i);
        entries.insert(i, (k, v));
        assert(s.skip(i as int).drop_first() =~= s.skip(i + 1));
        assert(key_pairs_view(entries@) =~= s.take(i as int) + (seq![(kv, vv)] + s.skip(
            i as int,
        ).drop_first()));
    } else {
        if i < entries.len() {
            proof {
                lemma_key_lt_facts(kv, s[i as int].0);
            }
        } else {
            assert(s.skip(i as int) =~= Seq::<(Option<Seq<char>>, MetaVal)>::empty());
        }
        entries.insert(i, (k, v));
        assert(key_pairs_view(entries@) =~= s.take(i as int) + (seq![(kv, vv)] + s.skip(
            i as int,
        )));
    }
}

/// The value of the first pair whose key is `k`.
pub fn get_by_str_key<'a, V: View>(entries: &'a Vec<(String, V)>, k: &str) -> (r: Option<&'a V>)
    ensures
        r matches Some(x) ==> lookup(str_pairs_view(entries@), k@) == Some(x@),
        r is None ==> lookup(str_pairs_view(entries@), k@) is None,
{
    let key = String::from_str(k);
    let ghost s = str_pairs_view(entries@);
    let mut i: usize = 0;
    assert(s.skip(0) =~= s);
    while i < entries.len()
        invariant
            i <= entries.len(),
            s == str_pairs_view(entries@),
            key@ == k@,
            lookup(s, k@) == lookup(s.skip(i as int), k@),
        decreases entries.len() - i,
    {
        assert(s.skip(i as int)[0] == s[i as int]);
        assert(s.skip(i as int).drop_first() =~= s.skip(i + 1));
        if entries[i].0 == key {
            return Some(&entries[i].1);
        }
        i += 1;
    }
    assert(s.skip(i as int) =~= Seq::<(Seq<char>, V::V)>::empty());
    None
}

// =================================================================================================
// Copies
// =================================================================================================

impl MetaKey {
    /// A copy of this key.
    pub fn copy(&self) -> (r: MetaKey)
        ensures
            key_view(r) == key_view(*self),
    {
        match self {
            MetaKey::Nil => MetaKey::Nil,
            MetaKey::Str(s) => MetaKey::Str(s.clone()),
        }
    }
}

impl MetaValue {
    /// A copy of this value.
    pub fn deep_copy(&self) -> (r: MetaValue)
        ensures
            r@ == self@,
        decreases self,
    {
        match self {
            MetaValue::Nil => MetaValue::Nil,
            MetaValue::Str(s) => MetaValue::Str(s.clone()),
            MetaValue::Sequence(xs) => {
                let mut out: Vec<MetaValue> = Vec::new();
                let mut i: usize = 0;
                while i < xs.len()
                    invariant
                        i <= xs.len(),
                        out@.len() == i,
                        *self == MetaValue::Sequence(*xs),
                        forall|j: int| 0 <= j < i ==> (#[trigger] out@[j])@ == xs@[j]@,
                    decreases xs.len() - i,
                {
                    proof {
                        assert(decreases_to!(*self => self->Sequence_0));
                        assert(decreases_to!(*xs => xs@));
                        assert(decreases_to!(xs@ => xs@[i as int]));
                    }
                    let c = xs[i].deep_copy();
                    out.push(c);
                    i += 1;
                }
                let r = MetaValue::Sequence(out);
                assert(r@->Sequence_0 =~= self@->Sequence_0);
                r
            },
            MetaValue::Mapping(m) => {
                let mut out: Vec<(MetaKey, MetaValue)> = Vec::new();
                let mut i: usize = 0;
                while i < m.entries.len()
                    invariant
                        i <= m.entries.len(),
                        out@.len() == i,
                        *self == MetaValue::Mapping(*m),
                        forall|j: int|
                            0 <= j < i ==> (#[trigger] out@[j]).1@ == m.entries@[j].1@ && key_view(
                                out@[j].0,
                            ) == key_view(m.entries@[j].0),
                    decreases m.entries.len() - i,
                {
                    proof {
                        assert(decreases_to!(*self => self->Mapping_0));
                        assert(decreases_to!(*m => m.entries));
                        assert(decreases_to!(m.entries => m.entries@));
                        assert(decreases_to!(m.entries@ => m.entries@[i as int]));
                        assert(decreases_to!(m.entries@[i as int] => m.entries@[i as int].1));
                    }
                    let c = m.entries[i].1.deep_copy();
                    let k = m.entries[i].0.copy();
                    out.push((k, c));
                    i += 1;
                }
                proof {
                    use_type_invariant(m);
                    assert(Seq::new(
                        out@.len(),
                        |j: int| (key_view(out@[j].0), out@[j].1@),
                    ) =~= m@);
                }
                let r = MetaValue::Mapping(MetaMap { entries: out });
                assert(r@->Mapping_0 =~= self@->Mapping_0);
                r
            },
        }
    }
}

impl Clone for MetaValue {
    fn clone(&self) -> (r: MetaValue)
        ensures
            r@ == self@,
    {
        self.deep_copy()
    }
}


// =================================================================================================
// Flattening
// =================================================================================================

/// How a mapping is walked when a value is flattened.
#[derive(PartialEq, Eq, Debug, Clone, Copy, Hash)]
pub enum MappingIterScheme {
    Keys,
    Vals,
    Both,
}

/// All strings in a value, depth first: for a mapping, each string key
/// followed by the strings of its value.
pub open spec fn flat_data(v: MetaVal) -> Seq<Seq<char>>
    decreases v,
{
    match v {
        MetaVal::Nil => Seq::empty(),
        MetaVal::Str(s) => seq![s],
        MetaVal::Sequence(xs) => flat_data_list(xs),
        MetaVal::Mapping(ps) => flat_data_pairs(ps),
    }
}

pub open spec fn flat_data_list(xs: Seq<MetaVal>) -> Seq<Seq<char>>
    decreases xs,
{
    if xs.len() == 0 {
        Seq::empty()
    } else {
        flat_data_list(xs.drop_last()) + flat_data(xs.last())
    }
}

pub open spec fn key_strs(k: Option<Seq<char>>) -> Seq<Seq<char>> {
    match k {
        Some(s) => seq![s],
        None => Seq::empty(),
    }
}

pub open spec fn flat_data_pairs(ps: Seq<(Option<Seq<char>>, MetaVal)>) -> Seq<Seq<char>>
    decreases ps,
{
    if ps.len() == 0 {
        Seq::empty()
    } else {
        flat_data_pairs(ps.drop_last()) + key_strs(ps.last().0) + flat_data(ps.last().1)
    }
}

/// The strings of a value under a mapping scheme: for a mapping, the string
/// keys, the strings of the values, or both in turn.
pub open spec fn flat_iter(v: MetaVal, mis: MappingIterScheme) -> Seq<Seq<char>>
    decreases v,
{
    match v {
        MetaVal::Nil => Seq::empty(),
        MetaVal::Str(s) => seq![s],
        MetaVal::Sequence(xs) => flat_iter_list(xs, mis),
        MetaVal::Mapping(ps) => flat_iter_pairs(ps, mis),
    }
}

pub open spec fn flat_iter_list(xs: Seq<MetaVal>, mis: MappingIterScheme) -> Seq<Seq<char>>
    decreases xs,
{
    if xs.len() == 0 {
        Seq::empty()
    } else {
        flat_iter_list(xs.drop_last(), mis) + flat_iter(xs.last(), mis)
    }
}

pub open spec fn flat_iter_pairs(ps: Seq<(Option<Seq<char>>, MetaVal)>, mis: MappingIterScheme) -> Seq<
    Seq<char>,
>
    decreases ps,
{
    if ps.len() == 0 {
        Seq::empty()
    } else {
        flat_iter_pairs(ps.drop_last(), mis) + (if mis is Vals {
            Seq::empty()
        } else {
            key_strs(ps.last().0)
        }) + (if mis is Keys {
            Seq::empty()
        } else {
            flat_iter(ps.last().1, mis)
        })
    }
}

pub open spec fn strs_view(v: Seq<&String>) -> Seq<Seq<char>> {
    v.map_values(|s: &String| s@)
}

proof fn lemma_strs_view_push(v: Seq<&String>, s: &String)
    ensures
        strs_view(v.push(s)) == strs_view(v).push(s@),
{
    assert(strs_view(v.push(s)) =~= strs_view(v).push(s@));
}

/// Appends the strings of `w` to `out`.
fn append_refs<'a>(out: &mut Vec<&'a String>, w: Vec<&'a String>)
    ensures
        strs_view(final(out)@) == strs_view(old(out)@) + strs_view(w@),
{
    let ghost start = strs_view(out@);
    let mut j: usize = 0;
    while j < w.len()
        invariant
            j <= w.len(),
            strs_view(out@) == start + strs_view(w@).take(j as int),
        decreases w.len() - j,
    {
        let ghost before = out@;
        out.push(w[j]);
        proof {
            lemma_strs_view_push(before, w@[j as int]);
        }
        assert(strs_view(w@).take(j + 1) =~= strs_view(w@).take(j as int).push(w@[j as int]@));
        j += 1;
    }
    assert(strs_view(w@).take(w.len() as int) =~= strs_view(w@));
}

impl MetaKey {
    /// The string of this key, if any.
    pub fn iter_over(&self) -> (r: Vec<&String>)
        ensures
            strs_view(r@) == key_strs(key_view(*self)),
    {
        let mut r: Vec<&String> = Vec::new();
        match self {
            MetaKey::Nil => {},
            MetaKey::Str(s) => {
                r.push(s);
            },
        }
        assert(strs_view(r@) =~= key_strs(key_view(*self)));
        r
    }
}

impl MetaValue {
    /// All strings in this value, depth first; for a mapping, each string key
    /// is followed by the strings of its value.
    pub fn collect_data<'a>(&'a self) -> (r: Vec<&'a String>)
        ensures
            strs_view(r@) == flat_data(self@),
        decreases self,
    {
        let mut out: Vec<&'a String> = Vec::new();
        match self {
            MetaValue::Nil => {},
            MetaValue::Str(s) => {
                out.push(s);
                assert(strs_view(out@) =~= seq![s@]);
            },
            MetaValue::Sequence(xs) => {
                let mut i: usize = 0;
                while i < xs.len()
                    invariant
                        i <= xs.len(),
                        *self == MetaValue::Sequence(*xs),
                        strs_view(out@) == flat_data_list(self@->Sequence_0.take(i as int)),
                    decreases xs.len() - i,
                {
                    proof {
                        assert(decreases_to!(*self => self->Sequence_0));
                        assert(decreases_to!(*xs => xs@));
                        assert(decreases_to!(xs@ => xs@[i as int]));
                    }
                    let w = xs[i].collect_data();
                    append_refs(&mut out, w);
                    let ghost t = self@->Sequence_0;
                    assert(t.take(i + 1).drop_last() =~= t.take(i as int));
                    assert(t.take(i + 1).last() == xs@[i as int]@);
                    i += 1;
                }
                assert(self@->Sequence_0.take(xs.len() as int) =~= self@->Sequence_0);
            },
            MetaValue::Mapping(m) => {
                let mut i: usize = 0;
                while i < m.entries.len()
                    invariant
                        i <= m.entries.len(),
                        *self == MetaValue::Mapping(*m),
                        strs_view(out@) == flat_data_pairs(self@->Mapping_0.take(i as int)),
                    decreases m.entries.len() - i,
                {
                    proof {
                        assert(decreases_to!(*self => self->Mapping_0));
                        assert(decreases_to!(*m => m.entries));
                        assert(decreases_to!(m.entries => m.entries@));
                        assert(decreases_to!(m.entries@ => m.entries@[i as int]));
                        assert(decreases_to!(m.entries@[i as int] => m.entries@[i as int].1));
                    }
                    let kw = m.entries[i].0.iter_over();
                    append_refs(&mut out, kw);
                    let w = m.entries[i].1.collect_data();
                    append_refs(&mut out, w);
                    let ghost t = self@->Mapping_0;
                    assert(t.take(i + 1).drop_last() =~= t.take(i as int));
                    assert(t.take(i + 1).last() == (key_view(m.entries@[i as int].0), m.entries@[i as int].1@));
                    i += 1;
                }
                assert(self@->Mapping_0.take(m.entries.len() as int) =~= self@->Mapping_0);
            },
        }
        out
    }

    /// The strings of this value under a mapping scheme.
    pub fn iter_over<'a>(&'a self, mis: MappingIterScheme) -> (r: Vec<&'a String>)
        ensures
            strs_view(r@) == flat_iter(self@, mis),
        decreases self,
    {
        let mut out: Vec<&'a String> = Vec::new();
        match self {
            MetaValue::Nil => {},
            MetaValue::Str(s) => {
                out.push(s);
                assert(strs_view(out@) =~= seq![s@]);
            },
            MetaValue::Sequence(xs) => {
                let mut i: usize = 0;
                while i < xs.len()
                    invariant
                        i <= xs.len(),
                        *self == MetaValue::Sequence(*xs),
                        strs_view(out@) == flat_iter_list(self@->Sequence_0.take(i as int), mis),
                    decreases xs.len() - i,
                {
                    proof {
                        assert(decreases_to!(*self => self->Sequence_0));
                        assert(decreases_to!(*xs => xs@));
                        assert(decreases_to!(xs@ => xs@[i as int]));
                    }
                    let w = xs[i].iter_over(mis);
                    append_refs(&mut out, w);
                    let ghost t = self@->Sequence_0;
                    assert(t.take(i + 1).drop_last() =~= t.take(i as int));
                    assert(t.take(i + 1).last() == xs@[i as int]@);
                    i += 1;
                }
                assert(self@->Sequence_0.take(xs.len() as int) =~= self@->Sequence_0);
            },
            MetaValue::Mapping(m) => {
                let mut i: usize = 0;
                while i < m.entries.len()
                    invariant
                        i <= m.entries.len(),
                        *self == MetaValue::Mapping(*m),
                        strs_view(out@) == flat_iter_pairs(self@->Mapping_0.take(i as int), mis),
                    decreases m.entries.len() - i,
                {
                    proof {
                        assert(decreases_to!(*self => self->Mapping_0));
                        assert(decreases_to!(*m => m.entries));
                        assert(decreases_to!(m.entries => m.entries@));
                        assert(decreases_to!(m.entries@ => m.entries@[i as int]));
                        assert(decreases_to!(m.entries@[i as int] => m.entries@[i as int].1));
                    }
                    let ghost before = strs_view(out@);
                    match mis {
                        MappingIterScheme::Keys | MappingIterScheme::Both => {
                            let kw = m.entries[i].0.iter_over();
                            append_refs(&mut out, kw);
                        },
                        MappingIterScheme::Vals => {},
                    }
                    let ghost mid = strs_view(out@);
                    match mis {
                        MappingIterScheme::Vals | MappingIterScheme::Both => {
                            let w = m.entries[i].1.iter_over(mis);
                            append_refs(&mut out, w);
                        },
                        MappingIterScheme::Keys => {},
                    }
                    let ghost t = self@->Mapping_0;
                    assert(t.take(i + 1).drop_last() =~= t.take(i as int));
                    assert(t.take(i + 1).last() == (key_view(m.entries@[i as int].0), m.entries@[i as int].1@));
                    assert(strs_view(out@) =~= flat_iter_pairs(t.take(i + 1), mis));
                    i += 1;
                }
                assert(self@->Mapping_0.take(m.entries.len() as int) =~= self@->Mapping_0);
            },
        }
        out
    }
}

/// Flattening with both keys and values collects exactly the data of a value.
pub proof fn law_iter_over_both_is_collect_data(v: MetaVal)
    ensures
        flat_iter(v, MappingIterScheme::Both) == flat_data(v),
    decreases v,
{
    match v {
        MetaVal::Sequence(xs) => {
            lemma_iter_list_both(xs);
        },
        MetaVal::Mapping(ps) => {
            lemma_iter_pairs_both(ps);
        },
        _ => {},
    }
}

proof fn lemma_iter_list_both(xs: Seq<MetaVal>)
    ensures
        flat_iter_list(xs, MappingIterScheme::Both) == flat_data_list(xs),
    decreases xs,
{
    if xs.len() > 0 {
        lemma_iter_list_both(xs.drop_last());
        law_iter_over_both_is_collect_data(xs.last());
    }
}

proof fn lemma_iter_pairs_both(ps: Seq<(Option<Seq<char>>, MetaVal)>)
    ensures
        flat_iter_pairs(ps, MappingIterScheme::Both) == flat_data_pairs(ps),
    decreases ps,
{
    if ps.len() > 0 {
        lemma_iter_pairs_both(ps.drop_last());
        law_iter_over_both_is_collect_data(ps.last().1);
    }
}


// =================================================================================================
// Mappings and blocks
// =================================================================================================

impl MetaMap {
    /// An empty mapping.
    pub fn new() -> (r: MetaMap)
        ensures
            r@ == Seq::<(Option<Seq<char>>, MetaVal)>::empty(),
    {
        let r = MetaMap { entries: Vec::new() };
        assert(r@ =~= Seq::<(Option<Seq<char>>, MetaVal)>::empty());
        r
    }

    /// Sets the value of `k`, keeping the keys sorted.
    pub fn insert(&mut self, k: MetaKey, v: MetaValue)
        ensures
            final(self)@ == sorted_insert(old(self)@, key_view(k), v@, key_order()),
    {
        proof {
            use_type_invariant(&*self);
            lemma_key_order_total();
            law_sorted_insert(self@, key_view(k), v@, key_order());
        }
        let ghost v_old = self@;
        assert(key_pairs_view(self.entries@) =~= v_old);
        let mut es: Vec<(MetaKey, MetaValue)> = Vec::new();
        std::mem::swap(&mut es, &mut self.entries);
        assert(key_pairs_view(es@) =~= v_old);
        insert_by_meta_key(&mut es, k, v);
        let ghost nv = key_pairs_view(es@);
        assert(Seq::new(es@.len(), |i: int| (key_view(es@[i].0), es@[i].1@)) =~= nv);
        self.entries = es;
        assert(key_pairs_view(self.entries@) =~= self@);
    }
}

impl MetaMap {
    /// A copy of this mapping.
    pub fn deep_copy(&self) -> (r: MetaMap)
        ensures
            r@ == self@,
    {
        let mut out: Vec<(MetaKey, MetaValue)> = Vec::new();
        let mut i: usize = 0;
        while i < self.entries.len()
            invariant
                i <= self.entries.len(),
                out@.len() == i,
                forall|j: int|
                    0 <= j < i ==> (#[trigger] out@[j]).1@ == self.entries@[j].1@ && key_view(
                        out@[j].0,
                    ) == key_view(self.entries@[j].0),
            decreases self.entries.len() - i,
        {
            let c = self.entries[i].1.deep_copy();
            let k = self.entries[i].0.copy();
            out.push((k, c));
            i += 1;
        }
        proof {
            use_type_invariant(self);
            assert(Seq::new(out@.len(), |j: int| (key_view(out@[j].0), out@[j].1@)) =~= self@);
        }
        let r = MetaMap { entries: out };
        assert(r@ =~= self@);
        r
    }
}

impl Clone for MetaMap {
    fn clone(&self) -> (r: MetaMap)
        ensures
            r@ == self@,
    {
        self.deep_copy()
    }
}

/// A block of metadata: field names mapped to values, sorted by name.
#[derive(PartialEq, Eq, Debug, Hash)]
pub struct MetaBlock {
    entries: Vec<(String, MetaValue)>,
}

impl View for MetaBlock {
    type V = Seq<(Seq<char>, MetaVal)>;

    closed spec fn view(&self) -> Seq<(Seq<char>, MetaVal)> {
        str_pairs_view(self.entries@)
    }
}

impl MetaBlock {
    /// Its field names strictly increase, so no name occurs twice.
    #[verifier::type_invariant]
    pub open spec fn names_sorted(&self) -> bool {
        sorted_by(self@, str_order())
    }

    /// The fields of the block, in ascending name order.
    pub fn entries(&self) -> (r: &Vec<(String, MetaValue)>)
        ensures
            str_pairs_view(r@) == self@,
            sorted_by(self@, str_order()),
    {
        proof {
            use_type_invariant(self);
        }
        &self.entries
    }
}

impl MetaBlock {
    /// An empty block.
    pub fn new() -> (r: MetaBlock)
        ensures
            r@ == Seq::<(Seq<char>, MetaVal)>::empty(),
    {
        let r = MetaBlock { entries: Vec::new() };
        assert(r@ =~= Seq::<(Seq<char>, MetaVal)>::empty());
        r
    }

    /// Sets the value of field `k`, keeping the fields sorted.
    pub fn insert(&mut self, k: String, v: MetaValue)
        ensures
            final(self)@ == sorted_insert(old(self)@, k@, v@, str_order()),
    {
        proof {
            use_type_invariant(&*self);
            lemma_str_order_total();
            law_sorted_insert(self@, k@, v@, str_order());
        }
        let mut es: Vec<(String, MetaValue)> = Vec::new();
        std::mem::swap(&mut es, &mut self.entries);
        insert_by_str_key(&mut es, k, v);
        self.entries = es;
    }

    /// The value of field `k`.
    pub fn get(&self, k: &str) -> (r: Option<&MetaValue>)
        ensures
            r matches Some(x) ==> lookup(self@, k@) == Some(x@),
            r is None ==> lookup(self@, k@) is None,
    {
        get_by_str_key(&self.entries, k)
    }

    /// The number of fields.
    pub fn len(&self) -> (n: usize)
        ensures
            n == self@.len(),
    {
        self.entries.len()
    }

    /// A copy of this block.
    pub fn deep_copy(&self) -> (r: MetaBlock)
        ensures
            r@ == self@,
    {
        let mut out: Vec<(String, MetaValue)> = Vec::new();
        let mut i: usize = 0;
        while i < self.entries.len()
            invariant
                i <= self.entries.len(),
                out@.len() == i,
                str_pairs_view(out@) == self@.take(i as int),
            decreases self.entries.len() - i,
        {
            let k = self.entries[i].0.clone();
            let v = self.entries[i].1.deep_copy();
            let ghost pair = (k, v);
            let ghost before = out@;
            out.push((k, v));
            assert(out@ == before.push(pair));
            assert(str_pairs_view(out@)[i as int] == (pair.0@, pair.1@));
            assert(self@[i as int] == (self.entries@[i as int].0@, self.entries@[i as int].1@));
            assert(str_pairs_view(out@) =~= self@.take(i + 1));
            i += 1;
        }
        assert(self@.take(self.entries.len() as int) =~= self@);
        proof {
            use_type_invariant(self);
        }
        MetaBlock { entries: out }
    }
}

impl Clone for MetaBlock {
    fn clone(&self) -> (r: MetaBlock)
        ensures
            r@ == self@,
    {
        self.deep_copy()
    }
}

/// Blocks in sequence, one per item in order.
pub type MetaBlockSeq = Vec<MetaBlock>;

/// Item names mapped to blocks, sorted by name.
#[derive(PartialEq, Eq, Debug)]
pub struct MetaBlockMap {
    entries: Vec<(String, MetaBlock)>,
}

impl View for MetaBlockMap {
    type V = Seq<(Seq<char>, Seq<(Seq<char>, MetaVal)>)>;

    closed spec fn view(&self) -> Seq<(Seq<char>, Seq<(Seq<char>, MetaVal)>)> {
        str_pairs_view(self.entries@)
    }
}

impl MetaBlockMap {
    /// Its item names strictly increase, so no name occurs twice.
    #[verifier::type_invariant]
    pub open spec fn names_sorted(&self) -> bool {
        sorted_by(self@, str_order())
    }

    /// The blocks of the map with their item names, in ascending name order.
    pub fn entries(&self) -> (r: &Vec<(String, MetaBlock)>)
        ensures
            str_pairs_view(r@) == self@,
            sorted_by(self@, str_order()),
    {
        proof {
            use_type_invariant(self);
        }
        &self.entries
    }
}

impl MetaBlockMap {
    /// An empty map.
    pub fn new() -> (r: MetaBlockMap)
        ensures
            r@ == Seq::<(Seq<char>, Seq<(Seq<char>, MetaVal)>)>::empty(),
    {
        let r = MetaBlockMap { entries: Vec::new() };
        assert(r@ =~= Seq::<(Seq<char>, Seq<(Seq<char>, MetaVal)>)>::empty());
        r
    }

    /// Sets the block of item name `k`, keeping the names sorted.
    pub fn insert(&mut self, k: String, v: MetaBlock)
        ensures
            final(self)@ == sorted_insert(old(self)@, k@, v@, str_order()),
    {
        proof {
            use_type_invariant(&*self);
            lemma_str_order_total();
            law_sorted_insert(self@, k@, v@, str_order());
        }
        let mut es: Vec<(String, MetaBlock)> = Vec::new();
        std::mem::swap(&mut es, &mut self.entries);
        insert_by_str_key(&mut es, k, v);
        self.entries = es;
    }

    /// The block of item name `k`.
    pub fn get(&self, k: &str) -> (r: Option<&MetaBlock>)
        ensures
            r matches Some(x) ==> lookup(self@, k@) == Some(x@),
            r is None ==> lookup(self@, k@) is None,
    {
        get_by_str_key(&self.entries, k)
    }

    /// The number of item names.
    pub fn len(&self) -> (n: usize)
        ensures
            n == self@.len(),
    {
        self.entries.len()
    }
}

/// All forms that metadata can take, independent of the text it was read from.
#[derive(Debug)]
pub enum Metadata {
    /// One block for the directory that holds the metadata file.
    Contains(MetaBlock),
    /// Blocks for the items beside the metadata file, in item order.
    SiblingsSeq(MetaBlockSeq),
    /// Blocks for the items beside the metadata file, by item name.
    SiblingsMap(MetaBlockMap),
}

/// An atom of metadata: null or a string.
#[derive(PartialEq, Eq, PartialOrd, Ord, Hash, Debug, Clone)]
pub enum MetaAtom {
    Nil,
    Str(String),
}

/// A value met while walking metadata: null or a string.
#[derive(PartialEq, Eq, Debug, Clone, Hash)]
pub enum MetaIterValue {
    Nil,
    Str(String),
}


/// Which items a set of metadata provides data for.
#[derive(Debug, Clone, Copy, Hash, PartialEq, Eq, Structural, PartialOrd, Ord)]
pub enum MetaTarget {
    /// The directory that holds the metadata file.
    Contains,
    /// The items beside the metadata file.
    Siblings,
}

/// Metadata as a mathematical value.
pub enum MetadataV {
    Contains(Seq<(Seq<char>, MetaVal)>),
    SiblingsSeq(Seq<Seq<(Seq<char>, MetaVal)>>),
    SiblingsMap(Seq<(Seq<char>, Seq<(Seq<char>, MetaVal)>)>),
}

pub open spec fn blocks_view(bs: Seq<MetaBlock>) -> Seq<Seq<(Seq<char>, MetaVal)>> {
    bs.map_values(|b: MetaBlock| b@)
}

impl View for Metadata {
    type V = MetadataV;

    open spec fn view(&self) -> MetadataV {
        match self {
            Metadata::Contains(b) => MetadataV::Contains(b@),
            Metadata::SiblingsSeq(bs) => MetadataV::SiblingsSeq(blocks_view(bs@)),
            Metadata::SiblingsMap(m) => MetadataV::SiblingsMap(m@),
        }
    }
}

} // verus!
