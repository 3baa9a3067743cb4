//! Lexical handling of Unix-style paths, held as strings.
//!
//! A path is read as a sequence of components: an optional root (`/`), an
//! optional leading `.`, then the `/`-separated segments, where empty and `.`
//! segments are skipped and `..` is a parent step.  Normalisation resolves the
//! parent steps lexically, without looking at any file system.
use vstd::prelude::*;
use vstd::string::*;

use crate::text::{chars_of, string_of};

verus! {

// =================================================================================================
// Model
// =================================================================================================

/// One component of a path, as a mathematical value.
pub enum PathComp {
    Root,
    Cur,
    Parent,
    Normal(Seq<char>),
}

/// The segments of `s` between `/` characters (empty ones included).
pub open spec fn split_segs(s: Seq<char>) -> Seq<Seq<char>>
    decreases s.len(),
{
    if s.len() == 0 {
        seq![Seq::<char>::empty()]
    } else {
        let r = split_segs(s.drop_last());
        if s.last() == '/' {
            r.push(Seq::<char>::empty())
        } else {
            r.update(r.len() - 1, r.last().push(s.last()))
        }
    }
}

pub open spec fn dot() -> Seq<char> {
    seq!['.']
}

pub open spec fn dot_dot() -> Seq<char> {
    seq!['.', '.']
}

/// What one segment contributes to the components of a path.
pub open spec fn seg_comp(seg: Seq<char>) -> Seq<PathComp> {
    if seg.len() == 0 || seg == dot() {
        Seq::empty()
    } else if seg == dot_dot() {
        seq![PathComp::Parent]
    } else {
        seq![PathComp::Normal(seg)]
    }
}

pub open spec fn segs_comps(segs: Seq<Seq<char>>) -> Seq<PathComp>
    decreases segs.len(),
{
    if segs.len() == 0 {
        Seq::empty()
    } else {
        segs_comps(segs.drop_last()) + seg_comp(segs.last())
    }
}

pub open spec fn has_root(s: Seq<char>) -> bool {
    s.len() > 0 && s[0] == '/'
}

/// A relative path that starts with a `.` segment keeps it as its first component.
pub open spec fn has_lead_cur(s: Seq<char>) -> bool {
    !has_root(s) && (s == dot() || (s.len() >= 2 && s[0] == '.' && s[1] == '/'))
}

pub open spec fn lead_comps(s: Seq<char>) -> Seq<PathComp> {
    if has_root(s) {
        seq![PathComp::Root]
    } else if has_lead_cur(s) {
        seq![PathComp::Cur]
    } else {
        Seq::empty()
    }
}

/// The components of the path `s`.
pub open spec fn components(s: Seq<char>) -> Seq<PathComp> {
    lead_comps(s) + segs_comps(split_segs(s))
}

/// One step of lexical normalisation: `.` is dropped, `..` removes a preceding
/// normal component, stays above the root, and piles up at the start otherwise.
pub open spec fn norm_step(stack: Seq<PathComp>, c: PathComp) -> Seq<PathComp> {
    match c {
        PathComp::Cur => stack,
        PathComp::Parent => {
            if stack.len() == 0 {
                stack.push(PathComp::Parent)
            } else {
                match stack.last() {
                    PathComp::Root => stack,
                    PathComp::Cur => stack,
                    PathComp::Parent => stack.push(PathComp::Parent),
                    PathComp::Normal(_) => stack.drop_last(),
                }
            }
        },
        _ => stack.push(c),
    }
}

pub open spec fn norm_stack(cs: Seq<PathComp>) -> Seq<PathComp>
    decreases cs.len(),
{
    if cs.len() == 0 {
        Seq::empty()
    } else {
        norm_step(norm_stack(cs.drop_last()), cs.last())
    }
}

pub open spec fn comp_text(c: PathComp) -> Seq<char> {
    match c {
        PathComp::Root => seq!['/'],
        PathComp::Cur => dot(),
        PathComp::Parent => dot_dot(),
        PathComp::Normal(n) => n,
    }
}

/// Appending one component to a path buffer, with a separator where one is needed;
/// the root replaces the buffer.
pub open spec fn pushed(buf: Seq<char>, c: PathComp) -> Seq<char> {
    match c {
        PathComp::Root => seq!['/'],
        _ => {
            if buf.len() == 0 {
                comp_text(c)
            } else if buf.last() == '/' {
                buf + comp_text(c)
            } else {
                buf.push('/') + comp_text(c)
            }
        },
    }
}

/// The path made of the components `cs` (empty when `cs` is).
pub open spec fn render(cs: Seq<PathComp>) -> Seq<char>
    decreases cs.len(),
{
    if cs.len() == 0 {
        Seq::empty()
    } else {
        pushed(render(cs.drop_last()), cs.last())
    }
}

/// The lexically normalised form of `p`; `.` where nothing is left.
pub open spec fn normalized(p: Seq<char>) -> Seq<char> {
    let st = norm_stack(components(p));
    if st.len() == 0 {
        dot()
    } else {
        render(st)
    }
}

/// A name that can stand as one normal component.
pub open spec fn is_plain_name(n: Seq<char>) -> bool {
    &&& n.len() > 0
    &&& !n.contains('/')
    &&& n != dot()
    &&& n != dot_dot()
}

/// A stack of components as normalisation leaves it: the root only first, no
/// `.`, plain names, and `..` only in a run at the start of a relative path.
pub open spec fn is_normal_stack(st: Seq<PathComp>) -> bool {
    &&& forall|i: int| 0 <= i < st.len() ==> !(#[trigger] st[i] is Cur)
    &&& forall|i: int| 0 < i < st.len() ==> !(#[trigger] st[i] is Root)
    &&& forall|i: int|
        0 <= i < st.len() ==> (#[trigger] st[i] matches PathComp::Normal(n) ==> is_plain_name(n))
    &&& forall|i: int, j: int|
        0 <= i < j < st.len() && #[trigger] st[j] is Parent ==> #[trigger] st[i] is Parent
}

/// Components as a path yields them: the root only first and plain names.
pub open spec fn is_comp_seq(cs: Seq<PathComp>) -> bool {
    &&& forall|i: int| 0 < i < cs.len() ==> !(#[trigger] cs[i] is Root)
    &&& forall|i: int|
        0 <= i < cs.len() ==> (#[trigger] cs[i] matches PathComp::Normal(n) ==> is_plain_name(n))
}

// =================================================================================================
// Lemmas
// =================================================================================================

pub proof fn lemma_split_nonempty(s: Seq<char>)
    ensures
        split_segs(s).len() >= 1,
    decreases s.len(),
{
    if s.len() > 0 {
        lemma_split_nonempty(s.drop_last());
    }
}

/// No segment holds a separator.
pub proof fn lemma_split_no_slash(s: Seq<char>)
    ensures
        forall|i: int| 0 <= i < split_segs(s).len() ==> !(#[trigger] split_segs(s)[i]).contains('/'),
    decreases s.len(),
{
    if s.len() > 0 {
        lemma_split_no_slash(s.drop_last());
        lemma_split_nonempty(s.drop_last());
        let r = split_segs(s.drop_last());
        if s.last() != '/' {
            assert forall|i: int| 0 <= i < split_segs(s).len() implies !(#[trigger] split_segs(
                s,
            )[i]).contains('/') by {
                if i == r.len() - 1 {
                    let w = r.last().push(s.last());
                    if w.contains('/') {
                        let k = choose|k: int| 0 <= k < w.len() && w[k] == '/';
                        if k < r.last().len() {
                            assert(r.last()[k] == '/');
                        }
                    }
                } else {
                    assert(split_segs(s)[i] == r[i]);
                }
            }
        } else {
            assert forall|i: int| 0 <= i < split_segs(s).len() implies !(#[trigger] split_segs(
                s,
            )[i]).contains('/') by {
                if i < r.len() {
                    assert(split_segs(s)[i] == r[i]);
                }
            }
        }
    }
}

/// A string without a separator is one segment.
pub proof fn lemma_split_single(n: Seq<char>)
    requires
        !n.contains('/'),
    ensures
        split_segs(n) == seq![n],
    decreases n.len(),
{
    if n.len() > 0 {
        let m = n.drop_last();
        assert(!m.contains('/')) by {
            if m.contains('/') {
                let k = choose|k: int| 0 <= k < m.len() && m[k] == '/';
                assert(n[k] == '/');
            }
        }
        lemma_split_single(m);
        assert(n.last() != '/') by {
            assert(n[n.len() - 1] == n.last());
        }
        assert(m.push(n.last()) =~= n);
        assert(split_segs(n) =~= seq![n]);
    } else {
        assert(n =~= Seq::<char>::empty());
    }
}

/// Splitting at a separator splits the segments.
pub proof fn lemma_split_concat(a: Seq<char>, b: Seq<char>)
    ensures
        split_segs(a.push('/') + b) == split_segs(a) + split_segs(b),
    decreases b.len(),
{
    let ap = a.push('/');
    lemma_split_nonempty(a);
    if b.len() == 0 {
        assert(ap + b =~= ap);
        assert(ap.drop_last() =~= a);
        assert(split_segs(ap) =~= split_segs(a) + split_segs(b));
    } else {
        let b1 = b.drop_last();
        lemma_split_concat(a, b1);
        lemma_split_nonempty(b1);
        assert((ap + b).drop_last() =~= ap + b1);
        assert((ap + b).last() == b.last());
        let ra = split_segs(a);
        let rb1 = split_segs(b1);
        if b.last() == '/' {
            assert(split_segs(ap + b) =~= ra + split_segs(b));
        } else {
            assert(split_segs(ap + b) =~= ra + split_segs(b));
        }
    }
}

pub proof fn lemma_segs_comps_concat(a: Seq<Seq<char>>, b: Seq<Seq<char>>)
    ensures
        segs_comps(a + b) == segs_comps(a) + segs_comps(b),
    decreases b.len(),
{
    if b.len() == 0 {
        assert(a + b =~= a);
        assert(segs_comps(a) + segs_comps(b) =~= segs_comps(a));
    } else {
        lemma_segs_comps_concat(a, b.drop_last());
        assert((a + b).drop_last() =~= a + b.drop_last());
        assert((a + b).last() == b.last());
        assert(segs_comps(a + b) =~= segs_comps(a) + segs_comps(b));
    }
}

/// The components of any path have the root only first and plain names.
pub proof fn lemma_components_wf(s: Seq<char>)
    ensures
        is_comp_seq(components(s)),
{
    lemma_split_no_slash(s);
    lemma_segs_comps_wf(split_segs(s));
    let l = lead_comps(s);
    let r = segs_comps(split_segs(s));
    assert forall|i: int| 0 < i < components(s).len() implies !(#[trigger] components(s)[i] is Root) by {
        if i >= l.len() {
            assert(components(s)[i] == r[i - l.len()]);
        }
    }
    assert forall|i: int| 0 <= i < components(s).len() implies (#[trigger] components(
        s,
    )[i] matches PathComp::Normal(n) ==> is_plain_name(n)) by {
        if i >= l.len() {
            assert(components(s)[i] == r[i - l.len()]);
        }
    }
}

proof fn lemma_segs_comps_wf(segs: Seq<Seq<char>>)
    requires
        forall|i: int| 0 <= i < segs.len() ==> !(#[trigger] segs[i]).contains('/'),
    ensures
        forall|i: int| 0 <= i < segs_comps(segs).len() ==> !(#[trigger] segs_comps(segs)[i] is Root),
        forall|i: int| 0 <= i < segs_comps(segs).len() ==> !(#[trigger] segs_comps(segs)[i] is Cur),
        forall|i: int|
            0 <= i < segs_comps(segs).len() ==> (#[trigger] segs_comps(segs)[i] matches PathComp::Normal(
                n,
            ) ==> is_plain_name(n)),
    decreases segs.len(),
{
    if segs.len() > 0 {
        let d = segs.drop_last();
        assert forall|i: int| 0 <= i < d.len() implies !(#[trigger] d[i]).contains('/') by {
            assert(d[i] == segs[i]);
        }
        lemma_segs_comps_wf(d);
        let r = segs_comps(d);
        let t = seg_comp(segs.last());
        assert(!segs.last().contains('/')) by {
            assert(segs.last() == segs[segs.len() - 1]);
        }
        let all = segs_comps(segs);
        assert(all == r + t);
        assert forall|i: int| 0 <= i < all.len() implies !(#[trigger] all[i] is Root) && !(
        all[i] is Cur) && (all[i] matches PathComp::Normal(n) ==> is_plain_name(n)) by {
            if i < r.len() {
                assert(all[i] == r[i]);
            } else {
                assert(all[i] == t[i - r.len()]);
            }
        }
    }
}

/// Normalising steps keep a stack normal.
proof fn lemma_norm_step_normal(st: Seq<PathComp>, c: PathComp)
    requires
        is_normal_stack(st),
        c is Root ==> st.len() == 0,
        c matches PathComp::Normal(n) ==> is_plain_name(n),
    ensures
        is_normal_stack(norm_step(st, c)),
{
    let r = norm_step(st, c);
    match c {
        PathComp::Parent => {
            if st.len() > 0 {
                if st.last() is Parent {
                    assert forall|i: int, j: int|
                        0 <= i < j < r.len() && #[trigger] r[j] is Parent implies #[trigger] r[i] is Parent by {
                        assert(st[st.len() - 1] is Parent);
                        if i < st.len() - 1 {
                            assert(st[i] is Parent);
                        }
                    }
                } else if st.last() is Normal {
                    assert forall|i: int, j: int|
                        0 <= i < j < r.len() && #[trigger] r[j] is Parent implies #[trigger] r[i] is Parent by {
                        assert(r[j] == st[j]);
                        assert(r[i] == st[i]);
                    }
                }
            }
        },
        _ => {},
    }
}

/// Normalisation yields a normal stack.
pub proof fn lemma_norm_stack_normal(cs: Seq<PathComp>)
    requires
        is_comp_seq(cs),
    ensures
        is_normal_stack(norm_stack(cs)),
        norm_stack(cs).len() <= cs.len(),
    decreases cs.len(),
{
    if cs.len() > 0 {
        let d = cs.drop_last();
        assert(is_comp_seq(d)) by {
            assert forall|i: int| 0 < i < d.len() implies !(#[trigger] d[i] is Root) by {
                assert(d[i] == cs[i]);
            }
            assert forall|i: int| 0 <= i < d.len() implies (#[trigger] d[i] matches PathComp::Normal(
                n,
            ) ==> is_plain_name(n)) by {
                assert(d[i] == cs[i]);
            }
        }
        lemma_norm_stack_normal(d);
        let c = cs.last();
        assert(c == cs[cs.len() - 1]);
        if c is Root {
            assert(cs.len() == 1);
            assert(d.len() == 0);
        }
        lemma_norm_step_normal(norm_stack(d), c);
    }
}

/// A normal stack is its own normal form.
pub proof fn lemma_norm_stack_fixed(st: Seq<PathComp>)
    requires
        is_normal_stack(st),
    ensures
        norm_stack(st) == st,
    decreases st.len(),
{
    if st.len() > 0 {
        let d = st.drop_last();
        assert(is_normal_stack(d)) by {
            assert forall|i: int| 0 <= i < d.len() implies !(#[trigger] d[i] is Cur) by {
                assert(d[i] == st[i]);
            }
            assert forall|i: int| 0 < i < d.len() implies !(#[trigger] d[i] is Root) by {
                assert(d[i] == st[i]);
            }
            assert forall|i: int| 0 <= i < d.len() implies (#[trigger] d[i] matches PathComp::Normal(
                n,
            ) ==> is_plain_name(n)) by {
                assert(d[i] == st[i]);
            }
            assert forall|i: int, j: int|
                0 <= i < j < d.len() && #[trigger] d[j] is Parent implies #[trigger] d[i] is Parent by {
                assert(d[i] == st[i]);
                assert(d[j] == st[j]);
            }
        }
        lemma_norm_stack_fixed(d);
        let c = st.last();
        assert(c == st[st.len() - 1]);
        assert(!(c is Cur));
        if c is Parent {
            if d.len() > 0 {
                assert(st[d.len() - 1] is Parent);
                assert(d.last() == st[d.len() - 1]);
            }
        }
        assert(d.push(c) =~= st);
    }
}

/// The separator-joined text of a sequence of names.
pub open spec fn join_names(ns: Seq<Seq<char>>) -> Seq<char>
    decreases ns.len(),
{
    if ns.len() == 0 {
        Seq::empty()
    } else if ns.len() == 1 {
        ns[0]
    } else {
        join_names(ns.drop_last()).push('/') + ns.last()
    }
}

pub open spec fn comp_texts(cs: Seq<PathComp>) -> Seq<Seq<char>> {
    cs.map_values(|c: PathComp| comp_text(c))
}

proof fn lemma_join_last(ns: Seq<Seq<char>>)
    requires
        ns.len() > 0,
        ns.last().len() > 0,
    ensures
        join_names(ns).len() > 0,
        join_names(ns).last() == ns.last().last(),
{
    if ns.len() == 1 {
        assert(ns[0] == ns.last());
    }
}

proof fn lemma_join_first(ns: Seq<Seq<char>>)
    requires
        ns.len() > 0,
        ns[0].len() > 0,
    ensures
        join_names(ns).len() >= ns[0].len(),
        join_names(ns).take(ns[0].len() as int) == ns[0],
        ns.len() > 1 ==> join_names(ns).len() > ns[0].len() && join_names(ns)[ns[0].len() as int]
            == '/',
    decreases ns.len(),
{
    if ns.len() > 1 {
        let d = ns.drop_last();
        assert(d[0] == ns[0]);
        lemma_join_first(d);
        let jd = join_names(d);
        let j = join_names(ns);
        assert(j == jd.push('/') + ns.last());
        assert(j.take(ns[0].len() as int) =~= jd.take(ns[0].len() as int));
        if d.len() == 1 {
            assert(jd == ns[0]);
            assert(j[ns[0].len() as int] == '/');
        } else {
            assert(j[ns[0].len() as int] == jd[ns[0].len() as int]);
        }
    } else {
        assert(ns[0].take(ns[0].len() as int) =~= ns[0]);
    }
}

/// Splitting joined names gives the names back.
proof fn lemma_split_join(ns: Seq<Seq<char>>)
    requires
        ns.len() > 0,
        forall|i: int| 0 <= i < ns.len() ==> !(#[trigger] ns[i]).contains('/'),
    ensures
        split_segs(join_names(ns)) == ns,
    decreases ns.len(),
{
    if ns.len() == 1 {
        lemma_split_single(ns[0]);
        assert(seq![ns[0]] =~= ns);
    } else {
        let d = ns.drop_last();
        assert forall|i: int| 0 <= i < d.len() implies !(#[trigger] d[i]).contains('/') by {
            assert(d[i] == ns[i]);
        }
        lemma_split_join(d);
        lemma_split_concat(join_names(d), ns.last());
        assert(!ns.last().contains('/')) by {
            assert(ns.last() == ns[ns.len() - 1]);
        }
        lemma_split_single(ns.last());
        assert(d + seq![ns.last()] =~= ns);
    }
}

proof fn lemma_seg_comp_text(c: PathComp)
    requires
        !(c is Root),
        !(c is Cur),
        c matches PathComp::Normal(n) ==> is_plain_name(n),
    ensures
        seg_comp(comp_text(c)) == seq![c],
{
    assert(dot_dot() != dot()) by {
        assert(dot_dot().len() != dot().len());
    }
}

proof fn lemma_segs_comps_single(seg: Seq<char>)
    ensures
        segs_comps(seq![seg]) == seg_comp(seg),
{
    let s = seq![seg];
    assert(s.drop_last() =~= Seq::<Seq<char>>::empty());
    assert(segs_comps(Seq::<Seq<char>>::empty()) == Seq::<PathComp>::empty());
    assert(s.last() == seg);
    assert(segs_comps(s) =~= seg_comp(seg));
}

/// Reading back the texts of non-root components gives the components.
proof fn lemma_segs_comps_texts(cs: Seq<PathComp>)
    requires
        forall|i: int| 0 <= i < cs.len() ==> !(#[trigger] cs[i] is Root),
        forall|i: int| 0 <= i < cs.len() ==> !(#[trigger] cs[i] is Cur),
        forall|i: int|
            0 <= i < cs.len() ==> (#[trigger] cs[i] matches PathComp::Normal(n) ==> is_plain_name(n)),
    ensures
        segs_comps(comp_texts(cs)) == cs,
    decreases cs.len(),
{
    if cs.len() > 0 {
        let d = cs.drop_last();
        assert forall|i: int| 0 <= i < d.len() implies !(#[trigger] d[i] is Root) && !(d[i] is Cur) && (
        d[i] matches PathComp::Normal(n) ==> is_plain_name(n)) by {
            assert(d[i] == cs[i]);
        }
        lemma_segs_comps_texts(d);
        assert(comp_texts(cs).drop_last() =~= comp_texts(d));
        let c = cs.last();
        assert(c == cs[cs.len() - 1]);
        lemma_seg_comp_text(c);
        assert(comp_texts(cs).last() == comp_text(c));
        assert(d.push(c) =~= cs);
        assert(d + seq![c] =~= cs);
    }
}

proof fn lemma_texts_no_slash(cs: Seq<PathComp>)
    requires
        forall|i: int| 0 <= i < cs.len() ==> !(#[trigger] cs[i] is Root),
        forall|i: int|
            0 <= i < cs.len() ==> (#[trigger] cs[i] matches PathComp::Normal(n) ==> is_plain_name(n)),
    ensures
        forall|i: int| 0 <= i < cs.len() ==> !(#[trigger] comp_texts(cs)[i]).contains('/'),
        forall|i: int| 0 <= i < cs.len() ==> (#[trigger] comp_texts(cs)[i]).len() > 0,
{
    assert forall|i: int| 0 <= i < cs.len() implies !(#[trigger] comp_texts(cs)[i]).contains('/')
        && comp_texts(cs)[i].len() > 0 by {
        let t = comp_texts(cs)[i];
        assert(t == comp_text(cs[i]));
        match cs[i] {
            PathComp::Cur => {
                if t.contains('/') {
                    let k = choose|k: int| 0 <= k < t.len() && t[k] == '/';
                }
            },
            PathComp::Parent => {
                if t.contains('/') {
                    let k = choose|k: int| 0 <= k < t.len() && t[k] == '/';
                }
            },
            _ => {},
        }
    }
}

/// How a normal stack is rendered.
proof fn lemma_render_normal(st: Seq<PathComp>)
    requires
        is_normal_stack(st),
        st.len() > 0,
    ensures
        st[0] is Root ==> render(st) == seq!['/'] + join_names(comp_texts(st.drop_first())),
        !(st[0] is Root) ==> render(st) == join_names(comp_texts(st)),
    decreases st.len(),
{
    if st.len() == 1 {
        if st[0] is Root {
            assert(render(st.drop_last()) == Seq::<char>::empty());
            assert(st.drop_first().len() == 0);
            assert(seq!['/'] + join_names(comp_texts(st.drop_first())) =~= seq!['/']);
        } else {
            assert(st.drop_last() =~= Seq::<PathComp>::empty());
            assert(render(st.drop_last()) == Seq::<char>::empty());
            assert(st.last() == st[0]);
            assert(render(st) == comp_text(st[0]));
            assert(comp_texts(st) =~= seq![comp_text(st[0])]);
            assert(join_names(comp_texts(st)) == comp_texts(st)[0]);
        }
    } else {
        let d = st.drop_last();
        assert(is_normal_stack(d)) by {
            assert forall|i: int| 0 <= i < d.len() implies !(#[trigger] d[i] is Cur) by {
                assert(d[i] == st[i]);
            }
            assert forall|i: int| 0 < i < d.len() implies !(#[trigger] d[i] is Root) by {
                assert(d[i] == st[i]);
            }
            assert forall|i: int| 0 <= i < d.len() implies (#[trigger] d[i] matches PathComp::Normal(
                n,
            ) ==> is_plain_name(n)) by {
                assert(d[i] == st[i]);
            }
            assert forall|i: int, j: int|
                0 <= i < j < d.len() && #[trigger] d[j] is Parent implies #[trigger] d[i] is Parent by {
                assert(d[i] == st[i]);
                assert(d[j] == st[j]);
            }
        }
        lemma_render_normal(d);
        let c = st.last();
        assert(c == st[st.len() - 1]);
        assert(!(c is Root));
        assert(!(c is Cur));
        let t = comp_text(c);
        assert(t.len() > 0) by {
            match c {
                PathComp::Normal(n) => {},
                _ => {},
            }
        }
        assert(d[0] == st[0]);
        if st[0] is Root {
            let rest = st.drop_first();
            let dr = d.drop_first();
            assert(dr =~= rest.drop_last());
            assert(comp_texts(rest).drop_last() =~= comp_texts(dr));
            assert(comp_texts(rest).last() == t);
            if d.len() == 1 {
                assert(render(d) =~= seq!['/']);
                assert(render(d).last() == '/');
                assert(comp_texts(rest) =~= seq![t]);
                assert(render(st) =~= seq!['/'] + join_names(comp_texts(rest)));
            } else {
                let dl = d.last();
                assert(dl == st[d.len() - 1]);
                assert(!(dl is Root));
                assert(comp_texts(dr).len() > 0);
                assert(comp_texts(dr).last() == comp_text(dl));
                assert(comp_text(dl).len() > 0) by {
                    match dl {
                        PathComp::Normal(n) => {},
                        _ => {},
                    }
                }
                lemma_join_last(comp_texts(dr));
                let jd = join_names(comp_texts(dr));
                assert(render(d) == seq!['/'] + jd);
                assert(render(d).last() == jd.last());
                assert(comp_text(dl).last() != '/') by {
                    match dl {
                        PathComp::Normal(n) => {
                            assert(n.last() == n[n.len() - 1]);
                        },
                        _ => {},
                    }
                }
                assert(render(st) =~= seq!['/'] + join_names(comp_texts(rest)));
            }
        } else {
            assert(comp_texts(st).drop_last() =~= comp_texts(d));
            assert(comp_texts(st).last() == t);
            let dl = d.last();
            assert(dl == st[d.len() - 1]);
            assert(comp_text(dl).len() > 0) by {
                match dl {
                    PathComp::Normal(n) => {},
                    _ => {},
                }
            }
            assert(comp_texts(d).last() == comp_text(dl));
            lemma_join_last(comp_texts(d));
            assert(comp_text(dl).last() != '/') by {
                match dl {
                    PathComp::Normal(n) => {
                        assert(n.last() == n[n.len() - 1]);
                    },
                    _ => {},
                }
            }
            assert(render(st) =~= join_names(comp_texts(st)));
        }
    }
}

/// Reading back the rendering of a normal stack gives the stack.
pub proof fn lemma_components_render(st: Seq<PathComp>)
    requires
        is_normal_stack(st),
        st.len() > 0,
    ensures
        components(render(st)) == st,
{
    lemma_render_normal(st);
    if st[0] is Root {
        let rest = st.drop_first();
        assert forall|i: int| 0 <= i < rest.len() implies !(#[trigger] rest[i] is Root) && !(
        rest[i] is Cur) && (rest[i] matches PathComp::Normal(n) ==> is_plain_name(n)) by {
            assert(rest[i] == st[i + 1]);
        }
        let r = render(st);
        if rest.len() == 0 {
            assert(r =~= seq!['/']);
            assert(seq!['/'] =~= Seq::<char>::empty().push('/') + Seq::<char>::empty());
            lemma_split_concat(Seq::<char>::empty(), Seq::<char>::empty());
            assert(split_segs(r) =~= seq![Seq::<char>::empty(), Seq::<char>::empty()]);
            assert(segs_comps(split_segs(r)) =~= Seq::<PathComp>::empty()) by {
                let ss = split_segs(r);
                assert(ss.drop_last() =~= seq![Seq::<char>::empty()]);
                lemma_segs_comps_single(Seq::<char>::empty());
                assert(ss.last() == Seq::<char>::empty());
            }
            assert(st =~= seq![PathComp::Root]);
            assert(components(r) =~= st);
        } else {
            let ns = comp_texts(rest);
            lemma_texts_no_slash(rest);
            lemma_split_join(ns);
            assert(r =~= Seq::<char>::empty().push('/') + join_names(ns));
            lemma_split_concat(Seq::<char>::empty(), join_names(ns));
            assert(split_segs(Seq::<char>::empty()) =~= seq![Seq::<char>::empty()]);
            lemma_segs_comps_concat(seq![Seq::<char>::empty()], ns);
            lemma_segs_comps_single(Seq::<char>::empty());
            lemma_segs_comps_texts(rest);
            assert(has_root(r));
            assert(components(r) =~= seq![PathComp::Root] + rest);
            assert(seq![PathComp::Root] + rest =~= st);
        }
    } else {
        assert forall|i: int| 0 <= i < st.len() implies !(#[trigger] st[i] is Root) by {
            if i > 0 {
            }
        }
        let ns = comp_texts(st);
        lemma_texts_no_slash(st);
        lemma_split_join(ns);
        lemma_segs_comps_texts(st);
        let r = render(st);
        // The text starts with a name that is neither empty, a root, nor `.`.
        assert(ns[0] == comp_text(st[0]));
        assert(ns[0].len() > 0);
        lemma_join_first(ns);
        assert(r.take(ns[0].len() as int) == ns[0]);
        assert(r[0] == ns[0][0]) by {
            assert(r.take(ns[0].len() as int)[0] == r[0]);
        }
        assert(!has_root(r)) by {
            assert(!ns[0].contains('/'));
            assert(ns[0][0] != '/');
        }
        assert(!has_lead_cur(r)) by {
            if r == dot() {
                assert(ns.len() == 1) by {
                    if ns.len() > 1 {
                        assert(r.len() > ns[0].len());
                    }
                }
                assert(ns[0] =~= r);
                match st[0] {
                    PathComp::Normal(n) => {},
                    _ => {},
                }
            }
            if r.len() >= 2 && r[0] == '.' && r[1] == '/' {
                if ns[0].len() >= 2 {
                    assert(r.take(ns[0].len() as int)[1] == r[1]);
                    assert(ns[0][1] == '/');
                    assert(ns[0].contains('/'));
                } else {
                    assert(ns[0] =~= dot()) by {
                        assert(r.take(ns[0].len() as int)[0] == r[0]);
                    }
                    match st[0] {
                        PathComp::Normal(n) => {},
                        _ => {},
                    }
                }
            }
        }
        assert(components(r) =~= st);
    }
}

/// A normalised path normalises to itself.
pub proof fn lemma_normalized_idempotent(p: Seq<char>)
    ensures
        normalized(normalized(p)) == normalized(p),
{
    let st = norm_stack(components(p));
    lemma_components_wf(p);
    lemma_norm_stack_normal(components(p));
    if st.len() == 0 {
        let q = dot();
        assert(split_segs(q) =~= seq![dot()]) by {
            lemma_split_single(dot());
        }
        lemma_segs_comps_single(dot());
        assert(has_lead_cur(q));
        assert(components(q) =~= seq![PathComp::Cur]);
        let cq = components(q);
        assert(cq.drop_last() =~= Seq::<PathComp>::empty());
        assert(norm_stack(cq.drop_last()) == Seq::<PathComp>::empty());
        assert(cq.last() == PathComp::Cur);
        assert(norm_stack(cq) =~= Seq::<PathComp>::empty());
    } else {
        lemma_components_render(st);
        lemma_norm_stack_fixed(st);
    }
}


/// Plain names are exactly the strings that stand as one normal component and
/// are left unchanged by normalisation.
pub proof fn lemma_item_name_iff_plain(s: Seq<char>)
    ensures
        (normalized(s) == s && components(s).len() == 1 && components(s)[0] is Normal)
            <==> is_plain_name(s),
{
    let cs = components(s);
    lemma_components_wf(s);
    if is_plain_name(s) {
        lemma_split_single(s);
        assert(s[0] != '/') by {
            assert(s.contains('/') == false);
        }
        assert(!has_lead_cur(s)) by {
            if s.len() >= 2 && s[0] == '.' && s[1] == '/' {
                assert(s.contains('/'));
            }
        }
        lemma_segs_comps_single(s);
        assert(seg_comp(s) == seq![PathComp::Normal(s)]) by {
            assert(s.len() > 0);
        }
        assert(cs =~= seq![PathComp::Normal(s)]);
        lemma_norm_single(PathComp::Normal(s));
        lemma_render_single(PathComp::Normal(s));
    }
    if normalized(s) == s && cs.len() == 1 && cs[0] is Normal {
        lemma_norm_single(cs[0]);
        assert(cs =~= seq![cs[0]]);
        lemma_render_single(cs[0]);
        match cs[0] {
            PathComp::Normal(n) => {
                assert(is_plain_name(n));
            },
            _ => {},
        }
    }
}

proof fn lemma_norm_single(c: PathComp)
    requires
        c is Normal,
    ensures
        norm_stack(seq![c]) == seq![c],
{
    let cs = seq![c];
    assert(cs.drop_last() =~= Seq::<PathComp>::empty());
    assert(norm_stack(cs.drop_last()) == Seq::<PathComp>::empty());
    assert(cs.last() == c);
    assert(norm_stack(cs) =~= Seq::<PathComp>::empty().push(c));
}

proof fn lemma_render_single(c: PathComp)
    requires
        c is Normal,
    ensures
        render(seq![c]) == comp_text(c),
{
    let cs = seq![c];
    assert(cs.drop_last() =~= Seq::<PathComp>::empty());
    assert(render(cs.drop_last()) == Seq::<char>::empty());
    assert(cs.last() == c);
}

// =================================================================================================
// Executable side
// =================================================================================================

/// One component of a path.
pub enum Component {
    RootDir,
    CurDir,
    ParentDir,
    Normal(Vec<char>),
}

impl View for Component {
    type V = PathComp;

    open spec fn view(&self) -> PathComp {
        match self {
            Component::RootDir => PathComp::Root,
            Component::CurDir => PathComp::Cur,
            Component::ParentDir => PathComp::Parent,
            Component::Normal(n) => PathComp::Normal(n@),
        }
    }
}

pub open spec fn comps_view(cs: Seq<Component>) -> Seq<PathComp> {
    cs.map_values(|c: Component| c@)
}

impl Component {
    /// A copy of this component.
    pub fn copy(&self) -> (r: Component)
        ensures
            r@ == self@,
    {
        match self {
            Component::RootDir => Component::RootDir,
            Component::CurDir => Component::CurDir,
            Component::ParentDir => Component::ParentDir,
            Component::Normal(n) => {
                let m = n.clone();
                assert(m@ =~= n@);
                Component::Normal(m)
            },
        }
    }
}

fn is_dot(seg: &Vec<char>) -> (b: bool)
    ensures
        b == (seg@ == dot()),
{
    let b = seg.len() == 1 && seg[0] == '.';
    if b {
        assert(seg@ =~= dot());
    }
    b
}

fn is_dot_dot(seg: &Vec<char>) -> (b: bool)
    ensures
        b == (seg@ == dot_dot()),
{
    let b = seg.len() == 2 && seg[0] == '.' && seg[1] == '.';
    if b {
        assert(seg@ =~= dot_dot());
    }
    b
}

/// The component that a segment contributes, if any.
fn seg_component(seg: Vec<char>) -> (r: Option<Component>)
    ensures
        match r {
            None => seg_comp(seg@) == Seq::<PathComp>::empty(),
            Some(c) => seg_comp(seg@) == seq![c@],
        },
{
    if seg.len() == 0 || is_dot(&seg) {
        None
    } else if is_dot_dot(&seg) {
        Some(Component::ParentDir)
    } else {
        Some(Component::Normal(seg))
    }
}

/// The components of the path whose characters are `v`.
pub fn components_of(v: &Vec<char>) -> (cs: Vec<Component>)
    ensures
        comps_view(cs@) == components(v@),
{
    let n = v.len();
    let mut out: Vec<Component> = Vec::new();
    if n > 0 && v[0] == '/' {
        out.push(Component::RootDir);
    } else if (n == 1 && v[0] == '.') || (n >= 2 && v[0] == '.' && v[1] == '/') {
        out.push(Component::CurDir);
        if n == 1 {
            assert(v@ =~= dot());
        }
    }
    assert(comps_view(out@) =~= lead_comps(v@));
    let mut cur: Vec<char> = Vec::new();
    let mut i: usize = 0;
    assert(v@.take(0) =~= Seq::<char>::empty());
    while i < n
        invariant
            i <= n,
            n == v@.len(),
            split_segs(v@.take(i as int)).len() >= 1,
            comps_view(out@) == lead_comps(v@) + segs_comps(
                split_segs(v@.take(i as int)).drop_last(),
            ),
            cur@ == split_segs(v@.take(i as int)).last(),
        decreases n - i,
    {
        let ghost pre = v@.take(i as int);
        let ghost post = v@.take(i + 1);
        assert(post.drop_last() =~= pre);
        assert(post.last() == v@[i as int]);
        let c = v[i];
        if c == '/' {
            let seg = cur;
            cur = Vec::new();
            let ghost old_out = comps_view(out@);
            match seg_component(seg) {
                Some(comp) => {
                    out.push(comp);
                    assert(comps_view(out@) =~= old_out.push(comp@));
                },
                None => {},
            }
            assert(split_segs(post).drop_last() =~= split_segs(pre));
            assert(comps_view(out@) =~= lead_comps(v@) + segs_comps(split_segs(post).drop_last()));
        } else {
            cur.push(c);
            assert(split_segs(post).drop_last() =~= split_segs(pre).drop_last());
        }
        i += 1;
    }
    assert(v@.take(n as int) =~= v@);
    let ghost before = comps_view(out@);
    match seg_component(cur) {
        Some(comp) => {
            out.push(comp);
            assert(comps_view(out@) =~= before.push(comp@));
        },
        None => {},
    }
    assert(comps_view(out@) =~= components(v@));
    out
}

/// The text of a component, appended to `buf` as `PathBuf::push` would.
fn push_component(buf: &mut Vec<char>, c: &Component)
    ensures
        final(buf)@ == pushed(old(buf)@, c@),
{
    match c {
        Component::RootDir => {
            buf.clear();
            buf.push('/');
            assert(buf@ =~= seq!['/']);
            return ;
        },
        _ => {},
    }
    if buf.len() > 0 && buf[buf.len() - 1] != '/' {
        buf.push('/');
    }
    let ghost mid = buf@;
    match c {
        Component::CurDir => {
            buf.push('.');
            assert(buf@ =~= mid + dot());
        },
        Component::ParentDir => {
            buf.push('.');
            buf.push('.');
            assert(buf@ =~= mid + dot_dot());
        },
        Component::Normal(n) => {
            let mut j: usize = 0;
            while j < n.len()
                invariant
                    j <= n.len(),
                    buf@ == mid + n@.take(j as int),
                decreases n.len() - j,
            {
                buf.push(n[j]);
                assert(n@.take(j + 1) =~= n@.take(j as int).push(n@[j as int]));
                j += 1;
            }
            assert(n@.take(n.len() as int) =~= n@);
        },
        Component::RootDir => {},
    }
    assert(final(buf)@ =~= pushed(old(buf)@, c@));
}

/// The characters of the path made of the components `cs`.
fn render_chars(cs: &Vec<Component>) -> (v: Vec<char>)
    ensures
        v@ == render(comps_view(cs@)),
{
    let mut buf: Vec<char> = Vec::new();
    let mut i: usize = 0;
    while i < cs.len()
        invariant
            i <= cs.len(),
            buf@ == render(comps_view(cs@).take(i as int)),
        decreases cs.len() - i,
    {
        let ghost pre = comps_view(cs@).take(i as int);
        let ghost post = comps_view(cs@).take(i + 1);
        assert(post.drop_last() =~= pre);
        push_component(&mut buf, &cs[i]);
        i += 1;
    }
    assert(comps_view(cs@).take(cs.len() as int) =~= comps_view(cs@));
    buf
}

/// The lexically normalised component stack of `cs`.
fn norm_components(cs: &Vec<Component>) -> (st: Vec<Component>)
    ensures
        comps_view(st@) == norm_stack(comps_view(cs@)),
{
    let mut stack: Vec<Component> = Vec::new();
    let mut i: usize = 0;
    while i < cs.len()
        invariant
            i <= cs.len(),
            comps_view(stack@) == norm_stack(comps_view(cs@).take(i as int)),
        decreases cs.len() - i,
    {
        let ghost pre = comps_view(cs@).take(i as int);
        let ghost post = comps_view(cs@).take(i + 1);
        let ghost before = comps_view(stack@);
        assert(post.drop_last() =~= pre);
        assert(post.last() == cs@[i as int]@);
        match &cs[i] {
            Component::CurDir => {},
            Component::ParentDir => {
                if stack.len() == 0 {
                    stack.push(Component::ParentDir);
                    assert(comps_view(stack@) =~= before.push(PathComp::Parent));
                } else {
                    let top = stack.len() - 1;
                    assert(before.last() == stack@[top as int]@);
                    match &stack[top] {
                        Component::RootDir => {},
                        Component::CurDir => {},
                        Component::ParentDir => {
                            stack.push(Component::ParentDir);
                            assert(comps_view(stack@) =~= before.push(PathComp::Parent));
                        },
                        Component::Normal(_) => {
                            stack.pop();
                            assert(comps_view(stack@) =~= before.drop_last());
                        },
                    }
                }
            },
            c => {
                let d = c.copy();
                stack.push(d);
                assert(comps_view(stack@) =~= before.push(cs@[i as int]@));
            },
        }
        i += 1;
    }
    assert(comps_view(cs@).take(cs.len() as int) =~= comps_view(cs@));
    stack
}

/// Lexically normalises a path: `.` components go, `..` removes the preceding
/// normal component (and stays at the root); an empty result is `.`.
pub fn normalize(p: &str) -> (r: String)
    ensures
        r@ == normalized(p@),
{
    let v = chars_of(p);
    let cs = components_of(&v);
    let st = norm_components(&cs);
    if st.len() == 0 {
        let mut d: Vec<char> = Vec::new();
        d.push('.');
        assert(d@ =~= dot());
        string_of(&d)
    } else {
        let out = render_chars(&st);
        string_of(&out)
    }
}

/// Whether two character vectors are equal.
pub fn chars_eq(a: &Vec<char>, b: &Vec<char>) -> (r: bool)
    ensures
        r == (a@ == b@),
{
    if a.len() != b.len() {
        return false;
    }
    let mut i: usize = 0;
    while i < a.len()
        invariant
            i <= a.len(),
            a.len() == b.len(),
            a@.take(i as int) == b@.take(i as int),
        decreases a.len() - i,
    {
        if a[i] != b[i] {
            assert(a@[i as int] != b@[i as int]);
            return false;
        }
        assert(a@.take(i + 1) =~= a@.take(i as int).push(a@[i as int]));
        assert(b@.take(i + 1) =~= b@.take(i as int).push(b@[i as int]));
        i += 1;
    }
    assert(a@.take(a.len() as int) =~= a@);
    assert(b@.take(b.len() as int) =~= b@);
    true
}

/// Whether `file_name` is a valid item file name: it is left unchanged by
/// normalisation and is made of exactly one normal component.
pub fn is_valid_item_name(file_name: &str) -> (b: bool)
    ensures
        b == is_plain_name(file_name@),
{
    proof {
        lemma_item_name_iff_plain(file_name@);
    }
    let normed = normalize(file_name);
    let nv = chars_of(normed.as_str());
    let fv = chars_of(file_name);
    if !chars_eq(&nv, &fv) {
        return false;
    }
    let comps = components_of(&nv);
    if comps.len() != 1 {
        return false;
    }
    assert(comps_view(comps@)[0] == comps@[0]@);
    match &comps[0] {
        Component::Normal(_) => true,
        _ => false,
    }
}


// =================================================================================================
// Joining, parents, file names, extensions, prefixes
// =================================================================================================

/// `base` with `name` appended as `PathBuf::push` does: an absolute `name`
/// replaces `base`; otherwise a separator is put between them where needed.
pub open spec fn join_path(base: Seq<char>, name: Seq<char>) -> Seq<char> {
    if has_root(name) {
        name
    } else if base.len() == 0 {
        name
    } else if base.last() == '/' {
        base + name
    } else {
        base.push('/') + name
    }
}

/// The path without its last component; none for an empty path or the root.
pub open spec fn parent_path(p: Seq<char>) -> Option<Seq<char>> {
    let cs = components(p);
    if cs.len() == 0 || cs.last() is Root {
        None
    } else {
        Some(render(cs.drop_last()))
    }
}

/// The last component, when it is a normal one.
pub open spec fn file_name_of(p: Seq<char>) -> Option<Seq<char>> {
    let cs = components(p);
    if cs.len() > 0 && cs.last() is Normal {
        Some(cs.last()->Normal_0)
    } else {
        None
    }
}

/// The part of a file name after its last `.`, unless that `.` opens the name.
pub open spec fn name_extension(n: Seq<char>) -> Option<Seq<char>> {
    if exists|k: int| 0 < k < n.len() && n[k] == '.' {
        let k = choose|k: int|
            0 < k < n.len() && n[k] == '.' && forall|j: int| k < j < n.len() ==> n[j] != '.';
        Some(n.subrange(k + 1, n.len() as int))
    } else {
        None
    }
}

pub open spec fn extension_of(p: Seq<char>) -> Option<Seq<char>> {
    match file_name_of(p) {
        Some(n) => name_extension(n),
        None => None,
    }
}

/// `a` is a prefix of `b`.
pub open spec fn is_prefix_of<A>(a: Seq<A>, b: Seq<A>) -> bool {
    a.len() <= b.len() && b.take(a.len() as int) == a
}

/// Whether `p` starts with the components of `base`.
pub open spec fn path_starts_with(p: Seq<char>, base: Seq<char>) -> bool {
    is_prefix_of(components(base), components(p))
}

/// `base` joined with `name`.
pub fn join(base: &str, name: &str) -> (r: String)
    ensures
        r@ == join_path(base@, name@),
{
    let b = chars_of(base);
    let n = chars_of(name);
    let mut out: Vec<char>;
    if n.len() > 0 && n[0] == '/' {
        out = Vec::new();
    } else {
        out = b;
        if out.len() > 0 && out[out.len() - 1] != '/' {
            out.push('/');
        }
    }
    let ghost mid = out@;
    let mut j: usize = 0;
    while j < n.len()
        invariant
            j <= n.len(),
            out@ == mid + n@.take(j as int),
        decreases n.len() - j,
    {
        out.push(n[j]);
        assert(n@.take(j + 1) =~= n@.take(j as int).push(n@[j as int]));
        j += 1;
    }
    assert(n@.take(n.len() as int) =~= n@);
    assert(out@ =~= join_path(base@, name@));
    string_of(&out)
}

/// The parent of `p`, if it has one.
pub fn parent(p: &str) -> (r: Option<String>)
    ensures
        r matches Some(q) ==> parent_path(p@) == Some(q@),
        r is None ==> parent_path(p@) is None,
{
    let v = chars_of(p);
    let mut cs = components_of(&v);
    if cs.len() == 0 {
        return None;
    }
    let last = cs.len() - 1;
    assert(comps_view(cs@).last() == cs@[last as int]@);
    match &cs[last] {
        Component::RootDir => {
            return None;
        },
        _ => {},
    }
    let ghost before = comps_view(cs@);
    cs.pop();
    assert(comps_view(cs@) =~= before.drop_last());
    let out = render_chars(&cs);
    Some(string_of(&out))
}

/// The final normal component of `p`, if there is one.
pub fn file_name(p: &str) -> (r: Option<String>)
    ensures
        r matches Some(q) ==> file_name_of(p@) == Some(q@),
        r is None ==> file_name_of(p@) is None,
{
    let v = chars_of(p);
    let cs = components_of(&v);
    if cs.len() == 0 {
        return None;
    }
    let last = cs.len() - 1;
    assert(comps_view(cs@).last() == cs@[last as int]@);
    match &cs[last] {
        Component::Normal(n) => Some(string_of(n)),
        _ => None,
    }
}

/// The extension of the file name of `p`, if there is one.
pub fn extension(p: &str) -> (r: Option<String>)
    ensures
        r matches Some(q) ==> extension_of(p@) == Some(q@),
        r is None ==> extension_of(p@) is None,
{
    let name = match file_name(p) {
        Some(n) => n,
        None => {
            return None;
        },
    };
    let n = chars_of(name.as_str());
    let mut k: usize = n.len();
    // Look for the last '.' after the first character.
    while k > 1
        invariant
            k <= n.len(),
            n@ == name@,
            file_name_of(p@) == Some(name@),
            forall|j: int| k <= j < n.len() ==> n@[j] != '.',
        decreases k,
    {
        if n[k - 1] == '.' {
            let dot_at = k - 1;
            let ghost nn = n@;
            assert(0 < dot_at < nn.len() && nn[dot_at as int] == '.' && forall|j: int|
                dot_at < j < nn.len() ==> nn[j] != '.');
            let ghost kk = choose|k: int|
                0 < k < nn.len() && nn[k] == '.' && forall|j: int| k < j < nn.len() ==> nn[j] != '.';
            assert(kk == dot_at as int) by {
                if kk < dot_at {
                    assert(nn[dot_at as int] != '.');
                }
                if kk > dot_at {
                    assert(nn[kk] != '.');
                }
            }
            let mut ext: Vec<char> = Vec::new();
            let mut j: usize = k;
            while j < n.len()
                invariant
                    k <= j <= n.len(),
                    ext@ == n@.subrange(k as int, j as int),
                decreases n.len() - j,
            {
                ext.push(n[j]);
                assert(n@.subrange(k as int, j + 1) =~= n@.subrange(k as int, j as int).push(
                    n@[j as int],
                ));
                j += 1;
            }
            let e = string_of(&ext);
            assert(name_extension(nn) == Some(nn.subrange(kk + 1, nn.len() as int)));
            assert(ext@ =~= nn.subrange(kk + 1, nn.len() as int));
            assert(nn == name@);
            assert(file_name_of(p@) == Some(nn));
            assert(extension_of(p@) == name_extension(nn));
            return Some(e);
        }
        k -= 1;
    }
    assert(!exists|k: int| 0 < k < n@.len() && n@[k] == '.');
    None
}

/// Whether two components are equal.
fn comp_eq(a: &Component, b: &Component) -> (r: bool)
    ensures
        r == (a@ == b@),
{
    match (a, b) {
        (Component::RootDir, Component::RootDir) => true,
        (Component::CurDir, Component::CurDir) => true,
        (Component::ParentDir, Component::ParentDir) => true,
        (Component::Normal(x), Component::Normal(y)) => chars_eq(x, y),
        _ => false,
    }
}

/// Whether `p` starts with `base`, component by component.
pub fn starts_with(p: &str, base: &str) -> (r: bool)
    ensures
        r == path_starts_with(p@, base@),
{
    let pv = chars_of(p);
    let bv = chars_of(base);
    let pc = components_of(&pv);
    let bc = components_of(&bv);
    if bc.len() > pc.len() {
        return false;
    }
    let ghost pcv = comps_view(pc@);
    let ghost bcv = comps_view(bc@);
    let mut i: usize = 0;
    while i < bc.len()
        invariant
            i <= bc.len() <= pc.len(),
            pcv == comps_view(pc@),
            bcv == comps_view(bc@),
            pcv == components(p@),
            bcv == components(base@),
            pcv.take(i as int) == bcv.take(i as int),
        decreases bc.len() - i,
    {
        if !comp_eq(&pc[i], &bc[i]) {
            assert(pcv.take(bc.len() as int)[i as int] == pcv[i as int]);
            assert(bcv[i as int] == bc@[i as int]@);
            assert(pcv[i as int] == pc@[i as int]@);
            assert(pcv.take(bc.len() as int)[i as int] != bcv[i as int]);
            assert(pcv.take(bc.len() as int) != bcv);
            assert(bcv.len() == bc.len());
            assert(bcv == components(base@));
            assert(pcv == components(p@));
            return false;
        }
        assert(pcv.take(i + 1) =~= pcv.take(i as int).push(pcv[i as int]));
        assert(bcv.take(i + 1) =~= bcv.take(i as int).push(bcv[i as int]));
        i += 1;
    }
    assert(bcv.take(bc.len() as int) =~= bcv);
    true
}

// =================================================================================================
// Laws
// =================================================================================================

/// A normalised absolute path is the rendering of its own normal components,
/// which start at the root.
pub proof fn lemma_normal_absolute(d: Seq<char>)
    requires
        normalized(d) == d,
        has_root(d),
    ensures
        components(d).len() > 0,
        components(d)[0] is Root,
        is_normal_stack(components(d)),
        render(components(d)) == d,
{
    let st = norm_stack(components(d));
    lemma_components_wf(d);
    lemma_norm_stack_normal(components(d));
    if st.len() == 0 {
        assert(d == dot());
        assert(d[0] == '.');
    }
    lemma_components_render(st);
    assert(render(st) == d);
    assert(components(d) == st);
    assert(components(d)[0] == lead_comps(d)[0]);
}

/// Resolving a plain item name against a normalised absolute directory gives a
/// normalised path whose file name is the item name and whose parent is the
/// directory.
pub proof fn law_join_plain_name(dir: Seq<char>, name: Seq<char>)
    requires
        normalized(dir) == dir,
        has_root(dir),
        is_plain_name(name),
    ensures
        file_name_of(join_path(dir, name)) == Some(name),
        parent_path(join_path(dir, name)) == Some(dir),
        normalized(join_path(dir, name)) == join_path(dir, name),
        path_starts_with(join_path(dir, name), dir),
{
    lemma_normal_absolute(dir);
    let st = components(dir);
    let st2 = st.push(PathComp::Normal(name));
    assert(name[0] != '/') by {
        assert(!name.contains('/'));
    }
    assert(join_path(dir, name) == pushed(render(st), PathComp::Normal(name)));
    assert(st2.drop_last() =~= st);
    assert(render(st2) == join_path(dir, name));
    assert(is_normal_stack(st2)) by {
        assert forall|i: int| 0 <= i < st2.len() implies !(#[trigger] st2[i] is Cur) && (i > 0
            ==> !(st2[i] is Root)) && (st2[i] matches PathComp::Normal(n) ==> is_plain_name(n)) by {
            if i < st.len() {
                assert(st2[i] == st[i]);
            }
        }
        assert forall|i: int, j: int|
            0 <= i < j < st2.len() && #[trigger] st2[j] is Parent implies #[trigger] st2[i] is Parent by {
            assert(st2[j] == st[j]);
            assert(st2[i] == st[i]);
        }
    }
    lemma_components_render(st2);
    lemma_norm_stack_fixed(st2);
    assert(st2.last() == PathComp::Normal(name));
    assert(components(join_path(dir, name)).take(st.len() as int) =~= st);
}

/// The components of `.`: the one current-directory component.
proof fn lemma_components_dot()
    ensures
        components(dot()) == seq![PathComp::Cur],
{
    let q = dot();
    assert(split_segs(q) =~= seq![dot()]) by {
        lemma_split_single(dot());
    }
    lemma_segs_comps_single(dot());
    assert(has_lead_cur(q));
    assert(components(q) =~= seq![PathComp::Cur]);
}

/// The empty path has no components.
proof fn lemma_components_empty()
    ensures
        components(Seq::<char>::empty()) == Seq::<PathComp>::empty(),
{
    let e = Seq::<char>::empty();
    assert(split_segs(e) =~= seq![Seq::<char>::empty()]);
    assert(seq![Seq::<char>::empty()].drop_last() =~= Seq::<Seq<char>>::empty());
    assert(segs_comps(Seq::<Seq<char>>::empty()) =~= Seq::<PathComp>::empty());
    assert(seg_comp(Seq::<char>::empty()) =~= Seq::<PathComp>::empty());
    assert(seq![Seq::<char>::empty()].last() == Seq::<char>::empty());
    assert(segs_comps(seq![Seq::<char>::empty()]) =~= Seq::<PathComp>::empty());
    assert(components(e) =~= Seq::<PathComp>::empty());
}

/// The components of a normalised path: a normal stack, or the single `.`.
pub proof fn lemma_normalized_components(p: Seq<char>)
    ensures
        is_normal_stack(components(normalized(p))) || components(normalized(p)) == seq![
            PathComp::Cur,
        ],
{
    let st = norm_stack(components(p));
    lemma_components_wf(p);
    lemma_norm_stack_normal(components(p));
    if st.len() == 0 {
        lemma_components_dot();
    } else {
        lemma_components_render(st);
    }
}

/// Dropping the last component of a normal stack (or of the single `.`) and
/// rendering the rest gives a path whose components are the rest, again a
/// normal stack.
pub proof fn lemma_parent_components(cs: Seq<PathComp>)
    requires
        cs.len() > 0,
        is_normal_stack(cs) || cs == seq![PathComp::Cur],
    ensures
        components(render(cs.drop_last())) == cs.drop_last(),
        is_normal_stack(cs.drop_last()),
{
    let d = cs.drop_last();
    if cs == seq![PathComp::Cur] {
        assert(d =~= Seq::<PathComp>::empty());
    }
    assert(is_normal_stack(d)) by {
        if is_normal_stack(cs) {
            assert forall|i: int| 0 <= i < d.len() implies !(#[trigger] d[i] is Cur) && (i > 0
                ==> !(d[i] is Root)) && (d[i] matches PathComp::Normal(n) ==> is_plain_name(n)) by {
                assert(d[i] == cs[i]);
            }
            assert forall|i: int, j: int|
                0 <= i < j < d.len() && #[trigger] d[j] is Parent implies #[trigger] d[i] is Parent by {
                assert(d[j] == cs[j]);
                assert(d[i] == cs[i]);
            }
        }
    }
    if d.len() == 0 {
        assert(render(d) =~= Seq::<char>::empty());
        lemma_components_empty();
    } else {
        lemma_components_render(d);
    }
}

/// The parent of a normalised path is shorter than the path.
pub proof fn lemma_parent_shorter(c: Seq<char>)
    requires
        normalized(c) == c,
        parent_path(c) is Some,
    ensures
        parent_path(c)->0.len() < c.len(),
{
    let st = norm_stack(components(c));
    lemma_components_wf(c);
    lemma_norm_stack_normal(components(c));
    if st.len() == 0 {
        lemma_components_dot();
        assert(seq![PathComp::Cur].drop_last() =~= Seq::<PathComp>::empty());
        assert(render(Seq::<PathComp>::empty()) =~= Seq::<char>::empty());
    } else {
        lemma_components_render(st);
        let cs = components(c);
        assert(cs == st);
        let d = cs.drop_last();
        let x = cs.last();
        assert(x == cs[cs.len() - 1]);
        assert(render(cs) == pushed(render(d), x));
        assert(!(x is Root));
        assert(!(x is Cur));
        assert(comp_text(x).len() > 0) by {
            match x {
                PathComp::Normal(n) => {
                    assert(is_plain_name(n));
                },
                _ => {},
            }
        }
    }
}

/// Whether two paths have the same components.
pub fn same_path(a: &str, b: &str) -> (r: bool)
    ensures
        r == (components(a@) == components(b@)),
{
    let av = chars_of(a);
    let bv = chars_of(b);
    let ac = components_of(&av);
    let bc = components_of(&bv);
    let ghost x = comps_view(ac@);
    let ghost y = comps_view(bc@);
    if ac.len() != bc.len() {
        return false;
    }
    let mut i: usize = 0;
    while i < ac.len()
        invariant
            i <= ac.len(),
            ac.len() == bc.len(),
            x == comps_view(ac@),
            y == comps_view(bc@),
            x == components(a@),
            y == components(b@),
            x.take(i as int) == y.take(i as int),
        decreases ac.len() - i,
    {
        if !comp_eq(&ac[i], &bc[i]) {
            assert(x[i as int] != y[i as int]);
            return false;
        }
        assert(x.take(i + 1) =~= x.take(i as int).push(x[i as int]));
        assert(y.take(i + 1) =~= y.take(i as int).push(y[i as int]));
        i += 1;
    }
    assert(x.take(ac.len() as int) =~= x);
    assert(y.take(bc.len() as int) =~= y);
    true
}

/// Normalisation keeps the root at the bottom of the stack.
proof fn lemma_norm_stack_root(cs: Seq<PathComp>)
    requires
        cs.len() > 0,
        cs[0] is Root,
        forall|i: int| 0 < i < cs.len() ==> !(#[trigger] cs[i] is Root),
    ensures
        norm_stack(cs).len() > 0,
        norm_stack(cs)[0] is Root,
        forall|i: int| 0 < i < norm_stack(cs).len() ==> !(#[trigger] norm_stack(cs)[i] is Root),
    decreases cs.len(),
{
    let d = cs.drop_last();
    if cs.len() == 1 {
        assert(d =~= Seq::<PathComp>::empty());
        assert(norm_stack(cs) =~= seq![PathComp::Root]);
    } else {
        assert forall|i: int| 0 < i < d.len() implies !(#[trigger] d[i] is Root) by {
            assert(d[i] == cs[i]);
        }
        assert(d[0] == cs[0]);
        lemma_norm_stack_root(d);
        let st = norm_stack(d);
        let c = cs.last();
        assert(c == cs[cs.len() - 1]);
        let r = norm_step(st, c);
        assert(norm_stack(cs) == r);
        if st.len() == 1 {
            assert(st.last() == st[0]);
        }
        assert forall|i: int| 0 < i < r.len() implies !(#[trigger] r[i] is Root) by {
            if i < st.len() {
                assert(r[i] == st[i]);
            }
        }
    }
}

/// A rendering that starts at the root starts with `/`.
proof fn lemma_render_root(st: Seq<PathComp>)
    requires
        st.len() > 0,
        st[0] is Root,
        forall|i: int| 0 < i < st.len() ==> !(#[trigger] st[i] is Root),
    ensures
        render(st).len() > 0,
        render(st)[0] == '/',
    decreases st.len(),
{
    let d = st.drop_last();
    if st.len() == 1 {
        assert(d =~= Seq::<PathComp>::empty());
    } else {
        assert forall|i: int| 0 < i < d.len() implies !(#[trigger] d[i] is Root) by {
            assert(d[i] == st[i]);
        }
        assert(d[0] == st[0]);
        lemma_render_root(d);
        let c = st.last();
        assert(c == st[st.len() - 1]);
        let b = render(d);
        if b.last() == '/' {
            assert((b + comp_text(c))[0] == b[0]);
        } else {
            assert((b.push('/') + comp_text(c))[0] == b[0]);
        }
    }
}

/// Normalising an absolute path gives an absolute path.
pub proof fn lemma_normalized_keeps_root(p: Seq<char>)
    requires
        has_root(p),
    ensures
        has_root(normalized(p)),
{
    let cs = components(p);
    lemma_components_wf(p);
    assert(lead_comps(p) == seq![PathComp::Root]);
    assert(cs[0] == PathComp::Root);
    lemma_norm_stack_root(cs);
    lemma_render_root(norm_stack(cs));
}

/// Whether `a` is a subsequence of `b`: its elements occur in `b` in order.
pub open spec fn is_subseq<A>(a: Seq<A>, b: Seq<A>) -> bool
    decreases b.len(),
{
    if a.len() == 0 {
        true
    } else if b.len() == 0 {
        false
    } else if a.last() == b.last() {
        is_subseq(a.drop_last(), b.drop_last())
    } else {
        is_subseq(a, b.drop_last())
    }
}

proof fn lemma_subseq_push<A>(a: Seq<A>, b: Seq<A>, x: A)
    requires
        is_subseq(a, b),
    ensures
        is_subseq(a, b.push(x)),
    decreases b.len(), 1int,
{
    assert(b.push(x).drop_last() =~= b);
    if a.len() > 0 && a.last() == x {
        lemma_subseq_drop_last(a, b);
    }
}

proof fn lemma_subseq_drop_last<A>(a: Seq<A>, b: Seq<A>)
    requires
        is_subseq(a, b),
        a.len() > 0,
    ensures
        is_subseq(a.drop_last(), b),
    decreases b.len(), 0int,
{
    let d = b.drop_last();
    assert(d.push(b.last()) =~= b);
    if a.last() == b.last() {
        lemma_subseq_push(a.drop_last(), d, b.last());
    } else {
        lemma_subseq_drop_last(a, d);
        lemma_subseq_push(a.drop_last(), d, b.last());
    }
}

proof fn lemma_subseq_contains<A>(a: Seq<A>, b: Seq<A>, i: int)
    requires
        is_subseq(a, b),
        0 <= i < a.len(),
    ensures
        b.contains(a[i]),
    decreases b.len(),
{
    let d = b.drop_last();
    if a.last() == b.last() {
        if i == a.len() - 1 {
            assert(b[b.len() - 1] == a[i]);
        } else {
            assert(a.drop_last()[i] == a[i]);
            lemma_subseq_contains(a.drop_last(), d, i);
            let k = choose|k: int| 0 <= k < d.len() && d[k] == a[i];
            assert(b[k] == a[i]);
        }
    } else {
        lemma_subseq_contains(a, d, i);
        let k = choose|k: int| 0 <= k < d.len() && d[k] == a[i];
        assert(b[k] == a[i]);
    }
}

/// Normalisation keeps some of the components, in their order.
proof fn lemma_norm_stack_subseq(cs: Seq<PathComp>)
    ensures
        is_subseq(norm_stack(cs), cs),
    decreases cs.len(),
{
    if cs.len() > 0 {
        let d = cs.drop_last();
        let c = cs.last();
        lemma_norm_stack_subseq(d);
        let st = norm_stack(d);
        assert(d.push(c) =~= cs);
        let r = norm_step(st, c);
        if r == st {
            lemma_subseq_push(st, d, c);
        } else if r == st.push(c) {
            assert(r.drop_last() =~= st);
        } else {
            assert(r == st.drop_last());
            lemma_subseq_drop_last(st, d);
            lemma_subseq_push(st.drop_last(), d, c);
        }
    }
}

/// A relative path has no root component.
proof fn lemma_relative_no_root(s: Seq<char>)
    requires
        !has_root(s),
    ensures
        forall|i: int| 0 <= i < components(s).len() ==> !(#[trigger] components(s)[i] is Root),
{
    lemma_split_no_slash(s);
    lemma_segs_comps_wf(split_segs(s));
    let l = lead_comps(s);
    let r = segs_comps(split_segs(s));
    assert forall|i: int| 0 <= i < components(s).len() implies !(#[trigger] components(s)[i] is Root) by {
        if i < l.len() {
            assert(components(s)[i] == l[i]);
        } else {
            assert(components(s)[i] == r[i - l.len()]);
        }
    }
}

/// Normalising gives a non-empty path, absolute exactly when the path is; it
/// is `.` or its components are a normal stack (no `.`, and `..` only in a run
/// at the start of a relative path); and those components are some of the
/// components of the path, in their order.
pub proof fn law_normalize_shape(p: Seq<char>)
    ensures
        normalized(p).len() > 0,
        has_root(normalized(p)) == has_root(p),
        normalized(p) == dot() || is_normal_stack(components(normalized(p))),
        normalized(p) == dot() || is_subseq(components(normalized(p)), components(p)),
{
    let cs = components(p);
    let st = norm_stack(cs);
    lemma_components_wf(p);
    lemma_norm_stack_normal(cs);
    lemma_norm_stack_subseq(cs);
    if has_root(p) {
        lemma_normalized_keeps_root(p);
    }
    if st.len() > 0 {
        lemma_components_render(st);
        lemma_render_normal(st);
        if !has_root(p) && has_root(normalized(p)) {
            lemma_relative_no_root(p);
            lemma_subseq_contains(st, cs, 0);
            let k = choose|k: int| 0 <= k < cs.len() && cs[k] == st[0];
            assert(components(normalized(p))[0] == lead_comps(normalized(p))[0]);
            assert(!(cs[k] is Root));
        }
        if normalized(p).len() == 0 {
            assert(components(normalized(p)) =~= Seq::<PathComp>::empty()) by {
                lemma_components_empty();
            }
        }
    }
}

/// A normalised path starts with itself.
pub proof fn law_starts_with_self(p: Seq<char>)
    ensures
        path_starts_with(p, p),
{
    assert(components(p).take(components(p).len() as int) =~= components(p));
}

} // verus!
