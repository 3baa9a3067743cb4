//! Which paths of a directory count as media items.
use vstd::prelude::*;

use crate::fs::{dir_children, node_exists, node_is_dir, node_is_file, FsNode, FsSnapshot};
use crate::path::{
    extension, extension_of, file_name, file_name_of, lemma_normalized_idempotent, normalize,
    normalized,
};

verus! {

#[verifier::external_type_specification]
#[verifier::external_body]
pub struct ExRegex(regex::Regex);

/// Whether `regex::Regex::new` accepts `pattern`.
pub uninterp spec fn regex_is_valid(pattern: Seq<char>) -> bool;

/// Whether the regex compiled from `pattern` by `regex::Regex::new` matches
/// somewhere in `text` under `regex::Regex::is_match`.
pub uninterp spec fn regex_is_match(pattern: Seq<char>, text: Seq<char>) -> bool;

/// A compiled regular expression together with the text it was compiled from.
#[derive(Debug)]
pub struct RegexPattern {
    source: String,
    compiled: regex::Regex,
}

impl RegexPattern {
    /// The text that the expression was compiled from.
    pub closed spec fn source(&self) -> Seq<char> {
        self.source@
    }

    /// Compiles `source` with `regex::Regex::new`.
    /// Trusted: the result is there exactly when the regex crate accepts the
    /// pattern, and it keeps `source` as its text.
    #[verifier::external_body]
    pub(crate) fn compile(source: String) -> (r: Option<RegexPattern>)
        ensures
            r is Some <==> regex_is_valid(source@),
            r matches Some(x) ==> x.source() == source@,
    {
        match regex::Regex::new(&source) {
            Ok(compiled) => Some(RegexPattern { source, compiled }),
            Err(_) => None,
        }
    }

    /// The expression compiled from `pattern`, when it is a valid one.
    pub fn new(pattern: &str) -> (r: Option<RegexPattern>)
        ensures
            r is Some <==> regex_is_valid(pattern@),
            r matches Some(x) ==> x.source() == pattern@,
    {
        RegexPattern::compile(String::from_str(pattern))
    }

    /// Searches `text` with `regex::Regex::is_match`.
    /// Trusted: the answer is the regex crate's answer for this pattern text and
    /// `text`, which depends on nothing else.
    #[verifier::external_body]
    pub fn is_match(&self, text: &str) -> (b: bool)
        ensures
            b == regex_is_match(self.source(), text@),
    {
        self.compiled.is_match(text)
    }
}

/// A rule that selects paths.
#[derive(Debug)]
pub enum Selection {
    /// The file name has this extension.
    Ext(String),
    /// The file name matches this expression.
    Regex(RegexPattern),
    IsFile,
    IsDir,
    And(Box<Selection>, Box<Selection>),
    Or(Box<Selection>, Box<Selection>),
    Xor(Box<Selection>, Box<Selection>),
    Not(Box<Selection>),
    True,
    False,
}

/// Whether the rule holds of the existing path `p`.
pub open spec fn selects(sel: Selection, nodes: Seq<FsNode>, p: Seq<char>) -> bool
    decreases sel,
{
    match sel {
        Selection::Ext(e) => extension_of(p) == Some(e@),
        Selection::Regex(r) => match file_name_of(p) {
            Some(n) => regex_is_match(r.source(), n),
            None => false,
        },
        Selection::IsFile => node_is_file(nodes, p),
        Selection::IsDir => node_is_dir(nodes, p),
        Selection::And(a, b) => selects(*a, nodes, p) && selects(*b, nodes, p),
        Selection::Or(a, b) => selects(*a, nodes, p) || selects(*b, nodes, p),
        Selection::Xor(a, b) => selects(*a, nodes, p) != selects(*b, nodes, p),
        Selection::Not(a) => !selects(*a, nodes, p),
        Selection::True => true,
        Selection::False => false,
    }
}

/// A regex selection looks at the file name alone: two paths with the same
/// file name, in whatever directories and snapshots, are both selected or both
/// not; a path without a file name is never selected; and a selected path's
/// file name is matched by the expression.
pub proof fn law_regex_selects_file_name(
    r: RegexPattern,
    nodes_a: Seq<FsNode>,
    nodes_b: Seq<FsNode>,
    a: Seq<char>,
    b: Seq<char>,
)
    ensures
        file_name_of(a) == file_name_of(b) ==> selects(Selection::Regex(r), nodes_a, a) == selects(
            Selection::Regex(r),
            nodes_b,
            b,
        ),
        file_name_of(a) is None ==> !selects(Selection::Regex(r), nodes_a, a),
        selects(Selection::Regex(r), nodes_a, a) ==> regex_is_match(r.source(), file_name_of(a)->Some_0),
{
}

/// Whether `p`, once normalised, exists and the rule holds of it.
pub open spec fn is_selected(sel: Selection, nodes: Seq<FsNode>, p: Seq<char>) -> bool {
    node_exists(nodes, normalized(p)) && selects(sel, nodes, normalized(p))
}

/// The paths of `ps` that the rule selects, in order.
pub open spec fn select_paths(sel: Selection, nodes: Seq<FsNode>, ps: Seq<Seq<char>>) -> Seq<Seq<char>>
    decreases ps.len(),
{
    if ps.len() == 0 {
        Seq::empty()
    } else {
        select_paths(sel, nodes, ps.drop_last()) + if is_selected(sel, nodes, ps.last()) {
            seq![ps.last()]
        } else {
            Seq::empty()
        }
    }
}

/// Each selected path is one of the paths it was selected from, and exists.
pub proof fn lemma_select_paths(sel: Selection, nodes: Seq<FsNode>, ps: Seq<Seq<char>>, k: int)
    requires
        0 <= k < select_paths(sel, nodes, ps).len(),
    ensures
        exists|j: int| 0 <= j < ps.len() && #[trigger] ps[j] == select_paths(sel, nodes, ps)[k],
        is_selected(sel, nodes, select_paths(sel, nodes, ps)[k]),
    decreases ps.len(),
{
    let d = ps.drop_last();
    let prev = select_paths(sel, nodes, d);
    if k < prev.len() {
        lemma_select_paths(sel, nodes, d, k);
        let j = choose|j: int| 0 <= j < d.len() && #[trigger] d[j] == prev[k];
        assert(ps[j] == d[j]);
    } else {
        assert(select_paths(sel, nodes, ps)[k] == ps.last());
        assert(ps[ps.len() - 1] == ps.last());
    }
}

/// The paths that the rule selects among the entries of `dir`, in snapshot order.
pub open spec fn selected_in_dir(sel: Selection, nodes: Seq<FsNode>, dir: Seq<char>) -> Seq<Seq<char>> {
    select_paths(sel, nodes, dir_children(nodes, normalized(dir)))
}

impl Selection {
    /// Whether the path exists in the snapshot and the rule selects it.
    pub fn is_selected_path(&self, fs: &FsSnapshot, abs_item_path: &str) -> (r: bool)
        ensures
            r == is_selected(*self, fs@, abs_item_path@),
        decreases self,
    {
        let p = normalize(abs_item_path);
        if !fs.path_exists(p.as_str()) {
            return false;
        }
        proof {
            lemma_normalized_idempotent(abs_item_path@);
        }
        match self {
            Selection::Ext(e_ext) => match extension(p.as_str()) {
                Some(x) => crate::text::str_eq(x.as_str(), e_ext.as_str()),
                None => false,
            },
            Selection::Regex(r_exp) => match file_name(p.as_str()) {
                Some(f) => r_exp.is_match(f.as_str()),
                None => false,
            },
            Selection::IsFile => fs.is_file(p.as_str()),
            Selection::IsDir => fs.is_dir(p.as_str()),
            Selection::And(sel_a, sel_b) => sel_a.is_selected_path(fs, p.as_str())
                && sel_b.is_selected_path(fs, p.as_str()),
            Selection::Or(sel_a, sel_b) => sel_a.is_selected_path(fs, p.as_str())
                || sel_b.is_selected_path(fs, p.as_str()),
            Selection::Xor(sel_a, sel_b) => sel_a.is_selected_path(fs, p.as_str())
                != sel_b.is_selected_path(fs, p.as_str()),
            Selection::Not(sel) => !sel.is_selected_path(fs, p.as_str()),
            Selection::True => true,
            Selection::False => false,
        }
    }

    /// The selected paths among the entries of `abs_dir_path`, in snapshot order.
    pub fn selected_entries_in_dir(&self, fs: &FsSnapshot, abs_dir_path: &str) -> (r: Vec<String>)
        ensures
            r@.map_values(|s: String| s@) == selected_in_dir(*self, fs@, abs_dir_path@),
    {
        let entries = fs.read_dir(abs_dir_path);
        let ghost ps = entries@.map_values(|s: String| s@);
        let mut out: Vec<String> = Vec::new();
        let mut i: usize = 0;
        while i < entries.len()
            invariant
                i <= entries.len(),
                ps == entries@.map_values(|s: String| s@),
                out@.map_values(|s: String| s@) == select_paths(*self, fs@, ps.take(i as int)),
            decreases entries.len() - i,
        {
            let ghost pre = ps.take(i as int);
            let ghost post = ps.take(i + 1);
            assert(post.drop_last() =~= pre);
            assert(post.last() == entries@[i as int]@);
            let ghost before = out@;
            if self.is_selected_path(fs, entries[i].as_str()) {
                out.push(entries[i].clone());
                assert(out@.map_values(|s: String| s@) =~= before.map_values(|s: String| s@).push(
                    entries@[i as int]@,
                ));
            }
            assert(out@.map_values(|s: String| s@) =~= select_paths(*self, fs@, post));
            i += 1;
        }
        assert(ps.take(entries.len() as int) =~= ps);
        out
    }
}

} // verus!
