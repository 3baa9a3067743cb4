//! Name helpers: normalisation and item names (from `path`), and fuzzy matching
//! of a name against a list of names by a glob pattern.
use vstd::prelude::*;

pub use crate::path::{is_valid_item_name, normalize};
use crate::text::{concat_str, push_char, u64_to_string};

verus! {

#[verifier::external_type_specification]
#[verifier::external_body]
pub struct ExGlobPattern(glob::Pattern);

/// Whether `glob::Pattern::new` accepts `pattern`.
pub uninterp spec fn glob_pattern_is_valid(pattern: Seq<char>) -> bool;

/// Whether the pattern compiled from `pattern` by `glob::Pattern::new` matches
/// `text` under `glob::Pattern::matches`.
pub uninterp spec fn glob_pattern_matches(pattern: Seq<char>, text: Seq<char>) -> bool;

/// A compiled glob pattern together with the text it was compiled from.
pub struct GlobPattern {
    source: String,
    compiled: glob::Pattern,
}

impl GlobPattern {
    /// The text that the pattern was compiled from.
    pub closed spec fn source(&self) -> Seq<char> {
        self.source@
    }

    /// Compiles `source` with `glob::Pattern::new`.
    /// Trusted: the result is there exactly when the glob crate accepts the
    /// pattern, and it keeps `source` as its text.
    #[verifier::external_body]
    pub(crate) fn compile(source: String) -> (r: Option<GlobPattern>)
        ensures
            r is Some <==> glob_pattern_is_valid(source@),
            r matches Some(g) ==> g.source() == source@,
    {
        match glob::Pattern::new(&source) {
            Ok(compiled) => Some(GlobPattern { source, compiled }),
            Err(_) => None,
        }
    }

    /// Matches `text` with `glob::Pattern::matches`.
    /// Trusted: the answer is the glob crate's answer for this pattern text and
    /// `text`, which depends on nothing else.
    #[verifier::external_body]
    pub(crate) fn matches(&self, text: &str) -> (b: bool)
        ensures
            b == glob_pattern_matches(self.source(), text@),
    {
        self.compiled.matches(text)
    }
}

/// The failures of a fuzzy name match; each holds the pattern that was used.
#[derive(Debug, PartialEq, Clone)]
pub enum FuzzyMatchError {
    InvalidPattern(String),
    ZeroMatches(String),
    MultipleMatches(String, usize),
}

impl FuzzyMatchError {
    /// A short description of the failure.
    pub fn description(&self) -> (r: &'static str)
        ensures
            self is InvalidPattern ==> r@ == "Invalid glob pattern"@,
            self is ZeroMatches ==> r@ == "Found zero matches for pattern, expected exactly one"@,
            self is MultipleMatches ==> r@
                == "Found multiple matches for pattern, expected exactly one"@,
    {
        match self {
            FuzzyMatchError::InvalidPattern(_) => "Invalid glob pattern",
            FuzzyMatchError::ZeroMatches(_) => "Found zero matches for pattern, expected exactly one",
            FuzzyMatchError::MultipleMatches(_, _) =>
                "Found multiple matches for pattern, expected exactly one",
        }
    }

    /// The full message, as the error's display text.
    pub fn message(&self) -> (r: String)
        ensures
            self matches FuzzyMatchError::InvalidPattern(p) ==> r@ == "Invalid glob pattern: \""@
                + p@ + "\""@,
            self matches FuzzyMatchError::ZeroMatches(p) ==> r@ == "Found 0 matches for pattern \""@
                + p@ + "\", expected exactly one"@,
            self matches FuzzyMatchError::MultipleMatches(p, n) ==> r@ == "Found "@ + decimal_of(*n)
                + " matches for pattern \""@ + p@ + "\", expected exactly one"@,
    {
        match self {
            FuzzyMatchError::InvalidPattern(p) => {
                let a = concat_str("Invalid glob pattern: \"", p.as_str());
                concat_str(a.as_str(), "\"")
            },
            FuzzyMatchError::ZeroMatches(p) => {
                let a = concat_str("Found 0 matches for pattern \"", p.as_str());
                concat_str(a.as_str(), "\", expected exactly one")
            },
            FuzzyMatchError::MultipleMatches(p, n) => {
                let c = u64_to_string(*n as u64);
                let a = concat_str("Found ", c.as_str());
                let b = concat_str(a.as_str(), " matches for pattern \"");
                let d = concat_str(b.as_str(), p.as_str());
                concat_str(d.as_str(), "\", expected exactly one")
            },
        }
    }
}

pub open spec fn decimal_of(n: usize) -> Seq<char> {
    crate::text::decimal(n as nat)
}

/// The pattern used to match `needle`: the needle followed by `*`.
pub open spec fn fuzzy_pattern(needle: Seq<char>) -> Seq<char> {
    needle.push('*')
}

/// How many entries of `hs` are flagged.
pub open spec fn count_flagged(flags: Seq<bool>) -> nat
    decreases flags.len(),
{
    if flags.len() == 0 {
        0
    } else {
        count_flagged(flags.drop_last()) + if flags.last() {
            1nat
        } else {
            0nat
        }
    }
}

/// Which entries of `hs` the pattern matches.
pub open spec fn match_flags(pattern: Seq<char>, hs: Seq<&str>) -> Seq<bool> {
    hs.map_values(|s: &str| glob_pattern_matches(pattern, s@))
}

/// The outcome of a fuzzy match, given whether the pattern compiles and which
/// entries of the haystack it matches: the one matched entry, or the failure.
pub open spec fn fuzzy_outcome<'a>(
    pattern: Seq<char>,
    valid: bool,
    hs: Seq<&'a str>,
    flags: Seq<bool>,
) -> FuzzyOutcome {
    if !valid {
        FuzzyOutcome::Invalid
    } else if count_flagged(flags) == 0 {
        FuzzyOutcome::Zero
    } else if count_flagged(flags) > 1 {
        FuzzyOutcome::Multiple(count_flagged(flags))
    } else {
        FuzzyOutcome::One(first_flagged(flags))
    }
}

/// The index of the first flagged entry (the length when there is none).
pub open spec fn first_flagged(flags: Seq<bool>) -> int
    decreases flags.len(),
{
    if flags.len() == 0 {
        0
    } else if flags[0] {
        0
    } else {
        1 + first_flagged(flags.drop_first())
    }
}

/// The first flagged index is flagged, and no earlier index is.
pub proof fn lemma_first_flagged(flags: Seq<bool>, i: int)
    requires
        0 <= i < flags.len(),
        flags[i],
    ensures
        0 <= first_flagged(flags) <= i,
        flags[first_flagged(flags)],
    decreases flags.len(),
{
    if !flags[0] {
        assert(flags.drop_first()[i - 1] == flags[i]);
        lemma_first_flagged(flags.drop_first(), i - 1);
        assert(flags[first_flagged(flags)] == flags.drop_first()[first_flagged(flags.drop_first())]);
    }
}

/// The shape of a fuzzy match outcome: the index of the one match, or why not.
pub enum FuzzyOutcome {
    Invalid,
    Zero,
    Multiple(nat),
    One(int),
}

/// Whether `r` is what a fuzzy match with the given facts returns.
pub open spec fn fuzzy_result_is<'a>(
    r: Result<&'a str, FuzzyMatchError>,
    pattern: Seq<char>,
    valid: bool,
    hs: Seq<&'a str>,
    flags: Seq<bool>,
) -> bool {
    match fuzzy_outcome(pattern, valid, hs, flags) {
        FuzzyOutcome::Invalid => r matches Err(FuzzyMatchError::InvalidPattern(p)) && p@ == pattern,
        FuzzyOutcome::Zero => r matches Err(FuzzyMatchError::ZeroMatches(p)) && p@ == pattern,
        FuzzyOutcome::Multiple(n) => r matches Err(FuzzyMatchError::MultipleMatches(p, k)) && p@
            == pattern && k == n,
        FuzzyOutcome::One(i) => r == Ok::<&'a str, FuzzyMatchError>(hs[i]),
    }
}

proof fn lemma_count_one_unique(flags: Seq<bool>, i: int)
    requires
        count_flagged(flags) == 1,
        0 <= i < flags.len(),
        flags[i],
    ensures
        forall|j: int| 0 <= j < flags.len() && flags[j] ==> j == i,
    decreases flags.len(),
{
    lemma_count_le_len(flags);
    let d = flags.drop_last();
    if i == flags.len() - 1 {
        assert(count_flagged(d) == 0);
        assert forall|j: int| 0 <= j < flags.len() && flags[j] implies j == i by {
            if j < flags.len() - 1 {
                assert(d[j]);
                lemma_count_pos(d, j);
            }
        }
    } else {
        assert(d[i] == flags[i]);
        lemma_count_pos(d, i);
        if flags.last() {
            assert(false);
        }
        lemma_count_one_unique(d, i);
        assert forall|j: int| 0 <= j < flags.len() && flags[j] implies j == i by {
            if j < flags.len() - 1 {
                assert(d[j]);
            }
        }
    }
}

/// A count of one means some entry is flagged.
pub proof fn lemma_count_pos_exists(flags: Seq<bool>)
    requires
        count_flagged(flags) >= 1,
    ensures
        exists|k: int| 0 <= k < flags.len() && flags[k],
    decreases flags.len(),
{
    if flags.len() > 0 {
        if flags.last() {
            assert(flags[flags.len() - 1]);
        } else {
            lemma_count_pos_exists(flags.drop_last());
            let k = choose|k: int| 0 <= k < flags.len() - 1 && flags.drop_last()[k];
            assert(flags[k]);
        }
    }
}

proof fn lemma_count_pos(flags: Seq<bool>, i: int)
    requires
        0 <= i < flags.len(),
        flags[i],
    ensures
        count_flagged(flags) >= 1,
    decreases flags.len(),
{
    if i < flags.len() - 1 {
        assert(flags.drop_last()[i] == flags[i]);
        lemma_count_pos(flags.drop_last(), i);
    }
}

proof fn lemma_count_le_len(flags: Seq<bool>)
    ensures
        count_flagged(flags) <= flags.len(),
    decreases flags.len(),
{
    if flags.len() > 0 {
        lemma_count_le_len(flags.drop_last());
    }
}

/// Picks the one flagged entry of `haystack`, or says why there is not exactly
/// one; `valid` tells whether `pattern` compiled.
pub fn pick_unique_match<'a>(
    pattern: String,
    valid: bool,
    haystack: &Vec<&'a str>,
    flags: &Vec<bool>,
) -> (r: Result<&'a str, FuzzyMatchError>)
    requires
        flags.len() == haystack.len(),
    ensures
        fuzzy_result_is(r, pattern@, valid, haystack@, flags@),
{
    if !valid {
        return Err(FuzzyMatchError::InvalidPattern(pattern));
    }
    let mut count: usize = 0;
    let mut found: usize = 0;
    let mut i: usize = 0;
    while i < flags.len()
        invariant
            i <= flags.len(),
            count == count_flagged(flags@.take(i as int)),
            count <= i,
            count >= 1 ==> found < i && flags@[found as int],
        decreases flags.len() - i,
    {
        assert(flags@.take(i + 1).drop_last() =~= flags@.take(i as int));
        if flags[i] {
            count += 1;
            found = i;
        }
        i += 1;
    }
    assert(flags@.take(flags.len() as int) =~= flags@);
    if count == 0 {
        Err(FuzzyMatchError::ZeroMatches(pattern))
    } else if count > 1 {
        Err(FuzzyMatchError::MultipleMatches(pattern, count))
    } else {
        proof {
            lemma_count_one_unique(flags@, found as int);
            lemma_first_flagged(flags@, found as int);
        }
        Ok(haystack[found])
    }
}

/// Matches `needle` against the names of `haystack` with the glob pattern
/// `needle*`, and returns the one name that matches; it fails when the pattern
/// is invalid, or when no name or several names match.
pub fn fuzzy_name_match<'a>(needle: &str, haystack: &Vec<&'a str>) -> (r: Result<
    &'a str,
    FuzzyMatchError,
>)
    ensures
        fuzzy_result_is(
            r,
            fuzzy_pattern(needle@),
            glob_pattern_is_valid(fuzzy_pattern(needle@)),
            haystack@,
            match_flags(fuzzy_pattern(needle@), haystack@),
        ),
{
    let mut pattern_str = String::from_str(needle);
    push_char(&mut pattern_str, '*');
    let compiled = GlobPattern::compile(pattern_str.clone());
    let mut flags: Vec<bool> = Vec::new();
    let valid = compiled.is_some();
    match &compiled {
        Some(g) => {
            let mut i: usize = 0;
            while i < haystack.len()
                invariant
                    i <= haystack.len(),
                    g.source() == fuzzy_pattern(needle@),
                    flags@ == match_flags(fuzzy_pattern(needle@), haystack@).take(i as int),
                decreases haystack.len() - i,
            {
                let b = g.matches(haystack[i]);
                flags.push(b);
                assert(flags@ =~= match_flags(fuzzy_pattern(needle@), haystack@).take(i + 1));
                i += 1;
            }
            assert(flags@ =~= match_flags(fuzzy_pattern(needle@), haystack@));
        },
        None => {
            let mut i: usize = 0;
            while i < haystack.len()
                invariant
                    i <= haystack.len(),
                    flags@.len() == i,
                decreases haystack.len() - i,
            {
                flags.push(false);
                i += 1;
            }
        },
    }
    let r = pick_unique_match(pattern_str, valid, haystack, &flags);
    r
}

} // verus!
