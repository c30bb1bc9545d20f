//! Exclusion matching over glob patterns.
//!
//! Patterns are compiled once, before any traversal; matching is applied to a
//! path's final name component only. Compilation and matching are done by the
//! `glob` crate; their results are named by the spec functions below.

use vstd::prelude::*;
use vstd::string::StringExecFns;

verus! {

/// Declares the `glob` crate's compiled pattern type to the verifier; a
/// value of it is carried opaquely and consulted only through the trusted
/// functions below.
#[verifier::external_type_specification]
#[verifier::external_body]
pub struct ExPattern(glob::Pattern);

/// The pattern string a compiled `glob::Pattern` was built from.
pub uninterp spec fn pattern_source(p: glob::Pattern) -> Seq<char>;

/// Whether a pattern string is valid glob syntax, as `glob::Pattern::new`
/// decides it.
pub uninterp spec fn glob_pattern_ok(pattern: Seq<char>) -> bool;

/// Whether a name matches a glob pattern, as `glob::Pattern::matches`
/// decides it for the compiled form of `pattern`.
pub uninterp spec fn glob_match(pattern: Seq<char>, name: Seq<char>) -> bool;

/// Relies on `glob::Pattern::new`: compilation succeeds or fails on the
/// pattern string alone, and a compiled pattern remembers that string.
#[verifier::external_body]
fn compile_pattern(pattern: &str) -> (r: Option<glob::Pattern>)
    ensures
        r is Some <==> glob_pattern_ok(pattern@),
        r matches Some(p) ==> pattern_source(p) == pattern@,
{
    match glob::Pattern::new(pattern) {
        Ok(p) => Some(p),
        Err(_) => None,
    }
}

/// Relies on `glob::Pattern::matches`: the answer is a function of the
/// compiled pattern's source string and the name alone.
#[verifier::external_body]
fn pattern_matches(p: &glob::Pattern, name: &str) -> (r: bool)
    ensures
        r == glob_match(pattern_source(*p), name@),
{
    p.matches(name)
}

/// The sources of a sequence of compiled patterns.
pub open spec fn pattern_sources(ps: Seq<glob::Pattern>) -> Seq<Seq<char>> {
    ps.map_values(|p: glob::Pattern| pattern_source(p))
}

/// A name is excluded when any pattern matches it.
pub open spec fn name_excluded(patterns: Seq<Seq<char>>, name: Seq<char>) -> bool {
    exists|i: int| 0 <= i < patterns.len() && glob_match(patterns[i], name)
}

/// All pattern strings in a list are valid glob syntax.
pub open spec fn patterns_ok(patterns: Seq<Seq<char>>) -> bool {
    forall|i: int| 0 <= i < patterns.len() ==> glob_pattern_ok(#[trigger] patterns[i])
}

/// An analysis that cannot start: one of the configured exclusion patterns
/// is not valid glob syntax. The offending pattern is carried verbatim.
#[derive(Debug, Clone)]
pub enum AnalysisError {
    InvalidPattern(String),
}

impl AnalysisError {
    /// A short description of the error.
    pub fn message(&self) -> (r: String)
        ensures
            self matches AnalysisError::InvalidPattern(p) ==> r@ == "invalid exclude pattern: "@
                + p@,
    {
        match self {
            AnalysisError::InvalidPattern(p) => {
                let mut m = "invalid exclude pattern: ".to_owned();
                m.append(p.as_str());
                m
            },
        }
    }
}

/// Compile every exclusion pattern, or report the first invalid one.
pub fn build_exclusion_matcher(patterns: &Vec<String>) -> (r: Result<
    Vec<glob::Pattern>,
    AnalysisError,
>)
    ensures
        r is Ok <==> patterns_ok(patterns.deep_view()),
        r matches Ok(ps) ==> pattern_sources(ps@) == patterns.deep_view(),
        r matches Err(e) ==> exists|i: int|
            {
                &&& 0 <= i < patterns.deep_view().len()
                &&& !glob_pattern_ok(#[trigger] patterns.deep_view()[i])
                &&& (forall|j: int|
                    0 <= j < i ==> glob_pattern_ok(#[trigger] patterns.deep_view()[j]))
                &&& e matches AnalysisError::InvalidPattern(p) && p@ == patterns.deep_view()[i]
            },
{
    let mut compiled: Vec<glob::Pattern> = Vec::new();
    let mut i: usize = 0;
    while i < patterns.len()
        invariant
            i <= patterns.len(),
            compiled@.len() == i,
            forall|j: int|
                0 <= j < i ==> pattern_source(#[trigger] compiled@[j]) == patterns.deep_view()[j],
            forall|j: int| 0 <= j < i ==> glob_pattern_ok(#[trigger] patterns.deep_view()[j]),
        decreases patterns.len() - i,
    {
        match compile_pattern(patterns[i].as_str()) {
            Some(p) => {
                compiled.push(p);
            },
            None => {
                let bad = patterns[i].clone();
                proof {
                    let ghost dv = patterns.deep_view();
                    assert(dv[i as int] == patterns@[i as int]@);
                    assert(!glob_pattern_ok(dv[i as int]));
                    assert(!patterns_ok(dv));
                }
                return Err(AnalysisError::InvalidPattern(bad));
            },
        }
        i = i + 1;
    }
    proof {
        assert(pattern_sources(compiled@) =~= patterns.deep_view());
    }
    Ok(compiled)
}

/// Whether any compiled pattern matches the given name.
pub fn is_excluded(name: &str, exclusions: &Vec<glob::Pattern>) -> (r: bool)
    ensures
        r == name_excluded(pattern_sources(exclusions@), name@),
{
    let mut i: usize = 0;
    while i < exclusions.len()
        invariant
            i <= exclusions.len(),
            forall|j: int|
                0 <= j < i ==> !glob_match(
                    pattern_source(#[trigger] exclusions@[j]),
                    name@,
                ),
        decreases exclusions.len() - i,
    {
        if pattern_matches(&exclusions[i], name) {
            assert(glob_match(pattern_sources(exclusions@)[i as int], name@));
            return true;
        }
        i = i + 1;
    }
    false
}

} // verus!
