//! The search predicates: case-insensitive substring, shell glob, and
//! case-insensitive regular expression.
use vstd::prelude::*;
use crate::error::StoreError;
use crate::text::chars_of;

verus! {

#[verifier::external_type_specification]
#[verifier::external_body]
pub struct ExGlobPattern(glob::Pattern);

#[verifier::external_type_specification]
#[verifier::external_body]
pub struct ExGlobPatternError(glob::PatternError);

#[verifier::external_type_specification]
#[verifier::external_body]
pub struct ExRegex(regex::Regex);

#[verifier::external_type_specification]
#[verifier::external_body]
pub struct ExRegexError(regex::Error);

/// What `str::to_lowercase` returns for a text.
pub uninterp spec fn lower_of(s: Seq<char>) -> Seq<char>;

/// Whether `glob::Pattern::new` accepts a pattern.
pub uninterp spec fn glob_parses(p: Seq<char>) -> bool;

/// Whether the glob pattern `p` matches the whole of `t`, as
/// `glob::Pattern::matches` decides.
pub uninterp spec fn glob_match(p: Seq<char>, t: Seq<char>) -> bool;

/// Whether `regex::RegexBuilder` builds pattern `p` with case-insensitive
/// matching.
pub uninterp spec fn regex_builds(p: Seq<char>) -> bool;

/// Whether the case-insensitive regular expression `p` matches somewhere in
/// `t`, as `regex::Regex::is_match` decides.
pub uninterp spec fn regex_match(p: Seq<char>, t: Seq<char>) -> bool;

/// Relies on `str::to_lowercase`: the lowercase form depends on the text alone.
#[verifier::external_body]
pub(crate) fn lowercase(s: &str) -> (r: String)
    ensures
        r@ == lower_of(s@),
{
    s.to_lowercase()
}

/// Relies on `glob::Pattern::new`: it fails exactly on the patterns that it
/// cannot parse.
#[verifier::external_body]
fn compile_glob(source: &str) -> (r: Result<glob::Pattern, glob::PatternError>)
    ensures
        r is Ok <==> glob_parses(source@),
{
    glob::Pattern::new(source)
}

/// Relies on `regex::RegexBuilder::new(..).case_insensitive(true).build()`:
/// it fails exactly on the patterns that it cannot build.
#[verifier::external_body]
fn compile_regex(source: &str) -> (r: Result<regex::Regex, regex::Error>)
    ensures
        r is Ok <==> regex_builds(source@),
{
    regex::RegexBuilder::new(source).case_insensitive(true).build()
}

/// A shell glob pattern, compiled from its text.
#[derive(Debug)]
pub struct GlobPattern {
    source: String,
    compiled: glob::Pattern,
}

/// A case-insensitive regular expression, compiled from its text.
#[derive(Debug)]
pub struct RegexPattern {
    source: String,
    compiled: regex::Regex,
}

impl View for GlobPattern {
    type V = Seq<char>;

    closed spec fn view(&self) -> Seq<char> {
        self.source@
    }
}

impl View for RegexPattern {
    type V = Seq<char>;

    closed spec fn view(&self) -> Seq<char> {
        self.source@
    }
}

/// Relies on `glob::Pattern::matches`, applied to the pattern compiled from
/// `g`'s text (the only way a `GlobPattern` is made).
#[verifier::external_body]
fn glob_is_match(g: &GlobPattern, text: &str) -> (r: bool)
    ensures
        r == glob_match(g@, text@),
{
    g.compiled.matches(text)
}

/// Relies on `regex::Regex::is_match`, applied to the expression compiled from
/// `x`'s text (the only way a `RegexPattern` is made).
#[verifier::external_body]
fn regex_is_match(x: &RegexPattern, text: &str) -> (r: bool)
    ensures
        r == regex_match(x@, text@),
{
    x.compiled.is_match(text)
}

impl GlobPattern {
    /// Compiles a glob pattern, else `PatternError`.
    pub fn new(source: &str) -> (r: Result<GlobPattern, StoreError>)
        ensures
            r is Ok <==> glob_parses(source@),
            r matches Ok(g) ==> g@ == source@,
            r matches Err(e) ==> e is PatternError,
    {
        match compile_glob(source) {
            Ok(compiled) => Ok(GlobPattern { source: String::from_str(source), compiled }),
            Err(_) => Err(StoreError::PatternError(String::from_str(source))),
        }
    }
}

impl RegexPattern {
    /// Compiles a case-insensitive regular expression, else `PatternError`.
    pub fn new(source: &str) -> (r: Result<RegexPattern, StoreError>)
        ensures
            r is Ok <==> regex_builds(source@),
            r matches Ok(x) ==> x@ == source@,
            r matches Err(e) ==> e is PatternError,
    {
        match compile_regex(source) {
            Ok(compiled) => Ok(RegexPattern { source: String::from_str(source), compiled }),
            Err(_) => Err(StoreError::PatternError(String::from_str(source))),
        }
    }
}

/// `n` occurs in `h` as a run of consecutive characters.
pub open spec fn occurs_in(n: Seq<char>, h: Seq<char>) -> bool {
    exists|i: int| 0 <= i <= h.len() - n.len() && #[trigger] h.subrange(i, i + n.len()) == n
}

/// Whether `needle` occurs in `haystack`.
pub fn contains_text(haystack: &str, needle: &str) -> (r: bool)
    ensures
        r == occurs_in(needle@, haystack@),
{
    let h = chars_of(haystack);
    let n = chars_of(needle);
    if n.len() > h.len() {
        return false;
    }
    let mut i: usize = 0;
    while i <= h.len() - n.len()
        invariant
            h@ == haystack@,
            n@ == needle@,
            n.len() <= h.len(),
            i <= h.len() - n.len() + 1,
            forall|a: int| 0 <= a < i ==> #[trigger] h@.subrange(a, a + n.len()) != n@,
        decreases h.len() - n.len() + 1 - i,
    {
        let mut j: usize = 0;
        while j < n.len() && h[i + j] == n[j]
            invariant
                i + n.len() <= h.len(),
                j <= n.len(),
                forall|b: int| 0 <= b < j ==> h@[i + b] == n@[b],
            decreases n.len() - j,
        {
            j = j + 1;
        }
        if j == n.len() {
            assert(h@.subrange(i as int, i + n.len()) =~= n@);
            return true;
        }
        assert(h@.subrange(i as int, i + n.len())[j as int] != n@[j as int]);
        i = i + 1;
    }
    false
}

/// How a search query is matched against a keyword or a path.
#[derive(Debug)]
pub enum SearchMode {
    /// The query occurs in the text, ignoring case.
    Substring(String),
    /// The glob matches the whole text.
    Glob(GlobPattern),
    /// The expression matches somewhere in the text, ignoring case.
    Regex(RegexPattern),
}

impl SearchMode {
    pub open spec fn spec_matches(&self, value: Seq<char>) -> bool {
        match self {
            SearchMode::Substring(q) => occurs_in(lower_of(q@), lower_of(value)),
            SearchMode::Glob(g) => glob_match(g@, value),
            SearchMode::Regex(x) => regex_match(x@, value),
        }
    }

    /// Whether `value` satisfies this predicate.
    pub fn matches(&self, value: &str) -> (r: bool)
        ensures
            r == self.spec_matches(value@),
    {
        match self {
            SearchMode::Substring(query) => {
                let haystack = lowercase(value);
                let needle = lowercase(query.as_str());
                contains_text(haystack.as_str(), needle.as_str())
            },
            SearchMode::Glob(g) => glob_is_match(g, value),
            SearchMode::Regex(x) => regex_is_match(x, value),
        }
    }
}

} // verus!
