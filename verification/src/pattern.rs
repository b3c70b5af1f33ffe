//! Regular expressions, compiled and matched by the `regex` crate.

use crate::text::texts_of;
use regex::Regex;
use vstd::prelude::*;
use vstd::string::*;

verus! {

/// `regex::Regex`, a compiled regular expression. Nothing inside it is
/// looked at here.
#[verifier::external_type_specification]
#[verifier::external_body]
pub struct ExRegex(regex::Regex);

/// `regex::Error`, what `regex::Regex::new` returns for a pattern that it
/// refuses. Nothing inside it is looked at here.
#[verifier::external_type_specification]
#[verifier::external_body]
pub struct ExRegexError(regex::Error);

/// Whether `regex::Regex::new` compiles the pattern text `source`. Nothing
/// more is said of it here: which texts compile is the `regex` crate's
/// business.
pub uninterp spec fn regex_valid(source: Seq<char>) -> bool;

/// Whether `regex::Regex::is_match` finds a match anywhere in `haystack`
/// for the expression that `regex::Regex::new` makes of `source`. Nothing
/// more is said of it here: what an expression matches is the `regex`
/// crate's business.
pub uninterp spec fn regex_matches(source: Seq<char>, haystack: Seq<char>) -> bool;

/// A compiled regular expression together with the text it was compiled
/// from. The fields are private and `compile` alone makes a value, so
/// `compiled` is always what `regex::Regex::new` made of `source`.
#[derive(Debug)]
pub struct Pattern {
    source: String,
    compiled: Regex,
}

impl View for Pattern {
    type V = Seq<char>;

    closed spec fn view(&self) -> Seq<char> {
        self.source@
    }
}

/// A pattern that did not compile, and what the compiler said of it.
#[derive(Debug)]
pub struct PatternError {
    pub pattern: String,
    pub message: String,
}

/// Calls `regex::Regex::new` on `source`, and keeps the text beside the
/// expression it gives. Believed of it: it returns `Ok` exactly for the
/// texts that `regex_valid` stands for, and the pattern holds `source`.
#[verifier::external_body]
fn compile(source: &str) -> (r: Result<Pattern, regex::Error>)
    ensures
        r is Ok <==> regex_valid(source@),
        r matches Ok(p) ==> p@ == source@,
{
    match Regex::new(source) {
        Ok(compiled) => Ok(Pattern { source: source.to_string(), compiled }),
        Err(e) => Err(e),
    }
}

/// Calls `regex::Regex::is_match` on the compiled expression of `pattern`.
/// Believed of it: the answer depends on the text that the expression was
/// compiled from and on `haystack` alone, and is what `regex_matches` stands
/// for.
#[verifier::external_body]
fn search(pattern: &Pattern, haystack: &str) -> (found: bool)
    ensures
        found == regex_matches(pattern@, haystack@),
{
    pattern.compiled.is_match(haystack)
}

/// Calls `to_string` on a `regex::Error`, which writes the error out as
/// its `Display` implementation does. Nothing is believed of the text.
#[verifier::external_body]
fn describe(e: &regex::Error) -> (message: String)
{
    e.to_string()
}

impl Pattern {
    /// Compiles `source`. An error names the text that was refused.
    pub fn new(source: &str) -> (r: Result<Pattern, PatternError>)
        ensures
            r is Ok <==> regex_valid(source@),
            r matches Ok(p) ==> p@ == source@,
            r matches Err(e) ==> e.pattern@ == source@,
    {
        match compile(source) {
            Ok(p) => Ok(p),
            Err(e) => Err(PatternError { pattern: source.to_owned(), message: describe(&e) }),
        }
    }

    /// The text the pattern was compiled from.
    pub fn as_str(&self) -> (s: &str)
        ensures
            s@ == self@,
    {
        self.source.as_str()
    }

    /// Whether the pattern matches somewhere in `haystack`.
    pub fn is_match(&self, haystack: &str) -> (found: bool)
        ensures
            found == regex_matches(self@, haystack@),
    {
        search(self, haystack)
    }
}

/// The texts of a sequence of patterns.
pub open spec fn sources_of(patterns: Seq<Pattern>) -> Seq<Seq<char>> {
    patterns.map_values(|p: Pattern| p@)
}

/// Every text of the sequence is a valid pattern.
pub open spec fn all_valid(sources: Seq<Seq<char>>) -> bool {
    forall|i: int| 0 <= i < sources.len() ==> regex_valid(#[trigger] sources[i])
}

/// Compiles the queries, all or none: the first that does not compile is
/// returned as the error.
pub fn compile_queries(raw: &Vec<String>) -> (r: Result<Vec<Pattern>, PatternError>)
    ensures
        r is Ok <==> all_valid(texts_of(raw@)),
        r matches Ok(queries) ==> sources_of(queries@) == texts_of(raw@),
        r matches Err(e) ==> exists|i: int|
            0 <= i < raw@.len() && e.pattern@ == #[trigger] texts_of(raw@)[i] && !regex_valid(
                e.pattern@,
            ) && all_valid(texts_of(raw@).take(i)),
{
    let ghost all = texts_of(raw@);
    let mut queries: Vec<Pattern> = Vec::new();
    let n = raw.len();
    let mut i: usize = 0;
    while i < n
        invariant
            i <= n,
            n == raw@.len(),
            all == texts_of(raw@),
            sources_of(queries@) == all.take(i as int),
            all_valid(all.take(i as int)),
        decreases n - i,
    {
        let ghost before = queries@;
        match Pattern::new(raw[i].as_str()) {
            Ok(query) => {
                queries.push(query);
                proof {
                    assert(sources_of(queries@) =~= sources_of(before).push(query@));
                    assert(all.take(i + 1) =~= all.take(i as int).push(all[i as int]));
                }
            },
            Err(e) => {
                proof {
                    assert(e.pattern@ == all[i as int]);
                }
                return Err(e);
            },
        }
        i += 1;
    }
    proof {
        assert(all.take(n as int) =~= all);
    }
    Ok(queries)
}

} // verus!
