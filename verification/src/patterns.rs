//! Regular expressions, through the `regex` crate. A `Pattern` is a compiled
//! expression that remembers the text it was compiled from, so that what a
//! search gives can be named after that text.

use vstd::prelude::*;

verus! {

#[verifier::external_type_specification]
#[verifier::external_body]
pub struct ExRegex(regex::Regex);

#[verifier::external_type_specification]
#[verifier::external_body]
pub struct ExRegexError(regex::Error);

/// Whether `regex::Regex::new` accepts the pattern.
pub uninterp spec fn regex_valid(pattern: Seq<char>) -> bool;

/// What `regex::Regex::is_match` answers for the pattern and the text.
pub uninterp spec fn regex_is_match(pattern: Seq<char>, text: Seq<char>) -> bool;

/// What `regex::Regex::replace_all` gives for the pattern, the text and the
/// replacement.
pub uninterp spec fn regex_replace_all(pattern: Seq<char>, text: Seq<char>, rep: Seq<char>) -> Seq<char>;

/// The groups of the first match that `regex::Regex::captures` finds, group
/// 0 being the whole match; `None` when nothing matches.
pub uninterp spec fn regex_captures(pattern: Seq<char>, text: Seq<char>) -> Option<Seq<Option<Seq<char>>>>;

/// A regular expression that the regex crate accepts, held as its text;
/// each search compiles it from that text.
pub struct Pattern {
    source: String,
}

/// `regex::Regex::new`: compiles a pattern. The contract claims that the
/// outcome depends on the pattern alone; which patterns are accepted is left
/// unsaid.
#[verifier::external_body]
fn compile_regex(pattern: &str) -> (r: Result<regex::Regex, regex::Error>)
    ensures
        r is Ok <==> regex_valid(pattern@),
{
    regex::Regex::new(pattern)
}

/// `regex::Regex::is_match` on the expression compiled from `pattern`.
#[verifier::external_body]
fn regex_search(pattern: &str, text: &str) -> (r: bool)
    requires
        regex_valid(pattern@),
    ensures
        r == regex_is_match(pattern@, text@),
{
    match regex::Regex::new(pattern) {
        Ok(re) => re.is_match(text),
        Err(_) => false,
    }
}

/// `regex::Regex::replace_all` on the expression compiled from `pattern`,
/// the replacement `rep` read as the crate reads it (`$name` stands for a
/// group). As the crate documents, a text in which nothing matches comes back
/// unchanged.
#[verifier::external_body]
fn regex_replace(pattern: &str, text: &str, rep: &str) -> (r: String)
    requires
        regex_valid(pattern@),
    ensures
        r@ == regex_replace_all(pattern@, text@, rep@),
        !regex_is_match(pattern@, text@) ==> r@ == text@,
{
    match regex::Regex::new(pattern) {
        Ok(re) => re.replace_all(text, rep).into_owned(),
        Err(_) => text.to_owned(),
    }
}

/// `regex::Regex::captures` on the expression compiled from `pattern`, each
/// group of the first match handed out as its text. As the crate documents,
/// `None` comes exactly when nothing matches.
#[verifier::external_body]
fn regex_groups(pattern: &str, text: &str) -> (r: Option<Vec<Option<String>>>)
    requires
        regex_valid(pattern@),
    ensures
        match r {
            None => regex_captures(pattern@, text@) is None,
            Some(v) => regex_captures(pattern@, text@) == Some(
                v@.map_values(|g: Option<String>| opt_chars(g)),
            ),
        },
        r is None <==> !regex_is_match(pattern@, text@),
{
    match regex::Regex::new(pattern) {
        Ok(re) => re.captures(text).map(|c| c.iter().map(|m| m.map(|m| m.as_str().to_owned())).collect()),
        Err(_) => None,
    }
}

/// The characters of an optional string.
pub open spec fn opt_chars(g: Option<String>) -> Option<Seq<char>> {
    match g {
        Some(s) => Some(s@),
        None => None,
    }
}

impl Pattern {
    /// The text the expression was compiled from.
    pub closed spec fn pattern(&self) -> Seq<char> {
        self.source@
    }

    /// The regex crate accepts the pattern.
    #[verifier::type_invariant]
    closed spec fn compiles(self) -> bool {
        regex_valid(self.source@)
    }

    /// Compiles `pattern`; `None` when the regex crate refuses it.
    pub fn new(pattern: &str) -> (r: Option<Pattern>)
        ensures
            r is Some <==> regex_valid(pattern@),
            r matches Some(p) ==> p.pattern() == pattern@,
    {
        match compile_regex(pattern) {
            Ok(_) => Some(Pattern { source: pattern.to_owned() }),
            Err(_) => None,
        }
    }

    /// Whether the expression matches somewhere in `text`.
    pub fn is_match(&self, text: &str) -> (r: bool)
        ensures
            r == regex_is_match(self.pattern(), text@),
    {
        proof {
            use_type_invariant(self);
        }
        regex_search(self.source.as_str(), text)
    }

    /// `text` with every match replaced by `rep`.
    pub fn replace_all(&self, text: &str, rep: &str) -> (r: String)
        ensures
            r@ == regex_replace_all(self.pattern(), text@, rep@),
            !regex_is_match(self.pattern(), text@) ==> r@ == text@,
    {
        proof {
            use_type_invariant(self);
        }
        regex_replace(self.source.as_str(), text, rep)
    }

    /// The groups of the first match in `text`.
    pub fn captures(&self, text: &str) -> (r: Option<Vec<Option<String>>>)
        ensures
            match r {
                None => regex_captures(self.pattern(), text@) is None,
                Some(v) => regex_captures(self.pattern(), text@) == Some(
                    v@.map_values(|g: Option<String>| opt_chars(g)),
                ),
            },
            r is None <==> !regex_is_match(self.pattern(), text@),
    {
        proof {
            use_type_invariant(self);
        }
        regex_groups(self.source.as_str(), text)
    }
}

} // verus!
