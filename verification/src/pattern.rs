//! Regular-expression patterns of the configuration.

use vstd::prelude::*;

verus! {

/// The compiled form of a pattern, as the `regex` crate holds it.
#[verifier::external_type_specification]
#[verifier::external_body]
pub struct ExRegex(regex::Regex);

/// Whether the `regex` crate accepts a text as a pattern (`regex::Regex::new` succeeds).
pub uninterp spec fn regex_valid(source: Seq<char>) -> bool;

/// Whether a pattern matches somewhere in a text (`regex::Regex::is_match`).
pub uninterp spec fn regex_matches(source: Seq<char>, hay: Seq<char>) -> bool;

/// A compiled pattern beside the text that it was compiled from. [`compile`] alone sets the
/// fields, both at once, so the compiled form always belongs to the text.
pub struct Pattern {
    source: String,
    compiled: regex::Regex,
}

impl View for Pattern {
    type V = Seq<char>;

    closed spec fn view(&self) -> Seq<char> {
        self.source@
    }
}

/// `regex::Regex::new`: compiles a text, which is kept beside its compiled form; `None` where the
/// crate refuses the text.
#[verifier::external_body]
fn compile(source: &str) -> (r: Option<Pattern>)
    ensures
        match r {
            Some(p) => regex_valid(source@) && p@ == source@,
            None => !regex_valid(source@),
        },
{
    match regex::Regex::new(source) {
        Ok(compiled) => Some(Pattern { source: source.to_owned(), compiled }),
        Err(_) => None,
    }
}

/// `regex::Regex::is_match`: whether the pattern matches anywhere in `hay`. The compiled form of
/// a [`Pattern`] is the one that `regex::Regex::new` gave for its text.
#[verifier::external_body]
fn search_compiled(p: &Pattern, hay: &str) -> (r: bool)
    ensures
        r == regex_matches(p@, hay@),
{
    p.compiled.is_match(hay)
}

/// `regex::Regex::clone`: a second handle on the same compiled pattern.
#[verifier::external_body]
fn share_compiled(p: &Pattern) -> (r: Pattern)
    ensures
        r@ == p@,
{
    Pattern { source: p.source.clone(), compiled: p.compiled.clone() }
}

impl Pattern {
    /// Compiles `source`; `None` where it is no regular expression.
    pub fn new(source: &str) -> (r: Option<Pattern>)
        ensures
            match r {
                Some(p) => regex_valid(source@) && p@ == source@,
                None => !regex_valid(source@),
            },
    {
        compile(source)
    }

    /// The text of the pattern.
    pub fn as_str(&self) -> (r: &str)
        ensures
            r@ == self@,
    {
        self.source.as_str()
    }

    /// Whether the pattern matches anywhere in `hay`.
    pub fn is_match(&self, hay: &str) -> (r: bool)
        ensures
            r == regex_matches(self@, hay@),
    {
        search_compiled(self, hay)
    }

    /// The same pattern once more.
    pub fn duplicate(&self) -> (r: Pattern)
        ensures
            r@ == self@,
    {
        share_compiled(self)
    }
}

} // verus!
