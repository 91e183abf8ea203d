//! Regular expressions, as the `regex` crate compiles and runs them.
//!
//! Nothing about a regular expression is proved here. What `regex` answers
//! is given a name, and the contracts of this crate are stated over those
//! names.
use vstd::prelude::*;
use vstd::string::*;

verus! {

/// `regex::Regex`, a compiled regular expression. Nothing inside it is
/// known here.
#[verifier::external_type_specification]
#[verifier::external_body]
pub struct ExRegex(regex::Regex);

/// `regex::Error`, the reason why a pattern was refused. Nothing inside it
/// is known here.
#[verifier::external_type_specification]
#[verifier::external_body]
pub struct ExRegexError(regex::Error);

/// The text that a regular expression was compiled from, as `Regex::as_str`
/// returns it.
pub uninterp spec fn regex_source(re: regex::Regex) -> Seq<char>;

/// Whether `Regex::new` accepts `pattern`: whether it is well formed and
/// its compiled form stays within the size limit that `regex` sets by
/// default, which is counted in bytes of the target that the crate is built
/// for.
pub uninterp spec fn pattern_compiles(pattern: Seq<char>) -> bool;

/// Whether the regular expression that `Regex::new` compiles from `pattern`
/// finds a match in `text`, as `Regex::is_match` reports it. The wrappers
/// below apply this to a `Pattern` only, whose regular expression none but
/// `compile` makes.
pub uninterp spec fn pattern_matches(pattern: Seq<char>, text: Seq<char>) -> bool;

/// What `Captures::expand` writes for `template` after the regular
/// expression that `Regex::new` compiles from `pattern` has captured its
/// first match in `text`.
pub uninterp spec fn pattern_expansion(
    pattern: Seq<char>,
    text: Seq<char>,
    template: Seq<char>,
) -> Seq<char>;

/// A compiled regular expression. Its view is the text it was compiled
/// from.
#[derive(Debug)]
pub struct Pattern {
    re: regex::Regex,
}

impl View for Pattern {
    type V = Seq<char>;

    closed spec fn view(&self) -> Seq<char> {
        regex_source(self.re)
    }
}

/// A pattern that `regex` refused, with its reason.
#[derive(Debug)]
pub struct PatternError {
    pub cause: regex::Error,
}

/// `pattern` as a group between `^` and `$`, so that it must match a whole
/// text. The group keeps the anchors outside every alternative of the
/// pattern: `A|B` becomes `^(?:A|B)$`.
pub open spec fn anchored(pattern: Seq<char>) -> Seq<char> {
    seq!['^', '(', '?', ':'] + pattern + seq![')', '$']
}

/// Calls `Regex::new`. It succeeds exactly on the patterns that `regex`
/// accepts, and the regular expression it gives was compiled from
/// `pattern`.
#[verifier::external_body]
fn compile(pattern: &str) -> (r: Result<Pattern, regex::Error>)
    ensures
        r is Ok <==> pattern_compiles(pattern@),
        r matches Ok(p) ==> regex_source(p.re) == pattern@,
{
    match regex::Regex::new(pattern) {
        Ok(re) => Ok(Pattern { re }),
        Err(e) => Err(e),
    }
}

/// Calls `Regex::as_str`: the text that the regular expression was compiled
/// from.
#[verifier::external_body]
fn as_str(p: &Pattern) -> (s: &str)
    ensures
        s@ == regex_source(p.re),
{
    p.re.as_str()
}

/// Calls `Regex::is_match` on a regular expression that `compile` made.
#[verifier::external_body]
pub(crate) fn is_match(p: &Pattern, text: &str) -> (b: bool)
    ensures
        b == pattern_matches(p@, text@),
{
    p.re.is_match(text)
}

/// Calls `Regex::captures` on a regular expression that `compile` made
/// and, where there is a match, `Captures::expand` into an empty string.
/// There are captures exactly where `Regex::is_match` finds a match.
#[verifier::external_body]
pub(crate) fn expand_captures(p: &Pattern, text: &str, template: &str) -> (r: Option<String>)
    ensures
        r is Some <==> pattern_matches(p@, text@),
        r matches Some(s) ==> s@ == pattern_expansion(p@, text@, template@),
{
    match p.re.captures(text) {
        Some(caps) => {
            let mut dst = String::new();
            caps.expand(template, &mut dst);
            Some(dst)
        },
        None => None,
    }
}

/// Compiles `r` to match whole texts only: as a group between `^` and `$`.
/// The pattern must compile by itself too, so that no bracket of `r` can
/// close the group.
pub fn make_regex(r: &str) -> (res: Result<Pattern, PatternError>)
    ensures
        res is Ok <==> pattern_compiles(r@) && pattern_compiles(anchored(r@)),
        res matches Ok(p) ==> p@ == anchored(r@),
{
    match compile(r) {
        Ok(_) => {},
        Err(e) => {
            return Err(PatternError { cause: e });
        },
    }
    let mut text = String::from_str("^(?:");
    text.append(r);
    text.append(")$");
    proof {
        reveal_strlit("^(?:");
        reveal_strlit(")$");
        assert(text@ =~= anchored(r@));
    }
    match compile(text.as_str()) {
        Ok(p) => Ok(p),
        Err(e) => Err(PatternError { cause: e }),
    }
}

impl Pattern {
    /// The text that the pattern was compiled from, anchors included.
    pub fn source(&self) -> (s: &str)
        ensures
            s@ == self@,
    {
        as_str(self)
    }
}

} // verus!
