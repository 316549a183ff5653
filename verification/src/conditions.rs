//! Rule conditions: compiled regular expressions. The `regex` crate does the
//! matching; its behaviour is named by uninterpreted spec functions of the
//! pattern and the text alone, and every statement about a match goes through
//! those names.

use vstd::prelude::*;
use crate::errors::RescError;

verus! {

#[verifier::external_type_specification]
#[verifier::external_body]
pub struct ExRegex(regex::Regex);

#[verifier::external_type_specification]
#[verifier::external_body]
pub struct ExRegexError(regex::Error);

/// Whether `pattern` is a valid regular expression: what `regex::Regex::new`
/// accepts.
pub uninterp spec fn valid_regex(pattern: Seq<char>) -> bool;

/// Whether the regular expression `pattern` matches anywhere in `text`: what
/// `regex::Regex::is_match` returns.
pub uninterp spec fn regex_match(pattern: Seq<char>, text: Seq<char>) -> bool;

/// The named capture groups of the leftmost match of `pattern` in `text`, in
/// group order: each group's name and matched text, for the groups that
/// participate in the match. What `regex::Regex::captures` yields.
pub uninterp spec fn regex_captures(pattern: Seq<char>, text: Seq<char>) -> Seq<
    (Seq<char>, Seq<char>),
>;

/// The capture pairs as character sequences.
pub open spec fn pairs_view(s: Seq<(String, String)>) -> Seq<(Seq<char>, Seq<char>)> {
    s.map_values(|p: (String, String)| (p.0@, p.1@))
}

/// A compiled rule condition, paired with the pattern it was compiled from.
pub struct Condition {
    source: String,
    re: regex::Regex,
}

impl Condition {
    /// The pattern the condition was compiled from.
    pub closed spec fn pattern(self) -> Seq<char> {
        self.source@
    }

    /// Relies on `regex::Regex::new`: it returns `Ok` exactly for the patterns
    /// it accepts, and the compiled value matches as the pattern says.
    #[verifier::external_body]
    fn compile(src: &str) -> (r: Result<Condition, regex::Error>)
        ensures
            r is Ok <==> valid_regex(src@),
            r matches Ok(c) ==> c.pattern() == src@,
    {
        match regex::Regex::new(src) {
            Ok(re) => Ok(Condition { source: src.to_owned(), re }),
            Err(e) => Err(e),
        }
    }

    /// Compiles a condition; fails exactly on invalid patterns.
    pub fn new(src: &str) -> (r: Result<Condition, RescError>)
        ensures
            r is Ok <==> valid_regex(src@),
            r matches Ok(c) ==> c.pattern() == src@,
            r is Err ==> r matches Err(RescError::InvalidRegex),
    {
        match Self::compile(src) {
            Ok(c) => Ok(c),
            Err(_) => Err(RescError::InvalidRegex),
        }
    }

    /// Relies on `regex::Regex::is_match`: true iff the pattern matches
    /// anywhere in `text`.
    #[verifier::external_body]
    pub fn is_match(&self, text: &str) -> (r: bool)
        ensures
            r == regex_match(self.pattern(), text@),
    {
        self.re.is_match(text)
    }

    /// Relies on `regex::Regex::captures`, `regex::Regex::capture_names` and
    /// `regex::Captures::name`: `captures` returns `Some` exactly when
    /// `is_match` is true; the named groups that participate in the leftmost
    /// match come out in group order; group names within one pattern are
    /// distinct (the compiler rejects duplicates).
    #[verifier::external_body]
    pub fn named_captures(&self, text: &str) -> (r: Option<Vec<(String, String)>>)
        ensures
            r is Some <==> regex_match(self.pattern(), text@),
            r matches Some(pairs) ==> pairs_view(pairs@) == regex_captures(self.pattern(), text@),
            r matches Some(pairs) ==> forall|i: int, j: int|
                0 <= i < j < pairs@.len() ==> pairs@[i].0@ != pairs@[j].0@,
    {
        self.re.captures(text).map(|caps| {
            let mut out: Vec<(String, String)> = Vec::new();
            for name in self.re.capture_names().flatten() {
                if let Some(m) = caps.name(name) {
                    out.push((name.to_owned(), m.as_str().to_owned()));
                }
            }
            out
        })
    }
}

} // verus!
