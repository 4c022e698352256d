//! Regular expressions, as the `regex` crate implements them.
//!
//! Nothing in this file is proved. Each item states what the crate's search
//! functions are taken to do: that their result depends on the pattern and
//! the text alone, and under which name the rest of the library speaks of it.
//!
//! Every search takes the pattern as text and has `Regex::new` compile it
//! with the crate's default options, so that no expression built in another
//! way can stand behind a name.
use regex::Regex;
use vstd::prelude::*;

verus! {

/// Whether `Regex::new` accepts `pattern`: it is well-formed and compiles
/// within the crate's default size limit.
pub uninterp spec fn regex_accepts(pattern: Seq<char>) -> bool;

/// What `Regex::is_match` answers for the expression that `Regex::new` makes
/// of `pattern`: whether the pattern matches anywhere in `text`.
pub uninterp spec fn regex_is_match(pattern: Seq<char>, text: Seq<char>) -> bool;

/// What `Regex::captures_iter` yields for the expression that `Regex::new`
/// makes of `pattern`: the successive non-overlapping matches of the pattern
/// in `text`, from left to right. Each match lists its groups,
/// group 0 being the whole match; a group holds the text it matched, or
/// nothing where it took no part in the match.
pub uninterp spec fn regex_captures(pattern: Seq<char>, text: Seq<char>) -> Seq<
    Seq<Option<Seq<char>>>,
>;

/// What `Regex::replace_all` returns for the expression that `Regex::new`
/// makes of `pattern`: `text` with every non-overlapping match of the
/// pattern replaced by `replacement`, in which `$name` and `$n` stand
/// for the groups of the match.
pub uninterp spec fn regex_replace_all(
    pattern: Seq<char>,
    text: Seq<char>,
    replacement: Seq<char>,
) -> Seq<char>;

/// The groups of a list of matches as texts.
pub open spec fn group_texts(matches: Seq<Vec<Option<String>>>) -> Seq<Seq<Option<Seq<char>>>> {
    Seq::new(
        matches.len(),
        |i: int|
            Seq::new(
                matches[i]@.len(),
                |j: int|
                    match matches[i]@[j] {
                        Some(s) => Some(s@),
                        None => None,
                    },
            ),
    )
}

/// Trusted: `Regex::new`, asked only whether it accepts the pattern. The
/// answer depends on the pattern alone.
#[verifier::external_body]
pub(crate) fn accepts(pattern: &str) -> (b: bool)
    ensures
        b == regex_accepts(pattern@),
{
    Regex::new(pattern).is_ok()
}

/// Trusted: `Regex::new` on the pattern, then `Regex::is_match` on the text.
/// The answer depends on the pattern and the text alone. The pattern must be
/// one that `Regex::new` accepts, so the second arm is never taken.
#[verifier::external_body]
pub(crate) fn is_match(pattern: &str, text: &str) -> (b: bool)
    requires
        regex_accepts(pattern@),
    ensures
        b == regex_is_match(pattern@, text@),
{
    match Regex::new(pattern) {
        Ok(re) => re.is_match(text),
        Err(_) => false,
    }
}

/// Trusted: `Regex::new` on the pattern, then `Regex::captures_iter` on the
/// text, each match handed out as the list of its groups' texts. The matches
/// depend on the pattern and the text alone. The pattern must be one that
/// `Regex::new` accepts, so the second arm is never taken.
#[verifier::external_body]
pub(crate) fn captures_all(pattern: &str, text: &str) -> (matches: Vec<Vec<Option<String>>>)
    requires
        regex_accepts(pattern@),
    ensures
        group_texts(matches@) == regex_captures(pattern@, text@),
{
    match Regex::new(pattern) {
        Ok(re) => re.captures_iter(text).map(
            |c| c.iter().map(|g| g.map(|m| m.as_str().to_string())).collect(),
        ).collect(),
        Err(_) => Vec::new(),
    }
}

/// Trusted: `Regex::new` on the pattern, then `Regex::replace_all` with a
/// replacement string. The result depends on the pattern, the text and the
/// replacement alone. The pattern must be one that `Regex::new` accepts, so
/// the second arm is never taken.
#[verifier::external_body]
pub(crate) fn replace_all(pattern: &str, text: &str, replacement: &str) -> (out: String)
    requires
        regex_accepts(pattern@),
    ensures
        out@ == regex_replace_all(pattern@, text@, replacement@),
{
    match Regex::new(pattern) {
        Ok(re) => re.replace_all(text, replacement).into_owned(),
        Err(_) => String::new(),
    }
}

} // verus!
