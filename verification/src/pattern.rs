//! Calls into the `regex` crate. A compiled `regex::Regex` is opaque to the
//! verifier and cannot be tied to the pattern it was built from, so each call
//! here takes the pattern text and compiles it (`Regex::new`) before the one
//! query it makes; the names below speak of pattern and haystack text only.
use vstd::prelude::*;

verus! {

/// Whether `regex::Regex::new(pattern)` succeeds (it fails on invalid syntax
/// or when the compiled program exceeds the default size limit).
pub uninterp spec fn regex_compiles(pattern: Seq<char>) -> bool;

/// `regex::Regex::is_match` of the regex compiled from `pattern` on `text`.
pub uninterp spec fn regex_is_match(pattern: Seq<char>, text: Seq<char>) -> bool;

/// The text of capture group `group` in the last match that
/// `regex::Regex::captures_iter` yields for `pattern` on `text`; `None` when
/// the pattern does not compile, nothing matches, or the group did not take
/// part in that match.
pub uninterp spec fn regex_last_capture(pattern: Seq<char>, text: Seq<char>, group: nat) -> Option<
    Seq<char>,
>;

/// The text of capture group `group` in the first match that
/// `regex::Regex::captures` finds for `pattern` on `text`; `None` when the
/// pattern does not compile, nothing matches, or the group did not take part.
pub uninterp spec fn regex_first_capture(pattern: Seq<char>, text: Seq<char>, group: nat) -> Option<
    Seq<char>,
>;

/// Calls `regex::Regex::new(pattern)` and reports whether it succeeded;
/// claims only that the answer is `regex_compiles(pattern)`.
#[verifier::external_body]
pub(crate) fn regex_valid(pattern: &str) -> (r: bool)
    ensures
        r == regex_compiles(pattern@),
{
    regex::Regex::new(pattern).is_ok()
}

/// Compiles `pattern` with `regex::Regex::new` and answers
/// `regex::Regex::is_match` for each of `texts`; claims one answer per text,
/// in order, each `regex_is_match(pattern, text)`.
#[verifier::external_body]
pub(crate) fn regex_match_each(pattern: &str, texts: &Vec<String>) -> (r: Vec<bool>)
    requires
        regex_compiles(pattern@),
    ensures
        r@.len() == texts@.len(),
        forall|i: int| 0 <= i < texts@.len() ==> r@[i] == regex_is_match(pattern@, #[trigger] texts@[i]@),
{
    match regex::Regex::new(pattern) {
        Ok(re) => texts.iter().map(|t| re.is_match(t)).collect(),
        Err(_) => Vec::new(),
    }
}

/// Compiles `pattern` with `regex::Regex::new` and takes group `group` of the
/// last item of `regex::Regex::captures_iter(text)`; claims the result is
/// `regex_last_capture(pattern, text, group)`.
#[verifier::external_body]
pub(crate) fn regex_last_capture_group(pattern: &str, text: &str, group: usize) -> (r: Option<
    String,
>)
    ensures
        match r {
            Some(s) => regex_last_capture(pattern@, text@, group as nat) == Some(s@),
            None => regex_last_capture(pattern@, text@, group as nat) is None,
        },
{
    match regex::Regex::new(pattern) {
        Ok(re) => re.captures_iter(text).last().and_then(|c| c.get(group)).map(
            |m| m.as_str().to_string(),
        ),
        Err(_) => None,
    }
}

/// Compiles `pattern` with `regex::Regex::new` and takes group `group` of
/// `regex::Regex::captures(text)`; claims the result is
/// `regex_first_capture(pattern, text, group)`.
#[verifier::external_body]
pub(crate) fn regex_first_capture_group(pattern: &str, text: &str, group: usize) -> (r: Option<
    String,
>)
    ensures
        match r {
            Some(s) => regex_first_capture(pattern@, text@, group as nat) == Some(s@),
            None => regex_first_capture(pattern@, text@, group as nat) is None,
        },
{
    match regex::Regex::new(pattern) {
        Ok(re) => re.captures(text).and_then(|c| c.get(group)).map(|m| m.as_str().to_string()),
        Err(_) => None,
    }
}

} // verus!
