//! String operations of std that the rest of the library builds on.

use vstd::prelude::*;
use crate::dictionary::strings_view;

verus! {

/// Relies on `str::strip_prefix`: the rest of `s` after `prefix`, where `s`
/// starts with it.
#[verifier::external_body]
pub(crate) fn strip_prefix(s: &str, prefix: &str) -> (r: Option<String>)
    ensures
        r is Some <==> prefix@.is_prefix_of(s@),
        r matches Some(t) ==> s@ == prefix@ + t@,
{
    s.strip_prefix(prefix).map(String::from)
}

/// The lowercase form of a string, character by character as Unicode
/// defines it.
pub uninterp spec fn lower_of(s: Seq<char>) -> Seq<char>;

/// Relies on `str::to_lowercase`: the result depends on the characters
/// alone, and an empty string stays empty.
#[verifier::external_body]
pub(crate) fn lowercase(s: &str) -> (r: String)
    ensures
        r@ == lower_of(s@),
        s@.len() == 0 ==> r@.len() == 0,
{
    s.to_lowercase()
}

/// The lines of a text, without their line endings.
pub uninterp spec fn text_lines(s: Seq<char>) -> Seq<Seq<char>>;

/// Relies on `str::lines`: the lines depend on the characters alone.
#[verifier::external_body]
pub(crate) fn split_lines(text: &str) -> (r: Vec<String>)
    ensures
        strings_view(r@) == text_lines(text@),
{
    text.lines().map(String::from).collect()
}

/// `s` with each occurrence of `pat`, taken from the left without overlap,
/// replaced by `to`.
pub open spec fn replaced(s: Seq<char>, pat: Seq<char>, to: Seq<char>) -> Seq<char>
    decreases s.len(),
{
    if pat.len() == 0 || s.len() == 0 {
        s
    } else if pat.is_prefix_of(s) {
        to + replaced(s.subrange(pat.len() as int, s.len() as int), pat, to)
    } else {
        seq![s[0]] + replaced(s.drop_first(), pat, to)
    }
}

/// Relies on `str::replace`: every match of a non-empty `pat`, from the
/// left and without overlap, is replaced by `to`.
#[verifier::external_body]
pub(crate) fn replace_all(s: &str, pat: &str, to: &str) -> (r: String)
    requires
        pat@.len() > 0,
    ensures
        r@ == replaced(s@, pat@, to@),
{
    s.replace(pat, to)
}

/// The first two capture groups of the leftmost match of the regular
/// expression `pattern` in `text`; `None` where the pattern is not valid,
/// nothing matches, or a group takes no part in the match.
pub uninterp spec fn regex_pair(pattern: Seq<char>, text: Seq<char>) -> Option<(Seq<char>, Seq<char>)>;

/// Relies on regex's `Regex::new` and `Regex::captures`: the groups of the
/// leftmost match depend on the pattern and the text alone.
#[verifier::external_body]
pub(crate) fn capture_pair(pattern: &str, text: &str) -> (r: Option<(String, String)>)
    ensures
        match r {
            Some((a, b)) => regex_pair(pattern@, text@) == Some((a@, b@)),
            None => regex_pair(pattern@, text@) is None,
        },
{
    let caps = regex::Regex::new(pattern).ok()?.captures(text)?;
    Some((caps.get(1)?.as_str().to_string(), caps.get(2)?.as_str().to_string()))
}

/// `pat` occurs somewhere in `s`.
pub open spec fn occurs_in(pat: Seq<char>, s: Seq<char>) -> bool {
    exists|i: int| 0 <= i && i + pat.len() <= s.len() && #[trigger] s.subrange(i, i + pat.len()) == pat
}

/// Relies on `str::contains`: whether `pat` occurs in `s`.
#[verifier::external_body]
pub(crate) fn contains_str(s: &str, pat: &str) -> (r: bool)
    ensures
        r == occurs_in(pat@, s@),
{
    s.contains(pat)
}

} // verus!
