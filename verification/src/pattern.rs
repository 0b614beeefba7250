//! Regular expressions.

use vstd::prelude::*;
use vstd::utf8::{encode_utf8, is_char_boundary};

verus! {

/// One match of a pattern: the bytes it spans, and what its first group matched, if that group
/// took part.
pub struct Capture {
    pub start: usize,
    pub end: usize,
    pub group: Option<String>,
}

/// What a [`Capture`] says: the start, the end, the group.
pub open spec fn capture_view(c: Capture) -> (int, int, Option<Seq<char>>) {
    (
        c.start as int,
        c.end as int,
        match c.group {
            Some(g) => Some(g@),
            None => None,
        },
    )
}

/// What the matches of a list say.
pub open spec fn capture_views(v: Seq<Capture>) -> Seq<(int, int, Option<Seq<char>>)> {
    v.map_values(|c: Capture| capture_view(c))
}

/// The span lies within `text` and cuts no character in two.
pub open spec fn span_in(text: Seq<char>, start: int, end: int) -> bool {
    &&& 0 <= start <= end <= encode_utf8(text).len()
    &&& is_char_boundary(encode_utf8(text), start)
    &&& is_char_boundary(encode_utf8(text), end)
}

/// A tag of XML or a processing instruction; the first group is the name of the tag.
pub const TAG_PATTERN: &'static str = r"</?([a-zA-Z]\w*)(\s[^<>]*)?/?>|<\?[^>]*\?>";

/// The matches of `pattern` in `text`, in order, each as its start, its end and its first group, or
/// `None` if `pattern` is not a regular expression.
pub uninterp spec fn regex_captures(pattern: Seq<char>, text: Seq<char>) -> Option<
    Seq<(int, int, Option<Seq<char>>)>,
>;

/// Whether `pattern` matches anywhere in `text`, or the message that says why it is not a regular
/// expression.
pub uninterp spec fn regex_matches(pattern: Seq<char>, text: Seq<char>) -> Result<bool, Seq<char>>;

/// `regex::Regex::new` and `Regex::captures_iter`. The matches, which depend on the two texts alone,
/// have the name [`regex_captures`]. A match spans whole characters of the text. The tag pattern is
/// a regular expression.
#[verifier::external_body]
pub(crate) fn find_captures(pattern: &str, text: &str) -> (found: Option<Vec<Capture>>)
    ensures
        match found {
            Some(v) => regex_captures(pattern@, text@) == Some(capture_views(v@)),
            None => regex_captures(pattern@, text@) is None,
        },
        found is Some ==> forall|i: int|
            0 <= i < found->0@.len() ==> span_in(
                text@,
                (#[trigger] found->0@[i]).start as int,
                found->0@[i].end as int,
            ),
        pattern@ == TAG_PATTERN@ ==> found is Some,
{
    let regex = regex::Regex::new(pattern).ok()?;
    Some(regex.captures_iter(text).map(|caps| Capture {
        start: caps.get_match().start(),
        end: caps.get_match().end(),
        group: caps.get(1).map(|g| g.as_str().to_string()),
    }).collect())
}

/// `regex::Regex::new` and `Regex::is_match`, for each text. The outcomes, each of which depends on
/// the pattern and on one text, have the name [`regex_matches`]. Whether a pattern is a regular
/// expression depends on the pattern alone.
#[verifier::external_body]
pub(crate) fn match_all(pattern: &str, texts: &Vec<String>) -> (found: Result<Vec<bool>, String>)
    ensures
        match found {
            Ok(v) => v@.len() == texts@.len() && forall|i: int|
                0 <= i < v@.len() ==> regex_matches(pattern@, texts@[i]@) == Ok::<bool, Seq<char>>(
                    #[trigger] v@[i],
                ),
            Err(m) => forall|text: Seq<char>| #[trigger]
                regex_matches(pattern@, text) == Err::<bool, Seq<char>>(m@),
        },
        found is Ok ==> forall|text: Seq<char>| (#[trigger] regex_matches(pattern@, text)) is Ok,
{
    let regex = regex::Regex::new(pattern).map_err(|e| e.to_string())?;
    Ok(texts.iter().map(|text| regex.is_match(text)).collect())
}

} // verus!
