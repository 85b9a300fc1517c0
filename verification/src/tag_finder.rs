//! Finding the stream tag of a line with a regular expression.

use vstd::prelude::*;
use core::ops::Range;
use crate::UnweaveError;

verus! {

/// `regex::bytes::Regex`, a compiled regular expression, which is carried
/// about and not looked into.
#[verifier::external_type_specification]
#[verifier::external_body]
pub struct ExRegex(regex::bytes::Regex);

/// The pattern that a regular expression was compiled from. Stands for what
/// `regex::bytes::Regex::as_str` returns.
pub uninterp spec fn regex_source(re: regex::bytes::Regex) -> Seq<char>;

/// Why `pattern` is refused, in the words of the engine, or `None` for a
/// pattern that it compiles. Stands for what `regex::bytes::Regex::new`
/// decides, in one build of the engine: the pattern alone decides it, by
/// its syntax and by the size of what it compiles to.
pub uninterp spec fn regex_refusal(pattern: Seq<char>) -> Option<Seq<char>>;

/// The byte spans of the capture groups of the leftmost match of `pattern` in
/// `haystack`, the whole match first, or `None` where there is no match.
/// Stands for what `regex::bytes::Regex::captures` returns on a regular
/// expression that `regex::bytes::Regex::new` has made of the pattern, with
/// no flags but those that the pattern itself sets. Every regular expression
/// of this library is made that way: what one is made from is its pattern.
pub uninterp spec fn regex_captures(pattern: Seq<char>, haystack: Seq<u8>) -> Option<
    Seq<Option<(usize, usize)>>,
>;

/// Compiles `pattern` with `regex::bytes::Regex::new`. A regular expression
/// comes back for a pattern that is not refused, and holds the pattern it was
/// made from. For one that is refused the words of the `regex::Error` come
/// back, by its `Display`.
#[verifier::external_body]
fn compile_regex(pattern: &str) -> (r: Result<regex::bytes::Regex, String>)
    ensures
        match r {
            Ok(re) => regex_refusal(pattern@) is None && regex_source(re) == pattern@,
            Err(text) => regex_refusal(pattern@) == Some(text@),
        },
{
    regex::bytes::Regex::new(pattern).map_err(|e| e.to_string())
}

/// `e` says that `pattern` is refused, in the words of the engine.
pub open spec fn refuses(pattern: Seq<char>, e: UnweaveError) -> bool {
    e matches UnweaveError::InvalidPattern(text) && regex_refusal(pattern) == Some(text@)
}

/// Searches `haystack` with `regex::bytes::Regex::captures` and hands out the
/// span of every capture group, the whole match first. Each span that a
/// group has lies within the haystack, its start not after its end.
#[verifier::external_body]
fn capture_spans(re: &regex::bytes::Regex, haystack: &[u8]) -> (r: Option<
    Vec<Option<(usize, usize)>>,
>)
    ensures
        match r {
            Some(groups) => {
                &&& regex_captures(regex_source(*re), haystack@) == Some(groups@)
                &&& forall|i: int|
                    0 <= i < groups@.len() ==> (#[trigger] groups@[i] matches Some((s, e)) ==> s
                        <= e <= haystack@.len())
            },
            None => regex_captures(regex_source(*re), haystack@) is None,
        },
{
    re.captures(haystack).map(|c| c.iter().map(|m| m.map(|m| (m.start(), m.end()))).collect())
}

/// The span of the last group of a match, where the search has found a match
/// and the group has taken part in it.
pub open spec fn last_group(groups: Option<Seq<Option<(usize, usize)>>>) -> Option<(usize, usize)> {
    match groups {
        Some(g) if g.len() > 0 => g[g.len() - 1],
        _ => None,
    }
}

/// Where the tag of `line` lies: the span of the last capture group of the
/// leftmost match, which is the whole match where the pattern has no group.
pub open spec fn tag_span(pattern: Seq<char>, line: Seq<u8>) -> Option<(usize, usize)> {
    last_group(regex_captures(pattern, line))
}

/// The tag of `line`, or `None` for a line that belongs to no stream.
pub open spec fn tag_of(pattern: Seq<char>, line: Seq<u8>) -> Option<Seq<u8>> {
    match tag_span(pattern, line) {
        Some((start, end)) => Some(line.subrange(start as int, end as int)),
        None => None,
    }
}

/// Picks the span of the tag out of the spans of a match.
pub fn tag_range(groups: Option<Vec<Option<(usize, usize)>>>) -> (r: Option<Range<usize>>)
    ensures
        match (r, last_group(seq_of(groups))) {
            (Some(range), Some((start, end))) => range.start == start && range.end == end,
            (None, None) => true,
            _ => false,
        },
{
    match groups {
        Some(g) => {
            if g.len() == 0 {
                return None;
            }
            match g[g.len() - 1] {
                Some((start, end)) => Some(start..end),
                None => None,
            }
        },
        None => None,
    }
}

/// The spans of a search result as a sequence.
pub open spec fn seq_of(groups: Option<Vec<Option<(usize, usize)>>>) -> Option<
    Seq<Option<(usize, usize)>>,
> {
    match groups {
        Some(g) => Some(g@),
        None => None,
    }
}

/// Finds stream tags with a regular expression.
pub struct TagFinder {
    re: regex::bytes::Regex,
}

impl TagFinder {
    /// The pattern that tags are found with.
    pub closed spec fn pattern(&self) -> Seq<char> {
        regex_source(self.re)
    }

    /// Compiles `pattern`. A finder comes back unless the regular expression
    /// engine refuses the pattern; then the error holds the engine's words.
    pub fn new(pattern: &str) -> (r: Result<TagFinder, UnweaveError>)
        ensures
            match r {
                Ok(finder) => regex_refusal(pattern@) is None && finder.pattern() == pattern@,
                Err(e) => refuses(pattern@, e),
            },
    {
        match compile_regex(pattern) {
            Ok(re) => Ok(TagFinder { re }),
            Err(text) => Err(UnweaveError::InvalidPattern(text)),
        }
    }

    /// The byte range of the tag within `line`, or `None` where the line has
    /// no tag.
    pub fn find_in(&self, line: &[u8]) -> (r: Option<Range<usize>>)
        ensures
            match (r, tag_span(self.pattern(), line@)) {
                (Some(range), Some((start, end))) => {
                    &&& range.start == start
                    &&& range.end == end
                    &&& start <= end <= line@.len()
                },
                (None, None) => true,
                _ => false,
            },
    {
        let groups = capture_spans(&self.re, line);
        assert(groups matches Some(g) ==> g@.len() > 0 ==> (g@[g@.len() - 1] matches Some((s, e))
            ==> s <= e <= line@.len()));
        tag_range(groups)
    }
}

} // verus!
