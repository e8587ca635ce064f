use vstd::prelude::*;

verus! {

#[verifier::external_type_specification]
#[verifier::external_body]
pub struct ExRegex(regex::Regex);

#[verifier::external_type_specification]
#[verifier::external_body]
pub struct ExRegexError(regex::Error);

/// Whether `regex::Regex::new` accepts `pattern` (a valid pattern within the default size limit).
pub uninterp spec fn regex_compiles(pattern: Seq<char>) -> bool;

/// Whether the regex compiled from `pattern` by `regex::Regex::new` matches somewhere in
/// `hay` (`regex::Regex::is_match`).
pub uninterp spec fn regex_is_match(pattern: Seq<char>, hay: Seq<char>) -> bool;

/// The pattern `^https?://`: the start of the text, `http`, an optional `s`, then `://`.
pub open spec fn http_pattern() -> Seq<char> {
    "^https?://"@
}

/// `hay` starts with `http://` or with `https://`.
pub open spec fn starts_http(hay: Seq<char>) -> bool {
    ||| (hay.len() >= 7 && hay.take(7) == "http://"@)
    ||| (hay.len() >= 8 && hay.take(8) == "https://"@)
}

/// A compiled regular expression together with the pattern it was compiled from.
/// Only `compile` builds one, so `re` is always the compilation of `source`.
pub struct Matcher {
    re: regex::Regex,
    source: String,
}

impl View for Matcher {
    type V = Seq<char>;

    /// The pattern the matcher was compiled from.
    closed spec fn view(&self) -> Seq<char> {
        self.source@
    }
}

/// `regex::Regex::new(pattern)`. The contract claims that the call succeeds exactly when
/// `regex_compiles(pattern)` (the crate is deterministic: its outcome depends on the
/// pattern alone under the default builder settings), and that on success the matcher
/// carries `pattern` as its source. Of one pattern it states that it compiles:
/// `^https?://` is valid syntax (an anchor, literals and one optional literal) and far
/// below the default size limit. Which other patterns compile is not stated.
#[verifier::external_body]
pub(crate) fn compile(pattern: &str) -> (res: Result<Matcher, regex::Error>)
    ensures
        res is Ok <==> regex_compiles(pattern@),
        res matches Ok(m) ==> m@ == pattern@,
        pattern@ == http_pattern() ==> res is Ok,
{
    match regex::Regex::new(pattern) {
        Ok(re) => Ok(Matcher { re, source: pattern.to_string() }),
        Err(e) => Err(e),
    }
}

/// `regex::Regex::is_match(hay)` on the matcher's regex. The contract names the result
/// `regex_is_match(source, hay)`: the crate documents it as "true if and only if there is
/// a match for the regex anywhere in the haystack", a function of the pattern and the
/// haystack alone. Of one pattern it states what matches, as the crate's syntax documents
/// it: `^` matches only at the start of the haystack (multi-line mode is off by default),
/// `s?` matches `s` or nothing, and the other characters match themselves, so
/// `^https?://` matches exactly the haystacks that start with `http://` or `https://`.
/// What matches other patterns is not stated.
#[verifier::external_body]
pub(crate) fn is_match(m: &Matcher, hay: &str) -> (b: bool)
    ensures
        b == regex_is_match(m@, hay@),
        m@ == http_pattern() ==> (b <==> starts_http(hay@)),
{
    m.re.is_match(hay)
}

} // verus!
