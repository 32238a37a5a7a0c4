use vstd::prelude::*;

verus! {

#[verifier::external_type_specification]
#[verifier::external_body]
pub struct ExRegex(regex::Regex);

/// Whether `regex::Regex::new` accepts `pattern`.
pub uninterp spec fn regex_compiles(pattern: Seq<char>) -> bool;

/// Whether the regular expression `pattern` (compiled by `regex::Regex::new`)
/// matches somewhere in `text`, as `regex::Regex::is_match` says.
pub uninterp spec fn regex_matches(pattern: Seq<char>, text: Seq<char>) -> bool;

/// Compiles `pattern` with `regex::Regex::new`; `None` when the crate refuses
/// it. The contract only says that this is decided by the pattern alone.
#[verifier::external_body]
fn compile_regex(pattern: &str) -> (r: Option<regex::Regex>)
    ensures
        r is Some <==> regex_compiles(pattern@),
{
    regex::Regex::new(pattern).ok()
}

/// A regular expression together with the text it was compiled from.
pub struct Pattern {
    source: String,
    regex: regex::Regex,
}

impl View for Pattern {
    type V = Seq<char>;

    closed spec fn view(&self) -> Seq<char> {
        self.source@
    }
}

/// Whether the regular expression of `p` matches somewhere in `text`
/// (`regex::Regex::is_match`). The regular expression of a `Pattern` is the
/// one `Pattern::new` compiled from its text, so the result is named over
/// that text; the contract says no more of it.
#[verifier::external_body]
fn pattern_is_match(p: &Pattern, text: &str) -> (b: bool)
    ensures
        b == regex_matches(p@, text@),
{
    p.regex.is_match(text)
}

impl Pattern {
    /// Compiles `source`; `None` when it is no regular expression the
    /// `regex` crate accepts.
    pub fn new(source: &str) -> (r: Option<Pattern>)
        ensures
            r is Some <==> regex_compiles(source@),
            r matches Some(p) ==> p@ == source@,
    {
        match compile_regex(source) {
            Some(regex) => Some(Pattern { source: String::from_str(source), regex }),
            None => None,
        }
    }

    /// Whether the pattern matches somewhere in `text`.
    pub fn is_match(&self, text: &str) -> (b: bool)
        ensures
            b == regex_matches(self@, text@),
    {
        pattern_is_match(self, text)
    }

    /// The text the pattern was compiled from.
    pub fn as_str(&self) -> (s: &str)
        ensures
            s@ == self@,
    {
        self.source.as_str()
    }
}


/// Where the regular expression `pattern` first matches in `text`
/// (`regex::Regex::find`): the text before the match and the text after it.
pub uninterp spec fn regex_split(pattern: Seq<char>, text: Seq<char>) -> Option<(Seq<char>, Seq<char>)>;

/// What the first capture group of the regular expression `pattern` holds
/// where it first matches `text` (`regex::Regex::captures`), and the text
/// after that group; `None` where there is no match or the group took no
/// part in it.
pub uninterp spec fn regex_group(pattern: Seq<char>, text: Seq<char>) -> Option<(Seq<char>, Seq<char>)>;

/// Splits `text` around the first match of `p` (`regex::Regex::find`). The
/// result is named over the pattern's text and `text`; nothing more is
/// said of it.
#[verifier::external_body]
fn pattern_split(p: &Pattern, text: &str) -> (r: Option<(String, String)>)
    ensures
        match r {
            Some((a, b)) => regex_split(p@, text@) == Some((a@, b@)),
            None => regex_split(p@, text@) is None,
        },
{
    p.regex.find(text).map(|m| (text[..m.start()].to_string(), text[m.end()..].to_string()))
}

/// The first capture group of `p` where it first matches `text`
/// (`regex::Regex::captures`), and the text after that group. The result is
/// named over the pattern's text and `text`.
#[verifier::external_body]
fn pattern_group(p: &Pattern, text: &str) -> (r: Option<(String, String)>)
    ensures
        match r {
            Some((a, b)) => regex_group(p@, text@) == Some((a@, b@)),
            None => regex_group(p@, text@) is None,
        },
{
    p.regex.captures(text).and_then(|c| c.get(1)).map(|g| (g.as_str().to_string(), text[g.end()..].to_string()))
}

impl Pattern {
    /// The text before and after the first match in `text`.
    pub fn split_at_first_match(&self, text: &str) -> (r: Option<(String, String)>)
        ensures
            match r {
                Some((a, b)) => regex_split(self@, text@) == Some((a@, b@)),
                None => regex_split(self@, text@) is None,
            },
    {
        pattern_split(self, text)
    }

    /// The first capture group where the pattern first matches `text`, and
    /// the text after it.
    pub fn first_group(&self, text: &str) -> (r: Option<(String, String)>)
        ensures
            match r {
                Some((a, b)) => regex_group(self@, text@) == Some((a@, b@)),
                None => regex_group(self@, text@) is None,
            },
    {
        pattern_group(self, text)
    }
}
} // verus!
