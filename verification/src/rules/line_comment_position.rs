use vstd::prelude::*;

use crate::pattern::{regex_compiles, regex_matches, Pattern};

verus! {

/// Where line comments go: above the code (the default) or beside it.
#[derive(Copy, Clone, Debug, PartialEq, Eq, Structural)]
pub enum AboveOrBeside {
    Above,
    Beside,
}

/// The option in object form.
pub struct OptionsObject {
    pub position: AboveOrBeside,
    /// Comments that this pattern matches are left alone.
    pub ignore_pattern: Option<Pattern>,
    /// Whether directive-like and fall-through comments are left alone.
    pub apply_default_ignore_patterns: bool,
}

impl Default for OptionsObject {
    fn default() -> (o: Self)
        ensures
            o.position == AboveOrBeside::Above,
            o.ignore_pattern is None,
            o.apply_default_ignore_patterns,
    {
        OptionsObject {
            position: AboveOrBeside::Above,
            ignore_pattern: None,
            apply_default_ignore_patterns: true,
        }
    }
}

/// The rule's option: a position alone, or the object form.
pub enum Options {
    SingleValue(AboveOrBeside),
    Object(OptionsObject),
}

impl Default for Options {
    fn default() -> (o: Self)
        ensures
            o == Options::SingleValue(AboveOrBeside::Above),
    {
        Options::SingleValue(AboveOrBeside::Above)
    }
}

impl Options {
    pub open spec fn above_spec(&self) -> bool {
        match self {
            Options::SingleValue(v) => *v == AboveOrBeside::Above,
            Options::Object(o) => o.position == AboveOrBeside::Above,
        }
    }

    pub open spec fn apply_default_spec(&self) -> bool {
        match self {
            Options::Object(o) => o.apply_default_ignore_patterns,
            _ => true,
        }
    }

    pub open spec fn ignore_source(&self) -> Option<Seq<char>> {
        match self {
            Options::Object(o) => match &o.ignore_pattern {
                Some(p) => Some(p@),
                None => None,
            },
            _ => None,
        }
    }

    pub fn above(&self) -> (b: bool)
        ensures
            b == self.above_spec(),
    {
        match self {
            Options::SingleValue(v) => *v == AboveOrBeside::Above,
            Options::Object(o) => o.position == AboveOrBeside::Above,
        }
    }

    pub fn ignore_pattern(&self) -> (r: Option<&Pattern>)
        ensures
            match r {
                Some(p) => self.ignore_source() == Some(p@),
                None => self.ignore_source() is None,
            },
    {
        match self {
            Options::Object(o) => match &o.ignore_pattern {
                Some(p) => Some(p),
                None => None,
            },
            _ => None,
        }
    }

    pub fn apply_default_ignore_patterns(&self) -> (b: bool)
        ensures
            b == self.apply_default_spec(),
    {
        match self {
            Options::Object(o) => o.apply_default_ignore_patterns,
            _ => true,
        }
    }
}

/// Comments that read as directives to linters.
pub open spec fn comments_ignore_source() -> Seq<char> {
    "^\\s*(?:eslint|jshint\\s+|jslint\\s+|istanbul\\s+|globals?\\s+|exported\\s+|jscs)"@
}

/// Comments that mark a deliberate fall-through.
pub open spec fn fall_through_source() -> Seq<char> {
    "^\\s*falls?\\s?through"@
}

/// The regular expression `source` compiles and matches `text`.
pub open spec fn matches(source: Seq<char>, text: Seq<char>) -> bool {
    regex_compiles(source) && regex_matches(source, text)
}

fn matches_source(source: &str, text: &str) -> (b: bool)
    ensures
        b == matches(source@, text@),
{
    match Pattern::new(source) {
        Some(p) => p.is_match(text),
        None => false,
    }
}

/// What the rule reports.
#[derive(Copy, Clone, Debug, PartialEq, Eq, Structural)]
pub enum Message {
    Above,
    Beside,
}

/// The report for a comment whose contents are `text`: only line comments
/// are checked; those that the default patterns (where applied) or the
/// ignore pattern match are left alone; the others must be above the code
/// (not sharing a line with the token before them) or beside it, as the
/// option says.
pub open spec fn check_comment_spec(options: &Options, is_line_comment: bool, text: Seq<char>, previous_same_line: bool) -> Option<Message> {
    if !is_line_comment {
        None
    } else if options.apply_default_spec() && (matches(comments_ignore_source(), text) || matches(
        fall_through_source(),
        text,
    )) {
        None
    } else if (options.ignore_source() matches Some(src) && regex_matches(src, text)) {
        None
    } else if options.above_spec() && previous_same_line {
        Some(Message::Above)
    } else if !options.above_spec() && !previous_same_line {
        Some(Message::Beside)
    } else {
        None
    }
}

/// Checks a comment: whether it is a line comment, its contents, and
/// whether the token before it (comments included) ends on the line where
/// it starts.
pub fn check_comment(options: &Options, is_line_comment: bool, text: &str, previous_same_line: bool) -> (r: Option<Message>)
    ensures
        r == check_comment_spec(options, is_line_comment, text@, previous_same_line),
{
    if !is_line_comment {
        return None;
    }
    let ignore = "^\\s*(?:eslint|jshint\\s+|jslint\\s+|istanbul\\s+|globals?\\s+|exported\\s+|jscs)";
    let fall_through = "^\\s*falls?\\s?through";
    assert(ignore@ == comments_ignore_source());
    assert(fall_through@ == fall_through_source());
    if options.apply_default_ignore_patterns() && (matches_source(ignore, text) || matches_source(fall_through, text)) {
        return None;
    }
    match options.ignore_pattern() {
        Some(p) => {
            if p.is_match(text) {
                return None;
            }
        },
        None => {},
    }
    let above = options.above();
    if above && previous_same_line {
        Some(Message::Above)
    } else if !above && !previous_same_line {
        Some(Message::Beside)
    } else {
        None
    }
}

/// Where a line comment must stand: only line comments are checked, and
/// none that an ignore pattern (the given one, or the default ones where
/// they apply) matches. Of the others, with `above` exactly those beside
/// code are reported (told to move above), with `beside` exactly those on a
/// line of their own (told to move beside).
pub proof fn lemma_comment_position(options: Options, is_line_comment: bool, text: Seq<char>, previous_same_line: bool)
    ensures
        ({
            let r = check_comment_spec(&options, is_line_comment, text, previous_same_line);
            let ignored = (options.apply_default_spec() && (matches(comments_ignore_source(), text) || matches(
                fall_through_source(),
                text,
            ))) || (options.ignore_source() matches Some(src) && regex_matches(src, text));
            &&& (!is_line_comment || ignored) ==> r is None
            &&& (is_line_comment && !ignored) ==> ((r is Some) <==> (options.above_spec() == previous_same_line))
            &&& r == Some(Message::Above) ==> options.above_spec() && previous_same_line
            &&& r == Some(Message::Beside) ==> !options.above_spec() && !previous_same_line
        }),
{
}

} // verus!
