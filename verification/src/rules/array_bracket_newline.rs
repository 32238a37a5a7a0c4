use vstd::prelude::*;

verus! {

/// The option in object form: break lines in multiline arrays, and in
/// arrays with at least `min_items` elements.
#[derive(Copy, Clone, Debug, PartialEq, Eq, Structural)]
pub struct OptionsObject {
    pub multiline: Option<bool>,
    pub min_items: Option<usize>,
}

impl Default for OptionsObject {
    fn default() -> (o: Self)
        ensures
            o == (OptionsObject { multiline: None, min_items: None }),
    {
        OptionsObject { multiline: None, min_items: None }
    }
}

impl OptionsObject {
    pub fn consistent(&self) -> (b: bool)
        ensures
            !b,
    {
        false
    }

    pub fn multiline(&self) -> (b: bool)
        ensures
            b == (self.multiline == Some(true)),
    {
        match self.multiline {
            Some(v) => v,
            None => false,
        }
    }

    pub fn min_items(&self) -> (n: usize)
        ensures
            n == match self.min_items {
                Some(v) => v,
                None => usize::MAX,
            },
    {
        match self.min_items {
            Some(v) => v,
            None => usize::MAX,
        }
    }
}

/// The option in string form.
#[derive(Copy, Clone, Debug, PartialEq, Eq, Structural)]
pub enum OptionsEnum {
    Always,
    Never,
    Consistent,
}

impl OptionsEnum {
    pub fn consistent(&self) -> (b: bool)
        ensures
            b == (*self == OptionsEnum::Consistent),
    {
        match self {
            OptionsEnum::Consistent => true,
            _ => false,
        }
    }

    pub fn multiline(&self) -> (b: bool)
        ensures
            !b,
    {
        false
    }

    /// `always` breaks every array; the others never for their count.
    pub fn min_items(&self) -> (n: usize)
        ensures
            n == if *self == OptionsEnum::Always {
                0
            } else {
                usize::MAX
            },
    {
        match self {
            OptionsEnum::Always => 0,
            _ => usize::MAX,
        }
    }
}

/// The rule's option, in either form.
#[derive(Copy, Clone, Debug, PartialEq, Eq, Structural)]
pub enum Options {
    Enum(OptionsEnum),
    Object(OptionsObject),
}

/// The settings an option stands for: `consistent`, `multiline` and
/// `min_items`.
pub open spec fn settings(o: Options) -> (bool, bool, usize) {
    match o {
        Options::Enum(e) => (
            e == OptionsEnum::Consistent,
            false,
            if e == OptionsEnum::Always {
                0
            } else {
                usize::MAX
            },
        ),
        Options::Object(v) => (
            false,
            v.multiline == Some(true),
            match v.min_items {
                Some(n) => n,
                None => usize::MAX,
            },
        ),
    }
}

impl Default for Options {
    /// Lines break in multiline arrays only.
    fn default() -> (o: Self)
        ensures
            o == Options::Object(OptionsObject { multiline: Some(true), min_items: Some(usize::MAX) }),
    {
        Options::Object(OptionsObject { multiline: Some(true), min_items: Some(usize::MAX) })
    }
}

impl Options {
    pub fn consistent(&self) -> (b: bool)
        ensures
            b == settings(*self).0,
    {
        match self {
            Options::Enum(value) => value.consistent(),
            Options::Object(value) => value.consistent(),
        }
    }

    pub fn multiline(&self) -> (b: bool)
        ensures
            b == settings(*self).1,
    {
        match self {
            Options::Enum(value) => value.multiline(),
            Options::Object(value) => value.multiline(),
        }
    }

    pub fn min_items(&self) -> (n: usize)
        ensures
            n == settings(*self).2,
    {
        match self {
            Options::Enum(value) => value.min_items(),
            Options::Object(value) => value.min_items(),
        }
    }
}

/// What the rule reads of an array literal or pattern: the number of its
/// elements; the first token after `[` and the last before `]`, comments
/// included (the row where the first starts, the row where the last ends,
/// whether they are one token, and whether the first is a block comment);
/// the row where `[` ends and the row where the first token after it,
/// comments aside, starts.
#[derive(Copy, Clone, Debug, PartialEq, Eq, Structural)]
pub struct ArrayLayout {
    pub num_elements: usize,
    pub first_inc_comment_start_row: usize,
    pub last_inc_comment_end_row: usize,
    pub first_is_last_inc_comment: bool,
    pub first_inc_comment_is_block_comment: bool,
    pub open_bracket_end_row: usize,
    pub first_start_row: usize,
}

/// Whether the brackets of an array need line breaks inside them: enough
/// elements; a multiline array (when asked for); an empty array holding
/// only a block comment over several lines; or (when consistent) a break
/// after `[` already.
pub open spec fn needs_linebreaks_spec(a: ArrayLayout, consistent: bool, multiline: bool, min_items: usize) -> bool {
    a.num_elements >= min_items || (multiline && a.num_elements > 0 && a.first_inc_comment_start_row
        != a.last_inc_comment_end_row) || (a.num_elements == 0
        && a.first_inc_comment_is_block_comment && a.first_inc_comment_start_row
        != a.last_inc_comment_end_row && a.first_is_last_inc_comment) || (consistent
        && a.open_bracket_end_row != a.first_start_row)
}

pub fn needs_linebreaks(a: ArrayLayout, consistent: bool, multiline: bool, min_items: usize) -> (b: bool)
    ensures
        b == needs_linebreaks_spec(a, consistent, multiline, min_items),
{
    a.num_elements >= min_items || (multiline && a.num_elements > 0 && a.first_inc_comment_start_row
        != a.last_inc_comment_end_row) || (a.num_elements == 0
        && a.first_inc_comment_is_block_comment && a.first_inc_comment_start_row
        != a.last_inc_comment_end_row && a.first_is_last_inc_comment) || (consistent
        && a.open_bracket_end_row != a.first_start_row)
}

/// What the rule reports at one bracket.
#[derive(Copy, Clone, Debug, PartialEq, Eq, Structural)]
pub enum BracketMessage {
    UnexpectedOpeningLinebreak,
    UnexpectedClosingLinebreak,
    MissingOpeningLinebreak,
    MissingClosingLinebreak,
}

/// The reports at `[` and at `]`: where breaks are needed, a bracket on the
/// same line as its neighbour token lacks one; where they are not, a
/// bracket on another line has one too many.
pub open spec fn bracket_reports_spec(needs: bool, open_same_line: bool, close_same_line: bool) -> (
    Option<BracketMessage>,
    Option<BracketMessage>,
) {
    if needs {
        (
            if open_same_line {
                Some(BracketMessage::MissingOpeningLinebreak)
            } else {
                None
            },
            if close_same_line {
                Some(BracketMessage::MissingClosingLinebreak)
            } else {
                None
            },
        )
    } else {
        (
            if !open_same_line {
                Some(BracketMessage::UnexpectedOpeningLinebreak)
            } else {
                None
            },
            if !close_same_line {
                Some(BracketMessage::UnexpectedClosingLinebreak)
            } else {
                None
            },
        )
    }
}

pub fn bracket_reports(needs: bool, open_same_line: bool, close_same_line: bool) -> (r: (
    Option<BracketMessage>,
    Option<BracketMessage>,
))
    ensures
        r == bracket_reports_spec(needs, open_same_line, close_same_line),
{
    if needs {
        (
            if open_same_line {
                Some(BracketMessage::MissingOpeningLinebreak)
            } else {
                None
            },
            if close_same_line {
                Some(BracketMessage::MissingClosingLinebreak)
            } else {
                None
            },
        )
    } else {
        (
            if !open_same_line {
                Some(BracketMessage::UnexpectedOpeningLinebreak)
            } else {
                None
            },
            if !close_same_line {
                Some(BracketMessage::UnexpectedClosingLinebreak)
            } else {
                None
            },
        )
    }
}

/// Checks an array: its layout under the options gives the reports at its
/// two brackets (`open_same_line`: `[` and the token after it share a line;
/// `close_same_line`: the token before `]` and `]` do).
pub fn check_array(options: &Options, layout: ArrayLayout, open_same_line: bool, close_same_line: bool) -> (r: (
    Option<BracketMessage>,
    Option<BracketMessage>,
))
    ensures
        r == bracket_reports_spec(
            needs_linebreaks_spec(layout, settings(*options).0, settings(*options).1, settings(*options).2),
            open_same_line,
            close_same_line,
        ),
{
    let needs = needs_linebreaks(layout, options.consistent(), options.multiline(), options.min_items());
    bracket_reports(needs, open_same_line, close_same_line)
}


/// With `always`, every array needs line breaks inside its brackets.
pub proof fn lemma_always_needs_linebreaks(layout: ArrayLayout)
    ensures
        ({
            let (consistent, multiline, min_items) = settings(Options::Enum(OptionsEnum::Always));
            needs_linebreaks_spec(layout, consistent, multiline, min_items)
        }),
{
}

/// Where line breaks are needed, a bracket is reported only for lacking
/// one; where they are not, only for having one.
pub proof fn lemma_reports_follow_need(needs: bool, open_same_line: bool, close_same_line: bool)
    ensures
        ({
            let (open, close) = bracket_reports_spec(needs, open_same_line, close_same_line);
            &&& (open is Some <==> (needs == open_same_line))
            &&& (close is Some <==> (needs == close_same_line))
        }),
{
}

/// Each bracket is judged on its own: where line breaks are needed, a
/// bracket that shares its line with the token inside it is reported as
/// missing one; where they are not, a bracket that does not is reported as
/// having one too many. The report at `[` does not depend on `]` and the
/// other way round.
pub proof fn lemma_brackets_judged_apart(needs: bool, open_same_line: bool, close_same_line: bool, other_open: bool, other_close: bool)
    ensures
        ({
            let r = bracket_reports_spec(needs, open_same_line, close_same_line);
            &&& r.0 == bracket_reports_spec(needs, open_same_line, other_close).0
            &&& r.1 == bracket_reports_spec(needs, other_open, close_same_line).1
            &&& (r.0 is Some) <==> (needs == open_same_line)
            &&& (r.1 is Some) <==> (needs == close_same_line)
            &&& needs ==> (r.0 is Some ==> r.0 == Some(BracketMessage::MissingOpeningLinebreak)) && (r.1 is Some
                ==> r.1 == Some(BracketMessage::MissingClosingLinebreak))
            &&& !needs ==> (r.0 is Some ==> r.0 == Some(BracketMessage::UnexpectedOpeningLinebreak)) && (r.1 is Some
                ==> r.1 == Some(BracketMessage::UnexpectedClosingLinebreak))
        }),
{
}

/// When an array needs line breaks inside its brackets: it has at least the
/// minimum number of elements; or (when asked for multiline arrays) its
/// elements run over more than one line; or it holds nothing but a block
/// comment over several lines; or (when consistent) its first element does
/// not start on the line of `[`. Nothing else makes them needed. The option
/// `always` needs them for every array, `never` only for the comment case.
pub proof fn lemma_linebreaks_needed(a: ArrayLayout, consistent: bool, multiline: bool, min_items: usize)
    ensures
        needs_linebreaks_spec(a, consistent, multiline, min_items) <==> (a.num_elements >= min_items || (multiline
            && a.num_elements > 0 && a.first_inc_comment_start_row != a.last_inc_comment_end_row) || (a.num_elements
            == 0 && a.first_inc_comment_is_block_comment && a.first_inc_comment_start_row
            != a.last_inc_comment_end_row && a.first_is_last_inc_comment) || (consistent && a.open_bracket_end_row
            != a.first_start_row)),
        ({
            let (c, m, n) = settings(Options::Enum(OptionsEnum::Always));
            needs_linebreaks_spec(a, c, m, n)
        }),
        ({
            let (c, m, n) = settings(Options::Enum(OptionsEnum::Never));
            needs_linebreaks_spec(a, c, m, n) <==> (a.num_elements >= usize::MAX || (a.num_elements == 0
                && a.first_inc_comment_is_block_comment && a.first_inc_comment_start_row
                != a.last_inc_comment_end_row && a.first_is_last_inc_comment))
        }),
{
}

} // verus!
