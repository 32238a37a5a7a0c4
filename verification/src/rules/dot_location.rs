use vstd::prelude::*;

use crate::text::concat;

verus! {

/// Where the dot of a member access goes: on the object's line (the
/// default) or on the property's.
#[derive(Copy, Clone, Debug, PartialEq, Eq, Structural)]
pub enum Options {
    Object,
    Property,
}

impl Default for Options {
    fn default() -> (o: Self)
        ensures
            o == Options::Object,
    {
        Options::Object
    }
}

/// What the rule reports.
#[derive(Copy, Clone, Debug, PartialEq, Eq, Structural)]
pub enum Message {
    ExpectedDotAfterObject,
    ExpectedDotBeforeProperty,
}

/// The report for a member access: with the dot on the object's side, the
/// token before the dot must share its line; else the dot must share the
/// property's line.
pub open spec fn dot_location_spec(options: Options, before_dot_same_line: bool, dot_property_same_line: bool) -> Option<Message> {
    if options == Options::Object {
        if !before_dot_same_line {
            Some(Message::ExpectedDotAfterObject)
        } else {
            None
        }
    } else if !dot_property_same_line {
        Some(Message::ExpectedDotBeforeProperty)
    } else {
        None
    }
}

pub fn check_member_expression(options: Options, before_dot_same_line: bool, dot_property_same_line: bool) -> (r: Option<Message>)
    ensures
        r == dot_location_spec(options, before_dot_same_line, dot_property_same_line),
{
    if options == Options::Object {
        if !before_dot_same_line {
            Some(Message::ExpectedDotAfterObject)
        } else {
            None
        }
    } else if !dot_property_same_line {
        Some(Message::ExpectedDotBeforeProperty)
    } else {
        None
    }
}

/// The text the fix puts after the object when it moves the dot there: the
/// dot's text, after a space where the object is a decimal integer (so that
/// the dot does not read as a decimal point).
pub open spec fn moved_dot_text_spec(dot_text: Seq<char>, before_is_decimal_integer: bool) -> Seq<char> {
    if dot_text.len() > 0 && dot_text[0] == '.' && before_is_decimal_integer {
        seq![' '] + dot_text
    } else {
        dot_text
    }
}

pub fn moved_dot_text(dot_text: &str, before_is_decimal_integer: bool) -> (r: String)
    ensures
        r@ == moved_dot_text_spec(dot_text@, before_is_decimal_integer),
{
    let starts_with_dot = dot_text.unicode_len() > 0 && dot_text.get_char(0) == '.';
    if starts_with_dot && before_is_decimal_integer {
        proof {
            reveal_strlit(" ");
        }
        concat(" ", dot_text)
    } else {
        String::from_str(dot_text)
    }
}

/// Where the dot of a member access must stand: with the option `object`
/// it is reported exactly when it does not share a line with what comes
/// before it, wherever the property stands; with `property`, exactly when
/// it does not share a line with the property, wherever the object stands.
pub proof fn lemma_dot_location_by_side(
    options: Options,
    before_dot_same_line: bool,
    dot_property_same_line: bool,
    other_before: bool,
    other_property: bool,
)
    ensures
        options == Options::Object ==> {
            let r = dot_location_spec(options, before_dot_same_line, dot_property_same_line);
            &&& (r is Some) <==> !before_dot_same_line
            &&& r == dot_location_spec(options, before_dot_same_line, other_property)
            &&& r is Some ==> r == Some(Message::ExpectedDotAfterObject)
        },
        options == Options::Property ==> {
            let r = dot_location_spec(options, before_dot_same_line, dot_property_same_line);
            &&& (r is Some) <==> !dot_property_same_line
            &&& r == dot_location_spec(options, other_before, dot_property_same_line)
            &&& r is Some ==> r == Some(Message::ExpectedDotBeforeProperty)
        },
{
}

} // verus!
