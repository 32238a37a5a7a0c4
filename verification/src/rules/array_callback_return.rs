use vstd::prelude::*;

use crate::pattern::{regex_compiles, regex_matches, Pattern};
use crate::text::{concat, str_eq};

verus! {

/// The rule's options: whether a bare `return` is enough, and whether
/// `forEach` callbacks are checked for useless values.
#[derive(Copy, Clone, Debug, PartialEq, Eq, Structural)]
pub struct Options {
    pub allow_implicit: bool,
    pub check_for_each: bool,
}

impl Default for Options {
    fn default() -> (o: Self)
        ensures
            o == (Options { allow_implicit: false, check_for_each: false }),
    {
        Options { allow_implicit: false, check_for_each: false }
    }
}

/// The methods of arrays whose callbacks the rule checks, as a regular
/// expression on the method's name.
pub open spec fn target_methods_source() -> Seq<char> {
    "^(?:every|filter|find(?:Last)?(?:Index)?|flatMap|forEach|map|reduce(?:Right)?|some|sort|toSorted)$"@
}

/// A method name that the rule checks: the regular expression of
/// `target_methods_source` matches it.
pub open spec fn is_target_method_spec(name: Seq<char>) -> bool {
    regex_compiles(target_methods_source()) && regex_matches(target_methods_source(), name)
}

pub fn is_target_method(name: &str) -> (b: bool)
    ensures
        b == is_target_method_spec(name@),
{
    let source = "^(?:every|filter|find(?:Last)?(?:Index)?|flatMap|forEach|map|reduce(?:Right)?|some|sort|toSorted)$";
    assert(source@ == target_methods_source());
    match Pattern::new(source) {
        Some(p) => p.is_match(name),
        None => false,
    }
}

/// The array method that a function is the callback of, where the function
/// (or the expression leading to it) is an argument of a call: `Array.from`
/// takes its callback second, a target method first. `callee_is_array_from`
/// says whether the callee is `Array.from`, `position` is the argument's
/// position (where the call has a list of arguments) and `callee_property`
/// the static property name of the callee.
pub open spec fn array_method_of_call_spec(
    callee_is_array_from: bool,
    position: Option<usize>,
    callee_property: Option<Seq<char>>,
) -> Option<Seq<char>> {
    if callee_is_array_from && position == Some(1usize) {
        Some("from"@)
    } else if position == Some(0usize) && (callee_property matches Some(p) && is_target_method_spec(p)) {
        callee_property
    } else {
        None
    }
}

pub fn array_method_of_call(
    callee_is_array_from: bool,
    position: Option<usize>,
    callee_property: Option<&str>,
) -> (r: Option<String>)
    ensures
        r matches Some(s) ==> array_method_of_call_spec(
            callee_is_array_from,
            position,
            match callee_property {
                Some(p) => Some(p@),
                None => None,
            },
        ) == Some(s@),
        r is None ==> array_method_of_call_spec(
            callee_is_array_from,
            position,
            match callee_property {
                Some(p) => Some(p@),
                None => None,
            },
        ) is None,
{
    if callee_is_array_from && position == Some(1usize) {
        return Some(String::from_str("from"));
    }
    match callee_property {
        Some(p) => if position == Some(0usize) && is_target_method(p) {
            Some(String::from_str(p))
        } else {
            None
        },
        None => None,
    }
}

/// One step up from an expression while looking for the array method it is
/// the callback of, by what the parent is.
#[derive(Copy, Clone, Debug, PartialEq, Eq, Structural)]
pub enum Parent {
    /// A binary expression, logical or not.
    Binary { logical: bool },
    /// A conditional or parenthesized expression.
    Transparent,
    /// A `return` statement; `upper_is_callee` says whether the function it
    /// returns from exists and is itself called.
    Return { upper_is_callee: bool },
    /// A list of arguments, or a call: the answer is found there.
    Call,
    Other,
}

/// What to do next while looking for the array method.
#[derive(Copy, Clone, Debug, PartialEq, Eq, Structural)]
pub enum Step {
    /// Go on from the parent.
    Up,
    /// Go on from the nearest ancestor, parentheses aside, of the function
    /// that the `return` leaves.
    UpFromFunction,
    /// Decide at the call (see `array_method_of_call`).
    AtCall,
    /// The expression is no callback of an array method.
    NotCallback,
}

pub open spec fn step_spec(parent: Parent) -> Step {
    match parent {
        Parent::Binary { logical } => if logical {
            Step::Up
        } else {
            Step::NotCallback
        },
        Parent::Transparent => Step::Up,
        Parent::Return { upper_is_callee } => if upper_is_callee {
            Step::UpFromFunction
        } else {
            Step::NotCallback
        },
        Parent::Call => Step::AtCall,
        Parent::Other => Step::NotCallback,
    }
}

/// The next step up from an expression, by its parent.
pub fn array_method_step(parent: Parent) -> (s: Step)
    ensures
        s == step_spec(parent),
{
    match parent {
        Parent::Binary { logical } => if logical {
            Step::Up
        } else {
            Step::NotCallback
        },
        Parent::Transparent => Step::Up,
        Parent::Return { upper_is_callee } => if upper_is_callee {
            Step::UpFromFunction
        } else {
            Step::NotCallback
        },
        Parent::Call => Step::AtCall,
        Parent::Other => Step::NotCallback,
    }
}

/// The methods that belong to `Array` itself rather than to its prototype.
pub open spec fn is_static_array_method(name: Seq<char>) -> bool {
    name == "from"@ || name == "of"@ || name == "isArray"@
}

pub open spec fn full_method_name_spec(name: Seq<char>) -> Seq<char> {
    if is_static_array_method(name) {
        "Array."@ + name
    } else {
        "Array.prototype."@ + name
    }
}

/// The full name of an array method, for the messages.
pub fn full_method_name(array_method_name: &str) -> (r: String)
    ensures
        r@ == full_method_name_spec(array_method_name@),
{
    if str_eq(array_method_name, "from") || str_eq(array_method_name, "of") || str_eq(
        array_method_name,
        "isArray",
    ) {
        concat("Array.", array_method_name)
    } else {
        concat("Array.prototype.", array_method_name)
    }
}

/// What the rule reports.
#[derive(Copy, Clone, Debug, PartialEq, Eq, Structural)]
pub enum Message {
    ExpectedAtEnd,
    ExpectedInside,
    ExpectedReturnValue,
    ExpectedNoReturnValue,
}

/// The message for a `return` in a callback of `method`, which does or does
/// not give a value: `forEach` callbacks should give none (when checked),
/// the others one (unless a bare `return` is allowed).
pub open spec fn return_message_spec(method: Seq<char>, has_value: bool, options: Options) -> Option<
    Message,
> {
    if method == "forEach"@ {
        if options.check_for_each && has_value {
            Some(Message::ExpectedNoReturnValue)
        } else {
            None
        }
    } else {
        if !options.allow_implicit && !has_value {
            Some(Message::ExpectedReturnValue)
        } else {
            None
        }
    }
}

pub fn return_message(method: &str, has_value: bool, options: Options) -> (r: Option<Message>)
    ensures
        r == return_message_spec(method@, has_value, options),
{
    if str_eq(method, "forEach") {
        if options.check_for_each && has_value {
            Some(Message::ExpectedNoReturnValue)
        } else {
            None
        }
    } else {
        if !options.allow_implicit && !has_value {
            Some(Message::ExpectedReturnValue)
        } else {
            None
        }
    }
}

/// The message for the callback itself: a `forEach` arrow function with an
/// expression body gives a value (when checked); another callback with a
/// block body whose end can be reached lacks one, at its end if it has a
/// `return`, else inside.
pub open spec fn end_message_spec(
    method: Seq<char>,
    is_arrow: bool,
    body_is_block: bool,
    end_reachable: bool,
    has_return: bool,
    options: Options,
) -> Option<Message> {
    if method == "forEach"@ {
        if options.check_for_each && is_arrow && !body_is_block {
            Some(Message::ExpectedNoReturnValue)
        } else {
            None
        }
    } else {
        if body_is_block && end_reachable {
            Some(
                if has_return {
                    Message::ExpectedAtEnd
                } else {
                    Message::ExpectedInside
                },
            )
        } else {
            None
        }
    }
}

pub fn end_message(
    method: &str,
    is_arrow: bool,
    body_is_block: bool,
    end_reachable: bool,
    has_return: bool,
    options: Options,
) -> (r: Option<Message>)
    ensures
        r == end_message_spec(method@, is_arrow, body_is_block, end_reachable, has_return, options),
{
    if str_eq(method, "forEach") {
        if options.check_for_each && is_arrow && !body_is_block {
            Some(Message::ExpectedNoReturnValue)
        } else {
            None
        }
    } else {
        if body_is_block && end_reachable {
            Some(
                if has_return {
                    Message::ExpectedAtEnd
                } else {
                    Message::ExpectedInside
                },
            )
        } else {
            None
        }
    }
}

/// The report at the end of a callback of an array method other than
/// `forEach` depends only on its body: a callback whose body is a block and
/// whose end can be reached is told to return a value, at its end when it
/// has a `return` somewhere and inside it otherwise; any other callback is
/// not reported at its end. Neither option changes this. A `forEach`
/// callback is reported at its end only when `forEach` is checked and it is
/// an arrow function with an expression body, which gives a useless value.
pub proof fn lemma_end_message_by_body(
    method: Seq<char>,
    is_arrow: bool,
    body_is_block: bool,
    end_reachable: bool,
    has_return: bool,
    options: Options,
    other_options: Options,
)
    ensures
        ({
            let r = end_message_spec(method, is_arrow, body_is_block, end_reachable, has_return, options);
            &&& method != "forEach"@ ==> {
                &&& r == end_message_spec(method, is_arrow, body_is_block, end_reachable, has_return, other_options)
                &&& (r is Some) <==> (body_is_block && end_reachable)
                &&& (r == Some(Message::ExpectedAtEnd)) <==> (body_is_block && end_reachable && has_return)
                &&& (r == Some(Message::ExpectedInside)) <==> (body_is_block && end_reachable && !has_return)
            }
            &&& method == "forEach"@ ==> {
                &&& (r is Some) <==> (options.check_for_each && is_arrow && !body_is_block)
                &&& (r is Some ==> r == Some(Message::ExpectedNoReturnValue))
            }
        }),
{
}

/// The report at a `return` in a callback: in a callback of an array method
/// other than `forEach`, a `return` without a value is reported exactly when
/// a bare `return` is not allowed, whether `forEach` is checked or not; in
/// a `forEach` callback, a `return` with a value is reported exactly when
/// `forEach` is checked, whether a bare `return` is allowed or not.
pub proof fn lemma_return_message_by_value(method: Seq<char>, has_value: bool, options: Options, other_options: Options)
    ensures
        ({
            let r = return_message_spec(method, has_value, options);
            &&& method != "forEach"@ ==> {
                &&& (r is Some) <==> (!options.allow_implicit && !has_value)
                &&& (r is Some ==> r == Some(Message::ExpectedReturnValue))
                &&& options.allow_implicit == other_options.allow_implicit ==> r == return_message_spec(
                    method,
                    has_value,
                    other_options,
                )
            }
            &&& method == "forEach"@ ==> {
                &&& (r is Some) <==> (options.check_for_each && has_value)
                &&& (r is Some ==> r == Some(Message::ExpectedNoReturnValue))
                &&& options.check_for_each == other_options.check_for_each ==> r == return_message_spec(
                    method,
                    has_value,
                    other_options,
                )
            }
        }),
{
}

/// Which argument of a call is the callback of an array method: the second
/// argument of `Array.from` (a callback of `from`), and the first argument
/// of a call to a method that the rule checks (a callback of that method);
/// no other argument is, nor any where the call has no list of arguments.
pub proof fn lemma_callback_position(callee_is_array_from: bool, position: Option<usize>, callee_property: Option<Seq<char>>)
    ensures
        ({
            let r = array_method_of_call_spec(callee_is_array_from, position, callee_property);
            &&& (callee_is_array_from && position == Some(1usize)) ==> r == Some("from"@)
            &&& !(callee_is_array_from && position == Some(1usize)) ==> (r is Some <==> (position == Some(0usize)
                && callee_property is Some && is_target_method_spec(callee_property->0)))
            &&& !(callee_is_array_from && position == Some(1usize)) && r is Some ==> r == callee_property
            &&& (position is None || (position != Some(0usize) && position != Some(1usize))) ==> r is None
        }),
{
}

/// How the search for the array method goes up: through a logical operator,
/// a conditional or parenthesized expression it goes on; through a
/// `return` it goes on from the function returned from, where that function
/// is itself called; at an argument list or a call it decides; any other
/// parent (a non-logical operator among them) ends it without a method.
pub proof fn lemma_callback_search_steps(parent: Parent)
    ensures
        (step_spec(parent) == Step::Up) <==> (parent == (Parent::Binary { logical: true }) || parent
            == Parent::Transparent),
        (step_spec(parent) == Step::UpFromFunction) <==> parent == (Parent::Return { upper_is_callee: true }),
        (step_spec(parent) == Step::AtCall) <==> parent == Parent::Call,
        (step_spec(parent) == Step::NotCallback) <==> (parent == (Parent::Binary { logical: false }) || parent
            == (Parent::Return { upper_is_callee: false }) || parent == Parent::Other),
{
}

/// The name of an array method in the messages: `Array.` before the methods
/// of `Array` itself (`from`, `of`, `isArray`), `Array.prototype.` before
/// any other; the method's own name always ends it.
pub proof fn lemma_full_method_name(name: Seq<char>)
    ensures
        (name == "from"@ || name == "of"@ || name == "isArray"@) ==> full_method_name_spec(name) == "Array."@ + name,
        !(name == "from"@ || name == "of"@ || name == "isArray"@) ==> full_method_name_spec(name) == "Array.prototype."@
            + name,
{
}

} // verus!
