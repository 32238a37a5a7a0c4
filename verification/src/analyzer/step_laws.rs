use vstd::prelude::*;

use crate::analyzer::{
    enter_action_spec, exit_plan_spec, postprocess_spec, is_identifier_reference_spec,
    is_forking_by_true_or_false_spec, preprocess_ok, preprocess_spec, ChoiceKind, EnterAction,
    ExitAction, Field, Forward, NodeKind, PreprocessAction, simple_constant_value, LiteralKind, choice_kind_of,
    is_handled_logical_operator_spec, is_logical_assignment_operator_spec,
};
use crate::ast_helpers::number::{integer_reading, without_separators, IntegerReading};
use crate::code_path::CodePathOrigin;

verus! {

/// Where each step taken before entering a node comes from: every step but
/// doing nothing belongs to exactly one place of a node in its parent.
/// The catch block of a `try` (its handler) and its `finally` block (its
/// finalizer) each get a step of their own; so do the branches of an `if`
/// or a conditional expression, the bodies of switch cases, the tests,
/// updates and bodies of loops, the right side of a logical operator or
/// logical assignment, what follows an optional chain, and the default
/// value of a pattern. A loop's test carries the test's value when it is a
/// simple constant.
pub proof fn lemma_preprocess_steps_by_place(
    parent: NodeKind,
    field: Field,
    node: NodeKind,
    parent_optional_chain: bool,
    has_named_children: bool,
    parent_operator: Seq<char>,
    test_constant: Option<bool>,
)
    requires
        preprocess_ok(parent, field),
    ensures
        ({
            let r = preprocess_spec(
                parent,
                field,
                node,
                parent_optional_chain,
                has_named_children,
                parent_operator,
                test_constant,
            );
            &&& (r == PreprocessAction::MakeCatchBlock) <==> (parent == NodeKind::TryStatement && field
                == Field::Handler)
            &&& (r == PreprocessAction::MakeFinallyBlock) <==> (parent == NodeKind::TryStatement && field
                == Field::Finalizer)
            &&& (r == PreprocessAction::MakeIfConsequent) <==> ((parent == NodeKind::IfStatement || parent
                == NodeKind::TernaryExpression) && field == Field::Consequence)
            &&& (r == PreprocessAction::MakeIfAlternate) <==> ((parent == NodeKind::IfStatement || parent
                == NodeKind::TernaryExpression) && field == Field::Alternative)
            &&& (r is MakeSwitchCaseBody) <==> ((parent == NodeKind::SwitchCase || parent
                == NodeKind::SwitchDefault) && field == Field::Body)
            &&& (r is MakeSwitchCaseBody ==> r->is_default == (parent == NodeKind::SwitchDefault))
            &&& (r is MakeWhileTest) <==> (parent == NodeKind::WhileStatement && field == Field::Condition)
            &&& (r == PreprocessAction::MakeWhileBody) <==> (parent == NodeKind::WhileStatement && field
                == Field::Body)
            &&& (r == PreprocessAction::MakeDoWhileBody) <==> (parent == NodeKind::DoStatement && field
                == Field::Body)
            &&& (r is MakeDoWhileTest) <==> (parent == NodeKind::DoStatement && field == Field::Condition)
            &&& (r is MakeForTest) <==> (parent == NodeKind::ForStatement && field == Field::Condition && node
                != NodeKind::EmptyStatement)
            &&& (r == PreprocessAction::MakeForUpdate) <==> (parent == NodeKind::ForStatement && field
                == Field::Increment)
            &&& (r == PreprocessAction::MakeForBody) <==> (parent == NodeKind::ForStatement && field
                == Field::Body)
            &&& (r == PreprocessAction::MakeForInOfLeft) <==> (parent == NodeKind::ForInStatement && field
                == Field::Left)
            &&& (r == PreprocessAction::MakeForInOfRight) <==> (parent == NodeKind::ForInStatement && field
                == Field::Right)
            &&& (r == PreprocessAction::MakeForInOfBody) <==> (parent == NodeKind::ForInStatement && field
                == Field::Body)
            &&& (r == PreprocessAction::MakeLogicalRight) <==> (field == Field::Right && ((parent
                == NodeKind::BinaryExpression && (parent_operator == "&&"@ || parent_operator == "||"@
                || parent_operator == "??"@)) || (parent == NodeKind::AugmentedAssignmentExpression && (
            parent_operator == "&&="@ || parent_operator == "||="@ || parent_operator == "??="@))))
            &&& (r == PreprocessAction::MakeOptionalRight) <==> (parent_optional_chain && ((parent
                == NodeKind::CallExpression && node == NodeKind::Arguments && has_named_children) || (parent
                == NodeKind::MemberExpression && field == Field::Property) || (parent
                == NodeKind::SubscriptExpression && field == Field::Index)))
            &&& (r == PreprocessAction::ForkDefaultValue) <==> ((parent == NodeKind::AssignmentPattern || parent
                == NodeKind::ObjectAssignmentPattern) && field == Field::Right)
            &&& (r == PreprocessAction::MakeWhileTest(test_constant)) <==> (r is MakeWhileTest)
            &&& (r == PreprocessAction::MakeDoWhileTest(test_constant)) <==> (r is MakeDoWhileTest)
            &&& (r == PreprocessAction::MakeForTest(test_constant)) <==> (r is MakeForTest)
        }),
{
}

/// A node of kind `kind` starts the code path of a function.
pub open spec fn starts_function(kind: NodeKind) -> bool {
    kind == NodeKind::FunctionDeclaration || kind == NodeKind::GeneratorFunctionDeclaration || kind
        == NodeKind::Function || kind == NodeKind::GeneratorFunction || kind == NodeKind::ArrowFunction || kind
        == NodeKind::MethodDefinition
}

/// A loop statement.
pub open spec fn is_loop(kind: NodeKind) -> bool {
    kind == NodeKind::WhileStatement || kind == NodeKind::DoStatement || kind == NodeKind::ForStatement || kind
        == NodeKind::ForInStatement
}

/// A logical operator that forks a path, and the choice it makes.
pub open spec fn logical_choice(kind: NodeKind, operator: Seq<char>) -> Option<ChoiceKind> {
    if kind == NodeKind::BinaryExpression && operator == "&&"@ || kind == NodeKind::AugmentedAssignmentExpression
        && operator == "&&="@ {
        Some(ChoiceKind::LogicalAnd)
    } else if kind == NodeKind::BinaryExpression && operator == "||"@ || kind
        == NodeKind::AugmentedAssignmentExpression && operator == "||="@ {
        Some(ChoiceKind::LogicalOr)
    } else if kind == NodeKind::BinaryExpression && operator == "??"@ || kind
        == NodeKind::AugmentedAssignmentExpression && operator == "??="@ {
        Some(ChoiceKind::LogicalNullCoalesce)
    } else {
        None
    }
}

/// What entering a node does, by its kind: the program, a function and a
/// class static block start a code path of their own origin; a call, a
/// member access or a subscript is a link of a chain (pushing a chain
/// context where it is the outermost link, making an optional node where
/// it is optional); an `if`, a conditional expression and a logical operator
/// or logical assignment push a choice (a test for the first two, the
/// operator's choice for the others, which fork by their value only where
/// their parent tests it); a `switch` and a `try` push their contexts; a case
/// after the first forks the path; a loop pushes a loop context; a labelled
/// statement pushes a break context unless its body is a loop or a
/// `switch`. No other node does anything.
pub proof fn lemma_enter_action_by_kind(
    kind: NodeKind,
    is_outermost_chain: bool,
    optional_chain: bool,
    operator: Seq<char>,
    forking_as_result: bool,
    has_case: bool,
    has_finalizer: bool,
    is_first_child: bool,
    body_is_breakable: bool,
)
    ensures
        ({
            let r = enter_action_spec(
                kind,
                is_outermost_chain,
                optional_chain,
                operator,
                forking_as_result,
                has_case,
                has_finalizer,
                is_first_child,
                body_is_breakable,
            );
            &&& (r == EnterAction::StartCodePath(CodePathOrigin::Program)) <==> kind == NodeKind::Program
            &&& (r == EnterAction::StartCodePath(CodePathOrigin::Function)) <==> starts_function(kind)
            &&& (r == EnterAction::StartCodePath(CodePathOrigin::ClassStaticBlock)) <==> kind
                == NodeKind::ClassStaticBlock
            &&& (r is StartCodePath) <==> (kind == NodeKind::Program || starts_function(kind) || kind
                == NodeKind::ClassStaticBlock)
            &&& (r is Chain) <==> (kind == NodeKind::CallExpression || kind == NodeKind::MemberExpression || kind
                == NodeKind::SubscriptExpression)
            &&& (r is Chain ==> r == EnterAction::Chain {
                push_chain_context: is_outermost_chain,
                make_optional_node: optional_chain,
            })
            &&& (r is PushChoice) <==> (kind == NodeKind::IfStatement || kind == NodeKind::TernaryExpression
                || logical_choice(kind, operator) is Some)
            &&& ((kind == NodeKind::IfStatement || kind == NodeKind::TernaryExpression) ==> r
                == EnterAction::PushChoice { kind: ChoiceKind::Test, forking_as_result: false })
            &&& (logical_choice(kind, operator) matches Some(c) ==> r == EnterAction::PushChoice {
                kind: c,
                forking_as_result,
            })
            &&& (r is PushSwitch) <==> kind == NodeKind::SwitchStatement
            &&& (kind == NodeKind::SwitchStatement ==> r == EnterAction::PushSwitch { has_case })
            &&& (r is PushTry) <==> kind == NodeKind::TryStatement
            &&& (kind == NodeKind::TryStatement ==> r == EnterAction::PushTry { has_finalizer })
            &&& (r == EnterAction::ForkPath) <==> ((kind == NodeKind::SwitchCase || kind == NodeKind::SwitchDefault)
                && !is_first_child)
            &&& (r == EnterAction::PushLoop) <==> is_loop(kind)
            &&& (r == EnterAction::PushBreak) <==> (kind == NodeKind::LabeledStatement && !body_is_breakable)
        }),
{
    reveal_strlit("&&");
    reveal_strlit("||");
    reveal_strlit("??");
    reveal_strlit("&&=");
    reveal_strlit("||=");
    reveal_strlit("??=");
    assert("&&"@.len() == 2 && "||"@.len() == 2 && "??"@.len() == 2);
    assert("&&="@.len() == 3 && "||="@.len() == 3 && "??="@.len() == 3);
    assert("&&"@[0] == '&' && "||"@[0] == '|' && "??"@[0] == '?');
    assert("&&="@[0] == '&' && "||="@[0] == '|' && "??="@[0] == '?');
}

/// What leaving a node does, by its kind: a choice, a `switch`, a `try`, a
/// loop, a default value's fork and a break context are popped by the node
/// that pushed them; a case without a body makes an empty one; `break`,
/// `continue`, `return` and `throw` move the current segments first and
/// then jump, leaving them where the jump put them; an identifier that
/// refers to a variable, a call, a member access, a subscript, a `new` and
/// a `yield` may throw (the outermost link of a chain pops its chain
/// context). A case moves the current segments only where its fork context
/// cannot be reached; a `switch` body, a parenthesized expression and a
/// reference never move them; every other node moves them after its step.
pub proof fn lemma_exit_plan_by_kind(
    kind: NodeKind,
    operator: Seq<char>,
    has_body: bool,
    is_reference: bool,
    is_outermost_chain: bool,
    body_is_breakable: bool,
)
    ensures
        ({
            let r = exit_plan_spec(kind, operator, has_body, is_reference, is_outermost_chain, body_is_breakable);
            let is_identifier = kind == NodeKind::Identifier || kind == NodeKind::PropertyIdentifier || kind
                == NodeKind::ShorthandPropertyIdentifier;
            let may_throw = kind == NodeKind::CallExpression || kind == NodeKind::MemberExpression || kind
                == NodeKind::SubscriptExpression || kind == NodeKind::NewExpression || kind
                == NodeKind::YieldExpression;
            let is_jump = kind == NodeKind::BreakStatement || kind == NodeKind::ContinueStatement || kind
                == NodeKind::ReturnStatement || kind == NodeKind::ThrowStatement;
            let is_case = kind == NodeKind::SwitchCase || kind == NodeKind::SwitchDefault;
            &&& (r.action == ExitAction::PopChoice) <==> (kind == NodeKind::IfStatement || kind
                == NodeKind::TernaryExpression || logical_choice(kind, operator) is Some)
            &&& (r.action == ExitAction::PopSwitch) <==> kind == NodeKind::SwitchStatement
            &&& (r.action is MakeEmptySwitchCaseBody) <==> (is_case && !has_body)
            &&& (r.action is MakeEmptySwitchCaseBody ==> r.action->is_default == (kind == NodeKind::SwitchDefault))
            &&& (r.action == ExitAction::PopTry) <==> kind == NodeKind::TryStatement
            &&& (r.action == ExitAction::MakeBreak) <==> kind == NodeKind::BreakStatement
            &&& (r.action == ExitAction::MakeContinue) <==> kind == NodeKind::ContinueStatement
            &&& (r.action == ExitAction::MakeReturn) <==> kind == NodeKind::ReturnStatement
            &&& (r.action == ExitAction::MakeThrow) <==> kind == NodeKind::ThrowStatement
            &&& (r.action is MakeFirstThrowable) <==> ((is_identifier && is_reference) || may_throw)
            &&& (may_throw ==> r.action == ExitAction::MakeFirstThrowable { pop_chain_context: is_outermost_chain })
            &&& (is_identifier && is_reference ==> r.action == ExitAction::MakeFirstThrowable {
                pop_chain_context: false,
            })
            &&& (r.action == ExitAction::PopLoop) <==> is_loop(kind)
            &&& (r.action == ExitAction::PopForkContext) <==> (kind == NodeKind::AssignmentPattern || kind
                == NodeKind::ObjectAssignmentPattern)
            &&& (r.action == ExitAction::PopBreak) <==> (kind == NodeKind::LabeledStatement && !body_is_breakable)
            &&& r.forward_first <==> is_jump
            &&& (r.forward_after == Forward::UnlessReachable) <==> is_case
            &&& (r.forward_after == Forward::Never) <==> (is_jump || (is_identifier && is_reference) || kind
                == NodeKind::SwitchBody || kind == NodeKind::ParenthesizedExpression)
        }),
{
}

/// What happens after leaving a node: the code path ends exactly where the
/// node is the program, a function or a class static block; an optional
/// call without arguments makes its optional right side; and the code path
/// of a class field's value ends exactly after that value.
pub proof fn lemma_postprocess_by_kind(
    kind: NodeKind,
    optional_chain: bool,
    num_arguments: Option<usize>,
    in_field_initializer: bool,
)
    ensures
        ({
            let r = postprocess_spec(kind, optional_chain, num_arguments, in_field_initializer);
            &&& r.end_code_path <==> (kind == NodeKind::Program || starts_function(kind) || kind
                == NodeKind::ClassStaticBlock)
            &&& r.make_optional_right <==> (kind == NodeKind::CallExpression && optional_chain && num_arguments
                == Some(0usize))
            &&& r.end_field_initializer == in_field_initializer
        }),
{
}

/// Where an identifier does not refer to a variable: as a label (of a
/// labelled statement, a `break` or a `continue`), in an array or rest
/// pattern, in an import, as a catch parameter, as the name that a function,
/// class, variable or method declares, as a class field's property, as the
/// key of a pair, as the left side of a default value, and as the variable
/// that a `for ... in`/`of` declares. Everywhere else it refers to one.
pub proof fn lemma_identifier_references_by_place(parent: NodeKind, field: Field, parent_has_kind: bool)
    ensures
        !is_identifier_reference_spec(parent, field, parent_has_kind) <==> (parent == NodeKind::LabeledStatement
            || parent == NodeKind::BreakStatement || parent == NodeKind::ContinueStatement || parent
            == NodeKind::ArrayPattern || parent == NodeKind::RestPattern || parent == NodeKind::ImportClause || parent
            == NodeKind::ImportSpecifier || parent == NodeKind::NamespaceImport || parent == NodeKind::CatchClause
            || ((starts_function(parent) || parent == NodeKind::ClassDeclaration || parent == NodeKind::Class
            || parent == NodeKind::VariableDeclarator) && field == Field::Name) || (parent
            == NodeKind::FieldDefinition && field == Field::Property) || ((parent == NodeKind::Pair || parent
            == NodeKind::PairPattern) && field == Field::Key) || ((parent == NodeKind::AssignmentPattern || parent
            == NodeKind::ObjectAssignmentPattern) && field == Field::Left) || (parent == NodeKind::ForInStatement
            && field == Field::Left && parent_has_kind)),
{
}

/// A node forks its parent's path by its value exactly when it is the test
/// of an `if`, a conditional expression, a `while`, a `do` or a `for` (or
/// the expression statement that holds a `for` test), or an operand of a
/// logical operator or a logical assignment.
pub proof fn lemma_forking_by_value(
    parent: NodeKind,
    is_for_condition: bool,
    is_condition: bool,
    parent_operator: Seq<char>,
)
    ensures
        is_forking_by_true_or_false_spec(parent, is_for_condition, is_condition, parent_operator) <==> ((parent
            == NodeKind::ExpressionStatement && is_for_condition) || ((parent == NodeKind::TernaryExpression || parent
            == NodeKind::IfStatement || parent == NodeKind::WhileStatement || parent == NodeKind::DoStatement
            || parent == NodeKind::ForStatement) && is_condition) || logical_choice(parent, parent_operator) is Some),
{
    reveal_strlit("&&");
    reveal_strlit("||");
    reveal_strlit("??");
    reveal_strlit("&&=");
    reveal_strlit("||=");
    reveal_strlit("??=");
    assert("&&"@.len() == 2 && "||"@.len() == 2 && "??"@.len() == 2);
    assert("&&="@.len() == 3 && "||="@.len() == 3 && "??="@.len() == 3);
}

/// The truth value of a constant: a regular expression and `true` are
/// truthy, `null` and `false` falsy, a string when its text is not empty. A
/// number that reads as an integer or a BigInt is truthy exactly when it is
/// not zero, one that is not a number is falsy, and only a number that is no
/// integer takes its truth from its reading as a non-integer number. A node
/// that is no literal has no constant value.
pub proof fn lemma_constant_truth(text: Seq<char>, f1: bool, f2: bool)
    ensures
        simple_constant_value(None, text, f1) is None,
        simple_constant_value(Some(LiteralKind::Regex), text, f1) == Some(true),
        simple_constant_value(Some(LiteralKind::True), text, f1) == Some(true),
        simple_constant_value(Some(LiteralKind::Null), text, f1) == Some(false),
        simple_constant_value(Some(LiteralKind::False), text, f1) == Some(false),
        simple_constant_value(Some(LiteralKind::String), text, f1) == Some(text.len() > 0),
        integer_reading(without_separators(text)) matches IntegerReading::Integer(x) ==> simple_constant_value(
            Some(LiteralKind::Number),
            text,
            f1,
        ) == Some(x != 0),
        integer_reading(without_separators(text)) matches IntegerReading::BigInt(x) ==> simple_constant_value(
            Some(LiteralKind::Number),
            text,
            f1,
        ) == Some(x != 0),
        integer_reading(without_separators(text)) is NaN ==> simple_constant_value(
            Some(LiteralKind::Number),
            text,
            f1,
        ) == Some(false),
        integer_reading(without_separators(text)) is NotInteger ==> simple_constant_value(
            Some(LiteralKind::Number),
            text,
            f1,
        ) == Some(f1),
        !(integer_reading(without_separators(text)) is NotInteger) ==> simple_constant_value(
            Some(LiteralKind::Number),
            text,
            f1,
        ) == simple_constant_value(Some(LiteralKind::Number), text, f2),
{
}

/// A logical assignment chooses as the logical operator it is written with:
/// `&&=` as `&&`, `||=` as `||`, `??=` as `??`; the three operators choose
/// differently, and neither kind of operator is the other.
pub proof fn lemma_logical_choices(op: Seq<char>)
    ensures
        choice_kind_of("&&="@) == choice_kind_of("&&"@),
        choice_kind_of("||="@) == choice_kind_of("||"@),
        choice_kind_of("??="@) == choice_kind_of("??"@),
        choice_kind_of("&&"@) == ChoiceKind::LogicalAnd,
        choice_kind_of("||"@) == ChoiceKind::LogicalOr,
        choice_kind_of("??"@) == ChoiceKind::LogicalNullCoalesce,
        is_handled_logical_operator_spec(op) ==> !is_logical_assignment_operator_spec(op),
        is_handled_logical_operator_spec("&&"@) && is_handled_logical_operator_spec("||"@)
            && is_handled_logical_operator_spec("??"@),
        is_logical_assignment_operator_spec("&&="@) && is_logical_assignment_operator_spec("||="@)
            && is_logical_assignment_operator_spec("??="@),
{
    reveal_strlit("&&");
    reveal_strlit("||");
    reveal_strlit("??");
    reveal_strlit("&&=");
    reveal_strlit("||=");
    reveal_strlit("??=");
    assert("&&"@.len() == 2 && "||"@.len() == 2 && "??"@.len() == 2);
    assert("&&="@.len() == 3 && "||="@.len() == 3 && "??="@.len() == 3);
    assert("&&"@[0] == '&' && "||"@[0] == '|' && "??"@[0] == '?');
    assert("&&="@[0] == '&' && "||="@[0] == '|' && "??="@[0] == '?');
}

} // verus!
