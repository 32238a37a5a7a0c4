use vstd::prelude::*;

pub mod node_facts;
pub mod walk;
pub mod step_laws;

use crate::code_path::{
    is_walk, lemma_finished_walk, unvisited, CodePath, CodePathOrigin, TraverseSegmentsController,
};
use crate::code_path_segment::{
    arena_wf, ids_in_range, lemma_mark_used_wf, mark_used_spec, same_reachability, CodePathSegment,
    EnterOrExit, SegmentArena, SegmentView,
};
use crate::ast_helpers::number::{
    integer_reading, is_truthy_reading, parse_integer_literal, reading_truthy, without_separators,
};
use crate::text::str_eq;

verus! {

/// The kinds of syntax node that the code path analysis treats specially;
/// every other kind is `Other`.
#[derive(Copy, Clone, Debug, PartialEq, Eq, Structural)]
pub enum NodeKind {
    Program,
    FunctionDeclaration,
    GeneratorFunctionDeclaration,
    Function,
    GeneratorFunction,
    ArrowFunction,
    MethodDefinition,
    ClassDeclaration,
    Class,
    ClassStaticBlock,
    FieldDefinition,
    CallExpression,
    MemberExpression,
    SubscriptExpression,
    NewExpression,
    YieldExpression,
    BinaryExpression,
    AugmentedAssignmentExpression,
    TernaryExpression,
    IfStatement,
    SwitchStatement,
    SwitchBody,
    SwitchCase,
    SwitchDefault,
    TryStatement,
    CatchClause,
    WhileStatement,
    DoStatement,
    ForStatement,
    ForInStatement,
    LabeledStatement,
    BreakStatement,
    ContinueStatement,
    ReturnStatement,
    ThrowStatement,
    ExpressionStatement,
    EmptyStatement,
    ParenthesizedExpression,
    Arguments,
    Identifier,
    PropertyIdentifier,
    ShorthandPropertyIdentifier,
    AssignmentPattern,
    ObjectAssignmentPattern,
    ArrayPattern,
    RestPattern,
    Pair,
    PairPattern,
    VariableDeclarator,
    ImportClause,
    ImportSpecifier,
    NamespaceImport,
    Comment,
    Other,
}

/// The field of its parent that holds a node.
#[derive(Copy, Clone, Debug, PartialEq, Eq, Structural)]
pub enum Field {
    Name,
    Property,
    Key,
    Label,
    Left,
    Right,
    Condition,
    Consequence,
    Alternative,
    Body,
    Handler,
    Finalizer,
    Increment,
    Index,
    Value,
    Arguments,
    Other,
}

/// How a logical choice forks the path.
#[derive(Copy, Clone, Debug, PartialEq, Eq, Structural)]
pub enum ChoiceKind {
    LogicalAnd,
    LogicalOr,
    LogicalNullCoalesce,
    Test,
}

pub open spec fn is_handled_logical_operator_spec(op: Seq<char>) -> bool {
    op == "&&"@ || op == "||"@ || op == "??"@
}

pub open spec fn is_logical_assignment_operator_spec(op: Seq<char>) -> bool {
    op == "&&="@ || op == "||="@ || op == "??="@
}

/// Whether `operator` is one of the logical operators that fork a path.
pub fn is_handled_logical_operator_str(operator: &str) -> (b: bool)
    ensures
        b == is_handled_logical_operator_spec(operator@),
{
    str_eq(operator, "&&") || str_eq(operator, "||") || str_eq(operator, "??")
}

/// Whether `operator` is a logical assignment operator.
pub fn is_logical_assignment_operator(operator: &str) -> (b: bool)
    ensures
        b == is_logical_assignment_operator_spec(operator@),
{
    str_eq(operator, "&&=") || str_eq(operator, "||=") || str_eq(operator, "??=")
}

/// The choice that a logical operator (or the operator of a logical
/// assignment, its `=` left off) makes.
pub open spec fn choice_kind_of(op: Seq<char>) -> ChoiceKind {
    if op == "&&"@ || op == "&&="@ {
        ChoiceKind::LogicalAnd
    } else if op == "||"@ || op == "||="@ {
        ChoiceKind::LogicalOr
    } else {
        ChoiceKind::LogicalNullCoalesce
    }
}

fn choice_kind(operator: &str) -> (k: ChoiceKind)
    ensures
        k == choice_kind_of(operator@),
{
    if str_eq(operator, "&&") || str_eq(operator, "&&=") {
        ChoiceKind::LogicalAnd
    } else if str_eq(operator, "||") || str_eq(operator, "||=") {
        ChoiceKind::LogicalOr
    } else {
        ChoiceKind::LogicalNullCoalesce
    }
}

/// A node the analysis looks at: a named node that is no comment.
pub open spec fn is_visited_spec(is_named: bool, kind: NodeKind) -> bool {
    is_named && kind != NodeKind::Comment
}

pub fn is_visited(is_named: bool, kind: NodeKind) -> (b: bool)
    ensures
        b == is_visited_spec(is_named, kind),
{
    is_named && kind != NodeKind::Comment
}

/// The kinds whose `name` field names what they declare.
pub open spec fn is_named_declaration(kind: NodeKind) -> bool {
    kind == NodeKind::FunctionDeclaration || kind == NodeKind::GeneratorFunctionDeclaration
        || kind == NodeKind::Function || kind == NodeKind::GeneratorFunction || kind
        == NodeKind::ArrowFunction || kind == NodeKind::ClassDeclaration || kind
        == NodeKind::Class || kind == NodeKind::VariableDeclarator || kind
        == NodeKind::MethodDefinition
}

/// Whether an identifier that stands in `field` of a `parent` node refers to
/// a variable (rather than naming a label, a declaration, a key, ...).
/// `parent_has_kind` says whether a `for ... in` parent declares its left side.
pub open spec fn is_identifier_reference_spec(
    parent: NodeKind,
    field: Field,
    parent_has_kind: bool,
) -> bool {
    if parent == NodeKind::LabeledStatement || parent == NodeKind::BreakStatement || parent
        == NodeKind::ContinueStatement || parent == NodeKind::ArrayPattern || parent
        == NodeKind::RestPattern || parent == NodeKind::ImportClause || parent
        == NodeKind::ImportSpecifier || parent == NodeKind::NamespaceImport || parent
        == NodeKind::CatchClause {
        false
    } else if is_named_declaration(parent) {
        field != Field::Name
    } else if parent == NodeKind::FieldDefinition {
        field != Field::Property
    } else if parent == NodeKind::Pair || parent == NodeKind::PairPattern {
        field != Field::Key
    } else if parent == NodeKind::AssignmentPattern || parent == NodeKind::ObjectAssignmentPattern {
        field != Field::Left
    } else if parent == NodeKind::ForInStatement {
        !(field == Field::Left && parent_has_kind)
    } else {
        true
    }
}

pub fn is_identifier_reference(parent: NodeKind, field: Field, parent_has_kind: bool) -> (b: bool)
    ensures
        b == is_identifier_reference_spec(parent, field, parent_has_kind),
{
    match parent {
        NodeKind::LabeledStatement | NodeKind::BreakStatement | NodeKind::ContinueStatement
        | NodeKind::ArrayPattern | NodeKind::RestPattern | NodeKind::ImportClause
        | NodeKind::ImportSpecifier | NodeKind::NamespaceImport | NodeKind::CatchClause => false,
        NodeKind::FunctionDeclaration | NodeKind::GeneratorFunctionDeclaration | NodeKind::Function
        | NodeKind::GeneratorFunction | NodeKind::ArrowFunction | NodeKind::ClassDeclaration
        | NodeKind::Class | NodeKind::VariableDeclarator | NodeKind::MethodDefinition => field
            != Field::Name,
        NodeKind::FieldDefinition => field != Field::Property,
        NodeKind::Pair | NodeKind::PairPattern => field != Field::Key,
        NodeKind::AssignmentPattern | NodeKind::ObjectAssignmentPattern => field != Field::Left,
        NodeKind::ForInStatement => !(field == Field::Left && parent_has_kind),
        _ => true,
    }
}

/// Whether the value of an expression decides which way the path forks.
/// `parent` is its nearest ancestor that is no parenthesized expression;
/// `is_for_condition` says whether that ancestor is the expression statement
/// that a `for` loop has as its condition; `is_condition` whether the
/// expression (parentheses aside) is the ancestor's `condition`; and
/// `parent_operator` the ancestor's operator.
pub open spec fn is_forking_by_true_or_false_spec(
    parent: NodeKind,
    is_for_condition: bool,
    is_condition: bool,
    parent_operator: Seq<char>,
) -> bool {
    if parent == NodeKind::ExpressionStatement && is_for_condition {
        true
    } else if parent == NodeKind::TernaryExpression || parent == NodeKind::IfStatement || parent
        == NodeKind::WhileStatement || parent == NodeKind::DoStatement || parent
        == NodeKind::ForStatement {
        is_condition
    } else if parent == NodeKind::BinaryExpression {
        is_handled_logical_operator_spec(parent_operator)
    } else if parent == NodeKind::AugmentedAssignmentExpression {
        is_logical_assignment_operator_spec(parent_operator)
    } else {
        false
    }
}

pub fn is_forking_by_true_or_false(
    parent: NodeKind,
    is_for_condition: bool,
    is_condition: bool,
    parent_operator: &str,
) -> (b: bool)
    ensures
        b == is_forking_by_true_or_false_spec(parent, is_for_condition, is_condition, parent_operator@),
{
    if parent == NodeKind::ExpressionStatement && is_for_condition {
        return true;
    }
    match parent {
        NodeKind::TernaryExpression | NodeKind::IfStatement | NodeKind::WhileStatement
        | NodeKind::DoStatement | NodeKind::ForStatement => is_condition,
        NodeKind::BinaryExpression => is_handled_logical_operator_str(parent_operator),
        NodeKind::AugmentedAssignmentExpression => is_logical_assignment_operator(parent_operator),
        _ => false,
    }
}

/// Whether a node is the value of a class field: `parent` is its parent and
/// `field` the field of the parent that holds it.
pub open spec fn is_property_definition_value_spec(parent: Option<NodeKind>, field: Field) -> bool {
    parent == Some(NodeKind::FieldDefinition) && field == Field::Value
}

pub fn is_property_definition_value(parent: Option<NodeKind>, field: Field) -> (b: bool)
    ensures
        b == is_property_definition_value_spec(parent, field),
{
    match parent {
        Some(NodeKind::FieldDefinition) => field == Field::Value,
        _ => false,
    }
}

/// What the analysis does to the state of a code path before it enters a
/// node, by where the node stands in its parent.
#[derive(Copy, Clone, Debug, PartialEq, Eq, Structural)]
pub enum PreprocessAction {
    Nothing,
    MakeOptionalRight,
    MakeLogicalRight,
    MakeIfConsequent,
    MakeIfAlternate,
    MakeSwitchCaseBody { is_default: bool },
    MakeCatchBlock,
    MakeFinallyBlock,
    MakeWhileTest(Option<bool>),
    MakeWhileBody,
    MakeDoWhileBody,
    MakeDoWhileTest(Option<bool>),
    MakeForTest(Option<bool>),
    MakeForUpdate,
    MakeForBody,
    MakeForInOfLeft,
    MakeForInOfRight,
    MakeForInOfBody,
    /// Push a fork context and fork a bypass path and a path: the default
    /// value of a pattern may or may not be evaluated.
    ForkDefaultValue,
}

/// A node in a loop's or a `do` statement's parent stands in the fields that
/// such a statement has.
pub open spec fn preprocess_ok(parent: NodeKind, field: Field) -> bool {
    &&& parent == NodeKind::WhileStatement ==> (field == Field::Condition || field == Field::Body)
    &&& parent == NodeKind::DoStatement ==> (field == Field::Condition || field == Field::Body)
    &&& parent == NodeKind::ForInStatement ==> (field == Field::Left || field == Field::Right
        || field == Field::Body)
}

/// The step taken before entering a node of kind `node` that stands in
/// `field` of a `parent`. `parent_optional_chain` says whether the parent has
/// an optional chain, `has_named_children` whether the node has a named child
/// that is no comment, `parent_operator` is the parent's operator and
/// `test_constant` the value of the node when it is a simple constant.
pub open spec fn preprocess_spec(
    parent: NodeKind,
    field: Field,
    node: NodeKind,
    parent_optional_chain: bool,
    has_named_children: bool,
    parent_operator: Seq<char>,
    test_constant: Option<bool>,
) -> PreprocessAction {
    match parent {
        NodeKind::CallExpression => if parent_optional_chain && node == NodeKind::Arguments
            && has_named_children {
            PreprocessAction::MakeOptionalRight
        } else {
            PreprocessAction::Nothing
        },
        NodeKind::MemberExpression => if parent_optional_chain && field == Field::Property {
            PreprocessAction::MakeOptionalRight
        } else {
            PreprocessAction::Nothing
        },
        NodeKind::SubscriptExpression => if parent_optional_chain && field == Field::Index {
            PreprocessAction::MakeOptionalRight
        } else {
            PreprocessAction::Nothing
        },
        NodeKind::BinaryExpression => if field == Field::Right && is_handled_logical_operator_spec(
            parent_operator,
        ) {
            PreprocessAction::MakeLogicalRight
        } else {
            PreprocessAction::Nothing
        },
        NodeKind::AugmentedAssignmentExpression => if field == Field::Right
            && is_logical_assignment_operator_spec(parent_operator) {
            PreprocessAction::MakeLogicalRight
        } else {
            PreprocessAction::Nothing
        },
        NodeKind::IfStatement | NodeKind::TernaryExpression => if field == Field::Consequence {
            PreprocessAction::MakeIfConsequent
        } else if field == Field::Alternative {
            PreprocessAction::MakeIfAlternate
        } else {
            PreprocessAction::Nothing
        },
        NodeKind::SwitchCase | NodeKind::SwitchDefault => if field == Field::Body {
            PreprocessAction::MakeSwitchCaseBody { is_default: parent == NodeKind::SwitchDefault }
        } else {
            PreprocessAction::Nothing
        },
        NodeKind::TryStatement => if field == Field::Handler {
            PreprocessAction::MakeCatchBlock
        } else if field == Field::Finalizer {
            PreprocessAction::MakeFinallyBlock
        } else {
            PreprocessAction::Nothing
        },
        NodeKind::WhileStatement => if field == Field::Condition {
            PreprocessAction::MakeWhileTest(test_constant)
        } else {
            PreprocessAction::MakeWhileBody
        },
        NodeKind::DoStatement => if field == Field::Body {
            PreprocessAction::MakeDoWhileBody
        } else {
            PreprocessAction::MakeDoWhileTest(test_constant)
        },
        NodeKind::ForStatement => if field == Field::Condition && node != NodeKind::EmptyStatement {
            PreprocessAction::MakeForTest(test_constant)
        } else if field == Field::Increment {
            PreprocessAction::MakeForUpdate
        } else if field == Field::Body {
            PreprocessAction::MakeForBody
        } else {
            PreprocessAction::Nothing
        },
        NodeKind::ForInStatement => if field == Field::Left {
            PreprocessAction::MakeForInOfLeft
        } else if field == Field::Right {
            PreprocessAction::MakeForInOfRight
        } else {
            PreprocessAction::MakeForInOfBody
        },
        NodeKind::AssignmentPattern | NodeKind::ObjectAssignmentPattern => if field == Field::Right {
            PreprocessAction::ForkDefaultValue
        } else {
            PreprocessAction::Nothing
        },
        _ => PreprocessAction::Nothing,
    }
}

/// Decides the step taken before entering a node (see `preprocess_spec`).
pub fn preprocess(
    parent: NodeKind,
    field: Field,
    node: NodeKind,
    parent_optional_chain: bool,
    has_named_children: bool,
    parent_operator: &str,
    test_constant: Option<bool>,
) -> (r: PreprocessAction)
    requires
        preprocess_ok(parent, field),
    ensures
        r == preprocess_spec(
            parent,
            field,
            node,
            parent_optional_chain,
            has_named_children,
            parent_operator@,
            test_constant,
        ),
{
    match parent {
        NodeKind::CallExpression => {
            if parent_optional_chain && node == NodeKind::Arguments && has_named_children {
                return PreprocessAction::MakeOptionalRight;
            }
        },
        NodeKind::MemberExpression => {
            if parent_optional_chain && field == Field::Property {
                return PreprocessAction::MakeOptionalRight;
            }
        },
        NodeKind::SubscriptExpression => {
            if parent_optional_chain && field == Field::Index {
                return PreprocessAction::MakeOptionalRight;
            }
        },
        NodeKind::BinaryExpression => {
            if field == Field::Right && is_handled_logical_operator_str(parent_operator) {
                return PreprocessAction::MakeLogicalRight;
            }
        },
        NodeKind::AugmentedAssignmentExpression => {
            if field == Field::Right && is_logical_assignment_operator(parent_operator) {
                return PreprocessAction::MakeLogicalRight;
            }
        },
        NodeKind::IfStatement | NodeKind::TernaryExpression => {
            if field == Field::Consequence {
                return PreprocessAction::MakeIfConsequent;
            } else if field == Field::Alternative {
                return PreprocessAction::MakeIfAlternate;
            }
        },
        NodeKind::SwitchCase | NodeKind::SwitchDefault => {
            if field == Field::Body {
                return PreprocessAction::MakeSwitchCaseBody {
                    is_default: parent == NodeKind::SwitchDefault,
                };
            }
        },
        NodeKind::TryStatement => {
            if field == Field::Handler {
                return PreprocessAction::MakeCatchBlock;
            } else if field == Field::Finalizer {
                return PreprocessAction::MakeFinallyBlock;
            }
        },
        NodeKind::WhileStatement => {
            if field == Field::Condition {
                return PreprocessAction::MakeWhileTest(test_constant);
            } else {
                return PreprocessAction::MakeWhileBody;
            }
        },
        NodeKind::DoStatement => {
            if field == Field::Body {
                return PreprocessAction::MakeDoWhileBody;
            } else {
                return PreprocessAction::MakeDoWhileTest(test_constant);
            }
        },
        NodeKind::ForStatement => {
            if field == Field::Condition && node != NodeKind::EmptyStatement {
                return PreprocessAction::MakeForTest(test_constant);
            } else if field == Field::Increment {
                return PreprocessAction::MakeForUpdate;
            } else if field == Field::Body {
                return PreprocessAction::MakeForBody;
            }
        },
        NodeKind::ForInStatement => {
            if field == Field::Left {
                return PreprocessAction::MakeForInOfLeft;
            } else if field == Field::Right {
                return PreprocessAction::MakeForInOfRight;
            } else {
                return PreprocessAction::MakeForInOfBody;
            }
        },
        NodeKind::AssignmentPattern | NodeKind::ObjectAssignmentPattern => {
            if field == Field::Right {
                return PreprocessAction::ForkDefaultValue;
            }
        },
        _ => {},
    }
    PreprocessAction::Nothing
}

/// What the analysis does on entering a node, before it moves the current
/// segments to the head of the fork context.
#[derive(Copy, Clone, Debug, PartialEq, Eq, Structural)]
pub enum EnterAction {
    Nothing,
    StartCodePath(CodePathOrigin),
    /// Push a chain context (for the outermost link of a chain) and make an
    /// optional node (where the link is optional).
    Chain { push_chain_context: bool, make_optional_node: bool },
    PushChoice { kind: ChoiceKind, forking_as_result: bool },
    /// Push a switch context, labelled as the statement is.
    PushSwitch { has_case: bool },
    PushTry { has_finalizer: bool },
    ForkPath,
    /// Push a loop context of the node's kind, labelled as the loop is.
    PushLoop,
    /// Push a break context labelled with the statement's label.
    PushBreak,
}

/// The steps taken on entering a node: a code path for a class field's value
/// starts first where the node is one; then the action of its kind.
#[derive(Copy, Clone, Debug, PartialEq, Eq, Structural)]
pub struct EnterPlan {
    pub start_field_initializer: bool,
    pub action: EnterAction,
}

/// Whether a node of kind `kind` starts the code path of a function.
pub open spec fn is_function_kind(kind: NodeKind) -> bool {
    kind == NodeKind::FunctionDeclaration || kind == NodeKind::GeneratorFunctionDeclaration || kind
        == NodeKind::Function || kind == NodeKind::GeneratorFunction || kind
        == NodeKind::ArrowFunction || kind == NodeKind::MethodDefinition
}

pub fn is_function(kind: NodeKind) -> (b: bool)
    ensures
        b == is_function_kind(kind),
{
    match kind {
        NodeKind::FunctionDeclaration | NodeKind::GeneratorFunctionDeclaration
        | NodeKind::Function | NodeKind::GeneratorFunction | NodeKind::ArrowFunction
        | NodeKind::MethodDefinition => true,
        _ => false,
    }
}

/// The action for entering a node of kind `kind` (see `process_code_path_to_enter`
/// for what each argument says).
pub open spec fn enter_action_spec(
    kind: NodeKind,
    is_outermost_chain: bool,
    optional_chain: bool,
    operator: Seq<char>,
    forking_as_result: bool,
    has_case: bool,
    has_finalizer: bool,
    is_first_child: bool,
    body_is_breakable: bool,
) -> EnterAction {
    if kind == NodeKind::Program {
        EnterAction::StartCodePath(CodePathOrigin::Program)
    } else if is_function_kind(kind) {
        EnterAction::StartCodePath(CodePathOrigin::Function)
    } else if kind == NodeKind::ClassStaticBlock {
        EnterAction::StartCodePath(CodePathOrigin::ClassStaticBlock)
    } else if kind == NodeKind::CallExpression || kind == NodeKind::MemberExpression || kind
        == NodeKind::SubscriptExpression {
        EnterAction::Chain { push_chain_context: is_outermost_chain, make_optional_node: optional_chain }
    } else if kind == NodeKind::BinaryExpression {
        if is_handled_logical_operator_spec(operator) {
            EnterAction::PushChoice { kind: choice_kind_of(operator), forking_as_result }
        } else {
            EnterAction::Nothing
        }
    } else if kind == NodeKind::AugmentedAssignmentExpression {
        if is_logical_assignment_operator_spec(operator) {
            EnterAction::PushChoice { kind: choice_kind_of(operator), forking_as_result }
        } else {
            EnterAction::Nothing
        }
    } else if kind == NodeKind::TernaryExpression || kind == NodeKind::IfStatement {
        EnterAction::PushChoice { kind: ChoiceKind::Test, forking_as_result: false }
    } else if kind == NodeKind::SwitchStatement {
        EnterAction::PushSwitch { has_case }
    } else if kind == NodeKind::TryStatement {
        EnterAction::PushTry { has_finalizer }
    } else if kind == NodeKind::SwitchCase || kind == NodeKind::SwitchDefault {
        if !is_first_child {
            EnterAction::ForkPath
        } else {
            EnterAction::Nothing
        }
    } else if kind == NodeKind::WhileStatement || kind == NodeKind::DoStatement || kind
        == NodeKind::ForStatement || kind == NodeKind::ForInStatement {
        EnterAction::PushLoop
    } else if kind == NodeKind::LabeledStatement {
        if !body_is_breakable {
            EnterAction::PushBreak
        } else {
            EnterAction::Nothing
        }
    } else {
        EnterAction::Nothing
    }
}

/// Decides the steps taken on entering a node of kind `kind`.
/// `in_field_initializer`: the node is the value of a class field;
/// `is_outermost_chain`: it is the outermost link of a chain;
/// `optional_chain`: it has an optional chain;
/// `operator`: its operator;
/// `forking_as_result`: its value decides which way its parent forks;
/// `has_case`: (a switch) its body has a `case`;
/// `has_finalizer`: (a try) it has a `finally` block;
/// `is_first_child`: (a case) it is the first named child of its parent
/// that is no comment;
/// `body_is_breakable`: (a labelled statement) its body is a statement that
/// `break` can leave.
pub fn process_code_path_to_enter(
    kind: NodeKind,
    in_field_initializer: bool,
    is_outermost_chain: bool,
    optional_chain: bool,
    operator: &str,
    forking_as_result: bool,
    has_case: bool,
    has_finalizer: bool,
    is_first_child: bool,
    body_is_breakable: bool,
) -> (r: EnterPlan)
    ensures
        r.start_field_initializer == in_field_initializer,
        r.action == enter_action_spec(
            kind,
            is_outermost_chain,
            optional_chain,
            operator@,
            forking_as_result,
            has_case,
            has_finalizer,
            is_first_child,
            body_is_breakable,
        ),
{
    let action = if kind == NodeKind::Program {
        EnterAction::StartCodePath(CodePathOrigin::Program)
    } else if is_function(kind) {
        EnterAction::StartCodePath(CodePathOrigin::Function)
    } else {
        match kind {
            NodeKind::ClassStaticBlock => EnterAction::StartCodePath(
                CodePathOrigin::ClassStaticBlock,
            ),
            NodeKind::CallExpression | NodeKind::MemberExpression
            | NodeKind::SubscriptExpression => EnterAction::Chain {
                push_chain_context: is_outermost_chain,
                make_optional_node: optional_chain,
            },
            NodeKind::BinaryExpression => if is_handled_logical_operator_str(operator) {
                EnterAction::PushChoice { kind: choice_kind(operator), forking_as_result }
            } else {
                EnterAction::Nothing
            },
            NodeKind::AugmentedAssignmentExpression => if is_logical_assignment_operator(
                operator,
            ) {
                EnterAction::PushChoice { kind: choice_kind(operator), forking_as_result }
            } else {
                EnterAction::Nothing
            },
            NodeKind::TernaryExpression | NodeKind::IfStatement => EnterAction::PushChoice {
                kind: ChoiceKind::Test,
                forking_as_result: false,
            },
            NodeKind::SwitchStatement => EnterAction::PushSwitch { has_case },
            NodeKind::TryStatement => EnterAction::PushTry { has_finalizer },
            NodeKind::SwitchCase | NodeKind::SwitchDefault => if !is_first_child {
                EnterAction::ForkPath
            } else {
                EnterAction::Nothing
            },
            NodeKind::WhileStatement | NodeKind::DoStatement | NodeKind::ForStatement
            | NodeKind::ForInStatement => EnterAction::PushLoop,
            NodeKind::LabeledStatement => if !body_is_breakable {
                EnterAction::PushBreak
            } else {
                EnterAction::Nothing
            },
            _ => EnterAction::Nothing,
        }
    };
    EnterPlan { start_field_initializer: in_field_initializer, action }
}

/// What the analysis does on leaving a node.
#[derive(Copy, Clone, Debug, PartialEq, Eq, Structural)]
pub enum ExitAction {
    Nothing,
    PopChoice,
    PopSwitch,
    /// Make the (empty) body of a case that has none.
    MakeEmptySwitchCaseBody { is_default: bool },
    PopTry,
    MakeBreak,
    MakeContinue,
    MakeReturn,
    MakeThrow,
    /// Make the first path in a `try` block that may throw, and pop the
    /// chain context where the node is the outermost link of a chain.
    MakeFirstThrowable { pop_chain_context: bool },
    PopLoop,
    PopForkContext,
    PopBreak,
}

/// Whether the current segments move to the head of the fork context after
/// the action.
#[derive(Copy, Clone, Debug, PartialEq, Eq, Structural)]
pub enum Forward {
    Always,
    Never,
    /// Only where the fork context is not reachable after the action.
    UnlessReachable,
}

/// The steps taken on leaving a node: move the current segments to the head
/// first (where `forward_first`), the action, then maybe move them again.
#[derive(Copy, Clone, Debug, PartialEq, Eq, Structural)]
pub struct ExitPlan {
    pub forward_first: bool,
    pub action: ExitAction,
    pub forward_after: Forward,
}

/// The steps for leaving a node of kind `kind` (see
/// `process_code_path_to_exit` for what each argument says).
pub open spec fn exit_plan_spec(
    kind: NodeKind,
    operator: Seq<char>,
    has_body: bool,
    is_reference: bool,
    is_outermost_chain: bool,
    body_is_breakable: bool,
) -> ExitPlan {
    let plain = |action: ExitAction| ExitPlan { forward_first: false, action, forward_after: Forward::Always };
    let jump = |action: ExitAction| ExitPlan { forward_first: true, action, forward_after: Forward::Never };
    if kind == NodeKind::IfStatement || kind == NodeKind::TernaryExpression {
        plain(ExitAction::PopChoice)
    } else if kind == NodeKind::BinaryExpression {
        plain(if is_handled_logical_operator_spec(operator) { ExitAction::PopChoice } else { ExitAction::Nothing })
    } else if kind == NodeKind::AugmentedAssignmentExpression {
        plain(if is_logical_assignment_operator_spec(operator) { ExitAction::PopChoice } else { ExitAction::Nothing })
    } else if kind == NodeKind::SwitchStatement {
        plain(ExitAction::PopSwitch)
    } else if kind == NodeKind::SwitchCase || kind == NodeKind::SwitchDefault {
        ExitPlan {
            forward_first: false,
            action: if !has_body {
                ExitAction::MakeEmptySwitchCaseBody { is_default: kind == NodeKind::SwitchDefault }
            } else {
                ExitAction::Nothing
            },
            forward_after: Forward::UnlessReachable,
        }
    } else if kind == NodeKind::TryStatement {
        plain(ExitAction::PopTry)
    } else if kind == NodeKind::BreakStatement {
        jump(ExitAction::MakeBreak)
    } else if kind == NodeKind::ContinueStatement {
        jump(ExitAction::MakeContinue)
    } else if kind == NodeKind::ReturnStatement {
        jump(ExitAction::MakeReturn)
    } else if kind == NodeKind::ThrowStatement {
        jump(ExitAction::MakeThrow)
    } else if kind == NodeKind::Identifier || kind == NodeKind::PropertyIdentifier || kind
        == NodeKind::ShorthandPropertyIdentifier {
        if is_reference {
            ExitPlan {
                forward_first: false,
                action: ExitAction::MakeFirstThrowable { pop_chain_context: false },
                forward_after: Forward::Never,
            }
        } else {
            plain(ExitAction::Nothing)
        }
    } else if kind == NodeKind::CallExpression || kind == NodeKind::MemberExpression || kind
        == NodeKind::SubscriptExpression || kind == NodeKind::NewExpression || kind
        == NodeKind::YieldExpression {
        plain(ExitAction::MakeFirstThrowable { pop_chain_context: is_outermost_chain })
    } else if kind == NodeKind::WhileStatement || kind == NodeKind::DoStatement || kind
        == NodeKind::ForStatement || kind == NodeKind::ForInStatement {
        plain(ExitAction::PopLoop)
    } else if kind == NodeKind::AssignmentPattern || kind == NodeKind::ObjectAssignmentPattern {
        plain(ExitAction::PopForkContext)
    } else if kind == NodeKind::LabeledStatement {
        plain(if !body_is_breakable { ExitAction::PopBreak } else { ExitAction::Nothing })
    } else if kind == NodeKind::SwitchBody || kind == NodeKind::ParenthesizedExpression {
        ExitPlan { forward_first: false, action: ExitAction::Nothing, forward_after: Forward::Never }
    } else {
        plain(ExitAction::Nothing)
    }
}

fn plain_exit(action: ExitAction) -> (r: ExitPlan)
    ensures
        r == (ExitPlan { forward_first: false, action, forward_after: Forward::Always }),
{
    ExitPlan { forward_first: false, action, forward_after: Forward::Always }
}

fn jump_exit(action: ExitAction) -> (r: ExitPlan)
    ensures
        r == (ExitPlan { forward_first: true, action, forward_after: Forward::Never }),
{
    ExitPlan { forward_first: true, action, forward_after: Forward::Never }
}

/// Decides the steps taken on leaving a node of kind `kind`.
/// `operator`: its operator;
/// `has_body`: (a case) it has a body;
/// `is_reference`: (an identifier) it refers to a variable;
/// `is_outermost_chain`: it is the outermost link of a chain;
/// `body_is_breakable`: (a labelled statement) its body is a statement that
/// `break` can leave.
pub fn process_code_path_to_exit(
    kind: NodeKind,
    operator: &str,
    has_body: bool,
    is_reference: bool,
    is_outermost_chain: bool,
    body_is_breakable: bool,
) -> (r: ExitPlan)
    ensures
        r == exit_plan_spec(kind, operator@, has_body, is_reference, is_outermost_chain, body_is_breakable),
{
    match kind {
        NodeKind::IfStatement | NodeKind::TernaryExpression => plain_exit(ExitAction::PopChoice),
        NodeKind::BinaryExpression => plain_exit(
            if is_handled_logical_operator_str(operator) {
                ExitAction::PopChoice
            } else {
                ExitAction::Nothing
            },
        ),
        NodeKind::AugmentedAssignmentExpression => plain_exit(
            if is_logical_assignment_operator(operator) {
                ExitAction::PopChoice
            } else {
                ExitAction::Nothing
            },
        ),
        NodeKind::SwitchStatement => plain_exit(ExitAction::PopSwitch),
        NodeKind::SwitchCase | NodeKind::SwitchDefault => ExitPlan {
            forward_first: false,
            action: if !has_body {
                ExitAction::MakeEmptySwitchCaseBody { is_default: kind == NodeKind::SwitchDefault }
            } else {
                ExitAction::Nothing
            },
            forward_after: Forward::UnlessReachable,
        },
        NodeKind::TryStatement => plain_exit(ExitAction::PopTry),
        NodeKind::BreakStatement => jump_exit(ExitAction::MakeBreak),
        NodeKind::ContinueStatement => jump_exit(ExitAction::MakeContinue),
        NodeKind::ReturnStatement => jump_exit(ExitAction::MakeReturn),
        NodeKind::ThrowStatement => jump_exit(ExitAction::MakeThrow),
        NodeKind::Identifier | NodeKind::PropertyIdentifier
        | NodeKind::ShorthandPropertyIdentifier => if is_reference {
            ExitPlan {
                forward_first: false,
                action: ExitAction::MakeFirstThrowable { pop_chain_context: false },
                forward_after: Forward::Never,
            }
        } else {
            plain_exit(ExitAction::Nothing)
        },
        NodeKind::CallExpression | NodeKind::MemberExpression | NodeKind::SubscriptExpression
        | NodeKind::NewExpression | NodeKind::YieldExpression => plain_exit(
            ExitAction::MakeFirstThrowable { pop_chain_context: is_outermost_chain },
        ),
        NodeKind::WhileStatement | NodeKind::DoStatement | NodeKind::ForStatement
        | NodeKind::ForInStatement => plain_exit(ExitAction::PopLoop),
        NodeKind::AssignmentPattern | NodeKind::ObjectAssignmentPattern => plain_exit(
            ExitAction::PopForkContext,
        ),
        NodeKind::LabeledStatement => plain_exit(
            if !body_is_breakable {
                ExitAction::PopBreak
            } else {
                ExitAction::Nothing
            },
        ),
        NodeKind::SwitchBody | NodeKind::ParenthesizedExpression => ExitPlan {
            forward_first: false,
            action: ExitAction::Nothing,
            forward_after: Forward::Never,
        },
        _ => plain_exit(ExitAction::Nothing),
    }
}

/// The steps taken after leaving a node: end the code path the node started
/// (a program, a function or a static block), make the right side of an
/// optional call without arguments, and end the code path of a class field's
/// value.
#[derive(Copy, Clone, Debug, PartialEq, Eq, Structural)]
pub struct PostprocessPlan {
    pub end_code_path: bool,
    pub make_optional_right: bool,
    pub end_field_initializer: bool,
}

/// `optional_chain`: the node has an optional chain; `num_arguments`: (a call)
/// the number of its arguments, where it has a list of them;
/// `in_field_initializer`: the node is the value of a class field.
pub open spec fn postprocess_spec(
    kind: NodeKind,
    optional_chain: bool,
    num_arguments: Option<usize>,
    in_field_initializer: bool,
) -> PostprocessPlan {
    PostprocessPlan {
        end_code_path: kind == NodeKind::Program || is_function_kind(kind) || kind
            == NodeKind::ClassStaticBlock,
        make_optional_right: kind == NodeKind::CallExpression && optional_chain && num_arguments
            == Some(0usize),
        end_field_initializer: in_field_initializer,
    }
}

pub fn postprocess(
    kind: NodeKind,
    optional_chain: bool,
    num_arguments: Option<usize>,
    in_field_initializer: bool,
) -> (r: PostprocessPlan)
    ensures
        r == postprocess_spec(kind, optional_chain, num_arguments, in_field_initializer),
{
    let end_code_path = kind == NodeKind::Program || is_function(kind) || kind
        == NodeKind::ClassStaticBlock;
    let make_optional_right = kind == NodeKind::CallExpression && optional_chain && match num_arguments {
        Some(n) => n == 0,
        None => false,
    };
    PostprocessPlan { end_code_path, make_optional_right, end_field_initializer: in_field_initializer }
}

/// The segments that start when the current segments move to `head`: those
/// of `head` that differ from the current segment at the same position, or
/// have none there, in order.
pub open spec fn started_segments(current: Seq<usize>, head: Seq<usize>) -> Seq<usize>
    decreases head.len(),
{
    if head.len() == 0 {
        Seq::empty()
    } else {
        let rest = started_segments(current, head.drop_last());
        let i = head.len() - 1;
        if i >= current.len() || current[i] != head[i] {
            rest.push(head[i])
        } else {
            rest
        }
    }
}

/// `segs` with each of `ids` marked as used, in order.
pub open spec fn mark_all_used(segs: Seq<SegmentView>, ids: Seq<usize>) -> Seq<SegmentView>
    decreases ids.len(),
{
    if ids.len() == 0 {
        segs
    } else {
        mark_used_spec(mark_all_used(segs, ids.drop_last()), ids.last())
    }
}

pub proof fn lemma_started_in_range(current: Seq<usize>, head: Seq<usize>, len: nat)
    requires
        ids_in_range(head, len),
    ensures
        ids_in_range(started_segments(current, head), len),
        started_segments(current, head).len() <= head.len(),
    decreases head.len(),
{
    if head.len() > 0 {
        lemma_started_in_range(current, head.drop_last(), len);
    }
}

pub proof fn lemma_mark_all_used_wf(segs: Seq<SegmentView>, ids: Seq<usize>)
    requires
        arena_wf(segs),
        ids_in_range(ids, segs.len()),
    ensures
        arena_wf(mark_all_used(segs, ids)),
        mark_all_used(segs, ids).len() == segs.len(),
        same_reachability(segs, mark_all_used(segs, ids)),
    decreases ids.len(),
{
    if ids.len() > 0 {
        lemma_mark_all_used_wf(segs, ids.drop_last());
        let m = mark_all_used(segs, ids.drop_last());
        assert((ids.last() as int) < segs.len());
        lemma_mark_used_wf(m, ids.last());
        assert forall|i: int| 0 <= i < segs.len() implies #[trigger] segs[i].reachable
            == mark_all_used(segs, ids)[i].reachable by {
            assert(segs[i].reachable == m[i].reachable);
        }
    }
}

/// After moving to the head, every segment that started is used.
pub proof fn lemma_started_segments_are_used(segs: Seq<SegmentView>, ids: Seq<usize>)
    requires
        arena_wf(segs),
        ids_in_range(ids, segs.len()),
    ensures
        forall|k: int| 0 <= k < ids.len() ==> #[trigger] mark_all_used(segs, ids)[ids[k] as int].used,
    decreases ids.len(),
{
    if ids.len() > 0 {
        let rest = ids.drop_last();
        lemma_started_segments_are_used(segs, rest);
        lemma_mark_all_used_wf(segs, rest);
        let m = mark_all_used(segs, rest);
        crate::code_path_segment::lemma_mark_used_marks(m, ids.last());
        assert forall|k: int| 0 <= k < ids.len() implies #[trigger] mark_all_used(segs, ids)[ids[k] as int].used by {
            if k < ids.len() - 1 {
                assert(rest[k] == ids[k]);
                assert(m[ids[k] as int].used);
            }
        }
    }
}

/// Moves the current segments of a code path to the head segments of its
/// fork context: each head segment that starts (see `started_segments`) is
/// marked as used. Returns the segments that started.
pub fn forward_current_to_head(arena: &mut SegmentArena, current: &[usize], head: &[usize]) -> (r:
    Vec<usize>)
    requires
        arena_wf(old(arena)@),
        ids_in_range(head@, old(arena)@.len()),
    ensures
        r@ == started_segments(current@, head@),
        final(arena)@ == mark_all_used(old(arena)@, r@),
        arena_wf(final(arena)@),
{
    let ghost segs0 = arena@;
    let mut started: Vec<usize> = Vec::new();
    let mut i: usize = 0;
    while i < head.len()
        invariant
            i <= head@.len(),
            ids_in_range(head@, segs0.len()),
            arena_wf(segs0),
            started@ == started_segments(current@, head@.take(i as int)),
            arena@ == mark_all_used(segs0, started@),
            arena_wf(arena@),
            arena@.len() == segs0.len(),
        decreases head.len() - i,
    {
        proof {
            assert(head@.take(i + 1).drop_last() == head@.take(i as int));
            lemma_started_in_range(current@, head@.take(i as int), segs0.len());
        }
        let h = head[i];
        if i >= current.len() || current[i] != h {
            let ghost before = started@;
            CodePathSegment::mark_used(arena, h);
            started.push(h);
            proof {
                assert(started@.drop_last() == before);
                lemma_started_in_range(current@, head@.take(i + 1), segs0.len());
                lemma_mark_all_used_wf(segs0, started@);
            }
        }
        i = i + 1;
    }
    assert(head@.take(head@.len() as int) == head@);
    started
}

/// The innermost code path that holds a node: the first of `code_paths`
/// whose root holds the node (`holds[c]`) while no child code path of it
/// does.
pub open spec fn is_innermost(code_paths: Seq<CodePath>, holds: Seq<bool>, c: int) -> bool {
    &&& holds[c]
    &&& forall|k: int|
        0 <= k < code_paths[c].child_code_paths@.len() ==> !holds[(
        #[trigger] code_paths[c].child_code_paths@[k]) as int]
}

/// The first code path in `order` that holds a node innermost, where
/// `holds[c]` says whether the root node of code path `c` is the node or an
/// ancestor of it.
pub fn get_innermost_code_path(code_paths: &Vec<CodePath>, order: &Vec<usize>, holds: &Vec<bool>) -> (r:
    usize)
    requires
        holds@.len() == code_paths@.len(),
        forall|i: int| 0 <= i < order@.len() ==> (#[trigger] order@[i] as int) < code_paths@.len(),
        forall|c: int, k: int|
            0 <= c < code_paths@.len() && 0 <= k < code_paths@[c].child_code_paths@.len() ==> (
            #[trigger] code_paths@[c].child_code_paths@[k] as int) < code_paths@.len(),
        exists|i: int| 0 <= i < order@.len() && is_innermost(code_paths@, holds@, #[trigger] order@[i] as int),
    ensures
        exists|i: int|
            0 <= i < order@.len() && order@[i] == r && is_innermost(code_paths@, holds@, r as int)
                && forall|j: int| 0 <= j < i ==> !is_innermost(code_paths@, holds@, #[trigger] order@[j] as int),
{
    let mut i: usize = 0;
    while i < order.len()
        invariant
            i <= order@.len(),
            holds@.len() == code_paths@.len(),
            forall|i: int| 0 <= i < order@.len() ==> (#[trigger] order@[i] as int) < code_paths@.len(),
            forall|c: int, k: int|
                0 <= c < code_paths@.len() && 0 <= k < code_paths@[c].child_code_paths@.len() ==> (
                #[trigger] code_paths@[c].child_code_paths@[k] as int) < code_paths@.len(),
            exists|m: int| i <= m < order@.len() && is_innermost(code_paths@, holds@, #[trigger] order@[m] as int),
            forall|j: int| 0 <= j < i ==> !is_innermost(code_paths@, holds@, #[trigger] order@[j] as int),
        decreases order.len() - i,
    {
        let c = order[i];
        let mut found = holds[c];
        let children = &code_paths[c].child_code_paths;
        let mut k: usize = 0;
        while found && k < children.len()
            invariant
                k <= children@.len(),
                (c as int) < code_paths@.len(),
                children@ == code_paths@[c as int].child_code_paths@,
                holds@.len() == code_paths@.len(),
                forall|k: int| 0 <= k < children@.len() ==> (#[trigger] children@[k] as int) < code_paths@.len(),
                found == (holds@[c as int] && forall|m: int| 0 <= m < k ==> !holds@[#[trigger] children@[m] as int]),
            decreases children.len() - k,
        {
            if holds[children[k]] {
                found = false;
            }
            k = k + 1;
        }
        if found {
            return c;
        }
        i = i + 1;
    }
    assert(false);
    0
}

/// Tells when a looping-back edge of a code path is worth an event.
pub struct OnLooped;

impl OnLooped {
    /// Whether looping from `from_segment` back to `to_segment` is an event:
    /// only where both segments are reachable.
    pub fn on_looped(&self, arena: &SegmentArena, from_segment: usize, to_segment: usize) -> (b:
        bool)
        requires
            from_segment < arena@.len(),
            to_segment < arena@.len(),
        ensures
            b == (arena@[from_segment as int].reachable && arena@[to_segment as int].reachable),
    {
        arena.is_reachable(from_segment) && arena.is_reachable(to_segment)
    }
}

/// Whether a segment recorded `node` as entered (or left, as `mark` says).
fn segment_has_node(arena: &SegmentArena, segment: usize, mark: EnterOrExit, node: usize) -> (b:
    bool)
    requires
        segment < arena@.len(),
    ensures
        b == arena@[segment as int].nodes.contains((mark, node)),
{
    let nodes = &arena.segments[segment].nodes;
    assert(nodes@ == arena@[segment as int].nodes);
    let mut i: usize = 0;
    while i < nodes.len()
        invariant
            i <= nodes@.len(),
            segment < arena@.len(),
            nodes@ == arena@[segment as int].nodes,
            forall|j: int| 0 <= j < i ==> nodes@[j] != (mark, node),
        decreases nodes.len() - i,
    {
        let (m, n) = nodes[i];
        if m == mark && n == node {
            assert(nodes@[i as int] == (mark, node));
            return true;
        }
        i = i + 1;
    }
    false
}

/// The segments of `walk` that recorded `entry`, in the order of the walk.
pub open spec fn marked(segs: Seq<SegmentView>, walk: Seq<usize>, entry: (EnterOrExit, usize)) -> Seq<usize>
    decreases walk.len(),
{
    if walk.len() == 0 {
        Seq::empty()
    } else {
        marked(segs, walk.drop_last(), entry) + if segs[walk.last() as int].nodes.contains(entry) {
            seq![walk.last()]
        } else {
            Seq::empty()
        }
    }
}

/// The segments of each of `walks` in turn that recorded `entry`.
pub open spec fn marked_walks(segs: Seq<SegmentView>, walks: Seq<Seq<usize>>, entry: (EnterOrExit, usize)) -> Seq<
    usize,
>
    decreases walks.len(),
{
    if walks.len() == 0 {
        Seq::empty()
    } else {
        marked_walks(segs, walks.drop_last(), entry) + marked(segs, walks.last(), entry)
    }
}

/// The segments, over the walks of all segments of each of `code_paths` (in
/// the order given), that recorded `node` as entered or left (`mark`).
pub fn get_segments_that_include_node(
    arena: &SegmentArena,
    code_paths: &Vec<CodePath>,
    order: &Vec<usize>,
    mark: EnterOrExit,
    node: usize,
) -> (r: Vec<usize>)
    requires
        arena_wf(arena@),
        forall|i: int| 0 <= i < order@.len() ==> (#[trigger] order@[i] as int) < code_paths@.len(),
        forall|c: int| 0 <= c < code_paths@.len() ==> (#[trigger] code_paths@[c]).wf(arena@.len()),
    ensures
        forall|k: int|
            0 <= k < r@.len() ==> (#[trigger] r@[k] as int) < arena@.len()
                && arena@[r@[k] as int].nodes.contains((mark, node)),
        exists|walks: Seq<Seq<usize>>|
            {
                &&& walks.len() == order@.len()
                &&& forall|k: int|
                    0 <= k < walks.len() ==> is_walk(
                        arena@,
                        code_paths@[order@[k] as int].initial_segment,
                        true,
                        #[trigger] walks[k],
                    )
                &&& r@ == marked_walks(arena@, walks, (mark, node))
            },
{
    let mut segments: Vec<usize> = Vec::new();
    let ghost mut walks: Seq<Seq<usize>> = Seq::empty();
    let mut i: usize = 0;
    while i < order.len()
        invariant
            arena_wf(arena@),
            forall|i: int| 0 <= i < order@.len() ==> (#[trigger] order@[i] as int) < code_paths@.len(),
            forall|c: int| 0 <= c < code_paths@.len() ==> (#[trigger] code_paths@[c]).wf(arena@.len()),
            forall|k: int|
                0 <= k < segments@.len() ==> (#[trigger] segments@[k] as int) < arena@.len()
                    && arena@[segments@[k] as int].nodes.contains((mark, node)),
            i <= order@.len(),
            walks.len() == i,
            forall|k: int|
                0 <= k < walks.len() ==> is_walk(
                    arena@,
                    code_paths@[order@[k] as int].initial_segment,
                    true,
                    #[trigger] walks[k],
                ),
            segments@ == marked_walks(arena@, walks, (mark, node)),
        decreases order.len() - i,
    {
        let code_path = &code_paths[order[i]];
        let mut walk: TraverseSegmentsController = code_path.traverse_all_segments(arena, None);
        loop
            invariant
                walk.wf(arena@),
                walk.walk_inv(arena@),
                walk.all,
                walk.start_segment == code_paths@[order@[i as int] as int].initial_segment,
                forall|k: int|
                    0 <= k < segments@.len() ==> (#[trigger] segments@[k] as int) < arena@.len()
                        && arena@[segments@[k] as int].nodes.contains((mark, node)),
                segments@ == marked_walks(arena@, walks, (mark, node)) + marked(arena@, walk.yielded@, (mark, node)),
            ensures
                walk.walk_inv(arena@),
                walk.stack@.len() == 0,
                !walk.pending,
            decreases unvisited(walk.visited@),
        {
            let ghost old_yielded = walk.yielded@;
            match walk.next_segment(arena) {
                Some(segment) => {
                    if segment_has_node(arena, segment, mark, node) {
                        segments.push(segment);
                    }
                    proof {
                        let yv = walk.yielded@;
                        assert(yv.drop_last() =~= old_yielded);
                        assert(yv.last() == segment);
                        assert(marked(arena@, yv, (mark, node)) == marked(arena@, old_yielded, (mark, node)) + if arena@[
                            segment as int].nodes.contains((mark, node)) {
                            seq![segment]
                        } else {
                            Seq::<usize>::empty()
                        });
                        assert(segments@ =~= marked_walks(arena@, walks, (mark, node)) + marked(
                            arena@,
                            yv,
                            (mark, node),
                        ));
                    }
                },
                None => {
                    break ;
                },
            }
        }
        proof {
            lemma_finished_walk(walk, arena@);
            let w = walks.push(walk.yielded@);
            assert(w.drop_last() =~= walks);
            assert(w.last() == walk.yielded@);
            assert forall|k: int| 0 <= k < w.len() implies is_walk(
                arena@,
                code_paths@[order@[k] as int].initial_segment,
                true,
                #[trigger] w[k],
            ) by {
                if k < walks.len() {
                    assert(w[k] == walks[k]);
                }
            }
            walks = w;
        }
        i = i + 1;
    }
    assert(walks.len() == order@.len());
    segments
}

/// `segs` with `entry` appended to the nodes of each of `ids`, in order.
pub open spec fn record_all(segs: Seq<SegmentView>, ids: Seq<usize>, entry: (EnterOrExit, usize)) -> Seq<
    SegmentView,
>
    decreases ids.len(),
{
    if ids.len() == 0 {
        segs
    } else {
        let w = record_all(segs, ids.drop_last(), entry);
        let s = ids.last() as int;
        w.update(s, SegmentView { nodes: w[s].nodes.push(entry), ..w[s] })
    }
}

pub proof fn lemma_record_all(segs: Seq<SegmentView>, ids: Seq<usize>, entry: (EnterOrExit, usize))
    requires
        arena_wf(segs),
        ids_in_range(ids, segs.len()),
    ensures
        record_all(segs, ids, entry).len() == segs.len(),
        arena_wf(record_all(segs, ids, entry)),
        forall|i: int|
            0 <= i < segs.len() ==> {
                let t = #[trigger] record_all(segs, ids, entry)[i];
                &&& t.next_segments == segs[i].next_segments
                &&& t.prev_segments == segs[i].prev_segments
                &&& t.all_next_segments == segs[i].all_next_segments
                &&& t.all_prev_segments == segs[i].all_prev_segments
                &&& t.looped_prev_segments == segs[i].looped_prev_segments
                &&& t.reachable == segs[i].reachable
                &&& t.used == segs[i].used
                &&& t.id == segs[i].id
            },
    decreases ids.len(),
{
    if ids.len() > 0 {
        lemma_record_all(segs, ids.drop_last(), entry);
        let w = record_all(segs, ids.drop_last(), entry);
        let r = record_all(segs, ids, entry);
        assert forall|s: int| 0 <= s < r.len() implies r[s].prev_segments == crate::code_path_segment::reachable_ids(
            r,
            r[s].all_prev_segments,
        ) by {
            lemma_reachable_ids_same(w, r, r[s].all_prev_segments);
            assert(ids_in_range(w[s].all_prev_segments, w.len()));
        }
        assert forall|s: int| 0 <= s < r.len() implies ids_in_range(#[trigger] r[s].next_segments, r.len())
            by {
            assert(ids_in_range(w[s].next_segments, w.len()));
        }
    }
}

/// Two arenas of one length that agree on reachability agree on the
/// reachable members of any list of their segments.
pub proof fn lemma_reachable_ids_same(a: Seq<SegmentView>, b: Seq<SegmentView>, ids: Seq<usize>)
    requires
        a.len() == b.len(),
        ids_in_range(ids, a.len()),
        forall|i: int| 0 <= i < a.len() ==> #[trigger] a[i].reachable == b[i].reachable,
    ensures
        crate::code_path_segment::reachable_ids(a, ids) == crate::code_path_segment::reachable_ids(b, ids),
    decreases ids.len(),
{
    if ids.len() > 0 {
        lemma_reachable_ids_same(a, b, ids.drop_last());
        assert(a[ids.last() as int].reachable == b[ids.last() as int].reachable);
    }
}

/// Records `node` in each of the current segments: as entered, or as left
/// when `leaving`.
pub fn record_node(arena: &mut SegmentArena, current: &[usize], node: usize, leaving: bool)
    requires
        arena_wf(old(arena)@),
        ids_in_range(current@, old(arena)@.len()),
    ensures
        final(arena)@ == record_all(
            old(arena)@,
            current@,
            (if leaving { EnterOrExit::Exit } else { EnterOrExit::Enter }, node),
        ),
        arena_wf(final(arena)@),
{
    let mark = if leaving {
        EnterOrExit::Exit
    } else {
        EnterOrExit::Enter
    };
    let ghost segs0 = arena@;
    let mut i: usize = 0;
    while i < current.len()
        invariant
            i <= current@.len(),
            arena_wf(segs0),
            ids_in_range(current@, segs0.len()),
            arena@ == record_all(segs0, current@.take(i as int), (mark, node)),
        decreases current.len() - i,
    {
        proof {
            assert(current@.take(i + 1).drop_last() == current@.take(i as int));
            lemma_record_all(segs0, current@.take(i as int), (mark, node));
        }
        let s = current[i];
        let ghost before = arena@;
        arena.segments[s].nodes.push((mark, node));
        assert(arena@ =~= record_all(segs0, current@.take(i + 1), (mark, node)));
        i = i + 1;
    }
    proof {
        assert(current@.take(current@.len() as int) == current@);
        lemma_record_all(segs0, current@, (mark, node));
    }
}

/// The kinds of literal.
#[derive(Copy, Clone, Debug, PartialEq, Eq, Structural)]
pub enum LiteralKind {
    String,
    Number,
    Regex,
    Null,
    True,
    False,
}

/// The truth value of a literal of kind `literal` (`None` for a node that is
/// no literal) whose text is `text`. A string is truthy when its text (quotes
/// included) is not empty; a number as its reading says, where
/// `float_truthy` stands for what its text reads as a non-integer number.
pub open spec fn simple_constant_value(
    literal: Option<LiteralKind>,
    text: Seq<char>,
    float_truthy: bool,
) -> Option<bool> {
    match literal {
        None => None,
        Some(LiteralKind::String) => Some(text.len() > 0),
        Some(LiteralKind::Number) => match reading_truthy(integer_reading(without_separators(text))) {
            Some(b) => Some(b),
            None => Some(float_truthy),
        },
        Some(LiteralKind::Regex) => Some(true),
        Some(LiteralKind::Null) => Some(false),
        Some(LiteralKind::True) => Some(true),
        Some(LiteralKind::False) => Some(false),
    }
}

pub fn get_boolean_value_if_simple_constant(
    literal: Option<LiteralKind>,
    text: &str,
    float_truthy: bool,
) -> (r: Option<bool>)
    ensures
        r == simple_constant_value(literal, text@, float_truthy),
{
    match literal {
        None => None,
        Some(LiteralKind::String) => Some(text.unicode_len() > 0),
        Some(LiteralKind::Number) => match is_truthy_reading(parse_integer_literal(text)) {
            Some(b) => Some(b),
            None => Some(float_truthy),
        },
        Some(LiteralKind::Regex) => Some(true),
        Some(LiteralKind::Null) => Some(false),
        Some(LiteralKind::True) => Some(true),
        Some(LiteralKind::False) => Some(false),
    }
}

} // verus!
