use vstd::prelude::*;

use crate::analyzer::{
    enter_action_spec, exit_plan_spec, is_forking_by_true_or_false, is_forking_by_true_or_false_spec,
    is_handled_logical_operator_spec, is_identifier_reference, is_identifier_reference_spec,
    is_logical_assignment_operator_spec, is_property_definition_value, is_property_definition_value_spec,
    postprocess, postprocess_spec, preprocess, preprocess_ok, preprocess_spec, process_code_path_to_enter,
    process_code_path_to_exit, EnterAction, EnterPlan, ExitAction, ExitPlan, Field, NodeKind,
    PostprocessPlan, PreprocessAction, simple_constant_value, get_boolean_value_if_simple_constant, LiteralKind,
};
use crate::syntax_tree::{
    call_arguments_ok, call_arguments_spec, field_child, first_of, is_chain_spec, lemma_field_child_in,
    named_non_comment, next_non_parentheses_ancestor_spec, skip_spec, tree_wf, NodeView, SyntaxTree,
};
use crate::text::str_eq;

verus! {

/// The kind of node that a syntax tree's kind name stands for.
pub open spec fn node_kind_spec(k: Seq<char>) -> NodeKind {
    if k == "program"@ {
        NodeKind::Program
    } else if k == "function_declaration"@ {
        NodeKind::FunctionDeclaration
    } else if k == "generator_function_declaration"@ {
        NodeKind::GeneratorFunctionDeclaration
    } else if k == "function"@ {
        NodeKind::Function
    } else if k == "generator_function"@ {
        NodeKind::GeneratorFunction
    } else if k == "arrow_function"@ {
        NodeKind::ArrowFunction
    } else if k == "method_definition"@ {
        NodeKind::MethodDefinition
    } else if k == "class_declaration"@ {
        NodeKind::ClassDeclaration
    } else if k == "class"@ {
        NodeKind::Class
    } else if k == "class_static_block"@ {
        NodeKind::ClassStaticBlock
    } else if k == "field_definition"@ {
        NodeKind::FieldDefinition
    } else if k == "call_expression"@ {
        NodeKind::CallExpression
    } else if k == "member_expression"@ {
        NodeKind::MemberExpression
    } else if k == "subscript_expression"@ {
        NodeKind::SubscriptExpression
    } else if k == "new_expression"@ {
        NodeKind::NewExpression
    } else if k == "yield_expression"@ {
        NodeKind::YieldExpression
    } else if k == "binary_expression"@ {
        NodeKind::BinaryExpression
    } else if k == "augmented_assignment_expression"@ {
        NodeKind::AugmentedAssignmentExpression
    } else if k == "ternary_expression"@ {
        NodeKind::TernaryExpression
    } else if k == "if_statement"@ {
        NodeKind::IfStatement
    } else if k == "switch_statement"@ {
        NodeKind::SwitchStatement
    } else if k == "switch_body"@ {
        NodeKind::SwitchBody
    } else if k == "switch_case"@ {
        NodeKind::SwitchCase
    } else if k == "switch_default"@ {
        NodeKind::SwitchDefault
    } else if k == "try_statement"@ {
        NodeKind::TryStatement
    } else if k == "catch_clause"@ {
        NodeKind::CatchClause
    } else if k == "while_statement"@ {
        NodeKind::WhileStatement
    } else if k == "do_statement"@ {
        NodeKind::DoStatement
    } else if k == "for_statement"@ {
        NodeKind::ForStatement
    } else if k == "for_in_statement"@ {
        NodeKind::ForInStatement
    } else if k == "labeled_statement"@ {
        NodeKind::LabeledStatement
    } else if k == "break_statement"@ {
        NodeKind::BreakStatement
    } else if k == "continue_statement"@ {
        NodeKind::ContinueStatement
    } else if k == "return_statement"@ {
        NodeKind::ReturnStatement
    } else if k == "throw_statement"@ {
        NodeKind::ThrowStatement
    } else if k == "expression_statement"@ {
        NodeKind::ExpressionStatement
    } else if k == "empty_statement"@ {
        NodeKind::EmptyStatement
    } else if k == "parenthesized_expression"@ {
        NodeKind::ParenthesizedExpression
    } else if k == "arguments"@ {
        NodeKind::Arguments
    } else if k == "identifier"@ {
        NodeKind::Identifier
    } else if k == "property_identifier"@ {
        NodeKind::PropertyIdentifier
    } else if k == "shorthand_property_identifier"@ {
        NodeKind::ShorthandPropertyIdentifier
    } else if k == "assignment_pattern"@ {
        NodeKind::AssignmentPattern
    } else if k == "object_assignment_pattern"@ {
        NodeKind::ObjectAssignmentPattern
    } else if k == "array_pattern"@ {
        NodeKind::ArrayPattern
    } else if k == "rest_pattern"@ {
        NodeKind::RestPattern
    } else if k == "pair"@ {
        NodeKind::Pair
    } else if k == "pair_pattern"@ {
        NodeKind::PairPattern
    } else if k == "variable_declarator"@ {
        NodeKind::VariableDeclarator
    } else if k == "import_clause"@ {
        NodeKind::ImportClause
    } else if k == "import_specifier"@ {
        NodeKind::ImportSpecifier
    } else if k == "namespace_import"@ {
        NodeKind::NamespaceImport
    } else if k == "comment"@ {
        NodeKind::Comment
    } else {
        NodeKind::Other
    }
}

/// The kind of node that the kind name `k` stands for.
pub fn node_kind_of(k: &str) -> (r: NodeKind)
    ensures
        r == node_kind_spec(k@),
{
    if str_eq(k, "program") {
        NodeKind::Program
    } else if str_eq(k, "function_declaration") {
        NodeKind::FunctionDeclaration
    } else if str_eq(k, "generator_function_declaration") {
        NodeKind::GeneratorFunctionDeclaration
    } else if str_eq(k, "function") {
        NodeKind::Function
    } else if str_eq(k, "generator_function") {
        NodeKind::GeneratorFunction
    } else if str_eq(k, "arrow_function") {
        NodeKind::ArrowFunction
    } else if str_eq(k, "method_definition") {
        NodeKind::MethodDefinition
    } else if str_eq(k, "class_declaration") {
        NodeKind::ClassDeclaration
    } else if str_eq(k, "class") {
        NodeKind::Class
    } else if str_eq(k, "class_static_block") {
        NodeKind::ClassStaticBlock
    } else if str_eq(k, "field_definition") {
        NodeKind::FieldDefinition
    } else if str_eq(k, "call_expression") {
        NodeKind::CallExpression
    } else if str_eq(k, "member_expression") {
        NodeKind::MemberExpression
    } else if str_eq(k, "subscript_expression") {
        NodeKind::SubscriptExpression
    } else if str_eq(k, "new_expression") {
        NodeKind::NewExpression
    } else if str_eq(k, "yield_expression") {
        NodeKind::YieldExpression
    } else if str_eq(k, "binary_expression") {
        NodeKind::BinaryExpression
    } else if str_eq(k, "augmented_assignment_expression") {
        NodeKind::AugmentedAssignmentExpression
    } else if str_eq(k, "ternary_expression") {
        NodeKind::TernaryExpression
    } else if str_eq(k, "if_statement") {
        NodeKind::IfStatement
    } else if str_eq(k, "switch_statement") {
        NodeKind::SwitchStatement
    } else if str_eq(k, "switch_body") {
        NodeKind::SwitchBody
    } else if str_eq(k, "switch_case") {
        NodeKind::SwitchCase
    } else if str_eq(k, "switch_default") {
        NodeKind::SwitchDefault
    } else if str_eq(k, "try_statement") {
        NodeKind::TryStatement
    } else if str_eq(k, "catch_clause") {
        NodeKind::CatchClause
    } else if str_eq(k, "while_statement") {
        NodeKind::WhileStatement
    } else if str_eq(k, "do_statement") {
        NodeKind::DoStatement
    } else if str_eq(k, "for_statement") {
        NodeKind::ForStatement
    } else if str_eq(k, "for_in_statement") {
        NodeKind::ForInStatement
    } else if str_eq(k, "labeled_statement") {
        NodeKind::LabeledStatement
    } else if str_eq(k, "break_statement") {
        NodeKind::BreakStatement
    } else if str_eq(k, "continue_statement") {
        NodeKind::ContinueStatement
    } else if str_eq(k, "return_statement") {
        NodeKind::ReturnStatement
    } else if str_eq(k, "throw_statement") {
        NodeKind::ThrowStatement
    } else if str_eq(k, "expression_statement") {
        NodeKind::ExpressionStatement
    } else if str_eq(k, "empty_statement") {
        NodeKind::EmptyStatement
    } else if str_eq(k, "parenthesized_expression") {
        NodeKind::ParenthesizedExpression
    } else if str_eq(k, "arguments") {
        NodeKind::Arguments
    } else if str_eq(k, "identifier") {
        NodeKind::Identifier
    } else if str_eq(k, "property_identifier") {
        NodeKind::PropertyIdentifier
    } else if str_eq(k, "shorthand_property_identifier") {
        NodeKind::ShorthandPropertyIdentifier
    } else if str_eq(k, "assignment_pattern") {
        NodeKind::AssignmentPattern
    } else if str_eq(k, "object_assignment_pattern") {
        NodeKind::ObjectAssignmentPattern
    } else if str_eq(k, "array_pattern") {
        NodeKind::ArrayPattern
    } else if str_eq(k, "rest_pattern") {
        NodeKind::RestPattern
    } else if str_eq(k, "pair") {
        NodeKind::Pair
    } else if str_eq(k, "pair_pattern") {
        NodeKind::PairPattern
    } else if str_eq(k, "variable_declarator") {
        NodeKind::VariableDeclarator
    } else if str_eq(k, "import_clause") {
        NodeKind::ImportClause
    } else if str_eq(k, "import_specifier") {
        NodeKind::ImportSpecifier
    } else if str_eq(k, "namespace_import") {
        NodeKind::NamespaceImport
    } else if str_eq(k, "comment") {
        NodeKind::Comment
    } else {
        NodeKind::Other
    }
}

/// The field that a field name stands for.
pub open spec fn field_spec(name: Seq<char>) -> Field {
    if name == "name"@ {
        Field::Name
    } else if name == "property"@ {
        Field::Property
    } else if name == "key"@ {
        Field::Key
    } else if name == "label"@ {
        Field::Label
    } else if name == "left"@ {
        Field::Left
    } else if name == "right"@ {
        Field::Right
    } else if name == "condition"@ {
        Field::Condition
    } else if name == "consequence"@ {
        Field::Consequence
    } else if name == "alternative"@ {
        Field::Alternative
    } else if name == "body"@ {
        Field::Body
    } else if name == "handler"@ {
        Field::Handler
    } else if name == "finalizer"@ {
        Field::Finalizer
    } else if name == "increment"@ {
        Field::Increment
    } else if name == "index"@ {
        Field::Index
    } else if name == "value"@ {
        Field::Value
    } else if name == "arguments"@ {
        Field::Arguments
    } else {
        Field::Other
    }
}

fn field_of_name(name: &str) -> (r: Field)
    ensures
        r == field_spec(name@),
{
    if str_eq(name, "name") {
        Field::Name
    } else if str_eq(name, "property") {
        Field::Property
    } else if str_eq(name, "key") {
        Field::Key
    } else if str_eq(name, "label") {
        Field::Label
    } else if str_eq(name, "left") {
        Field::Left
    } else if str_eq(name, "right") {
        Field::Right
    } else if str_eq(name, "condition") {
        Field::Condition
    } else if str_eq(name, "consequence") {
        Field::Consequence
    } else if str_eq(name, "alternative") {
        Field::Alternative
    } else if str_eq(name, "body") {
        Field::Body
    } else if str_eq(name, "handler") {
        Field::Handler
    } else if str_eq(name, "finalizer") {
        Field::Finalizer
    } else if str_eq(name, "increment") {
        Field::Increment
    } else if str_eq(name, "index") {
        Field::Index
    } else if str_eq(name, "value") {
        Field::Value
    } else if str_eq(name, "arguments") {
        Field::Arguments
    } else {
        Field::Other
    }
}


/// The field of its parent that holds node `n`: the one its label names,
/// where `n` is the parent's first child with that label.
pub open spec fn field_in_parent(t: Seq<NodeView>, n: usize) -> Field {
    match t[n as int].parent {
        Some(p) => match t[n as int].field {
            Some(name) => if field_child(t, t[p as int].children, name) == Some(n) {
                field_spec(name)
            } else {
                Field::Other
            },
            None => Field::Other,
        },
        None => Field::Other,
    }
}

/// The kind of the operator of node `p`, where it has one (empty where it
/// has none).
pub open spec fn operator_of(t: Seq<NodeView>, p: usize) -> Seq<char> {
    match field_child(t, t[p as int].children, "operator"@) {
        Some(o) => t[o as int].kind,
        None => Seq::empty(),
    }
}

/// The parent of node `n`.
pub open spec fn parent_of(t: Seq<NodeView>, n: usize) -> usize {
    t[n as int].parent->0
}

/// Where node `n` stands in its parent, as `field_in_parent` reads it.
pub fn field_of_node(tree: &SyntaxTree, n: usize) -> (r: Field)
    requires
        tree.wf(),
        n < tree@.len(),
    ensures
        r == field_in_parent(tree@, n),
{
    let node = &tree.nodes[n];
    assert(node@ == tree@[n as int]);
    match node.parent {
        Some(p) => match &node.field {
            Some(name) => if tree.child_by_field_name(p, name.as_str()) == Some(n) {
                field_of_name(name.as_str())
            } else {
                Field::Other
            },
            None => Field::Other,
        },
        None => Field::Other,
    }
}

/// The kind of the operator of node `p` (see `operator_of`).
fn operator_of_node(tree: &SyntaxTree, p: usize) -> (r: String)
    requires
        tree.wf(),
        p < tree@.len(),
    ensures
        r@ == operator_of(tree@, p),
{
    proof {
        lemma_field_child_in(tree@, p, "operator"@);
    }
    match tree.child_by_field_name(p, "operator") {
        Some(o) => {
            assert(tree.nodes@[o as int]@ == tree@[o as int]);
            tree.nodes[o].kind.clone()
        },
        None => String::new(),
    }
}

/// The kind of literal that a node of kind `k` is, if it is one.
pub open spec fn literal_kind_spec(k: Seq<char>) -> Option<LiteralKind> {
    if k == "string"@ {
        Some(LiteralKind::String)
    } else if k == "number"@ {
        Some(LiteralKind::Number)
    } else if k == "regex"@ {
        Some(LiteralKind::Regex)
    } else if k == "null"@ {
        Some(LiteralKind::Null)
    } else if k == "true"@ {
        Some(LiteralKind::True)
    } else if k == "false"@ {
        Some(LiteralKind::False)
    } else {
        None
    }
}

pub fn literal_kind_of(k: &str) -> (r: Option<LiteralKind>)
    ensures
        r == literal_kind_spec(k@),
{
    if str_eq(k, "string") {
        Some(LiteralKind::String)
    } else if str_eq(k, "number") {
        Some(LiteralKind::Number)
    } else if str_eq(k, "regex") {
        Some(LiteralKind::Regex)
    } else if str_eq(k, "null") {
        Some(LiteralKind::Null)
    } else if str_eq(k, "true") {
        Some(LiteralKind::True)
    } else if str_eq(k, "false") {
        Some(LiteralKind::False)
    } else {
        None
    }
}

/// The node whose value the test `n` of a loop stands for: `n` with its
/// parentheses skipped and, in a `for` statement, its expression statement
/// skipped after that.
pub open spec fn test_node_spec(t: Seq<NodeView>, n: usize) -> usize {
    let m = skip_spec(t, n, seq!["parenthesized_expression"@]);
    if kind_at(t, parent_of(t, n)) == NodeKind::ForStatement {
        skip_spec(t, m, seq!["expression_statement"@])
    } else {
        m
    }
}

/// The value of the test `n` of a loop where it is a simple constant (see
/// `simple_constant_value`); `float_truthy[m]` says what the text of node
/// `m` reads as, as a non-integer number.
pub open spec fn test_constant_spec(t: Seq<NodeView>, n: usize, float_truthy: Seq<bool>) -> Option<bool> {
    let m = test_node_spec(t, n);
    simple_constant_value(literal_kind_spec(t[m as int].kind), t[m as int].text, float_truthy[m as int])
}

/// The value of the test `n` of a loop where it is a simple constant, read
/// off the tree (see `test_constant_spec`).
pub fn test_constant_of(tree: &SyntaxTree, n: usize, float_truthy: &Vec<bool>) -> (r: Option<bool>)
    requires
        tree.wf(),
        n < tree@.len(),
        tree@[n as int].parent is Some,
        float_truthy@.len() == tree@.len(),
    ensures
        r == test_constant_spec(tree@, n, float_truthy@),
{
    let p = match tree.nodes[n].parent {
        Some(p) => p,
        None => n,
    };
    assert(tree.nodes@[n as int]@ == tree@[n as int]);
    assert(p < tree@.len());
    let mut m = tree.skip_parenthesized_expressions(n);
    if kind_of_node(tree, p) == NodeKind::ForStatement {
        m = tree.skip_nodes_of_type(m, "expression_statement");
    }
    assert(tree.nodes@[m as int]@ == tree@[m as int]);
    let literal = literal_kind_of(tree.nodes[m].kind.as_str());
    get_boolean_value_if_simple_constant(literal, tree.nodes[m].text.as_str(), float_truthy[m])
}

/// The step taken before the analysis enters node `n` of `tree` (see
/// `preprocess_spec`), the facts read from the tree; the value of a loop's
/// test is read as `test_constant_spec` says, `float_truthy` giving for each
/// node what its text reads as, as a non-integer number.
pub fn preprocess_node(tree: &SyntaxTree, n: usize, float_truthy: &Vec<bool>) -> (r: PreprocessAction)
    requires
        tree.wf(),
        n < tree@.len(),
        tree@[n as int].parent is Some,
        float_truthy@.len() == tree@.len(),
        preprocess_ok(node_kind_spec(tree@[parent_of(tree@, n) as int].kind), field_in_parent(tree@, n)),
    ensures
        r == preprocess_spec(
            node_kind_spec(tree@[parent_of(tree@, n) as int].kind),
            field_in_parent(tree@, n),
            node_kind_spec(tree@[n as int].kind),
            field_child(tree@, tree@[parent_of(tree@, n) as int].children, "optional_chain"@) is Some,
            named_non_comment(tree@, tree@[n as int].children).len() > 0,
            operator_of(tree@, parent_of(tree@, n)),
            test_constant_spec(tree@, n, float_truthy@),
        ),
{
    let node = &tree.nodes[n];
    assert(node@ == tree@[n as int]);
    let p = match node.parent {
        Some(p) => p,
        None => n,
    };
    assert(tree.nodes@[p as int]@ == tree@[p as int]);
    let parent_kind = node_kind_of(tree.nodes[p].kind.as_str());
    let kind = node_kind_of(node.kind.as_str());
    let field = field_of_node(tree, n);
    let optional_chain = tree.child_by_field_name(p, "optional_chain").is_some();
    let has_named_children = tree.non_comment_named_children(n).len() > 0;
    let operator = operator_of_node(tree, p);
    let test_constant = test_constant_of(tree, n, float_truthy);
    preprocess(parent_kind, field, kind, optional_chain, has_named_children, operator.as_str(), test_constant)
}


/// The kind of node `n`.
pub open spec fn kind_at(t: Seq<NodeView>, n: usize) -> NodeKind {
    node_kind_spec(t[n as int].kind)
}

/// The kind of the parent of node `n`, where it has one.
pub open spec fn parent_kind(t: Seq<NodeView>, n: usize) -> Option<NodeKind> {
    match t[n as int].parent {
        Some(p) => Some(kind_at(t, p)),
        None => None,
    }
}

fn kind_of_node(tree: &SyntaxTree, n: usize) -> (r: NodeKind)
    requires
        n < tree@.len(),
    ensures
        r == kind_at(tree@, n),
{
    assert(tree.nodes@[n as int]@ == tree@[n as int]);
    node_kind_of(tree.nodes[n].kind.as_str())
}

/// Whether identifier `n` refers to a variable (see
/// `is_identifier_reference_spec`), read from the tree.
pub fn is_identifier_reference_node(tree: &SyntaxTree, n: usize) -> (b: bool)
    requires
        tree.wf(),
        n < tree@.len(),
        tree@[n as int].parent is Some,
    ensures
        b == is_identifier_reference_spec(
            kind_at(tree@, parent_of(tree@, n)),
            field_in_parent(tree@, n),
            field_child(tree@, tree@[parent_of(tree@, n) as int].children, "kind"@) is Some,
        ),
{
    assert(tree.nodes@[n as int]@ == tree@[n as int]);
    let p = match tree.nodes[n].parent {
        Some(p) => p,
        None => n,
    };
    let parent = kind_of_node(tree, p);
    let field = field_of_node(tree, n);
    let has_kind = tree.child_by_field_name(p, "kind").is_some();
    is_identifier_reference(parent, field, has_kind)
}

/// Whether node `n` is the value of a class field, read from the tree.
pub fn is_property_definition_value_node(tree: &SyntaxTree, n: usize) -> (b: bool)
    requires
        tree.wf(),
        n < tree@.len(),
    ensures
        b == is_property_definition_value_spec(parent_kind(tree@, n), field_in_parent(tree@, n)),
{
    assert(tree.nodes@[n as int]@ == tree@[n as int]);
    let parent = match tree.nodes[n].parent {
        Some(p) => Some(kind_of_node(tree, p)),
        None => None,
    };
    let field = field_of_node(tree, n);
    is_property_definition_value(parent, field)
}

/// Whether ancestor `a` is the expression statement that a `for` loop has
/// as its condition.
pub open spec fn is_for_condition_spec(t: Seq<NodeView>, a: usize) -> bool {
    match t[a as int].parent {
        Some(pp) => kind_at(t, pp) == NodeKind::ForStatement && field_child(t, t[pp as int].children, "condition"@)
            == Some(a),
        None => false,
    }
}

/// Whether node `n` is, its parentheses aside, the condition of `a`.
pub open spec fn is_condition_spec(t: Seq<NodeView>, a: usize, n: usize) -> bool {
    match field_child(t, t[a as int].children, "condition"@) {
        Some(c) => skip_spec(t, c, seq!["parenthesized_expression"@]) == n,
        None => false,
    }
}

/// Whether the value of node `n` decides which way the path forks, read
/// from the tree (see `is_forking_by_true_or_false_spec`).
pub open spec fn forking_spec(t: Seq<NodeView>, n: usize) -> bool {
    match next_non_parentheses_ancestor_spec(t, n) {
        Some(a) => is_forking_by_true_or_false_spec(
            kind_at(t, a),
            is_for_condition_spec(t, a),
            is_condition_spec(t, a, n),
            operator_of(t, a),
        ),
        None => false,
    }
}

/// The tree holds what deciding whether node `n` forks by its value reads:
/// an ancestor that is no parenthesized expression, with a condition or an
/// operator where its kind has one, and a parent where it is an expression
/// statement.
pub open spec fn forking_readable(t: Seq<NodeView>, n: usize) -> bool {
    match next_non_parentheses_ancestor_spec(t, n) {
        Some(a) => {
            let k = kind_at(t, a);
            &&& (k == NodeKind::TernaryExpression || k == NodeKind::IfStatement || k == NodeKind::WhileStatement
                || k == NodeKind::DoStatement || k == NodeKind::ForStatement) ==> field_child(
                t,
                t[a as int].children,
                "condition"@,
            ) is Some
            &&& (k == NodeKind::BinaryExpression || k == NodeKind::AugmentedAssignmentExpression) ==> field_child(
                t,
                t[a as int].children,
                "operator"@,
            ) is Some
            &&& k == NodeKind::ExpressionStatement ==> t[a as int].parent is Some
        },
        None => false,
    }
}

/// Whether the value of node `n` decides which way the path forks (see
/// `forking_spec`).
pub fn is_forking_by_true_or_false_node(tree: &SyntaxTree, n: usize) -> (b: bool)
    requires
        tree.wf(),
        n < tree@.len(),
        forking_readable(tree@, n),
    ensures
        b == forking_spec(tree@, n),
{
    let a = match tree.maybe_next_non_parentheses_ancestor(n) {
        Some(a) => a,
        None => n,
    };
    let kind = kind_of_node(tree, a);
    assert(tree.nodes@[a as int]@ == tree@[a as int]);
    let is_for_condition = match tree.nodes[a].parent {
        Some(pp) => {
            assert(tree.nodes@[pp as int]@ == tree@[pp as int]);
            kind_of_node(tree, pp) == NodeKind::ForStatement && tree.child_by_field_name(pp, "condition") == Some(a)
        },
        None => false,
    };
    proof {
        lemma_field_child_in(tree@, a, "condition"@);
    }
    let is_condition = match tree.child_by_field_name(a, "condition") {
        Some(c) => tree.skip_parenthesized_expressions(c) == n,
        None => false,
    };
    let operator = operator_of_node(tree, a);
    is_forking_by_true_or_false(kind, is_for_condition, is_condition, operator.as_str())
}

/// The text of the operator of node `n`, where it has one (empty where it
/// has none).
pub open spec fn operator_text_of(t: Seq<NodeView>, n: usize) -> Seq<char> {
    match field_child(t, t[n as int].children, "operator"@) {
        Some(o) => t[o as int].text,
        None => Seq::empty(),
    }
}

fn operator_text_of_node(tree: &SyntaxTree, n: usize) -> (r: String)
    requires
        tree.wf(),
        n < tree@.len(),
    ensures
        r@ == operator_text_of(tree@, n),
{
    proof {
        lemma_field_child_in(tree@, n, "operator"@);
    }
    match tree.child_by_field_name(n, "operator") {
        Some(o) => {
            assert(tree.nodes@[o as int]@ == tree@[o as int]);
            tree.nodes[o].text.clone()
        },
        None => String::new(),
    }
}

/// The operator the analysis reads of node `n`: the kind of the operator of
/// a binary expression, the text of that of an assignment.
pub open spec fn operator_read(t: Seq<NodeView>, n: usize) -> Seq<char> {
    if kind_at(t, n) == NodeKind::BinaryExpression {
        operator_of(t, n)
    } else if kind_at(t, n) == NodeKind::AugmentedAssignmentExpression {
        operator_text_of(t, n)
    } else {
        Seq::empty()
    }
}

fn operator_read_of_node(tree: &SyntaxTree, n: usize, kind: NodeKind) -> (r: String)
    requires
        tree.wf(),
        n < tree@.len(),
        kind == kind_at(tree@, n),
    ensures
        r@ == operator_read(tree@, n),
{
    if kind == NodeKind::BinaryExpression {
        operator_of_node(tree, n)
    } else if kind == NodeKind::AugmentedAssignmentExpression {
        operator_text_of_node(tree, n)
    } else {
        String::new()
    }
}

/// Whether the body of switch statement `n` has a `case`.
pub open spec fn has_switch_case(t: Seq<NodeView>, n: usize) -> bool {
    match field_child(t, t[n as int].children, "body"@) {
        Some(b) => exists|k: int| 0 <= k < t[b as int].children.len() && t[#[trigger] t[b as int].children[k] as int].kind == "switch_case"@,
        None => false,
    }
}

/// Whether node `n` is the first named child of its parent that is no
/// comment.
pub open spec fn is_first_child_spec(t: Seq<NodeView>, n: usize) -> bool {
    match t[n as int].parent {
        Some(p) => first_of(named_non_comment(t, t[p as int].children)) == Some(n),
        None => false,
    }
}

/// Whether node `n` is the outermost link of an optional chain.
pub open spec fn is_outermost_chain_spec(t: Seq<NodeView>, n: usize) -> bool {
    is_chain_spec(t, n) && match t[n as int].parent {
        Some(p) => !is_chain_spec(t, p),
        None => true,
    }
}

/// The tree holds what entering node `n` reads: a parent for a link of a
/// chain or a case, an operator for a binary expression or an assignment
/// (and what deciding its fork reads, where it is logical), a body for a
/// switch statement or a labelled statement.
pub open spec fn enter_readable(t: Seq<NodeView>, n: usize) -> bool {
    let k = kind_at(t, n);
    &&& (k == NodeKind::CallExpression || k == NodeKind::MemberExpression || k == NodeKind::SubscriptExpression
        || k == NodeKind::SwitchCase || k == NodeKind::SwitchDefault) ==> t[n as int].parent is Some
    &&& (k == NodeKind::BinaryExpression || k == NodeKind::AugmentedAssignmentExpression) ==> field_child(
        t,
        t[n as int].children,
        "operator"@,
    ) is Some
    &&& (k == NodeKind::BinaryExpression && is_handled_logical_operator_spec(operator_read(t, n))) ==> forking_readable(t, n)
    &&& (k == NodeKind::AugmentedAssignmentExpression && is_logical_assignment_operator_spec(operator_read(t, n)))
        ==> forking_readable(t, n)
    &&& k == NodeKind::SwitchStatement ==> field_child(t, t[n as int].children, "body"@) is Some
    &&& k == NodeKind::LabeledStatement ==> field_child(t, t[n as int].children, "body"@) is Some
}

fn has_switch_case_node(tree: &SyntaxTree, n: usize) -> (b: bool)
    requires
        tree.wf(),
        n < tree@.len(),
    ensures
        b == has_switch_case(tree@, n),
{
    proof {
        lemma_field_child_in(tree@, n, "body"@);
    }
    match tree.child_by_field_name(n, "body") {
        Some(body) => {
            assert(tree.nodes@[body as int]@ == tree@[body as int]);
            let children = &tree.nodes[body].children;
            let mut i: usize = 0;
            while i < children.len()
                invariant
                    tree.wf(),
                    (n as int) < tree@.len(),
                    field_child(tree@, tree@[n as int].children, "body"@) == Some(body),
                    (body as int) < tree@.len(),
                    children@ == tree@[body as int].children,
                    i <= children@.len(),
                    forall|k: int| 0 <= k < i ==> tree@[#[trigger] children@[k] as int].kind != "switch_case"@,
                decreases children.len() - i,
            {
                assert(body < children@[i as int] < tree@.len());
                if tree.kind_is(children[i], "switch_case") {
                    assert(tree@[tree@[body as int].children[i as int] as int].kind == "switch_case"@);
                    return true;
                }
                i = i + 1;
            }
            false
        },
        None => false,
    }
}

/// A statement that `break` can leave without a label: a loop or a
/// `switch`.
pub open spec fn is_breakable_kind(k: Seq<char>) -> bool {
    k == "do_statement"@ || k == "while_statement"@ || k == "for_statement"@ || k == "for_in_statement"@ || k
        == "switch_statement"@
}

/// The body of node `n` (a labelled statement) is a statement that `break`
/// can leave.
pub open spec fn body_is_breakable_spec(t: Seq<NodeView>, n: usize) -> bool {
    match field_child(t, t[n as int].children, "body"@) {
        Some(b) => is_breakable_kind(t[b as int].kind),
        None => false,
    }
}

fn body_is_breakable_node(tree: &SyntaxTree, n: usize) -> (b: bool)
    requires
        tree.wf(),
        n < tree@.len(),
    ensures
        b == body_is_breakable_spec(tree@, n),
{
    match tree.child_by_field_name(n, "body") {
        Some(body) => tree.kind_is(body, "do_statement") || tree.kind_is(body, "while_statement") || tree.kind_is(
            body,
            "for_statement",
        ) || tree.kind_is(body, "for_in_statement") || tree.kind_is(body, "switch_statement"),
        None => false,
    }
}

/// The steps for entering node `n` of `t`, the facts read from the tree
/// (see `enter_action_spec`).
pub open spec fn enter_plan_at(t: Seq<NodeView>, n: usize) -> EnterPlan {
    EnterPlan {
        start_field_initializer: is_property_definition_value_spec(parent_kind(t, n), field_in_parent(t, n)),
        action: enter_action_spec(
            kind_at(t, n),
            is_outermost_chain_spec(t, n),
            field_child(t, t[n as int].children, "optional_chain"@) is Some,
            operator_read(t, n),
            forking_spec(t, n),
            has_switch_case(t, n),
            field_child(t, t[n as int].children, "finalizer"@) is Some,
            is_first_child_spec(t, n),
            body_is_breakable_spec(t, n),
        ),
    }
}

/// The steps for leaving node `n` of `t`, the facts read from the tree (see
/// `exit_plan_spec`).
pub open spec fn exit_plan_at(t: Seq<NodeView>, n: usize) -> ExitPlan {
    exit_plan_spec(
        kind_at(t, n),
        operator_read(t, n),
        field_child(t, t[n as int].children, "body"@) is Some,
        is_reference_spec(t, n),
        is_outermost_chain_spec(t, n),
        body_is_breakable_spec(t, n),
    )
}

/// The steps after leaving node `n` of `t`, the facts read from the tree
/// (see `postprocess_spec`).
pub open spec fn postprocess_at(t: Seq<NodeView>, n: usize) -> PostprocessPlan {
    postprocess_spec(
        kind_at(t, n),
        field_child(t, t[n as int].children, "optional_chain"@) is Some,
        num_arguments_spec(t, n),
        is_property_definition_value_spec(parent_kind(t, n), field_in_parent(t, n)),
    )
}

/// The steps taken on entering node `n` of `tree` (see
/// `process_code_path_to_enter`), the facts read from the tree.
pub fn enter_node(tree: &SyntaxTree, n: usize) -> (r: EnterPlan)
    requires
        tree.wf(),
        n < tree@.len(),
        enter_readable(tree@, n),
    ensures
        r == enter_plan_at(tree@, n),
{
    let body_is_breakable = body_is_breakable_node(tree, n);
    assert(tree.nodes@[n as int]@ == tree@[n as int]);
    let kind = kind_of_node(tree, n);
    let in_field_initializer = is_property_definition_value_node(tree, n);
    let is_link = kind == NodeKind::CallExpression || kind == NodeKind::MemberExpression || kind
        == NodeKind::SubscriptExpression;
    let is_outermost_chain = if is_link {
        tree.is_chain_expression(n) && match tree.nodes[n].parent {
            Some(p) => !tree.is_chain_expression(p),
            None => true,
        }
    } else {
        false
    };
    let optional_chain = tree.child_by_field_name(n, "optional_chain").is_some();
    let operator = operator_read_of_node(tree, n, kind);
    let forks = (kind == NodeKind::BinaryExpression && crate::analyzer::is_handled_logical_operator_str(operator.as_str()))
        || (kind == NodeKind::AugmentedAssignmentExpression && crate::analyzer::is_logical_assignment_operator(
        operator.as_str(),
    ));
    let forking_as_result = if forks {
        is_forking_by_true_or_false_node(tree, n)
    } else {
        false
    };
    let has_case = if kind == NodeKind::SwitchStatement {
        has_switch_case_node(tree, n)
    } else {
        false
    };
    let has_finalizer = tree.child_by_field_name(n, "finalizer").is_some();
    let is_first_child = if kind == NodeKind::SwitchCase || kind == NodeKind::SwitchDefault {
        match tree.nodes[n].parent {
            Some(p) => {
                let cs = tree.non_comment_named_children(p);
                cs.len() > 0 && cs[0] == n
            },
            None => false,
        }
    } else {
        false
    };
    process_code_path_to_enter(
        kind,
        in_field_initializer,
        is_outermost_chain,
        optional_chain,
        operator.as_str(),
        forking_as_result,
        has_case,
        has_finalizer,
        is_first_child,
        body_is_breakable,
    )
}

/// The tree holds what leaving node `n` reads: a parent for an identifier
/// and for a link of a chain, an operator for a binary expression or an
/// assignment, a body for a labelled statement.
pub open spec fn exit_readable(t: Seq<NodeView>, n: usize) -> bool {
    let k = kind_at(t, n);
    &&& (k == NodeKind::Identifier || k == NodeKind::PropertyIdentifier || k == NodeKind::ShorthandPropertyIdentifier
        || k == NodeKind::CallExpression || k == NodeKind::MemberExpression || k == NodeKind::SubscriptExpression)
        ==> t[n as int].parent is Some
    &&& (k == NodeKind::BinaryExpression || k == NodeKind::AugmentedAssignmentExpression) ==> field_child(
        t,
        t[n as int].children,
        "operator"@,
    ) is Some
    &&& k == NodeKind::LabeledStatement ==> field_child(t, t[n as int].children, "body"@) is Some
}

/// Whether identifier `n` refers to a variable, read from the tree (false
/// where it has no parent).
pub open spec fn is_reference_spec(t: Seq<NodeView>, n: usize) -> bool {
    match t[n as int].parent {
        Some(p) => is_identifier_reference_spec(
            kind_at(t, p),
            field_in_parent(t, n),
            field_child(t, t[p as int].children, "kind"@) is Some,
        ),
        None => false,
    }
}

/// The steps taken on leaving node `n` of `tree` (see
/// `process_code_path_to_exit`), the facts read from the tree.
pub fn exit_node(tree: &SyntaxTree, n: usize) -> (r: ExitPlan)
    requires
        tree.wf(),
        n < tree@.len(),
        exit_readable(tree@, n),
    ensures
        r == exit_plan_at(tree@, n),
{
    let body_is_breakable = body_is_breakable_node(tree, n);
    assert(tree.nodes@[n as int]@ == tree@[n as int]);
    let kind = kind_of_node(tree, n);
    let operator = operator_read_of_node(tree, n, kind);
    let has_body = tree.child_by_field_name(n, "body").is_some();
    let is_reference = if kind == NodeKind::Identifier || kind == NodeKind::PropertyIdentifier || kind
        == NodeKind::ShorthandPropertyIdentifier {
        is_identifier_reference_node(tree, n)
    } else {
        false
    };
    let is_outermost_chain = if kind == NodeKind::CallExpression || kind == NodeKind::MemberExpression || kind
        == NodeKind::SubscriptExpression {
        tree.is_chain_expression(n) && match tree.nodes[n].parent {
            Some(p) => !tree.is_chain_expression(p),
            None => true,
        }
    } else {
        false
    };
    process_code_path_to_exit(kind, operator.as_str(), has_body, is_reference, is_outermost_chain, body_is_breakable)
}


/// How many arguments call `n` has, where it is a call with a list of
/// arguments.
pub open spec fn num_arguments_spec(t: Seq<NodeView>, n: usize) -> Option<usize> {
    if kind_at(t, n) == NodeKind::CallExpression {
        match call_arguments_spec(t, n) {
            Some(v) => Some(v.len() as usize),
            None => None,
        }
    } else {
        None
    }
}

/// The steps taken after leaving node `n` of `tree` (see `postprocess`),
/// the facts read from the tree.
pub fn postprocess_node(tree: &SyntaxTree, n: usize) -> (r: PostprocessPlan)
    requires
        tree.wf(),
        n < tree@.len(),
        kind_at(tree@, n) == NodeKind::CallExpression ==> call_arguments_ok(tree@, n),
    ensures
        r == postprocess_at(tree@, n),
{
    let kind = kind_of_node(tree, n);
    let optional_chain = tree.child_by_field_name(n, "optional_chain").is_some();
    let num_arguments = if kind == NodeKind::CallExpression {
        tree.get_num_call_expression_arguments(n)
    } else {
        None
    };
    let in_field_initializer = is_property_definition_value_node(tree, n);
    postprocess(kind, optional_chain, num_arguments, in_field_initializer)
}


proof fn lemma_no_chain_kinds()
    ensures
        "new_expression"@ != "call_expression"@,
        "new_expression"@ != "member_expression"@,
        "new_expression"@ != "subscript_expression"@,
        "yield_expression"@ != "call_expression"@,
        "yield_expression"@ != "member_expression"@,
        "yield_expression"@ != "subscript_expression"@,
{
    reveal_strlit("new_expression");
    reveal_strlit("yield_expression");
    reveal_strlit("call_expression");
    reveal_strlit("member_expression");
    reveal_strlit("subscript_expression");
    assert("new_expression"@[0] != "call_expression"@[0]);
    assert("new_expression"@[0] != "member_expression"@[0]);
    assert("new_expression"@[0] != "subscript_expression"@[0]);
    assert("yield_expression"@[0] != "call_expression"@[0]);
    assert("yield_expression"@[0] != "member_expression"@[0]);
    assert("yield_expression"@[0] != "subscript_expression"@[0]);
}

/// What the analysis opens on entering a node it closes on leaving that
/// node: a choice, a switch, a `try`, a loop, a break context or a chain
/// context is pushed on entry exactly when it is popped on exit, and a code
/// path (a class field's value's too) starts on entry exactly when it ends
/// after the exit.
pub proof fn lemma_enter_and_leave_balance(t: Seq<NodeView>, n: usize)
    requires
        tree_wf(t),
        n < t.len(),
    ensures
        ({
            let enter = enter_plan_at(t, n);
            let exit = exit_plan_at(t, n).action;
            let post = postprocess_at(t, n);
            &&& (enter.action is PushChoice) == (exit == ExitAction::PopChoice)
            &&& (enter.action is PushSwitch) == (exit == ExitAction::PopSwitch)
            &&& (enter.action is PushTry) == (exit == ExitAction::PopTry)
            &&& (enter.action == EnterAction::PushLoop) == (exit == ExitAction::PopLoop)
            &&& (enter.action == EnterAction::PushBreak) == (exit == ExitAction::PopBreak)
            &&& (enter.action matches EnterAction::Chain { push_chain_context: true, .. }) == (exit
                == ExitAction::MakeFirstThrowable { pop_chain_context: true })
            &&& (enter.action is StartCodePath) == post.end_code_path
            &&& enter.start_field_initializer == post.end_field_initializer
        }),
{
    let k = kind_at(t, n);
    if k == NodeKind::NewExpression || k == NodeKind::YieldExpression {
        lemma_no_chain_kinds();
        assert(!is_chain_spec(t, n));
    }
}

} // verus!
