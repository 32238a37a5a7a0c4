use eslint_builtin::syntax_tree::{SyntaxNode, SyntaxTree};
use eslint_builtin::analyzer::walk::{code_path_steps, CodePathStep};
use eslint_builtin::code_path::CodePathOrigin;
use eslint_builtin::code_path_analyzer::CodePathAnalyzer;
use eslint_builtin::rules::accessor_pairs::{check_property_descriptor, property_descriptor_names, Missing};
use eslint_builtin::rules::consistent_return::{return_argument_of, ReturnArgument};
use eslint_builtin::rules::getter_return::{function_facts_of, is_getter, Enclosing, Placement};
use eslint_builtin::rules::max_nested_callbacks::{MaxNestedCallbacks, Options as NestedOptions, OptionsObject as NestedOptionsObject};
use eslint_builtin::analyzer::node_facts::{enter_node, exit_node, field_of_node, is_forking_by_true_or_false_node, is_identifier_reference_node, is_property_definition_value_node, node_kind_of, postprocess_node, preprocess_node, test_constant_of};
use eslint_builtin::analyzer::{ChoiceKind, EnterAction, ExitAction, Field, NodeKind, PreprocessAction};
use eslint_builtin::rules::max_statements::{MaxStatements, Options as MaxStatementsOptions};
use eslint_builtin::all_comments::AllComments;
use eslint_builtin::rules::for_direction::check_for_statement;
use eslint_builtin::rules::guard_for_in::{check_for_in_statement, for_in_body, Consequence, ForInBody};
use eslint_builtin::rules::default_case::{DefaultCase, Options as DefaultCaseOptions};

struct Builder {
    nodes: Vec<SyntaxNode>,
}

impl Builder {
    fn new() -> Self {
        Builder { nodes: Vec::new() }
    }

    fn add(&mut self, parent: Option<usize>, field: Option<&str>, kind: &str, named: bool, text: &str) -> usize {
        let id = self.nodes.len();
        self.nodes.push(SyntaxNode {
            kind: kind.to_owned(),
            is_named: named,
            parent,
            field: field.map(|f| f.to_owned()),
            children: Vec::new(),
            text: text.to_owned(),
            start: 0,
        });
        if let Some(p) = parent {
            self.nodes[p].children.push(id);
        }
        id
    }

    fn named(&mut self, parent: usize, field: Option<&str>, kind: &str, text: &str) -> usize {
        self.add(Some(parent), field, kind, true, text)
    }

    fn token(&mut self, parent: usize, field: Option<&str>, text: &str) -> usize {
        self.add(Some(parent), field, text, false, text)
    }

    fn place(&mut self, node: usize, start: usize) {
        self.nodes[node].start = start;
    }

    fn build(self) -> SyntaxTree {
        SyntaxTree { nodes: self.nodes }
    }
}

#[test]
fn optional_chains() {
    // x?.y.z()
    let mut b = Builder::new();
    let stmt = b.add(None, None, "expression_statement", true, "x?.y.z();");
    let call = b.named(stmt, None, "call_expression", "x?.y.z()");
    let outer = b.named(call, Some("function"), "member_expression", "x?.y.z");
    let inner = b.named(outer, Some("object"), "member_expression", "x?.y");
    b.named(inner, Some("object"), "identifier", "x");
    b.token(inner, Some("optional_chain"), "?.");
    b.named(inner, Some("property"), "property_identifier", "y");
    b.token(outer, None, ".");
    b.named(outer, Some("property"), "property_identifier", "z");
    b.named(call, Some("arguments"), "arguments", "()");
    let t = b.build();
    assert!(t.is_chain_expression(call));
    assert!(t.is_chain_expression(inner));
    assert!(!t.is_chain_expression(stmt));
    assert!(t.is_outermost_chain_expression(call));
    assert!(!t.is_outermost_chain_expression(outer));
    assert_eq!(t.get_num_call_expression_arguments(call), Some(0));
}

#[test]
fn plain_member_access_is_no_chain() {
    let mut b = Builder::new();
    let member = b.add(None, None, "member_expression", true, "a.b");
    b.named(member, Some("object"), "identifier", "a");
    b.token(member, None, ".");
    b.named(member, Some("property"), "property_identifier", "b");
    let t = b.build();
    assert!(!t.is_chain_expression(member));
    assert_eq!(t.child_by_field_name(member, "property"), Some(3));
    assert_eq!(t.child_by_field_name(member, "optional_chain"), None);
}

#[test]
fn logical_binary_expressions() {
    let mut b = Builder::new();
    let root = b.add(None, None, "program", true, "a ?? b; a && b; a + b;");
    let mut exprs = Vec::new();
    for op in ["??", "&&", "+"] {
        let e = b.named(root, None, "binary_expression", "");
        b.named(e, Some("left"), "identifier", "a");
        b.token(e, Some("operator"), op);
        b.named(e, Some("right"), "identifier", "b");
        exprs.push(e);
    }
    let t = b.build();
    assert!(t.is_logical_expression(exprs[0]));
    assert!(!t.is_logical_and(exprs[0]));
    assert!(t.is_logical_expression(exprs[1]));
    assert!(t.is_logical_and(exprs[1]));
    assert!(!t.is_logical_expression(exprs[2]));
    assert!(!t.is_logical_and(exprs[2]));
    assert!(!t.is_logical_expression(root));
}

#[test]
fn parentheses_are_skipped_both_ways() {
    // f(((x)))
    let mut b = Builder::new();
    let args = b.add(None, None, "arguments", true, "(((x)))");
    b.token(args, None, "(");
    let p1 = b.named(args, None, "parenthesized_expression", "((x))");
    b.token(p1, None, "(");
    let p2 = b.named(p1, None, "parenthesized_expression", "(x)");
    b.token(p2, None, "(");
    let x = b.named(p2, None, "identifier", "x");
    b.token(p2, None, ")");
    b.token(p1, None, ")");
    b.token(args, None, ")");
    let t = b.build();
    assert_eq!(t.skip_parenthesized_expressions(p1), x);
    assert_eq!(t.skip_parenthesized_expressions(x), x);
    let once = t.skip_parenthesized_expressions(p1);
    assert_eq!(t.skip_parenthesized_expressions(once), once);
    assert_eq!(t.skip_nodes_of_type(p1, "parenthesized_expression"), x);
    assert_eq!(t.skip_nodes_of_types(p1, &vec!["arguments".to_owned()]), p1);
    assert_eq!(
        t.skip_nodes_of_types(args, &vec!["arguments".to_owned(), "parenthesized_expression".to_owned()]),
        x
    );
    assert_eq!(t.maybe_next_non_parentheses_ancestor(x), Some(args));
    assert_eq!(t.maybe_next_non_parentheses_ancestor(args), None);
    assert!(t.kind_is(p2, "parenthesized_expression"));
    assert!(!t.kind_is(x, "parenthesized_expression"));
}

#[test]
fn comments_among_children() {
    // { /* a */ x; // b
    //   y; }
    let mut b = Builder::new();
    let block = b.add(None, None, "statement_block", true, "");
    let open = b.token(block, None, "{");
    let c1 = b.named(block, None, "comment", "/* a */");
    let x = b.named(block, None, "expression_statement", "x;");
    let c2 = b.named(block, None, "comment", "// b");
    let y = b.named(block, None, "expression_statement", "y;");
    let close = b.token(block, None, "}");
    let t = b.build();
    assert_eq!(t.non_comment_named_children(block), vec![x, y]);
    assert_eq!(t.non_comment_children(block), vec![open, x, y, close]);
    assert_eq!(t.maybe_get_first_non_comment_child(block), Some(open));
    assert_eq!(t.maybe_get_first_non_comment_child(x), None);
    assert_eq!(t.maybe_get_prev_non_comment_sibling(y), Some(x));
    assert_eq!(t.maybe_get_prev_non_comment_sibling(x), Some(open));
    assert_eq!(t.maybe_get_prev_non_comment_sibling(open), None);
    assert_eq!(t.maybe_get_prev_non_comment_sibling(block), None);
    assert_eq!(t.get_first_child_of_kind(block, "expression_statement"), Some(x));
    assert_eq!(t.get_first_child_of_kind(block, "{"), None);
    assert!(t.is_block_comment(c1) && !t.is_line_comment(c1));
    assert!(t.is_line_comment(c2) && !t.is_block_comment(c2));
    assert!(!t.is_line_comment(x));
    assert_eq!(t.comment_contents(c1), " a ");
    assert_eq!(t.comment_contents(c2), " b");
}

#[test]
fn call_arguments_and_tagged_templates() {
    let mut b = Builder::new();
    let root = b.add(None, None, "program", true, "f(a, /* c */ b); g`x`;");
    let call = b.named(root, None, "call_expression", "f(a, /* c */ b)");
    b.named(call, Some("function"), "identifier", "f");
    let args = b.named(call, Some("arguments"), "arguments", "(a, /* c */ b)");
    b.token(args, None, "(");
    let a = b.named(args, None, "identifier", "a");
    b.token(args, None, ",");
    b.named(args, None, "comment", "/* c */");
    let bb = b.named(args, None, "identifier", "b");
    b.token(args, None, ")");
    let tagged = b.named(root, None, "call_expression", "g`x`");
    b.named(tagged, Some("function"), "identifier", "g");
    b.named(tagged, Some("arguments"), "template_string", "`x`");
    let t = b.build();
    assert_eq!(t.get_call_expression_arguments(call), Some(vec![a, bb]));
    assert_eq!(t.get_num_call_expression_arguments(call), Some(2));
    assert_eq!(t.get_call_expression_arguments(tagged), None);
    assert_eq!(t.get_num_call_expression_arguments(tagged), None);
    assert!(!t.is_tagged_template_expression(call));
    assert!(t.is_tagged_template_expression(tagged));
    assert!(!t.is_tagged_template_expression(root));
    assert!(t.is_first_call_expression_argument(a, call));
    assert!(!t.is_first_call_expression_argument(bb, call));
    assert!(!t.is_first_call_expression_argument(a, tagged));
}

#[test]
fn for_of_loops() {
    let mut b = Builder::new();
    let root = b.add(None, None, "program", true, "");
    let mut loops = Vec::new();
    for (awaits, op) in [(true, "of"), (false, "of"), (false, "in")] {
        let l = b.named(root, None, "for_in_statement", "");
        b.token(l, None, "for");
        if awaits {
            b.token(l, None, "await");
        }
        b.token(l, None, "(");
        b.named(l, Some("left"), "identifier", "x");
        b.token(l, Some("operator"), op);
        b.named(l, Some("right"), "identifier", "xs");
        b.token(l, None, ")");
        b.named(l, Some("body"), "statement_block", "{}");
        loops.push(l);
    }
    let t = b.build();
    assert!(t.is_for_of(loops[0]) && t.is_for_of_await(loops[0]));
    assert!(t.is_for_of(loops[1]) && !t.is_for_of_await(loops[1]));
    assert!(!t.is_for_of(loops[2]) && !t.is_for_of_await(loops[2]));
    assert!(!t.is_for_of(root));
}

#[test]
fn last_expression_of_a_sequence() {
    // a, b, c
    let mut b = Builder::new();
    let outer = b.add(None, None, "sequence_expression", true, "a, b, c");
    b.named(outer, Some("left"), "identifier", "a");
    b.token(outer, None, ",");
    let inner = b.named(outer, Some("right"), "sequence_expression", "b, c");
    b.named(inner, Some("left"), "identifier", "b");
    b.token(inner, None, ",");
    let c = b.named(inner, Some("right"), "identifier", "c");
    let t = b.build();
    assert_eq!(t.get_last_expression_of_sequence_expression(outer), c);
    assert_eq!(t.get_last_expression_of_sequence_expression(c), c);
}

#[test]
fn generator_methods_and_update_expressions() {
    let mut b = Builder::new();
    let root = b.add(None, None, "class_body", true, "");
    let generator = b.named(root, None, "method_definition", "*gen() {}");
    b.token(generator, None, "*");
    b.named(generator, Some("name"), "property_identifier", "gen");
    b.named(generator, Some("parameters"), "formal_parameters", "()");
    let getter = b.named(root, None, "method_definition", "get x() {}");
    b.token(getter, None, "get");
    b.named(getter, Some("name"), "property_identifier", "x");
    b.named(getter, Some("parameters"), "formal_parameters", "()");
    let postfix = b.named(root, None, "update_expression", "i++");
    b.named(postfix, Some("argument"), "identifier", "i");
    b.token(postfix, Some("operator"), "++");
    let prefix = b.named(root, None, "update_expression", "++i");
    b.token(prefix, Some("operator"), "++");
    b.named(prefix, Some("argument"), "identifier", "i");
    let t = b.build();
    assert!(t.is_generator_method_definition(generator));
    assert!(!t.is_generator_method_definition(getter));
    assert!(t.is_postfix_update_expression(postfix));
    assert!(!t.is_postfix_update_expression(prefix));
    assert!(!t.is_postfix_update_expression(generator));
}

#[test]
fn directives() {
    let mut b = Builder::new();
    let root = b.add(None, None, "program", true, "");
    let directive = b.named(root, None, "expression_statement", "'use strict';");
    b.named(directive, None, "string", "'use strict'");
    b.token(directive, None, ";");
    let other = b.named(root, None, "expression_statement", "x;");
    b.named(other, None, "identifier", "x");
    let t = b.build();
    assert_eq!(t.maybe_get_directive(directive), Some("'use strict'".to_owned()));
    assert_eq!(t.maybe_get_directive(other), None);
    assert_eq!(t.maybe_get_directive(root), None);
}

#[test]
fn imports_and_exports() {
    // import React, { a, b } from "react"; export default x;
    let mut b = Builder::new();
    let root = b.add(None, None, "program", true, "");
    let import = b.named(root, None, "import_statement", "");
    b.token(import, None, "import");
    let clause = b.named(import, None, "import_clause", "React, { a, b }");
    let react = b.named(clause, None, "identifier", "React");
    b.token(clause, None, ",");
    let named = b.named(clause, None, "named_imports", "{ a, b }");
    b.token(named, None, "{");
    b.named(named, None, "import_specifier", "a");
    b.token(named, None, ",");
    b.named(named, None, "import_specifier", "b");
    b.token(named, None, "}");
    b.token(import, None, "from");
    b.named(import, Some("source"), "string", "\"react\"");
    let only_named = b.named(root, None, "import_statement", "");
    b.token(only_named, None, "import");
    let clause2 = b.named(only_named, None, "import_clause", "* as ns");
    let ns = b.named(clause2, None, "namespace_import", "* as ns");
    b.token(only_named, None, "from");
    b.named(only_named, Some("source"), "string", "\"m\"");
    let export = b.named(root, None, "export_statement", "export default x;");
    b.token(export, None, "export");
    b.token(export, None, "default");
    b.named(export, Some("value"), "identifier", "x");
    let plain_export = b.named(root, None, "export_statement", "export const y = 1;");
    b.token(plain_export, None, "export");
    b.named(plain_export, Some("declaration"), "lexical_declaration", "const y = 1;");
    let t = b.build();
    assert!(t.is_default_import(react));
    assert!(!t.is_default_import(ns));
    assert!(t.is_default_import_declaration(import));
    assert!(!t.is_default_import_declaration(only_named));
    assert_eq!(t.get_num_import_specifiers(clause), 3);
    assert_eq!(t.get_num_import_specifiers(clause2), 1);
    assert!(t.is_export_default(export));
    assert!(!t.is_export_default(plain_export));
    assert!(!t.is_export_default(import));
}

#[test]
fn object_property_keys() {
    let mut b = Builder::new();
    let object = b.add(None, None, "object", true, "");
    let pair = b.named(object, None, "pair", "[k]: 1");
    let key = b.named(pair, Some("key"), "computed_property_name", "[k]");
    b.token(pair, None, ":");
    b.named(pair, Some("value"), "number", "1");
    let method = b.named(object, None, "method_definition", "m() {}");
    let name = b.named(method, Some("name"), "property_identifier", "m");
    let short = b.named(object, None, "shorthand_property_identifier", "s");
    let t = b.build();
    assert_eq!(t.get_object_property_key(pair), key);
    assert_eq!(t.get_object_property_key(method), name);
    assert_eq!(t.get_object_property_key(short), short);
    assert_eq!(t.get_object_property_computed_property_name(pair), Some(key));
    assert_eq!(t.get_object_property_computed_property_name(method), None);
    assert_eq!(t.get_object_property_computed_property_name(short), None);
}

#[test]
fn jsx_names_and_templates() {
    let mut b = Builder::new();
    let root = b.add(None, None, "program", true, "");
    let opening = b.named(root, None, "jsx_opening_element", "<div>");
    b.token(opening, None, "<");
    let tag = b.named(opening, Some("name"), "identifier", "div");
    b.token(opening, None, ">");
    let simple = b.named(root, None, "template_string", "`a`");
    b.token(simple, None, "`");
    b.named(simple, None, "string_fragment", "a");
    b.token(simple, None, "`");
    let substituted = b.named(root, None, "template_string", "`${a}`");
    b.token(substituted, None, "`");
    b.named(substituted, None, "template_substitution", "${a}");
    b.token(substituted, None, "`");
    let t = b.build();
    assert!(t.is_jsx_tag_name(tag));
    assert!(!t.is_jsx_tag_name(opening));
    assert!(t.is_simple_template_literal(simple));
    assert!(!t.is_simple_template_literal(substituted));
    assert!(!t.is_simple_template_literal(root));
}

#[test]
fn function_parameters() {
    let mut b = Builder::new();
    let root = b.add(None, None, "program", true, "");
    let arrow = b.named(root, None, "arrow_function", "x => x");
    let x = b.named(arrow, Some("parameter"), "identifier", "x");
    b.token(arrow, None, "=>");
    b.named(arrow, Some("body"), "identifier", "x");
    let function = b.named(root, None, "function_declaration", "function f(a, b) {}");
    b.token(function, None, "function");
    b.named(function, Some("name"), "identifier", "f");
    let params = b.named(function, Some("parameters"), "formal_parameters", "(a, b)");
    b.token(params, None, "(");
    let a = b.named(params, None, "identifier", "a");
    b.token(params, None, ",");
    let bb = b.named(params, None, "identifier", "b");
    b.token(params, None, ")");
    b.named(function, Some("body"), "statement_block", "{}");
    let t = b.build();
    assert_eq!(t.get_function_params(arrow), vec![x]);
    assert_eq!(t.get_function_params(function), vec![a, bb]);
}

#[test]
fn template_string_chunks() {
    // `a${b}c` starting at 10, and `\n` starting at 0
    let mut b = Builder::new();
    let root = b.add(None, None, "program", true, "");
    let template = b.named(root, None, "template_string", "`a${b}c`");
    b.place(template, 10);
    let open = b.token(template, None, "`");
    b.place(open, 10);
    let sub = b.named(template, None, "template_substitution", "${b}");
    b.place(sub, 12);
    let close = b.token(template, None, "`");
    b.place(close, 17);
    let escaped = b.named(root, None, "template_string", "`\\n`");
    b.token(escaped, None, "`");
    let esc = b.named(escaped, None, "escape_sequence", "\\n");
    b.place(esc, 1);
    let close2 = b.token(escaped, None, "`");
    b.place(close2, 3);
    let t = b.build();
    assert_eq!(
        t.get_template_string_chunks(template),
        vec![("a".to_owned(), 11), ("c".to_owned(), 16)]
    );
    assert_eq!(t.get_template_string_chunks(escaped), vec![("\\n".to_owned(), 1)]);
}

#[test]
fn single_matching_arguments_and_unwrapping_lookups() {
    let mut b = Builder::new();
    let root = b.add(None, None, "program", true, "");
    let one = b.named(root, None, "call_expression", "f(x)");
    b.named(one, Some("function"), "identifier", "f");
    let args1 = b.named(one, Some("arguments"), "arguments", "(x)");
    let open = b.token(args1, None, "(");
    let x = b.named(args1, None, "identifier", "x");
    b.named(args1, None, "comment", "/* c */");
    let close = b.token(args1, None, ")");
    let two = b.named(root, None, "call_expression", "g(x, y)");
    b.named(two, Some("function"), "identifier", "g");
    let args2 = b.named(two, Some("arguments"), "arguments", "(x, y)");
    b.named(args2, None, "identifier", "x");
    b.named(args2, None, "identifier", "y");
    let none = b.named(root, None, "new_expression", "new C");
    b.named(none, Some("constructor"), "identifier", "C");
    let t = b.build();
    assert!(t.call_expression_has_single_matching_argument(one, |a| a == x));
    assert!(!t.call_expression_has_single_matching_argument(one, |a| a != x));
    assert!(!t.call_expression_has_single_matching_argument(two, |_| true));
    assert!(!t.call_expression_has_single_matching_argument(none, |_| true));
    assert_eq!(t.get_first_non_comment_child(args1), open);
    assert_eq!(t.get_prev_non_comment_sibling(close), x);
    assert!(t.is_punctuation(open));
    assert!(!t.is_punctuation(x));
}

#[test]
fn for_in_bodies_read_from_the_tree() {
    let mut b = Builder::new();
    let root = b.add(None, None, "program", true, "");
    // for (k in o) { if (!o.hasOwnProperty(k)) continue; use(k); }
    let guarded = b.named(root, None, "for_in_statement", "");
    let body = b.named(guarded, Some("body"), "statement_block", "");
    let cond = b.named(body, None, "if_statement", "");
    b.named(cond, Some("condition"), "parenthesized_expression", "(!o.hasOwnProperty(k))");
    b.named(cond, Some("consequence"), "continue_statement", "continue;");
    b.named(body, None, "expression_statement", "use(k);");
    // for (k in o) { use(k); }
    let bare = b.named(root, None, "for_in_statement", "");
    let body2 = b.named(bare, Some("body"), "statement_block", "");
    b.named(body2, None, "expression_statement", "use(k);");
    // for (k in o) if (o.hasOwnProperty(k)) use(k);
    let direct_if = b.named(root, None, "for_in_statement", "");
    let cond2 = b.named(direct_if, Some("body"), "if_statement", "");
    b.named(cond2, Some("consequence"), "expression_statement", "use(k);");
    let t = b.build();
    assert_eq!(
        for_in_body(&t, guarded),
        ForInBody::Block { len: 2, first_if: Some(Consequence::Continue) }
    );
    assert!(!check_for_in_statement(&t, guarded));
    assert_eq!(for_in_body(&t, bare), ForInBody::Block { len: 1, first_if: None });
    assert!(check_for_in_statement(&t, bare));
    assert_eq!(for_in_body(&t, direct_if), ForInBody::If);
    assert!(!check_for_in_statement(&t, direct_if));
}

#[test]
fn switch_statements_read_from_the_tree() {
    let mut b = Builder::new();
    let root = b.add(None, None, "program", true, "");
    let with_default = b.named(root, None, "switch_statement", "");
    let body = b.named(with_default, Some("body"), "switch_body", "");
    b.named(body, None, "switch_case", "case 1: break;");
    b.named(body, None, "switch_default", "default: break;");
    let without = b.named(root, None, "switch_statement", "");
    let body2 = b.named(without, Some("body"), "switch_body", "");
    b.named(body2, None, "switch_case", "case 1: break;");
    b.named(body2, None, "comment", "// no default");
    let empty = b.named(root, None, "switch_statement", "");
    b.named(empty, Some("body"), "switch_body", "{}");
    let t = b.build();
    let rule = DefaultCase::new(DefaultCaseOptions::default()).unwrap();
    assert!(!rule.check_switch_statement(&t, with_default, None));
    assert!(rule.check_switch_statement(&t, without, None));
    assert!(!rule.check_switch_statement(&t, without, Some("// No Default")));
    assert!(rule.check_switch_statement(&t, without, Some("// something else")));
    assert!(!rule.check_switch_statement(&t, empty, None));
}

enum Stmt {
    Empty,
    Expr,
    Continue,
    If(Box<Stmt>),
    Block(Vec<Stmt>),
}

fn add_stmt(b: &mut Builder, parent: usize, field: Option<&str>, stmt: &Stmt) -> usize {
    match stmt {
        Stmt::Empty => b.named(parent, field, "empty_statement", ";"),
        Stmt::Expr => b.named(parent, field, "expression_statement", "f();"),
        Stmt::Continue => b.named(parent, field, "continue_statement", "continue;"),
        Stmt::If(consequence) => {
            let n = b.named(parent, field, "if_statement", "");
            b.token(n, None, "if");
            b.named(n, Some("condition"), "parenthesized_expression", "(x)");
            add_stmt(b, n, Some("consequence"), consequence);
            n
        }
        Stmt::Block(statements) => {
            let n = b.named(parent, field, "statement_block", "");
            b.token(n, None, "{");
            for s in statements {
                add_stmt(b, n, None, s);
            }
            b.token(n, None, "}");
            n
        }
    }
}

fn for_in_is_reported(body: Stmt) -> bool {
    // for (var x in o) BODY
    let mut b = Builder::new();
    let root = b.add(None, None, "program", true, "");
    let for_in = b.named(root, None, "for_in_statement", "");
    b.token(for_in, None, "for");
    b.token(for_in, None, "(");
    b.named(for_in, Some("left"), "identifier", "x");
    b.token(for_in, Some("operator"), "in");
    b.named(for_in, Some("right"), "identifier", "o");
    b.token(for_in, None, ")");
    add_stmt(&mut b, for_in, Some("body"), &body);
    check_for_in_statement(&b.build(), for_in)
}

#[test]
fn test_guard_for_in_rule() {
    let boxed = |s: Stmt| Box::new(s);
    // valid
    assert!(!for_in_is_reported(Stmt::Empty));
    assert!(!for_in_is_reported(Stmt::Block(vec![])));
    assert!(!for_in_is_reported(Stmt::If(boxed(Stmt::Expr))));
    assert!(!for_in_is_reported(Stmt::Block(vec![Stmt::If(boxed(Stmt::Block(vec![Stmt::Expr])))])));
    assert!(!for_in_is_reported(Stmt::Block(vec![Stmt::If(boxed(Stmt::Continue)), Stmt::Expr])));
    assert!(!for_in_is_reported(Stmt::Block(vec![Stmt::If(boxed(Stmt::Block(vec![Stmt::Continue]))), Stmt::Expr])));
    // invalid
    assert!(for_in_is_reported(Stmt::Block(vec![Stmt::If(boxed(Stmt::Block(vec![Stmt::Expr, Stmt::Continue]))), Stmt::Expr])));
    assert!(for_in_is_reported(Stmt::Block(vec![Stmt::If(boxed(Stmt::Block(vec![Stmt::Continue, Stmt::Expr]))), Stmt::Expr])));
    assert!(for_in_is_reported(Stmt::Block(vec![Stmt::If(boxed(Stmt::Block(vec![Stmt::Expr]))), Stmt::Expr])));
    assert!(for_in_is_reported(Stmt::Block(vec![Stmt::If(boxed(Stmt::Expr)), Stmt::Expr])));
    assert!(for_in_is_reported(Stmt::Block(vec![Stmt::Expr])));
    assert!(for_in_is_reported(Stmt::Expr));
}

/// A switch statement with the given cases (`true` for a default) and
/// comments (by text) after them; whether it is reported when the last of
/// the comments after its last case is `last_comment`.
fn switch_is_reported(pattern: Option<&str>, cases: &[bool], comments: &[&str], last_comment: Option<&str>) -> bool {
    let mut b = Builder::new();
    let switch = b.add(None, None, "switch_statement", true, "");
    b.token(switch, None, "switch");
    b.named(switch, Some("value"), "parenthesized_expression", "(a)");
    let body = b.named(switch, Some("body"), "switch_body", "");
    b.token(body, None, "{");
    for &is_default in cases {
        if is_default {
            b.named(body, None, "switch_default", "default: break;");
        } else {
            b.named(body, None, "switch_case", "case 1: break;");
        }
    }
    for &c in comments {
        b.named(body, None, "comment", c);
    }
    b.token(body, None, "}");
    let t = b.build();
    let options = DefaultCaseOptions { comment_pattern: pattern.map(|p| p.to_owned()) };
    let rule = DefaultCase::new(options).unwrap();
    rule.check_switch_statement(&t, switch, last_comment)
}

#[test]
fn test_default_case_rule() {
    // valid
    assert!(!switch_is_reported(None, &[false, true], &[], None));
    assert!(!switch_is_reported(None, &[false, false, true], &[], None));
    assert!(!switch_is_reported(None, &[false, true], &["//no default"], Some("//no default")));
    assert!(!switch_is_reported(None, &[false], &["//oh-oh", "// no default"], Some("// no default")));
    assert!(!switch_is_reported(None, &[false], &["// no default"], Some("// no default")));
    assert!(!switch_is_reported(None, &[false], &["// No default"], Some("// No default")));
    assert!(!switch_is_reported(None, &[false], &["// no deFAUlt"], Some("// no deFAUlt")));
    assert!(!switch_is_reported(None, &[false], &["// NO DEFAULT"], Some("// NO DEFAULT")));
    assert!(!switch_is_reported(None, &[false], &["// no default"], Some("// no default")));
    assert!(!switch_is_reported(None, &[false], &["/* no default */"], Some("/* no default */")));
    assert!(!switch_is_reported(None, &[false], &["// no default"], Some("// no default")));
    assert!(!switch_is_reported(None, &[], &["// no default"], None));
    assert!(!switch_is_reported(None, &[], &[], None));
    assert!(!switch_is_reported(Some("default case omitted"), &[false, true], &[], None));
    assert!(!switch_is_reported(
        Some("^skip default"),
        &[false],
        &["// skip default case"],
        Some("// skip default case")
    ));
    let todo = "/*\nTODO:\n throw error in default case\n*/";
    assert!(!switch_is_reported(Some("default"), &[false], &[todo], Some(todo)));
    assert!(!switch_is_reported(Some(".?"), &[false], &["// "], Some("// ")));
    // invalid
    assert!(switch_is_reported(None, &[false], &[], None));
    // the comment stands before the case, so none follows it
    assert!(switch_is_reported(None, &[false], &[], None));
    assert!(switch_is_reported(None, &[false], &["// no default", "// nope"], Some("// nope")));
    assert!(switch_is_reported(
        Some("skipped default case"),
        &[false],
        &["// no default"],
        Some("// no default")
    ));
    assert!(switch_is_reported(
        Some("default omitted"),
        &[false],
        &["// default omitted intentionally", "// TODO: add default case"],
        Some("// TODO: add default case")
    ));
    assert!(switch_is_reported(Some(".?"), &[false], &[], None));
}

#[test]
fn all_comments_in_source_order() {
    let mut b = Builder::new();
    let root = b.add(None, None, "program", true, "");
    let c1 = b.named(root, None, "comment", "// one");
    let stmt = b.named(root, None, "expression_statement", "f(/* two */);");
    let call = b.named(stmt, None, "call_expression", "f(/* two */)");
    let args = b.named(call, Some("arguments"), "arguments", "(/* two */)");
    let c2 = b.named(args, None, "comment", "/* two */");
    let c3 = b.named(root, None, "comment", "// three");
    let t = b.build();
    assert_eq!(AllComments::from_tree(&t).0, vec![c1, c2, c3]);
    let empty = Builder::new().build();
    assert!(AllComments::from_tree(&empty).0.is_empty());
}

#[test]
fn statement_blocks_count_their_statements() {
    // function foo() { var bar = 1; /* c */ var baz = 2; var qux = 3; }
    let mut b = Builder::new();
    let function = b.add(None, None, "function_declaration", true, "");
    let body = b.named(function, Some("body"), "statement_block", "");
    b.token(body, None, "{");
    b.named(body, None, "variable_declaration", "var bar = 1;");
    b.named(body, None, "comment", "/* c */");
    b.named(body, None, "variable_declaration", "var baz = 2;");
    b.named(body, None, "variable_declaration", "var qux = 3;");
    b.token(body, None, "}");
    let t = b.build();
    let options = MaxStatementsOptions { max: 2, ignore_top_level_functions: false };
    let mut rule = MaxStatements::new(options);
    rule.enter_function();
    rule.on_statement_block_node(&t, body);
    assert_eq!(rule.exit_function(function, false), Some(3));
}

#[test]
fn code_path_steps_read_from_the_tree() {
    // if (a && b) x; else y;  f?.();  class C { v = 1 }
    let mut b = Builder::new();
    let root = b.add(None, None, "program", true, "");
    let stmt = b.named(root, None, "if_statement", "");
    b.token(stmt, None, "if");
    let cond = b.named(stmt, Some("condition"), "parenthesized_expression", "(a && b)");
    b.token(cond, None, "(");
    let and = b.named(cond, None, "binary_expression", "a && b");
    let a = b.named(and, Some("left"), "identifier", "a");
    b.token(and, Some("operator"), "&&");
    let bb = b.named(and, Some("right"), "identifier", "b");
    b.token(cond, None, ")");
    let consequence = b.named(stmt, Some("consequence"), "expression_statement", "x;");
    b.named(consequence, None, "identifier", "x");
    b.token(stmt, None, "else");
    let alternative = b.named(stmt, Some("alternative"), "expression_statement", "y;");
    b.named(alternative, None, "identifier", "y");
    let call_stmt = b.named(root, None, "expression_statement", "f?.();");
    let call = b.named(call_stmt, None, "call_expression", "f?.()");
    b.named(call, Some("function"), "identifier", "f");
    b.token(call, Some("optional_chain"), "?.");
    b.named(call, Some("arguments"), "arguments", "()");
    let class = b.named(root, None, "class_declaration", "class C { v = 1 }");
    let name = b.named(class, Some("name"), "identifier", "C");
    let body = b.named(class, Some("body"), "class_body", "{ v = 1 }");
    let field = b.named(body, None, "field_definition", "v = 1");
    b.named(field, Some("property"), "property_identifier", "v");
    let value = b.named(field, Some("value"), "number", "1");
    let t = b.build();

    assert_eq!(node_kind_of("if_statement"), NodeKind::IfStatement);
    assert_eq!(node_kind_of("jsx_element"), NodeKind::Other);
    assert_eq!(field_of_node(&t, consequence), Field::Consequence);
    assert_eq!(field_of_node(&t, cond), Field::Condition);
    assert_eq!(preprocess_node(&t, consequence, &vec![false; t.nodes.len()]), PreprocessAction::MakeIfConsequent);
    assert_eq!(preprocess_node(&t, alternative, &vec![false; t.nodes.len()]), PreprocessAction::MakeIfAlternate);
    assert_eq!(preprocess_node(&t, bb, &vec![false; t.nodes.len()]), PreprocessAction::MakeLogicalRight);
    assert_eq!(preprocess_node(&t, a, &vec![false; t.nodes.len()]), PreprocessAction::Nothing);

    assert!(is_forking_by_true_or_false_node(&t, and));
    let entered = enter_node(&t, and);
    assert!(!entered.start_field_initializer);
    assert_eq!(entered.action, EnterAction::PushChoice { kind: ChoiceKind::LogicalAnd, forking_as_result: true });
    assert_eq!(
        enter_node(&t, stmt).action,
        EnterAction::PushChoice { kind: ChoiceKind::Test, forking_as_result: false }
    );
    assert_eq!(
        enter_node(&t, call).action,
        EnterAction::Chain { push_chain_context: true, make_optional_node: true }
    );
    assert!(enter_node(&t, value).start_field_initializer);
    assert!(is_property_definition_value_node(&t, value));

    assert!(is_identifier_reference_node(&t, a));
    assert!(!is_identifier_reference_node(&t, name));
    assert_eq!(exit_node(&t, and).action, ExitAction::PopChoice);
    assert_eq!(exit_node(&t, a).action, ExitAction::MakeFirstThrowable { pop_chain_context: false });
    assert_eq!(exit_node(&t, name).action, ExitAction::Nothing);

    let after_call = postprocess_node(&t, call);
    assert!(after_call.make_optional_right && !after_call.end_code_path);
    assert!(postprocess_node(&t, value).end_field_initializer);
    assert!(postprocess_node(&t, root).end_code_path);
}

#[test]
fn entering_and_leaving_a_node_balance() {
    // label: while (c) { f?.(); }
    let mut b = Builder::new();
    let root = b.add(None, None, "program", true, "");
    let labeled = b.named(root, None, "labeled_statement", "");
    b.named(labeled, Some("label"), "statement_identifier", "label");
    let looped = b.named(labeled, Some("body"), "while_statement", "");
    b.named(looped, Some("condition"), "parenthesized_expression", "(c)");
    let block = b.named(looped, Some("body"), "statement_block", "");
    let stmt = b.named(block, None, "expression_statement", "f?.();");
    let call = b.named(stmt, None, "call_expression", "f?.()");
    b.named(call, Some("function"), "identifier", "f");
    b.token(call, Some("optional_chain"), "?.");
    b.named(call, Some("arguments"), "arguments", "()");
    let t = b.build();
    assert_eq!(enter_node(&t, looped).action, EnterAction::PushLoop);
    assert_eq!(exit_node(&t, looped).action, ExitAction::PopLoop);
    // a label on a loop leaves the break context to the loop
    assert_eq!(enter_node(&t, labeled).action, EnterAction::Nothing);
    assert_eq!(exit_node(&t, labeled).action, ExitAction::Nothing);
    // other: { break other; }
    let mut b2 = Builder::new();
    let root2 = b2.add(None, None, "program", true, "");
    let other = b2.named(root2, None, "labeled_statement", "");
    b2.named(other, Some("label"), "statement_identifier", "other");
    b2.named(other, Some("body"), "statement_block", "{ break other; }");
    let t2 = b2.build();
    assert_eq!(enter_node(&t2, other).action, EnterAction::PushBreak);
    assert_eq!(exit_node(&t2, other).action, ExitAction::PopBreak);
    assert_eq!(
        enter_node(&t, call).action,
        EnterAction::Chain { push_chain_context: true, make_optional_node: true }
    );
    assert_eq!(exit_node(&t, call).action, ExitAction::MakeFirstThrowable { pop_chain_context: true });
    assert!(matches!(enter_node(&t, root).action, EnterAction::StartCodePath(_)));
    assert!(postprocess_node(&t, root).end_code_path);
    assert!(!postprocess_node(&t, looped).end_code_path);
}

enum Step {
    Number,
    Negated,
    Name,
}

enum Update<'a> {
    NoUpdate,
    Unary(&'a str, &'a str),
    Assign(&'a str, &'a str, Step),
}

/// `for (var i = ..; COUNTER OP RIGHT; UPDATE) {}`; whether it is reported.
fn for_loop_reported(op: &str, right: &str, update: Update) -> bool {
    let mut b = Builder::new();
    let for_loop = b.add(None, None, "for_statement", true, "");
    b.token(for_loop, None, "for");
    b.token(for_loop, None, "(");
    b.named(for_loop, Some("initializer"), "variable_declaration", "var i = 0;");
    let condition = b.named(for_loop, Some("condition"), "expression_statement", "");
    let test = b.named(condition, None, "binary_expression", "");
    b.named(test, Some("left"), "identifier", "i");
    b.token(test, Some("operator"), op);
    let right_kind = if right.chars().all(|c| c.is_ascii_digit()) { "number" } else { "identifier" };
    b.named(test, Some("right"), right_kind, right);
    b.token(condition, None, ";");
    match update {
        Update::NoUpdate => {}
        Update::Unary(name, operator) => {
            let u = b.named(for_loop, Some("increment"), "update_expression", "");
            b.named(u, Some("argument"), "identifier", name);
            b.token(u, Some("operator"), operator);
        }
        Update::Assign(name, operator, step) => {
            let a = b.named(for_loop, Some("increment"), "augmented_assignment_expression", "");
            b.named(a, Some("left"), "identifier", name);
            b.token(a, Some("operator"), operator);
            match step {
                Step::Number => {
                    b.named(a, Some("right"), "number", "1");
                }
                Step::Negated => {
                    let neg = b.named(a, Some("right"), "unary_expression", "-1");
                    b.token(neg, Some("operator"), "-");
                    b.named(neg, Some("argument"), "number", "1");
                }
                Step::Name => {
                    b.named(a, Some("right"), "identifier", "STEP_SIZE");
                }
            }
        }
    }
    b.token(for_loop, None, ")");
    b.named(for_loop, Some("body"), "statement_block", "{}");
    check_for_statement(&b.build(), for_loop)
}

#[test]
fn test_for_direction_rule() {
    let unary = |n, o| Update::Unary(n, o);
    let assign = |n, o, s| Update::Assign(n, o, s);
    // valid: '++', '--'
    assert!(!for_loop_reported("<", "10", unary("i", "++")));
    assert!(!for_loop_reported("<=", "10", unary("i", "++")));
    assert!(!for_loop_reported(">", "0", unary("i", "--")));
    assert!(!for_loop_reported(">=", "0", unary("i", "--")));
    // valid: '+=', '-='
    assert!(!for_loop_reported("<", "10", assign("i", "+=", Step::Number)));
    assert!(!for_loop_reported("<=", "10", assign("i", "+=", Step::Number)));
    assert!(!for_loop_reported("<", "10", assign("i", "-=", Step::Negated)));
    assert!(!for_loop_reported("<=", "10", assign("i", "-=", Step::Negated)));
    assert!(!for_loop_reported(">", "0", assign("i", "-=", Step::Number)));
    assert!(!for_loop_reported(">=", "0", assign("i", "-=", Step::Number)));
    assert!(!for_loop_reported(">", "0", assign("i", "+=", Step::Negated)));
    assert!(!for_loop_reported(">=", "0", assign("i", "+=", Step::Negated)));
    // valid: no update of the counter
    assert!(!for_loop_reported(">", "0", Update::NoUpdate));
    assert!(!for_loop_reported(">=", "0", Update::NoUpdate));
    assert!(!for_loop_reported("<", "0", Update::NoUpdate));
    assert!(!for_loop_reported("<=", "0", Update::NoUpdate));
    assert!(!for_loop_reported("<=", "0", unary("j", "++")));
    assert!(!for_loop_reported("<=", "0", unary("j", "--")));
    assert!(!for_loop_reported(">=", "0", unary("j", "++")));
    assert!(!for_loop_reported(">=", "0", unary("j", "--")));
    assert!(!for_loop_reported(">=", "0", assign("j", "+=", Step::Number)));
    assert!(!for_loop_reported(">=", "0", assign("j", "-=", Step::Number)));
    assert!(!for_loop_reported(">=", "0", assign("i", "|=", Step::Number)));
    assert!(!for_loop_reported(">=", "0", assign("i", "%=", Step::Number)));
    assert!(!for_loop_reported("<", "MAX", assign("i", "+=", Step::Name)));
    assert!(!for_loop_reported("<", "MAX", assign("i", "-=", Step::Name)));
    assert!(!for_loop_reported(">", "0", assign("i", "+=", Step::Name)));
    // valid: other comparisons
    assert!(!for_loop_reported("!==", "10", assign("i", "+=", Step::Number)));
    assert!(!for_loop_reported("===", "10", assign("i", "+=", Step::Number)));
    assert!(!for_loop_reported("==", "10", assign("i", "+=", Step::Number)));
    assert!(!for_loop_reported("!=", "10", assign("i", "+=", Step::Number)));
    // invalid: '++', '--'
    assert!(for_loop_reported("<", "10", unary("i", "--")));
    assert!(for_loop_reported("<=", "10", unary("i", "--")));
    assert!(for_loop_reported(">", "10", unary("i", "++")));
    assert!(for_loop_reported(">=", "0", unary("i", "++")));
    // invalid: '+=', '-='
    assert!(for_loop_reported("<", "10", assign("i", "-=", Step::Number)));
    assert!(for_loop_reported("<=", "10", assign("i", "-=", Step::Number)));
    assert!(for_loop_reported(">", "10", assign("i", "+=", Step::Number)));
    assert!(for_loop_reported(">=", "0", assign("i", "+=", Step::Number)));
    assert!(for_loop_reported("<", "10", assign("i", "+=", Step::Negated)));
    assert!(for_loop_reported("<=", "10", assign("i", "+=", Step::Negated)));
    assert!(for_loop_reported(">", "10", assign("i", "-=", Step::Negated)));
    assert!(for_loop_reported(">=", "0", assign("i", "-=", Step::Negated)));
}

/// A small piece of JavaScript to build a tree of.
enum Js {
    /// `name(arg, ...)` as an expression statement.
    Call(&'static str, Vec<Js>),
    /// A function (`true`: an arrow function) with these statements.
    Func(bool, Vec<Js>),
    Ident(&'static str),
    /// `if (isTrue) { ... }`
    If(Vec<Js>),
    /// `var foo = <function>;`
    Var(Box<Js>),
}

fn add_js(b: &mut Builder, parent: usize, field: Option<&str>, js: &Js, as_statement: bool) {
    match js {
        Js::Call(name, args) => {
            let at = if as_statement { b.named(parent, field, "expression_statement", "") } else { parent };
            let call = b.named(at, if as_statement { None } else { field }, "call_expression", "");
            b.named(call, Some("function"), "identifier", name);
            let list = b.named(call, Some("arguments"), "arguments", "");
            b.token(list, None, "(");
            for a in args {
                add_js(b, list, None, a, false);
            }
            b.token(list, None, ")");
        }
        Js::Func(arrow, body) => {
            let f = b.named(parent, field, if *arrow { "arrow_function" } else { "function" }, "");
            let block = b.named(f, Some("body"), "statement_block", "");
            for s in body {
                add_js(b, block, None, s, true);
            }
        }
        Js::Ident(name) => {
            b.named(parent, field, "identifier", name);
        }
        Js::If(body) => {
            let s = b.named(parent, field, "if_statement", "");
            b.named(s, Some("condition"), "parenthesized_expression", "(isTrue)");
            let block = b.named(s, Some("consequence"), "statement_block", "");
            for x in body {
                add_js(b, block, None, x, true);
            }
        }
        Js::Var(f) => {
            let d = b.named(parent, field, "variable_declaration", "");
            let v = b.named(d, None, "variable_declarator", "");
            b.named(v, Some("name"), "identifier", "foo");
            add_js(b, v, Some("value"), f, false);
        }
    }
}

fn walk(t: &SyntaxTree, n: usize, rule: &mut MaxNestedCallbacks, reports: &mut Vec<(String, usize)>) {
    if let Some(depth) = rule.enter_node(t, n) {
        reports.push((t.nodes[n].kind.clone(), depth));
    }
    for &c in &t.nodes[n].children {
        walk(t, c, rule, reports);
    }
    rule.exit_node(t, n);
}

fn nested_callback_reports(options: NestedOptions, program: Vec<Js>) -> Vec<(String, usize)> {
    let mut b = Builder::new();
    let root = b.add(None, None, "program", true, "");
    for s in &program {
        add_js(&mut b, root, None, s, true);
    }
    let t = b.build();
    let mut rule = MaxNestedCallbacks::new(options);
    let mut reports = Vec::new();
    walk(&t, root, &mut rule, &mut reports);
    reports
}

fn nest_functions(times: usize) -> Vec<Js> {
    let mut inner = Vec::new();
    for _ in 0..times {
        inner = vec![Js::Call("foo", vec![Js::Func(false, inner)])];
    }
    inner
}

#[test]
fn test_max_nested_callbacks_rule() {
    let f = |body| Js::Func(false, body);
    let arrow = |body| Js::Func(true, body);
    let two_deep = || vec![Js::Call("foo", vec![f(vec![Js::Call("bar", vec![Js::Ident("thing"), f(vec![])])])])];
    let three_deep =
        || vec![Js::Call("foo", vec![f(vec![Js::Call("bar", vec![Js::Ident("thing"), f(vec![Js::Call("baz", vec![f(vec![])])])])])])];
    let usize_max = |m| NestedOptions::Usize(m);
    let object_max = |m| NestedOptions::Object(NestedOptionsObject { max: m });
    let none: Vec<(String, usize)> = vec![];
    let reported = |kind: &str, num: usize| vec![(kind.to_owned(), num)];
    // valid
    assert_eq!(nested_callback_reports(usize_max(3), two_deep()), none);
    assert_eq!(
        nested_callback_reports(
            usize_max(2),
            vec![
                Js::Var(Box::new(f(vec![]))),
                Js::Call("bar", vec![f(vec![Js::Call("baz", vec![f(vec![Js::Call("qux", vec![Js::Ident("foo")])])])])]),
            ]
        ),
        none
    );
    assert_eq!(nested_callback_reports(usize_max(2), vec![Js::Call("fn", vec![f(vec![]), f(vec![]), f(vec![])])]), none);
    assert_eq!(nested_callback_reports(usize_max(2), vec![Js::Call("fn", vec![arrow(vec![]), f(vec![]), f(vec![])])]), none);
    assert_eq!(nested_callback_reports(NestedOptions::default(), nest_functions(10)), none);
    assert_eq!(nested_callback_reports(object_max(3), two_deep()), none);
    // invalid
    assert_eq!(nested_callback_reports(usize_max(2), three_deep()), reported("function", 3));
    assert_eq!(
        nested_callback_reports(
            usize_max(2),
            vec![Js::Call("foo", vec![f(vec![Js::Call("bar", vec![Js::Ident("thing"), arrow(vec![Js::Call("baz", vec![f(vec![])])])])])])]
        ),
        reported("function", 3)
    );
    assert_eq!(
        nested_callback_reports(
            usize_max(2),
            vec![Js::Call("foo", vec![arrow(vec![Js::Call("bar", vec![Js::Ident("thing"), arrow(vec![Js::Call("baz", vec![arrow(vec![])])])])])])]
        ),
        reported("arrow_function", 3)
    );
    assert_eq!(
        nested_callback_reports(
            usize_max(2),
            vec![Js::Call("foo", vec![f(vec![Js::If(vec![Js::Call("bar", vec![f(vec![Js::Call("baz", vec![f(vec![])])])])])])])]
        ),
        reported("function", 3)
    );
    assert_eq!(nested_callback_reports(NestedOptions::default(), nest_functions(11)), reported("function", 11));
    assert_eq!(
        nested_callback_reports(NestedOptions::Object(NestedOptionsObject::default()), nest_functions(11)),
        reported("function", 11)
    );
    assert_eq!(nested_callback_reports(object_max(0), vec![Js::Call("foo", vec![f(vec![])])]), reported("function", 1));
    assert_eq!(nested_callback_reports(object_max(2), three_deep()), reported("function", 3));
}

#[test]
fn code_path_steps_of_a_whole_tree() {
    // while (a) /* c */ x;
    let mut b = Builder::new();
    let root = b.add(None, None, "program", true, "");
    let stmt = b.named(root, None, "while_statement", "");
    b.token(stmt, None, "while");
    let cond = b.named(stmt, Some("condition"), "parenthesized_expression", "(a)");
    b.token(cond, None, "(");
    let a = b.named(cond, None, "identifier", "a");
    b.token(cond, None, ")");
    b.named(stmt, None, "comment", "/* c */");
    let body = b.named(stmt, Some("body"), "expression_statement", "x;");
    let x = b.named(body, None, "identifier", "x");
    let t = b.build();
    let n = t.nodes.len();
    let floats = vec![false; n];
    let steps = code_path_steps(&t, root, &floats);
    let into = |node: usize| {
        let mut v = Vec::new();
        if t.nodes[node].parent.is_some() {
            v.push(CodePathStep::Preprocess { node, action: preprocess_node(&t, node, &floats) });
        }
        v.push(CodePathStep::Enter { node, enter_plan: enter_node(&t, node) });
        v
    };
    let out_of = |node: usize| {
        vec![
            CodePathStep::Exit { node, exit_plan: exit_node(&t, node) },
            CodePathStep::Postprocess { node, postprocess_plan: postprocess_node(&t, node) },
        ]
    };
    let mut expected = Vec::new();
    expected.extend(into(root));
    expected.extend(into(stmt));
    expected.extend(into(cond));
    expected.extend(into(a));
    expected.extend(out_of(a));
    expected.extend(out_of(cond));
    expected.extend(into(body));
    expected.extend(into(x));
    expected.extend(out_of(x));
    expected.extend(out_of(body));
    expected.extend(out_of(stmt));
    expected.extend(out_of(root));
    assert_eq!(steps, expected);
    assert_eq!(steps.len(), 23);
    assert_eq!(steps[1], CodePathStep::Preprocess { node: stmt, action: PreprocessAction::Nothing });
    assert_eq!(steps[3], CodePathStep::Preprocess { node: cond, action: PreprocessAction::MakeWhileTest(None) });
    // the walk from a leaf takes that leaf's steps only
    assert_eq!(code_path_steps(&t, x, &floats), [into(x), out_of(x)].concat());
}

#[test]
fn return_arguments_read_from_the_tree() {
    // return; return undefined; return void 0; return /* c */ x;
    let mut b = Builder::new();
    let root = b.add(None, None, "program", true, "");
    let bare = b.named(root, None, "return_statement", "return;");
    b.token(bare, None, "return");
    let undefined = b.named(root, None, "return_statement", "return undefined;");
    b.token(undefined, None, "return");
    b.named(undefined, None, "undefined", "undefined");
    let void = b.named(root, None, "return_statement", "return void 0;");
    b.token(void, None, "return");
    let unary = b.named(void, None, "unary_expression", "void 0");
    b.token(unary, Some("operator"), "void");
    b.named(unary, Some("argument"), "number", "0");
    let other = b.named(root, None, "return_statement", "return /* c */ x;");
    b.token(other, None, "return");
    b.named(other, None, "comment", "/* c */");
    b.named(other, None, "identifier", "x");
    let t = b.build();
    assert_eq!(return_argument_of(&t, bare), ReturnArgument::Nothing);
    assert_eq!(return_argument_of(&t, undefined), ReturnArgument::Undefined);
    assert_eq!(return_argument_of(&t, void), ReturnArgument::Void);
    assert_eq!(return_argument_of(&t, other), ReturnArgument::Other);
}

#[test]
fn property_descriptor_names_read_from_the_tree() {
    // { get: function () {}, "set": f, [k]: v, value }
    let mut b = Builder::new();
    let object = b.add(None, None, "object", true, "");
    let p1 = b.named(object, None, "pair", "get: function () {}");
    b.named(p1, Some("key"), "property_identifier", "get");
    b.named(p1, Some("value"), "function", "function () {}");
    let p2 = b.named(object, None, "pair", "\"set\": f");
    b.named(p2, Some("key"), "string", "\"set\"");
    b.named(p2, Some("value"), "identifier", "f");
    let p3 = b.named(object, None, "pair", "[k]: v");
    b.named(p3, Some("key"), "computed_property_name", "[k]");
    b.named(p3, Some("value"), "identifier", "v");
    b.named(object, None, "shorthand_property_identifier", "value");
    let t = b.build();
    let names = property_descriptor_names(&t, object);
    assert_eq!(names, vec!["get".to_owned()]);
    let options = eslint_builtin::rules::accessor_pairs::Options { get_without_set: true, ..Default::default() };
    assert_eq!(check_property_descriptor(&names, options), Some(Missing::Setter));
}

#[test]
fn innermost_code_paths_read_from_the_tree() {
    // function f() { return; }
    let mut b = Builder::new();
    let root = b.add(None, None, "program", true, "");
    let function = b.named(root, None, "function_declaration", "");
    let body = b.named(function, Some("body"), "statement_block", "");
    let ret = b.named(body, None, "return_statement", "return;");
    let t = b.build();
    assert!(t.is_same_or_descendant_of(ret, function));
    assert!(t.is_same_or_descendant_of(ret, ret));
    assert!(!t.is_same_or_descendant_of(root, function));
    let mut analyzer = CodePathAnalyzer::new();
    let program = analyzer.start_code_path(CodePathOrigin::Program);
    analyzer.forward_current_to_head();
    analyzer.record_node(root, false);
    let inner = analyzer.start_code_path(CodePathOrigin::Function);
    analyzer.forward_current_to_head();
    analyzer.record_node(function, false);
    assert_eq!(analyzer.code_paths_holding(&t, ret), vec![true, true]);
    assert_eq!(analyzer.code_paths_holding(&t, root), vec![true, false]);
    assert_eq!(analyzer.get_innermost_code_path_of_node(&t, ret), inner);
    assert_eq!(analyzer.get_innermost_code_path_of_node(&t, root), program);
}

#[test]
fn getter_facts_read_from_the_tree() {
    // var foo = { get bar() {}, baz: () => 1 };
    let mut b = Builder::new();
    let object = b.add(None, None, "object", true, "");
    let method = b.named(object, None, "method_definition", "get bar() {}");
    b.token(method, None, "get");
    b.named(method, Some("name"), "property_identifier", "bar");
    b.named(method, Some("parameters"), "formal_parameters", "()");
    b.named(method, Some("body"), "statement_block", "{}");
    let pair = b.named(object, None, "pair", "baz: () => 1");
    b.named(pair, Some("key"), "property_identifier", "baz");
    let arrow = b.named(pair, Some("value"), "arrow_function", "() => 1");
    b.named(arrow, Some("parameters"), "formal_parameters", "()");
    b.named(arrow, Some("body"), "number", "1");
    let t = b.build();
    let facts = function_facts_of(&t, method, Placement::Other);
    assert_eq!(facts.kind, "method_definition");
    assert!(facts.body_is_block && facts.has_get_keyword);
    assert!(is_getter(&facts));
    let facts = function_facts_of(&t, arrow, Placement::GetProperty(Enclosing::Other));
    assert!(!facts.body_is_block && !facts.has_get_keyword);
    assert!(!is_getter(&facts));
}

#[test]
fn loop_test_constants_read_from_the_tree() {
    // while ((true)); do {} while (""); for (; 0;); for (;(1);); while (0.5); while (x);
    let mut b = Builder::new();
    let root = b.add(None, None, "program", true, "");
    let w = b.named(root, None, "while_statement", "");
    let c1 = b.named(w, Some("condition"), "parenthesized_expression", "((true))");
    let c1b = b.named(c1, None, "parenthesized_expression", "(true)");
    b.named(c1b, None, "true", "true");
    b.named(w, Some("body"), "empty_statement", ";");
    let d = b.named(root, None, "do_statement", "");
    b.named(d, Some("body"), "statement_block", "{}");
    let c2 = b.named(d, Some("condition"), "parenthesized_expression", "(\"\")");
    b.named(c2, None, "string", "\"\"");
    let f = b.named(root, None, "for_statement", "");
    b.named(f, Some("initializer"), "empty_statement", ";");
    let c3 = b.named(f, Some("condition"), "expression_statement", "0;");
    b.named(c3, None, "number", "0");
    let f2 = b.named(root, None, "for_statement", "");
    b.named(f2, Some("initializer"), "empty_statement", ";");
    let c4 = b.named(f2, Some("condition"), "expression_statement", "(1);");
    let c4p = b.named(c4, None, "parenthesized_expression", "(1)");
    b.named(c4p, None, "number", "1");
    let w2 = b.named(root, None, "while_statement", "");
    let c5 = b.named(w2, Some("condition"), "parenthesized_expression", "(0.5)");
    let half = b.named(c5, None, "number", "0.5");
    let w3 = b.named(root, None, "while_statement", "");
    let c6 = b.named(w3, Some("condition"), "parenthesized_expression", "(x)");
    b.named(c6, None, "identifier", "x");
    let t = b.build();
    let mut floats = vec![false; t.nodes.len()];
    floats[half] = true;
    assert_eq!(test_constant_of(&t, c1, &floats), Some(true));
    assert_eq!(test_constant_of(&t, c2, &floats), Some(true));
    assert_eq!(test_constant_of(&t, c3, &floats), Some(false));
    // in a for statement the expression statement is skipped, not the parentheses inside it
    assert_eq!(test_constant_of(&t, c4, &floats), None);
    assert_eq!(test_constant_of(&t, c5, &floats), Some(true));
    assert_eq!(test_constant_of(&t, c6, &floats), None);
    assert_eq!(preprocess_node(&t, c1, &floats), PreprocessAction::MakeWhileTest(Some(true)));
    assert_eq!(preprocess_node(&t, c2, &floats), PreprocessAction::MakeDoWhileTest(Some(true)));
}
