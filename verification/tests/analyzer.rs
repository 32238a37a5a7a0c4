use eslint_builtin::analyzer::{
    forward_current_to_head, get_boolean_value_if_simple_constant, get_innermost_code_path,
    get_segments_that_include_node, is_forking_by_true_or_false, is_handled_logical_operator_str,
    is_identifier_reference, is_logical_assignment_operator, is_property_definition_value,
    is_visited, postprocess, preprocess, process_code_path_to_enter, process_code_path_to_exit,
    record_node, ChoiceKind, EnterAction, ExitAction, Field, Forward, LiteralKind, NodeKind,
    OnLooped, PreprocessAction,
};
use eslint_builtin::code_path::{CodePath, CodePathOrigin};
use eslint_builtin::code_path_segment::{CodePathSegment, EnterOrExit, SegmentArena};
use eslint_builtin::fork_context::{ForkContextArena, SingleOrSplitSegment, SplitSegment};
use std::rc::Rc;
use eslint_builtin::id_generator::IdGenerator;

#[test]
fn logical_operators() {
    for op in ["&&", "||", "??"] {
        assert!(is_handled_logical_operator_str(op));
        assert!(!is_logical_assignment_operator(op));
    }
    for op in ["&&=", "||=", "??="] {
        assert!(is_logical_assignment_operator(op));
        assert!(!is_handled_logical_operator_str(op));
    }
    assert!(!is_handled_logical_operator_str("+"));
    assert!(!is_logical_assignment_operator("+="));
}

#[test]
fn identifier_references() {
    assert!(!is_identifier_reference(NodeKind::LabeledStatement, Field::Label, false));
    assert!(!is_identifier_reference(NodeKind::FunctionDeclaration, Field::Name, false));
    assert!(is_identifier_reference(NodeKind::FunctionDeclaration, Field::Body, false));
    assert!(!is_identifier_reference(NodeKind::Pair, Field::Key, false));
    assert!(is_identifier_reference(NodeKind::Pair, Field::Value, false));
    assert!(!is_identifier_reference(NodeKind::ForInStatement, Field::Left, true));
    assert!(is_identifier_reference(NodeKind::ForInStatement, Field::Left, false));
    assert!(is_identifier_reference(NodeKind::Other, Field::Other, false));
}

#[test]
fn forking_by_value() {
    assert!(is_forking_by_true_or_false(NodeKind::ExpressionStatement, true, false, ""));
    assert!(is_forking_by_true_or_false(NodeKind::IfStatement, false, true, ""));
    assert!(!is_forking_by_true_or_false(NodeKind::IfStatement, false, false, ""));
    assert!(is_forking_by_true_or_false(NodeKind::BinaryExpression, false, false, "&&"));
    assert!(!is_forking_by_true_or_false(NodeKind::BinaryExpression, false, false, "+"));
    assert!(is_forking_by_true_or_false(NodeKind::AugmentedAssignmentExpression, false, false, "??="));
    assert!(!is_forking_by_true_or_false(NodeKind::Other, false, true, "&&"));
}

#[test]
fn visited_nodes() {
    assert!(is_visited(true, NodeKind::IfStatement));
    assert!(!is_visited(true, NodeKind::Comment));
    assert!(!is_visited(false, NodeKind::Identifier));
    assert!(is_property_definition_value(Some(NodeKind::FieldDefinition), Field::Value));
    assert!(!is_property_definition_value(Some(NodeKind::FieldDefinition), Field::Property));
    assert!(!is_property_definition_value(None, Field::Value));
}

#[test]
fn preprocess_steps() {
    let p = |parent, field, node, optional, named, op: &str, c| preprocess(parent, field, node, optional, named, op, c);
    assert_eq!(p(NodeKind::CallExpression, Field::Arguments, NodeKind::Arguments, true, true, "", None), PreprocessAction::MakeOptionalRight);
    assert_eq!(p(NodeKind::CallExpression, Field::Arguments, NodeKind::Arguments, true, false, "", None), PreprocessAction::Nothing);
    assert_eq!(p(NodeKind::MemberExpression, Field::Property, NodeKind::PropertyIdentifier, true, false, "", None), PreprocessAction::MakeOptionalRight);
    assert_eq!(p(NodeKind::BinaryExpression, Field::Right, NodeKind::Identifier, false, false, "||", None), PreprocessAction::MakeLogicalRight);
    assert_eq!(p(NodeKind::BinaryExpression, Field::Left, NodeKind::Identifier, false, false, "||", None), PreprocessAction::Nothing);
    assert_eq!(p(NodeKind::IfStatement, Field::Alternative, NodeKind::Other, false, false, "", None), PreprocessAction::MakeIfAlternate);
    assert_eq!(p(NodeKind::SwitchDefault, Field::Body, NodeKind::Other, false, false, "", None), PreprocessAction::MakeSwitchCaseBody { is_default: true });
    assert_eq!(p(NodeKind::TryStatement, Field::Finalizer, NodeKind::Other, false, false, "", None), PreprocessAction::MakeFinallyBlock);
    assert_eq!(p(NodeKind::WhileStatement, Field::Condition, NodeKind::Other, false, false, "", Some(true)), PreprocessAction::MakeWhileTest(Some(true)));
    assert_eq!(p(NodeKind::DoStatement, Field::Condition, NodeKind::Other, false, false, "", Some(false)), PreprocessAction::MakeDoWhileTest(Some(false)));
    assert_eq!(p(NodeKind::ForStatement, Field::Condition, NodeKind::EmptyStatement, false, false, "", None), PreprocessAction::Nothing);
    assert_eq!(p(NodeKind::ForStatement, Field::Increment, NodeKind::Other, false, false, "", None), PreprocessAction::MakeForUpdate);
    assert_eq!(p(NodeKind::ForInStatement, Field::Body, NodeKind::Other, false, false, "", None), PreprocessAction::MakeForInOfBody);
    assert_eq!(p(NodeKind::AssignmentPattern, Field::Right, NodeKind::Other, false, false, "", None), PreprocessAction::ForkDefaultValue);
}

#[test]
fn enter_steps() {
    let e = |kind, op: &str| process_code_path_to_enter(kind, false, true, true, op, true, true, false, false, false);
    assert_eq!(e(NodeKind::Program, "").action, EnterAction::StartCodePath(CodePathOrigin::Program));
    assert_eq!(e(NodeKind::ArrowFunction, "").action, EnterAction::StartCodePath(CodePathOrigin::Function));
    assert_eq!(e(NodeKind::ClassStaticBlock, "").action, EnterAction::StartCodePath(CodePathOrigin::ClassStaticBlock));
    assert_eq!(e(NodeKind::MemberExpression, "").action, EnterAction::Chain { push_chain_context: true, make_optional_node: true });
    assert_eq!(e(NodeKind::BinaryExpression, "??").action, EnterAction::PushChoice { kind: ChoiceKind::LogicalNullCoalesce, forking_as_result: true });
    assert_eq!(e(NodeKind::AugmentedAssignmentExpression, "&&=").action, EnterAction::PushChoice { kind: ChoiceKind::LogicalAnd, forking_as_result: true });
    assert_eq!(e(NodeKind::AugmentedAssignmentExpression, "+=").action, EnterAction::Nothing);
    assert_eq!(e(NodeKind::IfStatement, "").action, EnterAction::PushChoice { kind: ChoiceKind::Test, forking_as_result: false });
    assert_eq!(e(NodeKind::SwitchCase, "").action, EnterAction::ForkPath);
    assert_eq!(e(NodeKind::LabeledStatement, "").action, EnterAction::PushBreak);
    let plan = process_code_path_to_enter(NodeKind::Other, true, false, false, "", false, false, false, true, true);
    assert!(plan.start_field_initializer);
    assert_eq!(plan.action, EnterAction::Nothing);
}

#[test]
fn exit_steps() {
    let x = |kind, op: &str, has_body, is_ref| process_code_path_to_exit(kind, op, has_body, is_ref, true, false);
    assert_eq!(x(NodeKind::ReturnStatement, "", false, false).forward_first, true);
    assert_eq!(x(NodeKind::ReturnStatement, "", false, false).action, ExitAction::MakeReturn);
    assert_eq!(x(NodeKind::ReturnStatement, "", false, false).forward_after, Forward::Never);
    assert_eq!(x(NodeKind::SwitchCase, "", false, false).action, ExitAction::MakeEmptySwitchCaseBody { is_default: false });
    assert_eq!(x(NodeKind::SwitchDefault, "", true, false).forward_after, Forward::UnlessReachable);
    assert_eq!(x(NodeKind::Identifier, "", false, true).action, ExitAction::MakeFirstThrowable { pop_chain_context: false });
    assert_eq!(x(NodeKind::Identifier, "", false, true).forward_after, Forward::Never);
    assert_eq!(x(NodeKind::Identifier, "", false, false).forward_after, Forward::Always);
    assert_eq!(x(NodeKind::CallExpression, "", false, false).action, ExitAction::MakeFirstThrowable { pop_chain_context: true });
    assert_eq!(x(NodeKind::BinaryExpression, "||", false, false).action, ExitAction::PopChoice);
    assert_eq!(x(NodeKind::ParenthesizedExpression, "", false, false).forward_after, Forward::Never);
    assert_eq!(x(NodeKind::LabeledStatement, "", false, false).action, ExitAction::PopBreak);
    let p = postprocess(NodeKind::CallExpression, true, Some(0), false);
    assert!(p.make_optional_right && !p.end_code_path);
    let p = postprocess(NodeKind::FunctionDeclaration, false, None, true);
    assert!(p.end_code_path && p.end_field_initializer && !p.make_optional_right);
}

#[test]
fn simple_constants() {
    assert_eq!(get_boolean_value_if_simple_constant(None, "x", true), None);
    assert_eq!(get_boolean_value_if_simple_constant(Some(LiteralKind::String), "''", false), Some(true));
    assert_eq!(get_boolean_value_if_simple_constant(Some(LiteralKind::Number), "0", true), Some(false));
    assert_eq!(get_boolean_value_if_simple_constant(Some(LiteralKind::Number), "0x10", false), Some(true));
    assert_eq!(get_boolean_value_if_simple_constant(Some(LiteralKind::Number), "0.0", false), Some(false));
    assert_eq!(get_boolean_value_if_simple_constant(Some(LiteralKind::Null), "null", true), Some(false));
    assert_eq!(get_boolean_value_if_simple_constant(Some(LiteralKind::Regex), "/a/", false), Some(true));
}

fn arena_with_chain() -> SegmentArena {
    let mut arena = SegmentArena::new();
    let a = CodePathSegment::new_root(&mut arena, "s1_1".to_owned());
    assert_eq!(forward_current_to_head(&mut arena, &[], &[a]), vec![a]);
    let _b = CodePathSegment::new_next(&mut arena, "s1_2".to_owned(), &[a]);
    let _c = CodePathSegment::new_unreachable(&mut arena, "s1_3".to_owned(), &[a]);
    arena
}

#[test]
fn forwarding_marks_started_segments_used() {
    let mut arena = arena_with_chain();
    let started = forward_current_to_head(&mut arena, &[0, 5], &[0, 1, 2]);
    assert_eq!(started, vec![1, 2]);
    assert!(arena.is_used(0) && arena.is_used(1) && arena.is_used(2));
    // The unreachable segment was marked used when it was made.
    assert_eq!(arena.segments[0].all_next_segments, vec![2, 1]);
    assert_eq!(arena.segments[0].next_segments, vec![1]);
    let again = forward_current_to_head(&mut arena, &[], &[1]);
    assert_eq!(again, vec![1]);
    assert_eq!(arena.segments[0].all_next_segments, vec![2, 1]);
}

#[test]
fn looped_edges_only_between_reachable_segments() {
    let arena = arena_with_chain();
    assert!(OnLooped.on_looped(&arena, 0, 1));
    assert!(!OnLooped.on_looped(&arena, 1, 2));
}

#[test]
fn recorded_nodes_and_lookups() {
    let mut arena = SegmentArena::new();
    let mut code_paths: Vec<CodePath> = Vec::new();
    let mut forks = ForkContextArena { contexts: Vec::new() };
    let c = CodePath::new(&mut code_paths, &mut forks, &mut arena, "s1".to_owned(), CodePathOrigin::Program, None);
    let initial = code_paths[c].initial_segment();
    record_node(&mut arena, &[initial], 7, false);
    record_node(&mut arena, &[initial], 7, true);
    assert_eq!(arena.segments[initial].nodes, vec![(EnterOrExit::Enter, 7), (EnterOrExit::Exit, 7)]);
    assert_eq!(code_paths[c].root_node(&arena), 7);
    let order = vec![c];
    assert_eq!(get_segments_that_include_node(&arena, &code_paths, &order, EnterOrExit::Enter, 7), vec![initial]);
    assert!(get_segments_that_include_node(&arena, &code_paths, &order, EnterOrExit::Enter, 8).is_empty());
    let inner = CodePath::new(&mut code_paths, &mut forks, &mut arena, "s2".to_owned(), CodePathOrigin::Function, Some(c));
    let order = vec![c, inner];
    assert_eq!(get_innermost_code_path(&code_paths, &order, &vec![true, false]), c);
    assert_eq!(get_innermost_code_path(&code_paths, &order, &vec![true, true]), inner);
}

#[test]
fn id_generator_counts_up() {
    let mut g = IdGenerator::new("s1_");
    assert_eq!(g.next(), "s1_1");
    assert_eq!(g.next(), "s1_2");
    let mut wrap = IdGenerator { prefix: "x".to_owned(), n: 0x7fff_ffff };
    assert_eq!(wrap.next(), "x1");
}

#[test]
fn code_path_ids() {
    let mut arena = SegmentArena::new();
    let mut code_paths: Vec<CodePath> = Vec::new();
    let mut forks = ForkContextArena { contexts: Vec::new() };
    let c = CodePath::new(&mut code_paths, &mut forks, &mut arena, "s1".to_owned(), CodePathOrigin::Program, None);
    assert_eq!(arena.segments[code_paths[c].initial_segment()].id, "s1_1");
    assert!(code_paths[c].final_segments().is_empty());
}

#[test]
fn mapping_split_segments_keeps_their_shape() {
    let split = SingleOrSplitSegment::Split(SplitSegment::new(
        Rc::new(SingleOrSplitSegment::Single(1)),
        Rc::new(SingleOrSplitSegment::Single(2)),
    ));
    let mapped = split.map(&|s| s + 10);
    assert_eq!(mapped.split_depth(), 1);
    assert_eq!(mapped.segments(), vec![11, 12]);
    assert_eq!(SingleOrSplitSegment::Single(3).map(&|s| s * 2).segments(), vec![6]);
}

#[test]
fn fork_context_add_merges_down_to_its_depth() {
    let mut arena = SegmentArena::new();
    let leaves: Vec<usize> = (0..4).map(|i| CodePathSegment::new_root(&mut arena, format!("r{i}"))).collect();
    let single = |s: usize| Rc::new(SingleOrSplitSegment::Single(s));
    let pair = |a: Rc<SingleOrSplitSegment>, b: Rc<SingleOrSplitSegment>| {
        Rc::new(SingleOrSplitSegment::Split(SplitSegment::new(a, b)))
    };
    let deep = pair(pair(single(leaves[0]), single(leaves[1])), pair(single(leaves[2]), single(leaves[3])));
    let mut forks = ForkContextArena { contexts: Vec::new() };
    let mut generator = IdGenerator::new("s1_");
    // depth 2 down to depth 0: 2^2 - 2^0 = 3 new segments
    let flat = eslint_builtin::fork_context::ForkContext::new(&mut forks, None, 0);
    forks.contexts[flat].add(&mut arena, &mut generator, deep.clone());
    assert_eq!(arena.segments.len(), 4 + 3);
    assert_eq!(forks.contexts[flat].head().segments(), vec![6]);
    // depth 2 down to depth 1: 2^2 - 2^1 = 2 new segments
    let half = eslint_builtin::fork_context::ForkContext::new(&mut forks, None, 1);
    forks.contexts[half].add(&mut arena, &mut generator, deep.clone());
    assert_eq!(arena.segments.len(), 7 + 2);
    assert_eq!(forks.contexts[half].head().segments(), vec![7, 8]);
    // equal depths: nothing new, and the value itself is pushed
    let same = eslint_builtin::fork_context::ForkContext::new(&mut forks, None, 2);
    forks.contexts[same].add(&mut arena, &mut generator, deep.clone());
    assert_eq!(arena.segments.len(), 9);
    assert!(Rc::ptr_eq(&forks.contexts[same].head(), &deep));
}

#[test]
fn marking_a_segment_used_twice_changes_nothing_more() {
    let mut arena = SegmentArena::new();
    let a = CodePathSegment::new_root(&mut arena, "s1_1".to_owned());
    CodePathSegment::mark_used(&mut arena, a);
    let b = CodePathSegment::new_next(&mut arena, "s1_2".to_owned(), &[a]);
    assert!(arena.segments[a].all_next_segments.is_empty());
    CodePathSegment::mark_used(&mut arena, b);
    assert_eq!(arena.segments[a].all_next_segments, vec![b]);
    assert_eq!(arena.segments[a].next_segments, vec![b]);
    CodePathSegment::mark_used(&mut arena, b);
    assert_eq!(arena.segments[a].all_next_segments, vec![b]);
    assert_eq!(arena.segments[a].next_segments, vec![b]);
    assert!(arena.is_used(b));
}
