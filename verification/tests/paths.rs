use eslint_builtin::ast_helpers::{
    get_comma_separated_optional_non_comment_named_children, get_method_definition_kind,
    get_object_property_kind, is_class_member_static, is_punctuation_kind,
    template_string_has_any_cooked_literal_characters, ListToken, MemberChild,
    MethodDefinitionKind, MethodName, ObjectPropertyKind, PropertyNode, TemplatePart,
};
use eslint_builtin::code_path::{CodePath, CodePathOrigin};
use eslint_builtin::code_path_segment::{CodePathSegment, SegmentArena};
use eslint_builtin::fork_context::ForkContextArena;
use eslint_builtin::code_path_analyzer::CodePathAnalyzer;
use eslint_builtin::code_path_segment::EnterOrExit;
use eslint_builtin::conf::globals::Visibility;
use eslint_builtin::debug_helpers::{dot_arrows_ready, get_id, make_dot_arrows, node_to_string};
use eslint_builtin::configs::all::{all, ErrorLevel};
use eslint_builtin::directive_comments::{
    directive, extract_directive_comment, global_setting_visibility, globals_directive_value,
    is_globals_directive, DirectiveComments,
};

#[test]
fn analyzer_starts_and_ends_code_paths() {
    let mut analyzer = CodePathAnalyzer::new();
    let program = analyzer.start_code_path(CodePathOrigin::Program);
    assert_eq!(analyzer.code_path_arena[program].id, "s1");
    analyzer.record_node(100, false);
    let function = analyzer.start_code_path(CodePathOrigin::Function);
    assert_eq!(analyzer.code_path_arena[function].id, "s2");
    assert_eq!(analyzer.code_path_arena[function].upper, Some(program));
    assert_eq!(analyzer.code_path_arena[program].child_code_paths, vec![function]);
    assert_eq!(analyzer.active_code_path, Some(function));
    let started = analyzer.forward_current_to_head();
    assert_eq!(started, vec![analyzer.code_path_arena[function].initial_segment()]);
    analyzer.record_node(200, false);
    analyzer.record_node(200, true);
    let ended = analyzer.end_code_path();
    assert_eq!(ended, vec![analyzer.code_path_arena[function].initial_segment()]);
    assert_eq!(analyzer.active_code_path, Some(program));
    assert_eq!(analyzer.code_paths, vec![program, function]);
    let enter = analyzer.get_segments_that_include_node_enter(200);
    assert_eq!(enter, vec![analyzer.code_path_arena[function].initial_segment()]);
    assert_eq!(analyzer.get_segments_that_include_node_exit(100), Vec::<usize>::new());
    assert_eq!(analyzer.get_innermost_code_path(&vec![true, true]), function);
    assert_eq!(analyzer.get_innermost_code_path(&vec![true, false]), program);
}

#[test]
fn dot_arrows_of_a_single_segment() {
    let mut analyzer = CodePathAnalyzer::new();
    let program = analyzer.start_code_path(CodePathOrigin::Program);
    let (text, walked) = make_dot_arrows(&analyzer.code_path_segment_arena, &analyzer.code_path_arena[program]);
    assert_eq!(text, "initial->s1_1;");
    assert_eq!(walked, vec![true]);
    assert_eq!(get_id(&analyzer.code_path_segment_arena, 0), "s1_1");
}

#[test]
fn node_names_for_dumps() {
    assert_eq!(node_to_string("identifier", Some("enter"), Some("foo")), "identifier:enter (foo)");
    assert_eq!(node_to_string("program", None, None), "program");
    assert_eq!(node_to_string("if_statement", Some("exit"), None), "if_statement:exit");
}

#[test]
fn method_definition_kinds() {
    let p = |t: &str| MethodName::Property(t.to_owned());
    assert_eq!(get_method_definition_kind(&p("constructor"), false, false, None), MethodDefinitionKind::Constructor);
    assert_eq!(get_method_definition_kind(&p("constructor"), true, false, None), MethodDefinitionKind::Method);
    assert_eq!(get_method_definition_kind(&p("constructor"), false, true, None), MethodDefinitionKind::Method);
    assert_eq!(get_method_definition_kind(&MethodName::String("'constructor'".to_owned()), false, false, None), MethodDefinitionKind::Constructor);
    assert_eq!(get_method_definition_kind(&p("x"), false, false, Some("get")), MethodDefinitionKind::Get);
    assert_eq!(get_method_definition_kind(&p("x"), false, true, Some("static get")), MethodDefinitionKind::Get);
    assert_eq!(get_method_definition_kind(&p("x"), false, false, Some("set")), MethodDefinitionKind::Setter);
    assert_eq!(get_method_definition_kind(&p("x"), false, false, Some("async")), MethodDefinitionKind::Method);
}

#[test]
fn object_property_kinds_and_statics() {
    assert_eq!(get_object_property_kind(&PropertyNode::Pair), ObjectPropertyKind::Init);
    assert_eq!(get_object_property_kind(&PropertyNode::MethodDefinition(vec!["get".to_owned()])), ObjectPropertyKind::Get);
    assert_eq!(get_object_property_kind(&PropertyNode::MethodDefinition(vec!["async".to_owned(), "set".to_owned()])), ObjectPropertyKind::Setter);
    assert_eq!(get_object_property_kind(&PropertyNode::MethodDefinition(vec![])), ObjectPropertyKind::Init);
    let child = |d: bool, t: &str| MemberChild { is_decorator: d, text: t.to_owned() };
    assert!(is_class_member_static(&vec![child(true, "@dec"), child(false, "static")]));
    assert!(!is_class_member_static(&vec![child(false, "get"), child(false, "static")]));
    assert!(!is_class_member_static(&vec![child(true, "@dec")]));
}

#[test]
fn punctuation_kinds() {
    assert!(is_punctuation_kind("("));
    assert!(is_punctuation_kind("=>"));
    assert!(!is_punctuation_kind("identifier"));
}

#[test]
fn comma_separated_lists_with_holes() {
    let item = |n| ListToken::Other { node: n, is_named: true };
    let punct = ListToken::Other { node: 0, is_named: false };
    let tokens = vec![punct, ListToken::Comma, item(1), ListToken::Comma, ListToken::Comma, item(2), punct];
    assert_eq!(
        get_comma_separated_optional_non_comment_named_children(&tokens),
        vec![None, Some(1), None, Some(2)]
    );
}

#[test]
fn template_literal_characters() {
    let part = |escape: bool, text: &str, quasi: Option<&str>| TemplatePart {
        is_escape: escape,
        text: text.to_owned(),
        quasi_before: quasi.map(|q| q.to_owned()),
    };
    assert!(!template_string_has_any_cooked_literal_characters(&vec![part(false, "`", None), part(false, "`", Some(""))]));
    assert!(template_string_has_any_cooked_literal_characters(&vec![part(false, "`", None), part(false, "`", Some("a"))]));
    assert!(template_string_has_any_cooked_literal_characters(&vec![part(false, "`", None), part(true, "\\n", Some("")), part(false, "`", Some(""))]));
    assert!(!template_string_has_any_cooked_literal_characters(&vec![part(false, "`", None), part(true, "\\\n", Some("")), part(false, "`", Some(""))]));
}

#[test]
fn directive_comment_parts() {
    assert_eq!(extract_directive_comment(" eslint-disable -- why "), ("eslint-disable".to_owned(), "why".to_owned()));
    assert_eq!(extract_directive_comment(" global foo "), ("global foo".to_owned(), "".to_owned()));
    assert_eq!(directive("globals a, b"), Some(("globals".to_owned(), " a, b".to_owned())));
    assert_eq!(directive("eslint-disable-next-line"), Some(("eslint-disable-next-line".to_owned(), "".to_owned())));
    assert_eq!(directive("globalization"), None);
    assert!(is_globals_directive("global") && is_globals_directive("globals") && !is_globals_directive("exported"));
    assert_eq!(global_setting_visibility(None), Some(Visibility::Readonly));
    assert_eq!(global_setting_visibility(Some("true")), Some(Visibility::Writable));
    assert_eq!(global_setting_visibility(Some("nope")), None);
}

#[test]
fn enabled_globals_take_the_last_setting() {
    let mut comments = DirectiveComments::new();
    comments.record("foo".to_owned(), Visibility::Readonly, 1);
    comments.record("bar".to_owned(), Visibility::Writable, 1);
    comments.record("foo".to_owned(), Visibility::Writable, 2);
    assert_eq!(comments.visibility("foo"), Some(Visibility::Writable));
    assert_eq!(comments.visibility("bar"), Some(Visibility::Writable));
    assert_eq!(comments.visibility("baz"), None);
    assert_eq!(comments.enabled_globals.len(), 2);
    assert_eq!(comments.enabled_globals[0].comments, vec![1, 2]);
}

#[test]
fn segment_marks_are_recorded() {
    let mut analyzer = CodePathAnalyzer::new();
    analyzer.start_code_path(CodePathOrigin::Program);
    analyzer.forward_current_to_head();
    analyzer.record_node(5, false);
    assert_eq!(analyzer.code_path_segment_arena.segments[0].nodes, vec![(EnterOrExit::Enter, 5)]);
}

#[test]
fn globals_directives_are_read_and_recorded() {
    assert_eq!(globals_directive_value("/* globals foo: true, bar */"), Some(" foo: true, bar".to_owned()));
    assert_eq!(globals_directive_value("/* global x -- why */"), Some(" x".to_owned()));
    assert_eq!(globals_directive_value("// eslint-disable-line"), None);
    assert_eq!(globals_directive_value("// globalization"), None);
    let mut comments = DirectiveComments::new();
    comments.record("c".to_owned(), Visibility::Off, 1);
    let settings = vec![
        ("a".to_owned(), None),
        ("b".to_owned(), Some("\"writable\"".to_owned())),
        ("a".to_owned(), Some("true".to_owned())),
    ];
    comments.record_globals(2, &settings);
    assert_eq!(comments.visibility("a"), Some(Visibility::Writable));
    assert_eq!(comments.visibility("b"), Some(Visibility::Writable));
    assert_eq!(comments.visibility("c"), Some(Visibility::Off));
    assert_eq!(comments.enabled_globals[1].comments, vec![2, 2]);
}

#[test]
fn dot_arrows_of_a_fork() {
    let mut arena = SegmentArena::new();
    let mut code_paths: Vec<CodePath> = Vec::new();
    let mut forks = ForkContextArena { contexts: Vec::new() };
    let c = CodePath::new(&mut code_paths, &mut forks, &mut arena, "s1".to_owned(), CodePathOrigin::Program, None);
    let initial = code_paths[c].initial_segment();
    CodePathSegment::mark_used(&mut arena, initial);
    let left = CodePathSegment::new_next(&mut arena, "s1_2".to_owned(), &[initial]);
    CodePathSegment::mark_used(&mut arena, left);
    let right = CodePathSegment::new_next(&mut arena, "s1_3".to_owned(), &[initial]);
    CodePathSegment::mark_used(&mut arena, right);
    let _alone = CodePathSegment::new_root(&mut arena, "s1_4".to_owned());
    code_paths[c].returned_segments = vec![left];
    code_paths[c].thrown_segments = vec![right];
    let (text, walked) = make_dot_arrows(&arena, &code_paths[c]);
    assert_eq!(text, "initial->s1_1->s1_2;\ns1_1->s1_3;\ns1_2->final;\ns1_3->thrown;");
    assert_eq!(walked, vec![true, true, true, false]);
}

#[test]
fn every_rule_is_turned_on_by_the_full_configuration() {
    let keys = all();
    assert_eq!(keys.len(), 95);
    assert_eq!(keys[0], ("eslint-builtin/for-direction".to_owned(), ErrorLevel::Error));
    assert_eq!(keys[94], ("eslint-builtin/default-param-last".to_owned(), ErrorLevel::Error));
    assert!(keys.iter().all(|(_, level)| *level == ErrorLevel::Error));
    assert!(keys.contains(&("eslint-builtin/accessor-pairs".to_owned(), ErrorLevel::Error)));
    let mut names: Vec<&String> = keys.iter().map(|(k, _)| k).collect();
    names.sort();
    names.dedup();
    assert_eq!(names.len(), 95);
}

#[test]
fn drawing_needs_segments_in_range() {
    let mut arena = SegmentArena::new();
    let mut code_paths: Vec<CodePath> = Vec::new();
    let mut forks = ForkContextArena { contexts: Vec::new() };
    let c = CodePath::new(&mut code_paths, &mut forks, &mut arena, "s1".to_owned(), CodePathOrigin::Program, None);
    assert!(dot_arrows_ready(&arena, &code_paths[c]));
    code_paths[c].returned_segments = vec![7];
    assert!(!dot_arrows_ready(&arena, &code_paths[c]));
    code_paths[c].returned_segments = vec![];
    arena.segments[0].all_next_segments.push(3);
    assert!(!dot_arrows_ready(&arena, &code_paths[c]));
}
