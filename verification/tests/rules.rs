use eslint_builtin::ast_helpers::MethodDefinitionKind;
use eslint_builtin::rules::accessor_pairs::{
    self, check_class_body, check_list, check_object_literal, check_property_descriptor,
    is_property_descriptor, keys_equal, message_id, place, Accessor, AccessorKey, MethodCallArgument,
    Missing, Place, Report, Token,
};
use eslint_builtin::rules::array_bracket_newline::{
    self, bracket_reports, check_array, needs_linebreaks, ArrayLayout, BracketMessage, OptionsEnum,
    OptionsObject,
};
use eslint_builtin::rules::array_callback_return::{
    self, array_method_of_call, array_method_step, end_message, full_method_name, is_target_method,
    return_message, Parent, Step,
};
use eslint_builtin::rules::class_methods_use_this::{self, ClassMethodsUseThis, Member, MemberName};
use eslint_builtin::rules::consistent_return::{self, has_return_value, ConsistentReturn, ReturnArgument};
use eslint_builtin::rules::default_case::{self, DefaultCase};
use eslint_builtin::rules::dot_location::{self, check_member_expression, moved_dot_text};
use eslint_builtin::rules::for_direction::is_wrong_direction;
use eslint_builtin::rules::getter_return::{
    self, is_getter, Enclosing, FunctionFacts, GetterReturn, MemberAccess, Placement,
};
use eslint_builtin::rules::guard_for_in::{check_for_in, Consequence, ForInBody};
use eslint_builtin::rules::line_comment_position::{self, check_comment, AboveOrBeside};
use eslint_builtin::rules::max_nested_callbacks::{self, MaxNestedCallbacks};
use eslint_builtin::rules::max_statements::{self, Counted, Max, MaxStatements, OptionsVariants};
use eslint_builtin::rules::no_cond_assign::{
    check_assignment, check_test_with_assignment, description, find_conditional_ancestor, Ancestor,
    ProhibitAssign,
};

fn getter(node: usize, name: &str) -> Accessor {
    Accessor { node, kind: MethodDefinitionKind::Get, key: AccessorKey::Name(name.to_owned()), is_static: false }
}

fn setter(node: usize, name: &str) -> Accessor {
    Accessor { node, kind: MethodDefinitionKind::Setter, key: AccessorKey::Name(name.to_owned()), is_static: false }
}

#[test]
fn accessor_pairs_defaults() {
    let o = accessor_pairs::Options::default();
    assert!(!o.get_without_set && o.set_without_get && o.enforce_for_class_members);
}

#[test]
fn lone_setter_is_reported_and_pairs_are_not() {
    let options = accessor_pairs::Options::default();
    let items = vec![setter(1, "a"), getter(2, "b"), setter(3, "b"), setter(4, "c")];
    assert_eq!(
        check_list(&items, options),
        vec![
            Report { node: 1, missing: Missing::Getter },
            Report { node: 4, missing: Missing::Getter },
        ]
    );
}

#[test]
fn lone_getter_is_reported_when_asked() {
    let options = accessor_pairs::Options { get_without_set: true, set_without_get: true, enforce_for_class_members: true };
    let items = vec![getter(1, "a"), getter(2, "a"), setter(3, "c"), getter(4, "d")];
    assert_eq!(
        check_list(&items, options),
        vec![
            Report { node: 1, missing: Missing::Setter },
            Report { node: 2, missing: Missing::Setter },
            Report { node: 3, missing: Missing::Getter },
            Report { node: 4, missing: Missing::Setter },
        ]
    );
}

#[test]
fn computed_token_keys() {
    let tokens = |text: &str| {
        AccessorKey::Tokens(vec![Token { kind: "identifier".to_owned(), text: text.to_owned() }])
    };
    let options = accessor_pairs::Options::default();
    let items = vec![
        Accessor { node: 1, kind: MethodDefinitionKind::Get, key: tokens("x"), is_static: false },
        Accessor { node: 2, kind: MethodDefinitionKind::Setter, key: tokens("x"), is_static: false },
        Accessor { node: 3, kind: MethodDefinitionKind::Setter, key: tokens("y"), is_static: false },
    ];
    assert_eq!(check_list(&items, options), vec![Report { node: 3, missing: Missing::Getter }]);
    assert!(keys_equal(&tokens("x"), &tokens("x")));
    assert!(!keys_equal(&tokens("x"), &AccessorKey::Name("x".to_owned())));
}

#[test]
fn class_bodies_pair_static_and_instance_members_apart() {
    let options = accessor_pairs::Options::default();
    let mut s = setter(1, "a");
    s.is_static = true;
    let items = vec![s, getter(2, "a"), setter(3, "a")];
    assert_eq!(check_class_body(&items, options), vec![Report { node: 1, missing: Missing::Getter }]);
    let off = accessor_pairs::Options { enforce_for_class_members: false, ..options };
    assert!(check_class_body(&items, off).is_empty());
}

#[test]
fn object_literals_are_skipped_without_checks() {
    let none = accessor_pairs::Options { get_without_set: false, set_without_get: false, enforce_for_class_members: true };
    assert!(check_object_literal(&vec![setter(1, "a")], none).is_empty());
}

#[test]
fn property_descriptors() {
    let options = accessor_pairs::Options::default();
    assert_eq!(check_property_descriptor(&vec!["set".to_owned()], options), Some(Missing::Getter));
    assert_eq!(check_property_descriptor(&vec!["get".to_owned(), "set".to_owned()], options), None);
    let both = accessor_pairs::Options { get_without_set: true, ..options };
    assert_eq!(check_property_descriptor(&vec!["get".to_owned()], both), Some(Missing::Setter));
    let arg = |object: &str, property: &str, index: usize| {
        Some(MethodCallArgument { object: object.to_owned(), property: property.to_owned(), index })
    };
    assert!(is_property_descriptor(&arg("Object", "defineProperty", 2), false, &None));
    assert!(is_property_descriptor(&arg("Reflect", "defineProperty", 2), false, &None));
    assert!(!is_property_descriptor(&arg("Object", "defineProperty", 1), false, &None));
    assert!(is_property_descriptor(&None, true, &arg("Object", "create", 1)));
    assert!(!is_property_descriptor(&None, false, &arg("Object", "create", 1)));
}

#[test]
fn accessor_pairs_message_ids() {
    assert_eq!(message_id(Missing::Getter, place(false, false)), "missing_getter_in_property_descriptor");
    assert_eq!(message_id(Missing::Setter, place(true, true)), "missing_setter_in_object_literal");
    assert_eq!(message_id(Missing::Getter, place(true, false)), "missing_getter_in_class");
    assert_eq!(place(true, false), Place::Class);
}

#[test]
fn array_bracket_newline_options() {
    assert!(OptionsEnum::Consistent.consistent());
    assert!(!OptionsEnum::Always.multiline());
    assert_eq!(OptionsEnum::Always.min_items(), 0);
    assert_eq!(OptionsEnum::Never.min_items(), usize::MAX);
    let o = OptionsObject { multiline: Some(true), min_items: None };
    assert!(o.multiline() && !o.consistent());
    assert_eq!(o.min_items(), usize::MAX);
    let d = array_bracket_newline::Options::default();
    assert!(d.multiline() && !d.consistent());
    assert_eq!(d.min_items(), usize::MAX);
}

fn layout(num_elements: usize, first_row: usize, last_row: usize) -> ArrayLayout {
    ArrayLayout {
        num_elements,
        first_inc_comment_start_row: first_row,
        last_inc_comment_end_row: last_row,
        first_is_last_inc_comment: false,
        first_inc_comment_is_block_comment: false,
        open_bracket_end_row: 0,
        first_start_row: first_row,
    }
}

#[test]
fn array_bracket_newline_decisions() {
    assert!(needs_linebreaks(layout(2, 0, 1), false, true, usize::MAX));
    assert!(!needs_linebreaks(layout(2, 0, 0), false, true, usize::MAX));
    assert!(needs_linebreaks(layout(0, 0, 0), false, false, 0));
    let mut comment = layout(0, 0, 2);
    comment.first_inc_comment_is_block_comment = true;
    comment.first_is_last_inc_comment = true;
    assert!(needs_linebreaks(comment, false, false, usize::MAX));
    assert_eq!(bracket_reports(true, true, false), (Some(BracketMessage::MissingOpeningLinebreak), None));
    assert_eq!(bracket_reports(false, false, false), (
        Some(BracketMessage::UnexpectedOpeningLinebreak),
        Some(BracketMessage::UnexpectedClosingLinebreak)
    ));
    let always = array_bracket_newline::Options::Enum(OptionsEnum::Always);
    assert_eq!(check_array(&always, layout(0, 0, 0), true, true), (
        Some(BracketMessage::MissingOpeningLinebreak),
        Some(BracketMessage::MissingClosingLinebreak)
    ));
}

#[test]
fn array_callback_return_full_method_names() {
    assert_eq!(full_method_name("from"), "Array.from");
    assert_eq!(full_method_name("of"), "Array.of");
    assert_eq!(full_method_name("isArray"), "Array.isArray");
    assert_eq!(full_method_name("map"), "Array.prototype.map");
}

#[test]
fn array_callback_return_targets() {
    for name in ["every", "filter", "find", "findLast", "findIndex", "findLastIndex", "flatMap", "forEach", "map", "reduce", "reduceRight", "some", "sort", "toSorted"] {
        assert!(is_target_method(name), "{name}");
    }
    for name in ["push", "mapx", "Map", "findLastX"] {
        assert!(!is_target_method(name), "{name}");
    }
    assert_eq!(array_method_of_call(true, Some(1), None), Some("from".to_owned()));
    assert_eq!(array_method_of_call(false, Some(0), Some("map")), Some("map".to_owned()));
    assert_eq!(array_method_of_call(false, Some(1), Some("map")), None);
    assert_eq!(array_method_of_call(false, Some(0), Some("push")), None);
    assert_eq!(array_method_step(Parent::Binary { logical: false }), Step::NotCallback);
    assert_eq!(array_method_step(Parent::Binary { logical: true }), Step::Up);
    assert_eq!(array_method_step(Parent::Return { upper_is_callee: true }), Step::UpFromFunction);
    assert_eq!(array_method_step(Parent::Call), Step::AtCall);
}

#[test]
fn array_callback_return_messages() {
    let o = array_callback_return::Options::default();
    assert_eq!(return_message("map", false, o), Some(array_callback_return::Message::ExpectedReturnValue));
    assert_eq!(return_message("map", true, o), None);
    assert_eq!(return_message("forEach", true, o), None);
    let each = array_callback_return::Options { check_for_each: true, ..o };
    assert_eq!(return_message("forEach", true, each), Some(array_callback_return::Message::ExpectedNoReturnValue));
    assert_eq!(end_message("map", false, true, true, true, o), Some(array_callback_return::Message::ExpectedAtEnd));
    assert_eq!(end_message("map", false, true, true, false, o), Some(array_callback_return::Message::ExpectedInside));
    assert_eq!(end_message("map", false, true, false, false, o), None);
    assert_eq!(end_message("forEach", true, false, true, false, each), Some(array_callback_return::Message::ExpectedNoReturnValue));
}

fn method(name: MemberName) -> Member {
    Member {
        is_method_definition: true,
        is_static: false,
        kind: MethodDefinitionKind::Method,
        parent_is_field_definition: false,
        parent_is_static: false,
        name,
    }
}

#[test]
fn class_methods_use_this_reports_methods_without_this() {
    let mut rule = ClassMethodsUseThis::new(class_methods_use_this::Options::default());
    rule.push_context();
    assert!(rule.exit_function(&method(MemberName::Property("foo".to_owned()))));
    rule.push_context();
    rule.on_this();
    assert!(!rule.exit_function(&method(MemberName::Property("foo".to_owned()))));
    assert!(rule.stack.is_empty());
}

#[test]
fn class_methods_use_this_exceptions() {
    let options = class_methods_use_this::Options {
        except_methods: Some(vec!["foo".to_owned(), "#bar".to_owned()]),
        enforce_for_class_fields: None,
    };
    let mut rule = ClassMethodsUseThis::new(options);
    assert!(rule.enforce_for_class_fields);
    assert!(!rule.is_included_instance_method(&method(MemberName::Property("foo".to_owned()))));
    assert!(!rule.is_included_instance_method(&method(MemberName::Private("bar".to_owned()))));
    assert!(rule.is_included_instance_method(&method(MemberName::Private("foo".to_owned()))));
    assert!(rule.is_included_instance_method(&method(MemberName::Computed)));
    let mut stat = method(MemberName::Property("baz".to_owned()));
    stat.is_static = true;
    assert!(!rule.is_included_instance_method(&stat));
    let mut ctor = method(MemberName::Property("constructor".to_owned()));
    ctor.kind = MethodDefinitionKind::Constructor;
    assert!(!rule.is_included_instance_method(&ctor));
    rule.enter_field_arrow_function();
    assert_eq!(rule.stack.len(), 1);
    let field = Member {
        is_method_definition: false,
        is_static: false,
        kind: MethodDefinitionKind::Method,
        parent_is_field_definition: true,
        parent_is_static: false,
        name: MemberName::Property("qux".to_owned()),
    };
    assert!(rule.exit_arrow_function(true, &field));
    assert!(!rule.exit_arrow_function(false, &field));
}

#[test]
fn consistent_return_first_return_decides() {
    let mut rule = ConsistentReturn::new();
    assert_eq!(rule.on_return(0, true, "Function 'foo'".to_owned()), None);
    assert_eq!(rule.on_return(0, true, "x".to_owned()), None);
    assert_eq!(
        rule.on_return(0, false, "x".to_owned()),
        Some((consistent_return::Message::MissingReturnValue, "Function 'foo'".to_owned()))
    );
    assert_eq!(rule.on_return(1, false, "Function 'bar'".to_owned()), None);
    assert_eq!(
        rule.on_return(1, true, "y".to_owned()),
        Some((consistent_return::Message::UnexpectedReturnValue, "Function 'bar'".to_owned()))
    );
    assert_eq!(rule.missing_returns(&vec![(0, true, false), (1, true, false), (0, false, false), (0, true, true)]), vec![0]);
}

#[test]
fn consistent_return_return_values() {
    let plain = consistent_return::Options::default();
    let treat = consistent_return::Options { treat_undefined_as_unspecified: true };
    assert!(!has_return_value(ReturnArgument::Nothing, plain));
    assert!(has_return_value(ReturnArgument::Undefined, plain));
    assert!(!has_return_value(ReturnArgument::Undefined, treat));
    assert!(!has_return_value(ReturnArgument::Void, treat));
    assert!(has_return_value(ReturnArgument::Other, treat));
}

#[test]
fn default_case_comments() {
    let rule = DefaultCase::new(default_case::Options::default()).unwrap();
    assert!(rule.check_switch(1, false, None));
    assert!(!rule.check_switch(1, true, None));
    assert!(!rule.check_switch(0, false, None));
    assert!(!rule.check_switch(1, false, Some("// no default")));
    assert!(!rule.check_switch(1, false, Some("//   No Default  ")));
    assert!(rule.check_switch(1, false, Some("// no default here")));
    let custom = DefaultCase::new(default_case::Options { comment_pattern: Some("^skip default".to_owned()) }).unwrap();
    assert!(!custom.check_switch(1, false, Some("/* skip default case */")));
    assert!(DefaultCase::new(default_case::Options { comment_pattern: Some("(".to_owned()) }).is_none());
}

#[test]
fn dot_location_decisions() {
    assert_eq!(check_member_expression(dot_location::Options::Object, false, true), Some(dot_location::Message::ExpectedDotAfterObject));
    assert_eq!(check_member_expression(dot_location::Options::Object, true, false), None);
    assert_eq!(check_member_expression(dot_location::Options::Property, true, false), Some(dot_location::Message::ExpectedDotBeforeProperty));
    assert_eq!(moved_dot_text(".", true), " .");
    assert_eq!(moved_dot_text(".", false), ".");
    assert_eq!(moved_dot_text("?.", true), "?.");
}

#[test]
fn for_direction_decisions() {
    assert!(is_wrong_direction("<", "--", false));
    assert!(!is_wrong_direction("<", "++", false));
    assert!(is_wrong_direction(">", "++", false));
    assert!(!is_wrong_direction("<", "-=", true));
    assert!(is_wrong_direction("<", "+=", true));
    assert!(!is_wrong_direction(">=", "+=", true));
}

fn facts(kind: &str, placement: Placement) -> FunctionFacts {
    FunctionFacts { kind: kind.to_owned(), body_is_block: true, has_get_keyword: false, placement }
}

#[test]
fn getter_return_getters() {
    let mut get_method = facts("method_definition", Placement::Other);
    get_method.has_get_keyword = true;
    assert!(is_getter(&get_method));
    let access = |o: &str, p: &str| Some(MemberAccess { object: o.to_owned(), property: p.to_owned() });
    assert!(is_getter(&facts("function", Placement::GetProperty(Enclosing::ArgumentOf(access("Object", "defineProperty"))))));
    assert!(is_getter(&facts("arrow_function", Placement::GetProperty(Enclosing::PropertyOfArgumentOf(access("Object", "create"))))));
    assert!(!is_getter(&facts("function", Placement::GetProperty(Enclosing::ArgumentOf(access("foo", "defineProperty"))))));
    assert!(!is_getter(&facts("class", Placement::GetMethod(Enclosing::ArgumentOf(access("Object", "defineProperty"))))));
    let mut expression_body = facts("arrow_function", Placement::GetProperty(Enclosing::ArgumentOf(access("Object", "defineProperty"))));
    expression_body.body_is_block = false;
    assert!(!is_getter(&expression_body));
}

#[test]
fn getter_return_state() {
    let mut rule = GetterReturn::new(getter_return::Options::default(), &vec![3, 5]);
    assert!(rule.on_return(3, false));
    assert!(!rule.on_return(3, true));
    assert!(!rule.on_return(4, false));
    assert_eq!(
        rule.on_program_exit(&vec![(3, true), (4, true), (5, true), (5, false)]),
        vec![(3, getter_return::Message::ExpectedAlways), (5, getter_return::Message::Expected)]
    );
    let mut implicit = GetterReturn::new(getter_return::Options { allow_implicit: true }, &vec![1]);
    assert!(!implicit.on_return(1, false));
}

#[test]
fn guard_for_in_bodies() {
    assert!(!check_for_in(ForInBody::Empty));
    assert!(!check_for_in(ForInBody::If));
    assert!(!check_for_in(ForInBody::Block { len: 0, first_if: None }));
    assert!(!check_for_in(ForInBody::Block { len: 1, first_if: Some(Consequence::Other) }));
    assert!(!check_for_in(ForInBody::Block { len: 2, first_if: Some(Consequence::Continue) }));
    assert!(!check_for_in(ForInBody::Block { len: 2, first_if: Some(Consequence::Block { first_is_continue: true, len: 1 }) }));
    assert!(check_for_in(ForInBody::Block { len: 2, first_if: Some(Consequence::Block { first_is_continue: true, len: 2 }) }));
    assert!(check_for_in(ForInBody::Block { len: 2, first_if: Some(Consequence::Other) }));
    assert!(check_for_in(ForInBody::Block { len: 1, first_if: None }));
    assert!(check_for_in(ForInBody::Other));
}

#[test]
fn line_comment_position_decisions() {
    let above = line_comment_position::Options::default();
    assert_eq!(check_comment(&above, true, " valid comment", true), Some(line_comment_position::Message::Above));
    assert_eq!(check_comment(&above, true, " valid comment", false), None);
    assert_eq!(check_comment(&above, false, " block", true), None);
    assert_eq!(check_comment(&above, true, " eslint-disable-line", true), None);
    assert_eq!(check_comment(&above, true, " falls through", true), None);
    assert_eq!(check_comment(&above, true, " globalization is a word", true), Some(line_comment_position::Message::Above));
    let beside = line_comment_position::Options::SingleValue(AboveOrBeside::Beside);
    assert_eq!(check_comment(&beside, true, " invalid", false), Some(line_comment_position::Message::Beside));
    let object = line_comment_position::Options::Object(line_comment_position::OptionsObject {
        position: AboveOrBeside::Above,
        ignore_pattern: eslint_builtin::pattern::Pattern::new("pragma"),
        apply_default_ignore_patterns: false,
    });
    assert_eq!(check_comment(&object, true, " pragma valid", true), None);
    assert_eq!(check_comment(&object, true, " eslint-disable-line", true), Some(line_comment_position::Message::Above));
}

#[test]
fn max_nested_callbacks_depths() {
    let mut rule = MaxNestedCallbacks::new(max_nested_callbacks::Options::Usize(2));
    assert_eq!(rule.on_callback(10), None);
    assert_eq!(rule.on_callback(11), None);
    assert_eq!(rule.on_callback(12), Some(3));
    rule.on_function_exit(99);
    assert_eq!(rule.callback_stack, vec![10, 11, 12]);
    rule.on_function_exit(12);
    assert_eq!(rule.callback_stack, vec![10, 11]);
    assert_eq!(max_nested_callbacks::Options::default().max(), 10);
    assert_eq!(max_nested_callbacks::Options::Object(max_nested_callbacks::OptionsObject { max: 3 }).max(), 3);
}

#[test]
fn max_statements_counts() {
    let options = max_statements::Options::from_variants(OptionsVariants::JustMax(Max::Usize(2)));
    assert_eq!(options, max_statements::Options { max: 2, ignore_top_level_functions: false });
    let mut rule = MaxStatements::new(options);
    rule.enter_function();
    rule.on_statement_block(3);
    assert_eq!(rule.exit_function(7, false), Some(3));
    rule.enter_function();
    rule.on_statement_block(3);
    assert_eq!(rule.exit_function(8, true), None);
    assert_eq!(max_statements::Options::default().max, 10);
}

#[test]
fn max_statements_top_level_functions() {
    let options = max_statements::Options::from_variants(OptionsVariants::MaxAndOptionsObject(
        Max::Object(max_statements::MaxObject { max: 1 }),
        max_statements::OptionsObject { ignore_top_level_functions: true },
    ));
    let mut rule = MaxStatements::new(options);
    rule.enter_function();
    rule.on_statement_block(2);
    assert_eq!(rule.exit_function(1, false), None);
    assert!(rule.on_program_exit().is_empty());
    rule.enter_function();
    rule.on_statement_block(1);
    assert_eq!(rule.exit_function(2, false), None);
    assert_eq!(rule.on_program_exit(), vec![Counted { node: 1, count: 2 }]);
}

#[test]
fn no_cond_assign_decisions() {
    let a = |t: bool, f: bool| Ancestor { is_test_condition: t, is_function: f };
    let chain = vec![a(false, false), a(true, false), a(false, false)];
    assert_eq!(find_conditional_ancestor(&chain), Some(2));
    let blocked = vec![a(false, false), a(false, true), a(true, false)];
    assert_eq!(find_conditional_ancestor(&blocked), None);
    assert_eq!(check_assignment(ProhibitAssign::Always, &chain), Some(2));
    assert_eq!(check_assignment(ProhibitAssign::ExceptParens, &chain), None);
    assert!(check_test_with_assignment(ProhibitAssign::ExceptParens));
    assert!(!check_test_with_assignment(ProhibitAssign::Always));
    assert_eq!(description("do_statement"), "a 'do...while' statement");
    assert_eq!(description("if_statement"), "an 'if' statement");
    assert_eq!(description("ternary_expression"), "ternary_expression");
}
