//! Cases of each rule, written as the facts the rule reads off the code in
//! the comment above each one.

use eslint_builtin::ast_helpers::MethodDefinitionKind;
use eslint_builtin::ast_helpers::MethodDefinitionKind::{Constructor, Get, Method, Setter};
use eslint_builtin::pattern::Pattern;
use eslint_builtin::rules::accessor_pairs::{
    self, check_class_body, check_object_literal, check_property_descriptor, is_property_descriptor,
    message_id, place, Accessor, AccessorKey, MethodCallArgument, Missing, Report,
};
use eslint_builtin::rules::array_bracket_newline::{self, check_array, ArrayLayout, BracketMessage, OptionsEnum};
use eslint_builtin::rules::array_callback_return::{self, end_message, return_message, Message as CallbackMessage};
use eslint_builtin::rules::class_methods_use_this::{self, ClassMethodsUseThis, Member, MemberName};
use eslint_builtin::rules::consistent_return::{self, has_return_value, ConsistentReturn, ReturnArgument};
use eslint_builtin::rules::dot_location::{self, check_member_expression};
use eslint_builtin::rules::line_comment_position::Message as CommentMessage;
use eslint_builtin::rules::getter_return::{self, is_getter, Enclosing, FunctionFacts, GetterReturn, MemberAccess, Placement};
use eslint_builtin::rules::line_comment_position::{self, check_comment, AboveOrBeside, OptionsObject};
use eslint_builtin::rules::max_statements::{self, Max, MaxStatements, OptionsVariants};
use eslint_builtin::rules::no_cond_assign::{
    check_assignment, check_test_with_assignment, description, Ancestor, ProhibitAssign,
};

fn accessor(node: usize, kind: MethodDefinitionKind, name: &str, is_static: bool) -> Accessor {
    Accessor { node, kind, key: AccessorKey::Name(name.to_owned()), is_static }
}

#[test]
fn test_accessor_pairs_rule() {
    let defaults = accessor_pairs::Options::default();
    let both = accessor_pairs::Options { get_without_set: true, ..defaults };
    // valid: var o = { get a() {}, set a(value) {} };
    assert!(check_object_literal(&vec![accessor(1, Get, "a", false), accessor(2, Setter, "a", false)], defaults).is_empty());
    // valid: var o = { get a() {} };  (getters alone are allowed by default)
    assert!(check_object_literal(&vec![accessor(1, Get, "a", false)], defaults).is_empty());
    // invalid: var o = { set a(value) {} };
    assert_eq!(
        check_object_literal(&vec![accessor(1, Setter, "a", false)], defaults),
        vec![Report { node: 1, missing: Missing::Getter }]
    );
    // invalid with getWithoutSet: var o = { get a() {} };
    assert_eq!(
        check_object_literal(&vec![accessor(1, Get, "a", false)], both),
        vec![Report { node: 1, missing: Missing::Setter }]
    );
    // invalid: var o = { get a() {}, set b(value) {} };  (with getWithoutSet)
    assert_eq!(
        check_object_literal(&vec![accessor(1, Get, "a", false), accessor(2, Setter, "b", false)], both),
        vec![Report { node: 1, missing: Missing::Setter }, Report { node: 2, missing: Missing::Getter }]
    );
    assert_eq!(message_id(Missing::Getter, place(true, true)), "missing_getter_in_object_literal");
    // valid: class A { get a() {} set a(foo) {} }
    assert!(check_class_body(&vec![accessor(1, Get, "a", false), accessor(2, Setter, "a", false)], defaults).is_empty());
    // invalid: class A { set a(foo) {} }
    assert_eq!(
        check_class_body(&vec![accessor(1, Setter, "a", false)], defaults),
        vec![Report { node: 1, missing: Missing::Getter }]
    );
    assert_eq!(message_id(Missing::Getter, place(true, false)), "missing_getter_in_class");
    // invalid: class A { static set a(foo) {} get a() {} }  (a static setter pairs with static members only)
    assert_eq!(
        check_class_body(&vec![accessor(1, Setter, "a", true), accessor(2, Get, "a", false)], defaults),
        vec![Report { node: 1, missing: Missing::Getter }]
    );
    // valid with enforceForClassMembers: false: class A { set a(foo) {} }
    let classes_off = accessor_pairs::Options { enforce_for_class_members: false, ..defaults };
    assert!(check_class_body(&vec![accessor(1, Setter, "a", false)], classes_off).is_empty());
    // invalid: Object.defineProperty(obj, 'foo', {set: function(value) {}});
    let define = Some(MethodCallArgument { object: "Object".to_owned(), property: "defineProperty".to_owned(), index: 2 });
    assert!(is_property_descriptor(&define, false, &None));
    assert_eq!(check_property_descriptor(&vec!["set".to_owned()], defaults), Some(Missing::Getter));
    assert_eq!(message_id(Missing::Getter, place(false, false)), "missing_getter_in_property_descriptor");
    // valid: Object.defineProperty(obj, 'foo', {get: function() {}, set: function(value) {}});
    assert_eq!(check_property_descriptor(&vec!["get".to_owned(), "set".to_owned()], defaults), None);
    // valid: var o = {set: function(value) {}};  (no property descriptor)
    assert!(!is_property_descriptor(&None, false, &None));
}

fn rows(num_elements: usize, first_row: usize, last_row: usize, open_row: usize) -> ArrayLayout {
    ArrayLayout {
        num_elements,
        first_inc_comment_start_row: first_row,
        last_inc_comment_end_row: last_row,
        first_is_last_inc_comment: num_elements <= 1,
        first_inc_comment_is_block_comment: false,
        open_bracket_end_row: open_row,
        first_start_row: first_row,
    }
}

#[test]
fn test_array_bracket_newline_rule() {
    let defaults = array_bracket_newline::Options::default();
    // valid: var foo = [];
    assert_eq!(check_array(&defaults, rows(0, 0, 0, 0), true, true), (None, None));
    // valid: var foo = [1, 2];
    assert_eq!(check_array(&defaults, rows(2, 0, 0, 0), true, true), (None, None));
    // valid: var foo = [\n1,\n2\n];
    assert_eq!(check_array(&defaults, rows(2, 1, 2, 0), false, false), (None, None));
    // invalid: var foo = [1,\n2];
    assert_eq!(
        check_array(&defaults, rows(2, 0, 1, 0), true, true),
        (Some(BracketMessage::MissingOpeningLinebreak), Some(BracketMessage::MissingClosingLinebreak))
    );
    // invalid: var foo = [\n1, 2\n];
    assert_eq!(
        check_array(&defaults, rows(2, 1, 1, 0), false, false),
        (Some(BracketMessage::UnexpectedOpeningLinebreak), Some(BracketMessage::UnexpectedClosingLinebreak))
    );
    let always = array_bracket_newline::Options::Enum(OptionsEnum::Always);
    // valid with "always": var foo = [\n];
    assert_eq!(check_array(&always, rows(0, 1, 1, 0), false, false), (None, None));
    // invalid with "always": var foo = [1];
    assert_eq!(
        check_array(&always, rows(1, 0, 0, 0), true, true),
        (Some(BracketMessage::MissingOpeningLinebreak), Some(BracketMessage::MissingClosingLinebreak))
    );
    let never = array_bracket_newline::Options::Enum(OptionsEnum::Never);
    // valid with "never": var foo = [1,\n2];
    assert_eq!(check_array(&never, rows(2, 0, 1, 0), true, true), (None, None));
    // invalid with "never": var foo = [\n1\n];
    assert_eq!(
        check_array(&never, rows(1, 1, 1, 0), false, false),
        (Some(BracketMessage::UnexpectedOpeningLinebreak), Some(BracketMessage::UnexpectedClosingLinebreak))
    );
    let consistent = array_bracket_newline::Options::Enum(OptionsEnum::Consistent);
    // valid with "consistent": var foo = [\n1\n];
    assert_eq!(check_array(&consistent, rows(1, 1, 1, 0), false, false), (None, None));
    // invalid with "consistent": var foo = [\n1];
    assert_eq!(check_array(&consistent, rows(1, 1, 1, 0), false, true).1, Some(BracketMessage::MissingClosingLinebreak));
}

#[test]
fn test_array_callback_return_rule() {
    let defaults = array_callback_return::Options::default();
    let for_each = array_callback_return::Options { check_for_each: true, ..defaults };
    // valid: foo.map(function() { return true; })  (the end cannot be reached)
    assert_eq!(return_message("map", true, defaults), None);
    assert_eq!(end_message("map", false, true, false, true, defaults), None);
    // valid: foo.map(x => x)
    assert_eq!(end_message("map", true, false, true, false, defaults), None);
    // valid: foo.forEach(function() {})
    assert_eq!(end_message("forEach", false, true, true, false, defaults), None);
    // invalid: foo.map(function() {})
    assert_eq!(end_message("map", false, true, true, false, defaults), Some(CallbackMessage::ExpectedInside));
    // invalid: foo.every(function() { if (a) return true; })
    assert_eq!(end_message("every", false, true, true, true, defaults), Some(CallbackMessage::ExpectedAtEnd));
    // invalid: foo.filter(function() { return; })
    assert_eq!(return_message("filter", false, defaults), Some(CallbackMessage::ExpectedReturnValue));
    // invalid with checkForEach: foo.forEach(x => x)
    assert_eq!(end_message("forEach", true, false, true, false, for_each), Some(CallbackMessage::ExpectedNoReturnValue));
    // invalid with checkForEach: foo.forEach(function(x) { return x; })
    assert_eq!(return_message("forEach", true, for_each), Some(CallbackMessage::ExpectedNoReturnValue));
    // valid with checkForEach: foo.forEach(function(x) { return; })
    assert_eq!(return_message("forEach", false, for_each), None);
    let allow_implicit = array_callback_return::Options { allow_implicit: true, check_for_each: false };
    // invalid with allowImplicit: Array.from(x, function() {}), foo.every(function() {}), ...
    for method in ["from", "every", "filter", "find", "map", "reduce", "reduceRight", "sort", "toSorted"] {
        assert_eq!(end_message(method, false, true, true, false, allow_implicit), Some(CallbackMessage::ExpectedInside), "{method}");
        // a bare `return` is enough with allowImplicit
        assert_eq!(return_message(method, false, allow_implicit), None, "{method}");
    }
    // invalid: foo.every(() => {})
    assert_eq!(end_message("every", true, true, true, false, defaults), Some(CallbackMessage::ExpectedInside));
    // invalid with checkForEach: foo.filter(function foo() { return; })
    assert_eq!(return_message("filter", false, for_each), Some(CallbackMessage::ExpectedReturnValue));
    // invalid with checkForEach: foo.forEach(val => y += val), ["foo","bar"].forEach(x => ++x)
    assert_eq!(end_message("forEach", true, false, true, false, for_each), Some(CallbackMessage::ExpectedNoReturnValue));
    // invalid with checkForEach: foo.forEach((x) => { return x;})
    assert_eq!(return_message("forEach", true, for_each), Some(CallbackMessage::ExpectedNoReturnValue));
    assert_eq!(end_message("forEach", true, true, false, true, for_each), None);
    // valid with checkForEach: foo.forEach(function(x) { x; })
    assert_eq!(end_message("forEach", false, true, true, false, for_each), None);
}

fn member(name: MemberName, kind: MethodDefinitionKind, is_static: bool) -> Member {
    Member {
        is_method_definition: true,
        is_static,
        kind,
        parent_is_field_definition: false,
        parent_is_static: false,
        name,
    }
}

fn field(name: &str, is_static: bool) -> Member {
    Member {
        is_method_definition: false,
        is_static: false,
        kind: MethodDefinitionKind::Method,
        parent_is_field_definition: true,
        parent_is_static: is_static,
        name: MemberName::Property(name.to_owned()),
    }
}

fn inner_function() -> Member {
    Member {
        is_method_definition: false,
        is_static: false,
        kind: MethodDefinitionKind::Method,
        parent_is_field_definition: false,
        parent_is_static: false,
        name: MemberName::Computed,
    }
}

#[test]
fn test_class_methods_use_this_rule() {
    let prop = |s: &str| MemberName::Property(s.to_owned());
    let defaults = || ClassMethodsUseThis::new(class_methods_use_this::Options::default());
    // valid: class A { constructor() {} }
    let mut rule = defaults();
    rule.push_context();
    assert!(!rule.exit_function(&member(prop("constructor"), Constructor, false)));
    // valid: class A { foo() {this} }
    rule.push_context();
    rule.on_this();
    assert!(!rule.exit_function(&member(prop("foo"), Method, false)));
    // valid: class A { static foo() {} }
    rule.push_context();
    assert!(!rule.exit_function(&member(prop("foo"), Method, true)));
    // valid: class A { foo() { () => this; } }  (an arrow function shares the method's `this`)
    rule.push_context();
    rule.on_this();
    assert!(!rule.exit_function(&member(prop("foo"), Method, false)));
    // invalid: class A { foo() {} }
    rule.push_context();
    assert!(rule.exit_function(&member(prop("foo"), Method, false)));
    // invalid: class A { foo() {var a = function () {this};} }
    rule.push_context();
    rule.push_context();
    rule.on_this();
    assert!(!rule.exit_function(&inner_function()));
    assert!(rule.exit_function(&member(prop("foo"), Method, false)));
    assert!(rule.stack.is_empty());
    // valid: class A { foo() {this} bar() {} } with exceptMethods: ["bar"]
    // invalid: class A { foo() {} bar() {} } with exceptMethods: ["bar"] (foo only)
    let options = class_methods_use_this::Options { except_methods: Some(vec!["bar".to_owned()]), enforce_for_class_fields: None };
    let mut except = ClassMethodsUseThis::new(options);
    except.push_context();
    assert!(except.exit_function(&member(prop("foo"), Method, false)));
    except.push_context();
    assert!(!except.exit_function(&member(prop("bar"), Method, false)));
    // invalid: class A { [foo]() {} } with exceptMethods: ["foo"]
    except.push_context();
    assert!(except.exit_function(&member(MemberName::Computed, Method, false)));
    // valid: class A { #bar() {} } with exceptMethods: ["#bar"]
    let private = class_methods_use_this::Options { except_methods: Some(vec!["#bar".to_owned()]), enforce_for_class_fields: None };
    let mut private = ClassMethodsUseThis::new(private);
    private.push_context();
    assert!(!private.exit_function(&member(MemberName::Private("bar".to_owned()), Method, false)));
    // invalid: class A { foo = () => {} }
    let mut fields = defaults();
    fields.enter_field_arrow_function();
    assert!(fields.exit_arrow_function(true, &field("foo", false)));
    // valid: class A { foo = () => {this} }
    fields.enter_field_arrow_function();
    fields.on_this();
    assert!(!fields.exit_arrow_function(true, &field("foo", false)));
    // valid: class A { static foo = () => {} }
    fields.enter_field_arrow_function();
    assert!(!fields.exit_arrow_function(true, &field("foo", true)));
    // valid with enforceForClassFields: false: class A { foo = () => {} }
    let off = class_methods_use_this::Options { except_methods: None, enforce_for_class_fields: Some(false) };
    let mut off = ClassMethodsUseThis::new(off);
    off.enter_field_arrow_function();
    assert!(!off.exit_arrow_function(true, &field("foo", false)));
    // invalid: class A { #foo() { } foo() {} #bar() {} }  with exceptMethods: ["#foo"]
    let private_foo = class_methods_use_this::Options { except_methods: Some(vec!["#foo".to_owned()]), enforce_for_class_fields: None };
    let mut rule = ClassMethodsUseThis::new(private_foo);
    rule.push_context();
    assert!(!rule.exit_function(&member(MemberName::Private("foo".to_owned()), Method, false)));
    rule.push_context();
    assert!(rule.exit_function(&member(prop("foo"), Method, false)));
    rule.push_context();
    assert!(rule.exit_function(&member(MemberName::Private("bar".to_owned()), Method, false)));
    // invalid: class A { foo(){} 'bar'(){} 123(){} [`baz`](){} [a](){} [f(a)](){} get quux(){} set[a](b){} *quuux(){} }
    let mut rule = defaults();
    for (name, kind) in [
        (prop("foo"), Method),
        (MemberName::Literal("bar".to_owned()), Method),
        (MemberName::Literal("123".to_owned()), Method),
        (MemberName::Computed, Method),
        (MemberName::Computed, Method),
        (MemberName::Computed, Method),
        (prop("quux"), MethodDefinitionKind::Get),
        (MemberName::Computed, Setter),
        (prop("quuux"), Method),
    ] {
        rule.push_context();
        assert!(rule.exit_function(&member(name, kind, false)));
    }
    // valid: class A { "foo"() { } }  and  class A { 42() { } }  with exceptMethods naming them
    let literal = class_methods_use_this::Options {
        except_methods: Some(vec!["foo".to_owned(), "42".to_owned()]),
        enforce_for_class_fields: None,
    };
    let mut rule = ClassMethodsUseThis::new(literal);
    rule.push_context();
    assert!(!rule.exit_function(&member(MemberName::Literal("foo".to_owned()), Method, false)));
    rule.push_context();
    assert!(!rule.exit_function(&member(MemberName::Literal("42".to_owned()), Method, false)));
    // valid: class A { foo() { return class { [this.foo] = 1 }; } }  (the `this` is the method's)
    let mut rule = defaults();
    rule.push_context();
    rule.on_this();
    assert!(!rule.exit_function(&member(prop("foo"), Method, false)));
    // valid: class A { static {} }  (a static block is entered and left as a context of its own)
    rule.push_context();
    assert!(!rule.pop_context());
    // valid: class A { static foo = function() {} }
    rule.push_context();
    let mut static_field = field("foo", true);
    static_field.is_method_definition = false;
    assert!(!rule.exit_function(&static_field));
    // invalid: class A { foo = function() {} }
    rule.push_context();
    assert!(rule.exit_function(&field("foo", false)));
}

#[test]
fn test_consistent_return_rule() {
    let defaults = consistent_return::Options::default();
    let treat = consistent_return::Options { treat_undefined_as_unspecified: true };
    // valid: function foo() { if (true) return; else return; }
    let mut rule = ConsistentReturn::new();
    assert_eq!(rule.on_return(0, has_return_value(ReturnArgument::Nothing, defaults), "Function 'foo'".to_owned()), None);
    assert_eq!(rule.on_return(0, has_return_value(ReturnArgument::Nothing, defaults), "Function 'foo'".to_owned()), None);
    // valid: function foo() { if (true) return true; else return false; }
    assert_eq!(rule.on_return(1, has_return_value(ReturnArgument::Other, defaults), "Function 'foo'".to_owned()), None);
    assert_eq!(rule.on_return(1, has_return_value(ReturnArgument::Other, defaults), "Function 'foo'".to_owned()), None);
    // invalid: function foo() { if (true) return true; else return; }
    assert_eq!(rule.on_return(2, true, "Function 'foo'".to_owned()), None);
    assert_eq!(
        rule.on_return(2, false, "Function 'foo'".to_owned()),
        Some((consistent_return::Message::MissingReturnValue, "Function 'foo'".to_owned()))
    );
    // invalid: f(a => { if (true) return; else return false; })
    assert_eq!(rule.on_return(3, false, "Arrow function".to_owned()), None);
    assert_eq!(
        rule.on_return(3, true, "Arrow function".to_owned()),
        Some((consistent_return::Message::UnexpectedReturnValue, "Arrow function".to_owned()))
    );
    // valid with treatUndefinedAsUnspecified: function foo() { if (true) return; else return undefined; }
    assert_eq!(rule.on_return(4, has_return_value(ReturnArgument::Nothing, treat), "Function 'foo'".to_owned()), None);
    assert_eq!(rule.on_return(4, has_return_value(ReturnArgument::Undefined, treat), "Function 'foo'".to_owned()), None);
    // invalid with treatUndefinedAsUnspecified: function foo() { if (true) return true; return undefined; }
    assert_eq!(rule.on_return(5, has_return_value(ReturnArgument::Other, treat), "Function 'foo'".to_owned()), None);
    assert_eq!(
        rule.on_return(5, has_return_value(ReturnArgument::Void, treat), "Function 'foo'".to_owned()),
        Some((consistent_return::Message::MissingReturnValue, "Function 'foo'".to_owned()))
    );
    // invalid: function foo() { if (a) return true; }  (its end can be reached)
    // valid: class Foo { constructor() { if (true) return foo; } }
    let mut ends = ConsistentReturn::new();
    assert_eq!(ends.on_return(0, true, "Function 'foo'".to_owned()), None);
    assert_eq!(ends.on_return(1, true, "Method 'constructor'".to_owned()), None);
    assert_eq!(ends.missing_returns(&vec![(0, true, false), (1, true, true)]), vec![0]);
    // invalid with treatUndefinedAsUnspecified: function foo() { if (true) return true; return void 0; }
    let mut more = ConsistentReturn::new();
    assert_eq!(more.on_return(0, has_return_value(ReturnArgument::Other, treat), "Function 'foo'".to_owned()), None);
    assert_eq!(
        more.on_return(0, has_return_value(ReturnArgument::Void, treat), "Function 'foo'".to_owned()),
        Some((consistent_return::Message::MissingReturnValue, "Function 'foo'".to_owned()))
    );
    // invalid with treatUndefinedAsUnspecified: function foo() { if (true) return undefined; return true; }
    assert_eq!(more.on_return(1, has_return_value(ReturnArgument::Undefined, treat), "Function 'foo'".to_owned()), None);
    assert_eq!(
        more.on_return(1, has_return_value(ReturnArgument::Other, treat), "Function 'foo'".to_owned()),
        Some((consistent_return::Message::UnexpectedReturnValue, "Function 'foo'".to_owned()))
    );
    // invalid with treatUndefinedAsUnspecified: function foo() { if (true) return void 0; return true; }
    assert_eq!(more.on_return(2, has_return_value(ReturnArgument::Void, treat), "Function 'foo'".to_owned()), None);
    assert_eq!(
        more.on_return(2, has_return_value(ReturnArgument::Other, treat), "Function 'foo'".to_owned()),
        Some((consistent_return::Message::UnexpectedReturnValue, "Function 'foo'".to_owned()))
    );
    // valid with treatUndefinedAsUnspecified: function foo() { if (true) return undefined; else return void 0; }
    assert_eq!(more.on_return(3, has_return_value(ReturnArgument::Undefined, treat), "Function 'foo'".to_owned()), None);
    assert_eq!(more.on_return(3, has_return_value(ReturnArgument::Void, treat), "Function 'foo'".to_owned()), None);
    // invalid: if (true) { return 1; } return;  (at the top level)
    assert_eq!(more.on_return(4, true, "Program".to_owned()), None);
    assert_eq!(
        more.on_return(4, false, "Program".to_owned()),
        Some((consistent_return::Message::MissingReturnValue, "Program".to_owned()))
    );
    // valid: function foo() { function bar() { return true; } return; }
    assert_eq!(more.on_return(6, true, "Function 'bar'".to_owned()), None);
    assert_eq!(more.on_return(5, false, "Function 'foo'".to_owned()), None);
    // invalid: f(() => { if (a) return true; });  and  ({ constructor() { if (a) return true; } });
    // (a method of an object literal named `constructor` is no constructor)
    assert_eq!(more.on_return(7, true, "Arrow function".to_owned()), None);
    assert_eq!(more.on_return(8, true, "Method 'constructor'".to_owned()), None);
    assert_eq!(more.missing_returns(&vec![(7, true, false), (8, true, false)]), vec![7, 8]);
    // valid: var x = () => {  return {}; };  (its end cannot be reached)
    assert!(more.missing_returns(&vec![(7, false, false)]).is_empty());
}

#[test]
fn test_dot_location_rule() {
    // valid: obj.\nprop  (the default is "object")
    assert_eq!(check_member_expression(dot_location::Options::default(), true, false), None);
    // valid with "property": obj\n.prop
    assert_eq!(check_member_expression(dot_location::Options::Property, false, true), None);
    // invalid with "object": obj\n.prop
    assert_eq!(check_member_expression(dot_location::Options::Object, false, true), Some(dot_location::Message::ExpectedDotAfterObject));
    // invalid with "property": obj.\nprop
    assert_eq!(check_member_expression(dot_location::Options::Property, true, false), Some(dot_location::Message::ExpectedDotBeforeProperty));
    // valid: obj . prop  (either way)
    assert_eq!(check_member_expression(dot_location::Options::Object, true, true), None);
    assert_eq!(check_member_expression(dot_location::Options::Property, true, true), None);
}

#[test]
fn test_getter_return_rule() {
    let defaults = getter_return::Options::default();
    let implicit = getter_return::Options { allow_implicit: true };
    let get_method = FunctionFacts {
        kind: "method_definition".to_owned(),
        body_is_block: true,
        has_get_keyword: true,
        placement: Placement::Other,
    };
    // var foo = { get bar() {} };  is a getter
    assert!(is_getter(&get_method));
    // var foo = { get: function () {} }  is none
    assert!(!is_getter(&FunctionFacts {
        kind: "function".to_owned(),
        body_is_block: true,
        has_get_keyword: false,
        placement: Placement::GetProperty(Enclosing::Other),
    }));
    // Object.defineProperty(foo, "bar", { get: function () {} });  is a getter
    let define = Some(MemberAccess { object: "Object".to_owned(), property: "defineProperty".to_owned() });
    assert!(is_getter(&FunctionFacts {
        kind: "function".to_owned(),
        body_is_block: true,
        has_get_keyword: false,
        placement: Placement::GetProperty(Enclosing::ArgumentOf(define)),
    }));
    // valid: var foo = { get bar(){return true;} };
    let mut rule = GetterReturn::new(defaults, &vec![1]);
    assert!(!rule.on_return(1, true));
    assert!(rule.on_program_exit(&vec![(1, false)]).is_empty());
    // invalid: var foo = { get bar() {} };
    let rule = GetterReturn::new(defaults, &vec![1]);
    assert_eq!(rule.on_program_exit(&vec![(1, true)]), vec![(1, getter_return::Message::Expected)]);
    // invalid: var foo = { get bar(){if(baz) {return true;}} };
    let mut rule = GetterReturn::new(defaults, &vec![1]);
    assert!(!rule.on_return(1, true));
    assert_eq!(rule.on_program_exit(&vec![(1, true)]), vec![(1, getter_return::Message::ExpectedAlways)]);
    // invalid: var foo = { get bar() { ~function () {return true;}} };
    let mut rule = GetterReturn::new(defaults, &vec![1]);
    assert!(!rule.on_return(2, true));
    assert_eq!(rule.on_program_exit(&vec![(2, false), (1, true)]), vec![(1, getter_return::Message::Expected)]);
    // invalid: var foo = { get bar() {return;} };
    let mut rule = GetterReturn::new(defaults, &vec![1]);
    assert!(rule.on_return(1, false));
    // valid with allowImplicit: var foo = { get bar() {return;} };
    let mut rule = GetterReturn::new(implicit, &vec![1]);
    assert!(!rule.on_return(1, false));
    assert!(rule.on_program_exit(&vec![(1, false)]).is_empty());
    let access = |o: &str, p: &str| Some(MemberAccess { object: o.to_owned(), property: p.to_owned() });
    let facts = |kind: &str, get_keyword: bool, placement: Placement| FunctionFacts {
        kind: kind.to_owned(),
        body_is_block: true,
        has_get_keyword: get_keyword,
        placement,
    };
    // class foo { get bar(){} }  is a getter, and returns no value
    assert!(is_getter(&facts("method_definition", true, Placement::Other)));
    let rule = GetterReturn::new(defaults, &vec![1]);
    assert_eq!(rule.on_program_exit(&vec![(1, true)]), vec![(1, getter_return::Message::Expected)]);
    // invalid: class foo { get bar(){ if (baz) { return true; }}}
    let mut rule = GetterReturn::new(defaults, &vec![1]);
    assert!(!rule.on_return(1, true));
    assert_eq!(rule.on_program_exit(&vec![(1, true)]), vec![(1, getter_return::Message::ExpectedAlways)]);
    // invalid with allowImplicit: var foo = { get bar() {if (baz) {return;}} };
    let mut rule = GetterReturn::new(implicit, &vec![1]);
    assert!(!rule.on_return(1, false));
    assert_eq!(rule.on_program_exit(&vec![(1, true)]), vec![(1, getter_return::Message::ExpectedAlways)]);
    // getters of property descriptors
    // Object.create(foo, { bar: { get() {} } })
    assert!(is_getter(&facts("method_definition", false, Placement::GetMethod(Enclosing::PropertyOfArgumentOf(access("Object", "create"))))));
    // Object.create(foo, { bar: { get: () => {} } })
    assert!(is_getter(&facts("arrow_function", false, Placement::GetProperty(Enclosing::PropertyOfArgumentOf(access("Object", "create"))))));
    // Object.defineProperties(foo, { bar: { get: function () {}} });
    assert!(is_getter(&facts("function", false, Placement::GetProperty(Enclosing::PropertyOfArgumentOf(access("Object", "defineProperties"))))));
    // Reflect.defineProperty(foo, 'bar', { get: function (){}});
    assert!(is_getter(&facts("function", false, Placement::GetProperty(Enclosing::ArgumentOf(access("Reflect", "defineProperty"))))));
    // not getters
    // foo.defineProperty(null, { get() {} });
    assert!(!is_getter(&facts("method_definition", false, Placement::GetMethod(Enclosing::ArgumentOf(access("foo", "defineProperty"))))));
    // foo.defineProperties(null, { bar: { get() {} } });
    assert!(!is_getter(&facts("method_definition", false, Placement::GetMethod(Enclosing::PropertyOfArgumentOf(access("foo", "defineProperties"))))));
    // foo.create(null, { bar: { get() {} } });
    assert!(!is_getter(&facts("method_definition", false, Placement::GetMethod(Enclosing::PropertyOfArgumentOf(access("foo", "create"))))));
    // var foo = { bar(){} };  and  var get = function(){};
    assert!(!is_getter(&facts("method_definition", false, Placement::Other)));
    assert!(!is_getter(&facts("function", false, Placement::Other)));
}

#[test]
fn test_line_comment_position_rule() {
    let above = line_comment_position::Options::default();
    let above_named = line_comment_position::Options::SingleValue(AboveOrBeside::Above);
    let beside = line_comment_position::Options::SingleValue(AboveOrBeside::Beside);
    let object = |position: AboveOrBeside, pattern: Option<&str>, defaults: bool| {
        line_comment_position::Options::Object(OptionsObject {
            position,
            ignore_pattern: pattern.and_then(Pattern::new),
            apply_default_ignore_patterns: defaults,
        })
    };
    // valid, with the default options
    for (is_line, text, beside_code) in [
        (true, " valid comment", false),
        (false, " block comments are skipped ", false),
        (false, " block comments are skipped ", true),
        (false, " eslint eqeqeq: 'error' ", true),
        (false, " eslint-disable ", true),
        (false, " eslint-enable ", true),
        (true, " eslint-disable-line", true),
        (true, " eslint-disable-next-line", false),
        (true, " global MY_GLOBAL, ANOTHER", true),
        (true, " globals MY_GLOBAL: true", true),
        (true, " exported MY_GLOBAL, ANOTHER", true),
        (true, " fallthrough", true),
        (true, " fall through", true),
        (true, " falls through", true),
        (true, " jslint vars: true", true),
        (true, " jshint ignore:line", true),
        (true, " istanbul ignore next", true),
    ] {
        assert_eq!(check_comment(&above, is_line, text, beside_code), None, "{text:?}");
    }
    // valid: 1 + 1; // linter excepted comment  with { position: "above", ignorePattern: "linter" }
    let linter = object(AboveOrBeside::Above, Some("linter"), true);
    assert_eq!(check_comment(&linter, true, " linter excepted comment", true), None);
    // valid: // Meep\nconsole.log('Meep');  with "above"
    assert_eq!(check_comment(&above_named, true, " Meep", false), None);
    // valid with "beside"
    assert_eq!(check_comment(&beside, true, " valid comment", true), None);
    assert_eq!(check_comment(&beside, true, " jscs: disable", false), None);
    assert_eq!(check_comment(&beside, true, " jscs: enable", false), None);
    assert_eq!(check_comment(&beside, false, " block comments are skipped ", false), None);
    assert_eq!(check_comment(&beside, false, "block comment", false), None);
    assert_eq!(check_comment(&beside, false, " block comment are skipped ", true), None);
    assert_eq!(check_comment(&beside, true, " jshint strict: true", true), None);
    // valid: // pragma valid comment\n1 + 1;  with { position: "beside", ignorePattern: "pragma|linter" }
    let pragma_or_linter = object(AboveOrBeside::Beside, Some("pragma|linter"), true);
    assert_eq!(check_comment(&pragma_or_linter, true, " pragma valid comment", false), None);
    // valid: // above\n1 + 1; // ignored  with { ignorePattern: "ignored" }
    let ignored = object(AboveOrBeside::Above, Some("ignored"), true);
    assert_eq!(check_comment(&ignored, true, " above", false), None);
    assert_eq!(check_comment(&ignored, true, " ignored", true), None);
    // valid: foo; // eslint-disable-line no-alert  with { position: "above" }
    let above_object = object(AboveOrBeside::Above, None, true);
    assert_eq!(check_comment(&above_object, true, " eslint-disable-line no-alert", true), None);
    // invalid: 1 + 1; // invalid comment
    assert_eq!(check_comment(&above, true, " invalid comment", true), Some(CommentMessage::Above));
    // invalid: 1 + 1; // globalization is a word
    assert_eq!(check_comment(&above, true, " globalization is a word", true), Some(CommentMessage::Above));
    // invalid: // jscs: disable\n1 + 1;  with { position: "beside", applyDefaultIgnorePatterns: false }
    let no_defaults = object(AboveOrBeside::Beside, None, false);
    assert_eq!(check_comment(&no_defaults, true, " jscs: disable", false), Some(CommentMessage::Beside));
    // invalid: 1 + 1; // mentioning falls through
    assert_eq!(check_comment(&above, true, " mentioning falls through", true), Some(CommentMessage::Above));
    // invalid with "beside": // invalid comment\n1 + 1;
    assert_eq!(check_comment(&beside, true, " invalid comment", false), Some(CommentMessage::Beside));
    // invalid: // pragma\n// invalid\n1 + 1;  with { position: "beside", ignorePattern: "pragma" }
    let pragma = object(AboveOrBeside::Beside, Some("pragma"), true);
    assert_eq!(check_comment(&pragma, true, " pragma", false), None);
    assert_eq!(check_comment(&pragma, true, " invalid", false), Some(CommentMessage::Beside));
    // invalid: 1 + 1; // linter\n2 + 2; // invalid comment  with { position: "above", ignorePattern: "linter" }
    assert_eq!(check_comment(&linter, true, " linter", true), None);
    assert_eq!(check_comment(&linter, true, " invalid comment", true), Some(CommentMessage::Above));
    // invalid with applyDefaultIgnorePatterns: false: 1 + 1; // falls through
    let above_no_defaults = object(AboveOrBeside::Above, None, false);
    assert_eq!(check_comment(&above_no_defaults, true, " falls through", true), Some(CommentMessage::Above));
}

#[test]
fn test_max_statements_rule() {
    // valid with max 3: function foo() { var bar = 1; function qux () { var noCount = 2; } return 3; }
    let three = max_statements::Options::from_variants(OptionsVariants::JustMax(Max::Usize(3)));
    let mut rule = MaxStatements::new(three);
    rule.enter_function();
    rule.on_statement_block(3);
    rule.enter_function();
    rule.on_statement_block(1);
    assert_eq!(rule.exit_function(2, false), None);
    assert_eq!(rule.exit_function(1, false), None);
    // invalid with max 2: function foo() { var bar = 1; var baz = 2; var qux = 3; }
    let two = max_statements::Options::from_variants(OptionsVariants::JustMax(Max::Usize(2)));
    let mut rule = MaxStatements::new(two);
    rule.enter_function();
    rule.on_statement_block(3);
    assert_eq!(rule.exit_function(1, false), Some(3));
    // invalid with max 4: function foo() { var bar = 1; if (true) { while (false) { var qux = null; } } return 3; }
    let four = max_statements::Options::from_variants(OptionsVariants::JustMax(Max::Usize(4)));
    let mut rule = MaxStatements::new(four);
    rule.enter_function();
    rule.on_statement_block(3);
    rule.on_statement_block(1);
    rule.on_statement_block(1);
    assert_eq!(rule.exit_function(1, false), Some(5));
    // valid with { max: 2 }: var foo = { thing: function() { var bar = 1; var baz = 2; } }
    let object = max_statements::Options::from_variants(OptionsVariants::JustMax(Max::Object(max_statements::MaxObject { max: 2 })));
    let mut rule = MaxStatements::new(object);
    rule.enter_function();
    rule.on_statement_block(2);
    assert_eq!(rule.exit_function(1, false), None);
    // valid with [1, { ignoreTopLevelFunctions: true }]: function foo() { var bar = 1; var baz = 2; }
    let top = max_statements::Options::from_variants(OptionsVariants::MaxAndOptionsObject(
        Max::Usize(1),
        max_statements::OptionsObject { ignore_top_level_functions: true },
    ));
    let mut rule = MaxStatements::new(top);
    rule.enter_function();
    rule.on_statement_block(2);
    assert_eq!(rule.exit_function(1, false), None);
    assert!(rule.on_program_exit().is_empty());
}

fn up(is_test_condition: bool, is_function: bool) -> Ancestor {
    Ancestor { is_test_condition, is_function }
}

#[test]
fn test_no_cond_assign_rule() {
    // if (x = 0) { }: the assignment's ancestors are the condition, then the if statement
    let plain = vec![up(true, false), up(false, false)];
    // invalid (missing comparison) by default ("except-parens")
    assert!(check_test_with_assignment(ProhibitAssign::ExceptParens));
    assert_eq!(check_assignment(ProhibitAssign::ExceptParens, &plain), None);
    // invalid (unexpected) with "always", in an 'if' statement
    assert!(!check_test_with_assignment(ProhibitAssign::Always));
    assert_eq!(check_assignment(ProhibitAssign::Always, &plain), Some(1));
    assert_eq!(description("if_statement"), "an 'if' statement");
    // if (someNode || (someNode = parentNode)) { }: valid by default, invalid with "always"
    let nested = vec![up(false, false), up(false, false), up(true, false), up(false, false)];
    assert_eq!(check_assignment(ProhibitAssign::ExceptParens, &nested), None);
    assert_eq!(check_assignment(ProhibitAssign::Always, &nested), Some(3));
    // do { } while (x = x + 1);  with "always"
    assert_eq!(description("do_statement"), "a 'do...while' statement");
    assert_eq!(description("while_statement"), "a 'while' statement");
    assert_eq!(description("for_statement"), "a 'for' statement");
    // valid with "always": if ((function(node) { return node = parentNode; })(someNode)) { }
    let in_function = vec![
        up(false, false),
        up(false, false),
        up(false, true),
        up(false, false),
        up(false, false),
        up(true, false),
        up(false, false),
    ];
    assert_eq!(check_assignment(ProhibitAssign::Always, &in_function), None);
    // valid with "always": switch (foo) { case a = b: bar(); }
    let in_case = vec![up(false, false), up(false, false), up(false, false)];
    assert_eq!(check_assignment(ProhibitAssign::Always, &in_case), None);
}
