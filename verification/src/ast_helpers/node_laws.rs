use vstd::prelude::*;

use crate::ast_helpers::{
    comma_separated_spec, comment_contents_spec, comment_type_spec, is_class_member_static_spec,
    method_definition_kind_spec, property_kind_of_texts, CommentType, ListToken, MemberChild,
    MethodDefinitionKind, MethodName, ObjectPropertyKind,
};

verus! {

/// A comment is a line comment exactly when its text opens with `//`; what
/// it says is its text after `//`, or between `/*` and `*/`.
pub proof fn lemma_comment_kinds(text: Seq<char>)
    ensures
        (comment_type_spec(text) == CommentType::Line) <==> (text.len() >= 2 && text[0] == '/' && text[1] == '/'),
        (text.len() >= 2 && text[0] == '/' && text[1] == '/') ==> comment_contents_spec(text) == text.skip(2),
        !(text.len() >= 2 && text[0] == '/' && text[1] == '/') ==> comment_contents_spec(text) == text.subrange(
            2,
            text.len() - 2,
        ),
{
}

/// The kind of a method definition: a class method that is not static and
/// is named `constructor` (plainly or as a string `"constructor"` or
/// `'constructor'`) is the constructor, whatever stands before its name;
/// otherwise `get` (or `static get`) before the name makes a getter, `set`
/// a setter, and anything else a plain method. A method of an object
/// literal, or a static one, is never the constructor.
pub proof fn lemma_method_kinds(name: MethodName, is_object_method: bool, is_static: bool, before_name: Option<Seq<char>>)
    ensures
        ({
            let k = method_definition_kind_spec(name, is_object_method, is_static, before_name);
            let constructor_name = match name {
                MethodName::Property(t) => t@ == "constructor"@,
                MethodName::String(t) => t@.len() >= 2 && t@.subrange(1, t@.len() - 1) == "constructor"@,
                MethodName::Other => false,
            };
            &&& (k == MethodDefinitionKind::Constructor) <==> (constructor_name && !is_object_method && !is_static)
            &&& k != MethodDefinitionKind::Constructor ==> {
                &&& (k == MethodDefinitionKind::Get) <==> (before_name == Some("get"@) || before_name == Some(
                    "static get"@,
                ))
                &&& (k == MethodDefinitionKind::Setter) <==> before_name == Some("set"@)
            }
        }),
{
    reveal_strlit("get");
    reveal_strlit("set");
    reveal_strlit("static get");
    assert("get"@[0] != "set"@[0]);
    assert("get"@.len() != "static get"@.len());
}

/// The kind of a property of an object literal written as a method: the
/// first of its words that is `get` or `set` decides; with neither it is a
/// plain property. Words before that first one do not matter.
pub proof fn lemma_property_kind_first_word(texts: Seq<Seq<char>>, i: int)
    requires
        0 <= i < texts.len(),
        texts[i] == "get"@ || texts[i] == "set"@,
        forall|j: int| 0 <= j < i ==> texts[j] != "get"@ && texts[j] != "set"@,
    ensures
        property_kind_of_texts(texts) == if texts[i] == "get"@ {
            ObjectPropertyKind::Get
        } else {
            ObjectPropertyKind::Setter
        },
    decreases i,
{
    if i > 0 {
        lemma_property_kind_first_word(texts.drop_first(), i - 1);
        assert(texts.drop_first()[i - 1] == texts[i]);
        assert forall|j: int| 0 <= j < i - 1 implies texts.drop_first()[j] != "get"@ && texts.drop_first()[j]
            != "set"@ by {
            assert(texts.drop_first()[j] == texts[j + 1]);
        }
    }
}

/// Without `get` or `set` among its words, a property is a plain one.
pub proof fn lemma_property_kind_plain(texts: Seq<Seq<char>>)
    requires
        forall|j: int| 0 <= j < texts.len() ==> texts[j] != "get"@ && texts[j] != "set"@,
    ensures
        property_kind_of_texts(texts) == ObjectPropertyKind::Init,
    decreases texts.len(),
{
    if texts.len() > 0 {
        assert forall|j: int| 0 <= j < texts.drop_first().len() implies texts.drop_first()[j] != "get"@
            && texts.drop_first()[j] != "set"@ by {
            assert(texts.drop_first()[j] == texts[j + 1]);
        }
        lemma_property_kind_plain(texts.drop_first());
    }
}

/// A class member is static exactly when the first of its children that is
/// no decorator reads `static` (or `static get`); decorators before it do not
/// matter.
pub proof fn lemma_static_after_decorators(children: Seq<MemberChild>, i: int)
    requires
        0 <= i < children.len(),
        !children[i].is_decorator,
        forall|j: int| 0 <= j < i ==> children[j].is_decorator,
    ensures
        is_class_member_static_spec(children) == (children[i].text@ == "static"@ || children[i].text@
            == "static get"@),
    decreases i,
{
    if i > 0 {
        assert forall|j: int| 0 <= j < i - 1 implies children.drop_first()[j].is_decorator by {
            assert(children.drop_first()[j] == children[j + 1]);
        }
        lemma_static_after_decorators(children.drop_first(), i - 1);
    }
}

/// The nodes of the named tokens of a list, in order.
pub open spec fn named_nodes(tokens: Seq<ListToken>) -> Seq<usize>
    decreases tokens.len(),
{
    if tokens.len() == 0 {
        Seq::empty()
    } else {
        match tokens.last() {
            ListToken::Other { node, is_named } => if is_named {
                named_nodes(tokens.drop_last()).push(node)
            } else {
                named_nodes(tokens.drop_last())
            },
            ListToken::Comma => named_nodes(tokens.drop_last()),
        }
    }
}

/// The items of a list that are no hole, in order.
pub open spec fn present_items(items: Seq<Option<usize>>) -> Seq<usize>
    decreases items.len(),
{
    if items.len() == 0 {
        Seq::empty()
    } else {
        match items.last() {
            Some(n) => present_items(items.drop_last()).push(n),
            None => present_items(items.drop_last()),
        }
    }
}

/// Whether any token of a list is a comma.
pub open spec fn has_comma(tokens: Seq<ListToken>) -> bool {
    exists|i: int| 0 <= i < tokens.len() && tokens[i] is Comma
}

/// The items of a comma-separated list that are no hole are its named
/// tokens, each once and in order; unnamed tokens make no item; and a list
/// without a comma has no hole.
pub proof fn lemma_list_items(tokens: Seq<ListToken>)
    ensures
        present_items(comma_separated_spec(tokens).0) == named_nodes(tokens),
        !has_comma(tokens) ==> forall|k: int|
            0 <= k < comma_separated_spec(tokens).0.len() ==> (#[trigger] comma_separated_spec(tokens).0[k]) is Some,
    decreases tokens.len(),
{
    if tokens.len() > 0 {
        let rest = tokens.drop_last();
        lemma_list_items(rest);
        let items = comma_separated_spec(rest).0;
        assert(items.push(None).drop_last() == items);
        assert forall|n: usize| #[trigger] items.push(Some(n)).drop_last() == items by {}
        if !has_comma(tokens) {
            assert(!has_comma(rest)) by {
                if has_comma(rest) {
                    let i = choose|i: int| 0 <= i < rest.len() && rest[i] is Comma;
                    assert(tokens[i] == rest[i]);
                }
            }
            assert(!(tokens.last() is Comma)) by {
                assert(tokens[tokens.len() - 1] == tokens.last());
            }
        }
    }
}

} // verus!
