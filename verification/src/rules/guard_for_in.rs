use vstd::prelude::*;

use crate::syntax_tree::{field_child, lemma_field_child_in, named_non_comment, NodeView, SyntaxTree};

verus! {

/// The consequence of the `if` that opens a `for ... in` body.
#[derive(Copy, Clone, Debug, PartialEq, Eq, Structural)]
pub enum Consequence {
    Continue,
    /// A block: whether its first statement is a `continue`, and how many
    /// statements it has.
    Block { first_is_continue: bool, len: usize },
    Other,
}

/// The body of a `for ... in` loop.
#[derive(Copy, Clone, Debug, PartialEq, Eq, Structural)]
pub enum ForInBody {
    Empty,
    If,
    /// A block: how many statements it has and, where the first is an `if`,
    /// that `if`'s consequence.
    Block { len: usize, first_if: Option<Consequence> },
    Other,
}

/// A body is guarded when it is empty, an `if`, or a block that is empty,
/// holds a lone `if`, or opens with an `if` that only continues.
pub open spec fn is_guarded(body: ForInBody) -> bool {
    match body {
        ForInBody::Empty | ForInBody::If => true,
        ForInBody::Block { len, first_if } => if len == 0 {
            true
        } else {
            match first_if {
                Some(c) => len == 1 || match c {
                    Consequence::Continue => true,
                    Consequence::Block { first_is_continue, len } => first_is_continue && len == 1,
                    Consequence::Other => false,
                },
                None => false,
            }
        },
        ForInBody::Other => false,
    }
}

/// Whether a `for ... in` loop with this body is reported.
pub fn check_for_in(body: ForInBody) -> (report: bool)
    ensures
        report == !is_guarded(body),
{
    match body {
        ForInBody::Empty | ForInBody::If => false,
        ForInBody::Block { len, first_if } => {
            if len == 0 {
                return false;
            }
            match first_if {
                Some(c) => {
                    if len == 1 {
                        return false;
                    }
                    match c {
                        Consequence::Continue => false,
                        Consequence::Block { first_is_continue, len } => !(first_is_continue && len == 1),
                        Consequence::Other => true,
                    }
                },
                None => true,
            }
        },
        ForInBody::Other => true,
    }
}


/// What the rule reads of the consequence `c` of an `if`.
pub open spec fn consequence_spec(t: Seq<NodeView>, c: usize) -> Consequence {
    if t[c as int].kind == "continue_statement"@ {
        Consequence::Continue
    } else if t[c as int].kind == "statement_block"@ {
        let ss = named_non_comment(t, t[c as int].children);
        Consequence::Block {
            first_is_continue: ss.len() > 0 && t[ss[0] as int].kind == "continue_statement"@,
            len: ss.len() as usize,
        }
    } else {
        Consequence::Other
    }
}

/// The body of `for ... in` loop `n`.
pub open spec fn body_of(t: Seq<NodeView>, n: usize) -> usize {
    field_child(t, t[n as int].children, "body"@)->0
}

/// What the rule reads of the body of `for ... in` loop `n`: its kind, and
/// for a block its statements and the consequence of an `if` that opens it.
pub open spec fn for_in_body_spec(t: Seq<NodeView>, n: usize) -> ForInBody {
    let b = body_of(t, n);
    if t[b as int].kind == "empty_statement"@ {
        ForInBody::Empty
    } else if t[b as int].kind == "if_statement"@ {
        ForInBody::If
    } else if t[b as int].kind == "statement_block"@ {
        let ss = named_non_comment(t, t[b as int].children);
        ForInBody::Block {
            len: ss.len() as usize,
            first_if: if ss.len() > 0 && t[ss[0] as int].kind == "if_statement"@ {
                Some(consequence_spec(t, field_child(t, t[ss[0] as int].children, "consequence"@)->0))
            } else {
                None
            },
        }
    } else {
        ForInBody::Other
    }
}

/// The tree holds what the rule reads of loop `n`: a body and, where the
/// body is a block that opens with an `if`, that `if`'s consequence.
pub open spec fn for_in_readable(t: Seq<NodeView>, n: usize) -> bool {
    &&& field_child(t, t[n as int].children, "body"@) is Some
    &&& ({
        let b = body_of(t, n);
        let ss = named_non_comment(t, t[b as int].children);
        t[b as int].kind == "statement_block"@ && ss.len() > 0 && t[ss[0] as int].kind == "if_statement"@
            ==> field_child(t, t[ss[0] as int].children, "consequence"@) is Some
    })
}

fn consequence_of(tree: &SyntaxTree, c: usize) -> (r: Consequence)
    requires
        tree.wf(),
        c < tree@.len(),
    ensures
        r == consequence_spec(tree@, c),
{
    if tree.kind_is(c, "continue_statement") {
        Consequence::Continue
    } else if tree.kind_is(c, "statement_block") {
        let ss = tree.non_comment_named_children(c);
        let first_is_continue = ss.len() > 0 && tree.kind_is(ss[0], "continue_statement");
        Consequence::Block { first_is_continue, len: ss.len() }
    } else {
        Consequence::Other
    }
}

/// Reads the body of `for ... in` loop `n` (see `for_in_body_spec`).
pub fn for_in_body(tree: &SyntaxTree, n: usize) -> (r: ForInBody)
    requires
        tree.wf(),
        n < tree@.len(),
        for_in_readable(tree@, n),
    ensures
        r == for_in_body_spec(tree@, n),
{
    proof {
        lemma_field_child_in(tree@, n, "body"@);
    }
    let b = match tree.child_by_field_name(n, "body") {
        Some(b) => b,
        None => n,
    };
    if tree.kind_is(b, "empty_statement") {
        ForInBody::Empty
    } else if tree.kind_is(b, "if_statement") {
        ForInBody::If
    } else if tree.kind_is(b, "statement_block") {
        let ss = tree.non_comment_named_children(b);
        let first_if = if ss.len() > 0 && tree.kind_is(ss[0], "if_statement") {
            proof {
                lemma_field_child_in(tree@, ss[0], "consequence"@);
            }
            match tree.child_by_field_name(ss[0], "consequence") {
                Some(c) => Some(consequence_of(tree, c)),
                None => None,
            }
        } else {
            None
        };
        ForInBody::Block { len: ss.len(), first_if }
    } else {
        ForInBody::Other
    }
}

/// Whether `for ... in` loop `n` of `tree` is reported: its body is not
/// guarded (see `is_guarded`).
pub fn check_for_in_statement(tree: &SyntaxTree, n: usize) -> (report: bool)
    requires
        tree.wf(),
        n < tree@.len(),
        for_in_readable(tree@, n),
    ensures
        report == !is_guarded(for_in_body_spec(tree@, n)),
{
    check_for_in(for_in_body(tree, n))
}

/// Which `for ... in` bodies are guarded: an empty statement, a lone `if`, an
/// empty block, and a block whose only statement is an `if`; a block that
/// opens with an `if` whose consequence is `continue`, or a block holding
/// only `continue`, however many statements follow. Any other body is
/// reported: one that does not open with an `if`, or that opens with an
/// `if` whose consequence does not skip the rest.
pub proof fn lemma_guarded_bodies(len: usize, c: Consequence)
    ensures
        is_guarded(ForInBody::Empty),
        is_guarded(ForInBody::If),
        !is_guarded(ForInBody::Other),
        is_guarded(ForInBody::Block { len: 0, first_if: None }),
        len > 0 ==> !is_guarded(ForInBody::Block { len, first_if: None }),
        is_guarded(ForInBody::Block { len: 1, first_if: Some(c) }),
        is_guarded(ForInBody::Block { len, first_if: Some(Consequence::Continue) }),
        is_guarded(ForInBody::Block { len, first_if: Some(Consequence::Block { first_is_continue: true, len: 1 }) }),
        len > 1 ==> !is_guarded(ForInBody::Block { len, first_if: Some(Consequence::Other) }),
        len > 1 ==> forall|first_is_continue: bool, inner: usize|
            !(first_is_continue && inner == 1) ==> !#[trigger] is_guarded(
                ForInBody::Block { len, first_if: Some(Consequence::Block { first_is_continue, len: inner }) },
            ),
{
}

} // verus!
