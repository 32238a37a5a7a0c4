use vstd::prelude::*;

use crate::syntax_tree::{field_child, lemma_field_child_in, named_non_comment, NodeView, SyntaxTree};
use crate::text::str_eq;

verus! {

/// Which way a loop counter moves.
#[derive(Copy, Clone, Debug, PartialEq, Eq, Structural)]
pub enum Direction {
    Decreasing,
    Increasing,
}

impl Direction {
    pub open spec fn reversed_spec(self) -> Direction {
        match self {
            Direction::Decreasing => Direction::Increasing,
            Direction::Increasing => Direction::Decreasing,
        }
    }

    pub fn reversed(self) -> (r: Direction)
        ensures
            r == self.reversed_spec(),
    {
        match self {
            Direction::Decreasing => Direction::Increasing,
            Direction::Increasing => Direction::Decreasing,
        }
    }
}

/// The update operators of a `for` loop that the rule looks at.
pub open spec fn is_update_operator(op: Seq<char>) -> bool {
    op == "++"@ || op == "--"@ || op == "+="@ || op == "-="@
}

/// The direction that would be wrong for a loop whose test uses `operator`:
/// a `<` or `<=` test needs the counter to increase.
pub open spec fn wrong_direction(operator: Seq<char>) -> Direction {
    if operator == "<"@ || operator == "<="@ {
        Direction::Decreasing
    } else {
        Direction::Increasing
    }
}

/// The direction an update moves the counter: `++` and `+=` up, `--` and
/// `-=` down, and the other way when what is added is negated.
pub open spec fn update_direction(update_operator: Seq<char>, right_negated: bool) -> Direction {
    let by_operator = if update_operator == "++"@ || update_operator == "+="@ {
        Direction::Increasing
    } else {
        Direction::Decreasing
    };
    if (update_operator == "+="@ || update_operator == "-="@) && right_negated {
        by_operator.reversed_spec()
    } else {
        by_operator
    }
}

/// Whether a `for` loop whose test compares the counter with `operator` and
/// whose update applies `update_operator` moves the counter the wrong way.
pub fn is_wrong_direction(operator: &str, update_operator: &str, update_right_reversed: bool) -> (b:
    bool)
    requires
        is_update_operator(update_operator@),
    ensures
        b == (update_direction(update_operator@, update_right_reversed) == wrong_direction(
            operator@,
        )),
{
    let wrong = if str_eq(operator, "<") || str_eq(operator, "<=") {
        Direction::Decreasing
    } else {
        Direction::Increasing
    };
    proof {
        reveal_strlit("++");
        reveal_strlit("--");
        reveal_strlit("+=");
        reveal_strlit("-=");
        assert("++"@ != "+="@ && "++"@ != "-="@ && "--"@ != "+="@ && "--"@ != "-="@) by {
            assert("++"@[1] != "+="@[1]);
            assert("++"@[1] != "-="@[1]);
            assert("--"@[1] != "+="@[1]);
            assert("--"@[1] != "-="@[1]);
        }
    }
    let direction = if str_eq(update_operator, "++") {
        Direction::Increasing
    } else if str_eq(update_operator, "--") {
        Direction::Decreasing
    } else if str_eq(update_operator, "+=") {
        if update_right_reversed {
            Direction::Decreasing
        } else {
            Direction::Increasing
        }
    } else if update_right_reversed {
        Direction::Increasing
    } else {
        Direction::Decreasing
    };
    direction == wrong
}


/// The comparisons that the rule looks at in a loop's test.
pub open spec fn is_comparison(op: Seq<char>) -> bool {
    op == "<"@ || op == "<="@ || op == ">"@ || op == ">="@
}

/// The counter and the comparison of the test of `for` loop `n`: its
/// condition is an expression statement whose expression compares an
/// identifier (on the left) with `<`, `<=`, `>` or `>=` (an operator token,
/// whose kind is its text).
pub open spec fn loop_test(t: Seq<NodeView>, n: usize) -> Option<(Seq<char>, Seq<char>)> {
    match field_child(t, t[n as int].children, "condition"@) {
        Some(c) => if t[c as int].kind == "expression_statement"@ && named_non_comment(t, t[c as int].children).len() > 0
            && t[named_non_comment(t, t[c as int].children)[0] as int].kind == "binary_expression"@ {
            let b = named_non_comment(t, t[c as int].children)[0];
            match field_child(t, t[b as int].children, "left"@) {
                Some(l) => match field_child(t, t[b as int].children, "operator"@) {
                    Some(o) => if t[l as int].kind == "identifier"@ && is_comparison(t[o as int].kind) {
                        Some((t[l as int].text, t[o as int].kind))
                    } else {
                        None
                    },
                    None => None,
                },
                None => None,
            }
        } else {
            None
        },
        None => None,
    }
}

/// Whether node `r` is a number, negated or not; `Some(true)` where it is
/// negated.
pub open spec fn step_negated(t: Seq<NodeView>, r: usize) -> Option<bool> {
    if t[r as int].kind == "number"@ {
        Some(false)
    } else if t[r as int].kind == "unary_expression"@ {
        match field_child(t, t[r as int].children, "operator"@) {
            Some(o) => match field_child(t, t[r as int].children, "argument"@) {
                Some(a) => if t[o as int].kind == "-"@ && t[a as int].kind == "number"@ {
                    Some(true)
                } else {
                    None
                },
                None => None,
            },
            None => None,
        }
    } else {
        None
    }
}

/// The update operator of `for` loop `n` and whether what it adds is
/// negated: its increment applies `++` or `--` to `counter`, or adds to or
/// subtracts from `counter` a number, negated or not.
pub open spec fn loop_update(t: Seq<NodeView>, n: usize, counter: Seq<char>) -> Option<(Seq<char>, bool)> {
    match field_child(t, t[n as int].children, "increment"@) {
        Some(i) => if t[i as int].kind == "update_expression"@ {
            match field_child(t, t[i as int].children, "argument"@) {
                Some(a) => match field_child(t, t[i as int].children, "operator"@) {
                    Some(o) => if t[a as int].kind == "identifier"@ && t[a as int].text == counter && (t[o as int].kind
                        == "++"@ || t[o as int].kind == "--"@) {
                        Some((t[o as int].kind, false))
                    } else {
                        None
                    },
                    None => None,
                },
                None => None,
            }
        } else if t[i as int].kind == "augmented_assignment_expression"@ {
            match field_child(t, t[i as int].children, "left"@) {
                Some(l) => match field_child(t, t[i as int].children, "operator"@) {
                    Some(o) => match field_child(t, t[i as int].children, "right"@) {
                        Some(r) => if t[l as int].kind == "identifier"@ && t[l as int].text == counter && (t[o as int].kind
                            == "+="@ || t[o as int].kind == "-="@) {
                            match step_negated(t, r) {
                                Some(negated) => Some((t[o as int].kind, negated)),
                                None => None,
                            }
                        } else {
                            None
                        },
                        None => None,
                    },
                    None => None,
                },
                None => None,
            }
        } else {
            None
        },
        None => None,
    }
}

/// What the rule reads of `for` loop `n`, where the loop is one it looks
/// at: the comparison of its test, its update operator, and whether what
/// the update adds is negated.
pub open spec fn for_loop_spec(t: Seq<NodeView>, n: usize) -> Option<(Seq<char>, Seq<char>, bool)> {
    if t[n as int].kind != "for_statement"@ {
        None
    } else {
        match loop_test(t, n) {
            Some((counter, op)) => match loop_update(t, n, counter) {
                Some((update, negated)) => Some((op, update, negated)),
                None => None,
            },
            None => None,
        }
    }
}

fn text_at(tree: &SyntaxTree, c: usize) -> (r: &str)
    requires
        c < tree@.len(),
    ensures
        r@ == tree@[c as int].text,
{
    assert(tree.nodes@[c as int]@ == tree@[c as int]);
    tree.nodes[c].text.as_str()
}

fn kind_at(tree: &SyntaxTree, c: usize) -> (r: &str)
    requires
        c < tree@.len(),
    ensures
        r@ == tree@[c as int].kind,
{
    assert(tree.nodes@[c as int]@ == tree@[c as int]);
    tree.nodes[c].kind.as_str()
}

fn loop_test_of(tree: &SyntaxTree, n: usize) -> (r: Option<(String, String)>)
    requires
        tree.wf(),
        n < tree@.len(),
    ensures
        match r {
            Some((a, b)) => loop_test(tree@, n) == Some((a@, b@)),
            None => loop_test(tree@, n) is None,
        },
{
    proof {
        lemma_field_child_in(tree@, n, "condition"@);
    }
    let c = match tree.child_by_field_name(n, "condition") {
        Some(c) => c,
        None => return None,
    };
    if !tree.kind_is(c, "expression_statement") {
        return None;
    }
    let es = tree.non_comment_named_children(c);
    if es.len() == 0 || !tree.kind_is(es[0], "binary_expression") {
        return None;
    }
    let b = es[0];
    proof {
        lemma_field_child_in(tree@, b, "left"@);
        lemma_field_child_in(tree@, b, "operator"@);
    }
    let l = match tree.child_by_field_name(b, "left") {
        Some(l) => l,
        None => return None,
    };
    let o = match tree.child_by_field_name(b, "operator") {
        Some(o) => o,
        None => return None,
    };
    if tree.kind_is(l, "identifier") && (tree.kind_is(o, "<") || tree.kind_is(o, "<=") || tree.kind_is(o, ">")
        || tree.kind_is(o, ">=")) {
        Some((String::from_str(text_at(tree, l)), String::from_str(kind_at(tree, o))))
    } else {
        None
    }
}

fn step_negated_of(tree: &SyntaxTree, r: usize) -> (b: Option<bool>)
    requires
        tree.wf(),
        r < tree@.len(),
    ensures
        b == step_negated(tree@, r),
{
    if tree.kind_is(r, "number") {
        return Some(false);
    }
    if !tree.kind_is(r, "unary_expression") {
        return None;
    }
    proof {
        lemma_field_child_in(tree@, r, "operator"@);
        lemma_field_child_in(tree@, r, "argument"@);
    }
    let o = match tree.child_by_field_name(r, "operator") {
        Some(o) => o,
        None => return None,
    };
    let a = match tree.child_by_field_name(r, "argument") {
        Some(a) => a,
        None => return None,
    };
    if tree.kind_is(o, "-") && tree.kind_is(a, "number") {
        Some(true)
    } else {
        None
    }
}

fn loop_update_of(tree: &SyntaxTree, n: usize, counter: &str) -> (r: Option<(String, bool)>)
    requires
        tree.wf(),
        n < tree@.len(),
    ensures
        match r {
            Some((a, b)) => loop_update(tree@, n, counter@) == Some((a@, b)),
            None => loop_update(tree@, n, counter@) is None,
        },
{
    proof {
        lemma_field_child_in(tree@, n, "increment"@);
    }
    let i = match tree.child_by_field_name(n, "increment") {
        Some(i) => i,
        None => return None,
    };
    proof {
        lemma_field_child_in(tree@, i, "argument"@);
        lemma_field_child_in(tree@, i, "operator"@);
        lemma_field_child_in(tree@, i, "left"@);
        lemma_field_child_in(tree@, i, "right"@);
    }
    if tree.kind_is(i, "update_expression") {
        let a = match tree.child_by_field_name(i, "argument") {
            Some(a) => a,
            None => return None,
        };
        let o = match tree.child_by_field_name(i, "operator") {
            Some(o) => o,
            None => return None,
        };
        if tree.kind_is(a, "identifier") && str_eq(text_at(tree, a), counter) && (tree.kind_is(o, "++")
            || tree.kind_is(o, "--")) {
            Some((String::from_str(kind_at(tree, o)), false))
        } else {
            None
        }
    } else if tree.kind_is(i, "augmented_assignment_expression") {
        let l = match tree.child_by_field_name(i, "left") {
            Some(l) => l,
            None => return None,
        };
        let o = match tree.child_by_field_name(i, "operator") {
            Some(o) => o,
            None => return None,
        };
        let r = match tree.child_by_field_name(i, "right") {
            Some(r) => r,
            None => return None,
        };
        if tree.kind_is(l, "identifier") && str_eq(text_at(tree, l), counter) && (tree.kind_is(o, "+=")
            || tree.kind_is(o, "-=")) {
            match step_negated_of(tree, r) {
                Some(negated) => Some((String::from_str(kind_at(tree, o)), negated)),
                None => None,
            }
        } else {
            None
        }
    } else {
        None
    }
}

/// What the rule reads of `for` loop `n` of `tree` (see `for_loop_spec`).
pub fn for_loop_of(tree: &SyntaxTree, n: usize) -> (r: Option<(String, String, bool)>)
    requires
        tree.wf(),
        n < tree@.len(),
    ensures
        match r {
            Some((op, update, negated)) => for_loop_spec(tree@, n) == Some((op@, update@, negated)),
            None => for_loop_spec(tree@, n) is None,
        },
{
    if !tree.kind_is(n, "for_statement") {
        return None;
    }
    match loop_test_of(tree, n) {
        Some((counter, op)) => match loop_update_of(tree, n, counter.as_str()) {
            Some((update, negated)) => Some((op, update, negated)),
            None => None,
        },
        None => None,
    }
}

/// Whether `for` loop `n` of `tree` is reported: it is one the rule looks at
/// and its update moves the counter the wrong way.
pub fn check_for_statement(tree: &SyntaxTree, n: usize) -> (report: bool)
    requires
        tree.wf(),
        n < tree@.len(),
    ensures
        report == match for_loop_spec(tree@, n) {
            Some((op, update, negated)) => update_direction(update, negated) == wrong_direction(op),
            None => false,
        },
{
    match for_loop_of(tree, n) {
        Some((op, update, negated)) => is_wrong_direction(op.as_str(), update.as_str(), negated),
        None => false,
    }
}

/// Which updates move a loop's counter the wrong way: under a `<` or `<=`
/// test, `--` and `-=` do and `++` and `+=` do not; under a `>` or `>=`
/// test, the other way round. Negating what `+=` or `-=` adds turns its
/// verdict over; `++` and `--` add nothing.
pub proof fn lemma_wrong_direction_by_operators(operator: Seq<char>, negated: bool)
    ensures
        (operator == "<"@ || operator == "<="@) ==> {
            &&& update_direction("++"@, negated) != wrong_direction(operator)
            &&& update_direction("--"@, negated) == wrong_direction(operator)
            &&& update_direction("+="@, false) != wrong_direction(operator)
            &&& update_direction("-="@, false) == wrong_direction(operator)
        },
        (operator == ">"@ || operator == ">="@) ==> {
            &&& update_direction("++"@, negated) == wrong_direction(operator)
            &&& update_direction("--"@, negated) != wrong_direction(operator)
            &&& update_direction("+="@, false) == wrong_direction(operator)
            &&& update_direction("-="@, false) != wrong_direction(operator)
        },
        (update_direction("+="@, true) == wrong_direction(operator)) != (update_direction("+="@, false)
            == wrong_direction(operator)),
        (update_direction("-="@, true) == wrong_direction(operator)) != (update_direction("-="@, false)
            == wrong_direction(operator)),
{
    reveal_strlit("++");
    reveal_strlit("--");
    reveal_strlit("+=");
    reveal_strlit("-=");
    reveal_strlit("<");
    reveal_strlit("<=");
    reveal_strlit(">");
    reveal_strlit(">=");
    assert("++"@[1] != "+="@[1] && "--"@[1] != "-="@[1] && "++"@[0] != "--"@[0] && "+="@[0] != "-="@[0]);
    assert("++"@[0] != "-="@[0] && "--"@[0] != "+="@[0]);
    assert("<"@.len() != ">="@.len() && "<="@.len() != ">"@.len() && "<"@[0] != ">"@[0] && "<="@[0] != ">="@[0]);
}

} // verus!
