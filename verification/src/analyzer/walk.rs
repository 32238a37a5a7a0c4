use vstd::prelude::*;

use crate::analyzer::node_facts::{
    enter_node, enter_plan_at, enter_readable, exit_node, exit_plan_at, exit_readable, field_in_parent, kind_at,
    node_kind_of, node_kind_spec, operator_of, parent_of, postprocess_at, postprocess_node, preprocess_node,
    test_constant_spec,
};
use crate::analyzer::{
    is_visited, is_visited_spec, preprocess_ok, preprocess_spec, EnterPlan, ExitPlan, NodeKind, PostprocessPlan,
    PreprocessAction,
};
use crate::syntax_tree::{call_arguments_ok, field_child, named_non_comment, NodeView, SyntaxTree};

verus! {

/// One step of the code path analysis over a syntax tree, with the node it
/// is taken at.
#[derive(Copy, Clone, Debug, PartialEq, Eq, Structural)]
pub enum CodePathStep {
    Preprocess { node: usize, action: PreprocessAction },
    Enter { node: usize, enter_plan: EnterPlan },
    Exit { node: usize, exit_plan: ExitPlan },
    Postprocess { node: usize, postprocess_plan: PostprocessPlan },
}

/// The analysis looks at node `n`: it is named and no comment.
pub open spec fn visited_at(t: Seq<NodeView>, n: usize) -> bool {
    is_visited_spec(t[n as int].is_named, kind_at(t, n))
}

/// The step taken before entering node `n`, which has a parent, where
/// `test_constant` is the value of its test (see `test_constant_spec`).
pub open spec fn preprocess_at(t: Seq<NodeView>, n: usize, test_constant: Option<bool>) -> PreprocessAction {
    preprocess_spec(
        node_kind_spec(t[parent_of(t, n) as int].kind),
        field_in_parent(t, n),
        node_kind_spec(t[n as int].kind),
        field_child(t, t[parent_of(t, n) as int].children, "optional_chain"@) is Some,
        named_non_comment(t, t[n as int].children).len() > 0,
        operator_of(t, parent_of(t, n)),
        test_constant,
    )
}

/// The tree holds what each step at node `n` reads, where the analysis
/// looks at `n`.
pub open spec fn steps_readable(t: Seq<NodeView>, n: usize) -> bool {
    visited_at(t, n) ==> {
        &&& t[n as int].parent is Some ==> preprocess_ok(
            node_kind_spec(t[parent_of(t, n) as int].kind),
            field_in_parent(t, n),
        )
        &&& enter_readable(t, n)
        &&& exit_readable(t, n)
        &&& kind_at(t, n) == NodeKind::CallExpression ==> call_arguments_ok(t, n)
    }
}

/// The steps taken on the way into node `n`: the preprocessing where it has
/// a parent, then the entering; none where the analysis skips `n`.
pub open spec fn steps_into(t: Seq<NodeView>, n: usize, float_truthy: Seq<bool>) -> Seq<
    CodePathStep,
> {
    if !visited_at(t, n) {
        Seq::empty()
    } else {
        let enter = seq![CodePathStep::Enter { node: n, enter_plan: enter_plan_at(t, n) }];
        if t[n as int].parent is Some {
            seq![CodePathStep::Preprocess { node: n, action: preprocess_at(t, n, test_constant_spec(t, n, float_truthy)) }] + enter
        } else {
            enter
        }
    }
}

/// The steps taken on the way out of node `n`: the leaving, then the
/// postprocessing; none where the analysis skips `n`.
pub open spec fn steps_out_of(t: Seq<NodeView>, n: usize) -> Seq<CodePathStep> {
    if !visited_at(t, n) {
        Seq::empty()
    } else {
        seq![
            CodePathStep::Exit { node: n, exit_plan: exit_plan_at(t, n) },
            CodePathStep::Postprocess { node: n, postprocess_plan: postprocess_at(t, n) },
        ]
    }
}

/// The steps of the analysis over the subtree of node `n`, in order: those
/// into `n`, those of each child's subtree in turn, those out of `n`.
pub open spec fn subtree_steps(t: Seq<NodeView>, n: int, float_truthy: Seq<bool>) -> Seq<
    CodePathStep,
>
    decreases t.len() - n, t[n].children.len() + 1,
{
    if 0 <= n < t.len() {
        steps_into(t, n as usize, float_truthy) + children_steps(t, n, t[n].children.len() as int, float_truthy)
            + steps_out_of(t, n as usize)
    } else {
        Seq::empty()
    }
}

/// The steps over the subtrees of the first `k` children of node `n`.
pub open spec fn children_steps(
    t: Seq<NodeView>,
    n: int,
    k: int,
    float_truthy: Seq<bool>,
) -> Seq<CodePathStep>
    decreases t.len() - n, k,
{
    if 0 < k <= t[n].children.len() {
        let c = t[n].children[k - 1] as int;
        if n < c < t.len() {
            children_steps(t, n, k - 1, float_truthy) + subtree_steps(t, c, float_truthy)
        } else {
            Seq::empty()
        }
    } else {
        Seq::empty()
    }
}

fn push_steps_into(
    tree: &SyntaxTree,
    n: usize,
    float_truthy: &Vec<bool>,
    out: &mut Vec<CodePathStep>,
)
    requires
        tree.wf(),
        n < tree@.len(),
        float_truthy@.len() == tree@.len(),
        steps_readable(tree@, n),
    ensures
        final(out)@ == old(out)@ + steps_into(tree@, n, float_truthy@),
{
    assert(tree.nodes@[n as int]@ == tree@[n as int]);
    let kind = node_kind_of(tree.nodes[n].kind.as_str());
    if !is_visited(tree.nodes[n].is_named, kind) {
        assert(out@ + Seq::<CodePathStep>::empty() =~= out@);
        return;
    }
    if tree.nodes[n].parent.is_some() {
        let action = preprocess_node(tree, n, float_truthy);
        out.push(CodePathStep::Preprocess { node: n, action });
    }
    let enter_plan = enter_node(tree, n);
    out.push(CodePathStep::Enter { node: n, enter_plan });
    assert(out@ =~= old(out)@ + steps_into(tree@, n, float_truthy@));
}

fn push_steps_out_of(tree: &SyntaxTree, n: usize, out: &mut Vec<CodePathStep>)
    requires
        tree.wf(),
        n < tree@.len(),
        steps_readable(tree@, n),
    ensures
        final(out)@ == old(out)@ + steps_out_of(tree@, n),
{
    assert(tree.nodes@[n as int]@ == tree@[n as int]);
    let kind = node_kind_of(tree.nodes[n].kind.as_str());
    if !is_visited(tree.nodes[n].is_named, kind) {
        assert(out@ + Seq::<CodePathStep>::empty() =~= out@);
        return;
    }
    let exit_plan = exit_node(tree, n);
    out.push(CodePathStep::Exit { node: n, exit_plan });
    let post = postprocess_node(tree, n);
    out.push(CodePathStep::Postprocess { node: n, postprocess_plan: post });
    assert(out@ =~= old(out)@ + steps_out_of(tree@, n));
}

fn push_subtree_steps(
    tree: &SyntaxTree,
    n: usize,
    float_truthy: &Vec<bool>,
    out: &mut Vec<CodePathStep>,
)
    requires
        tree.wf(),
        n < tree@.len(),
        float_truthy@.len() == tree@.len(),
        forall|i: usize| i < tree@.len() ==> #[trigger] steps_readable(tree@, i),
    ensures
        final(out)@ == old(out)@ + subtree_steps(tree@, n as int, float_truthy@),
    decreases tree@.len() - n,
{
    let ghost t = tree@;
    push_steps_into(tree, n, float_truthy, out);
    let ghost start = out@;
    assert(tree.nodes@[n as int]@ == tree@[n as int]);
    let children = &tree.nodes[n].children;
    assert(children@ == t[n as int].children);
    let mut i: usize = 0;
    while i < children.len()
        invariant
            tree.wf(),
            t == tree@,
            (n as int) < t.len(),
            float_truthy@.len() == t.len(),
            forall|j: usize| j < t.len() ==> #[trigger] steps_readable(t, j),
            children@ == t[n as int].children,
            i <= children@.len(),
            out@ == start + children_steps(t, n as int, i as int, float_truthy@),
        decreases children.len() - i,
    {
        let c = children[i];
        assert(n < c < t.len());
        push_subtree_steps(tree, c, float_truthy, out);
        assert(children_steps(t, n as int, i + 1, float_truthy@) == children_steps(t, n as int, i as int, float_truthy@)
            + subtree_steps(t, c as int, float_truthy@));
        assert(out@ =~= start + children_steps(t, n as int, i + 1, float_truthy@));
        i = i + 1;
    }
    push_steps_out_of(tree, n, out);
    assert(out@ =~= old(out)@ + subtree_steps(t, n as int, float_truthy@));
}

/// The steps of the code path analysis over the subtree of `root`, in the
/// order in which a walk of the tree takes them: for each node that is named
/// and no comment, the preprocessing (where it has a parent) and the
/// entering before its children's steps, the leaving and the postprocessing
/// after them. `float_truthy` gives, per node, what its text reads as, as a
/// non-integer number (for the values of loop tests).
pub fn code_path_steps(
    tree: &SyntaxTree,
    root: usize,
    float_truthy: &Vec<bool>,
) -> (r: Vec<CodePathStep>)
    requires
        tree.wf(),
        root < tree@.len(),
        float_truthy@.len() == tree@.len(),
        forall|i: usize| i < tree@.len() ==> #[trigger] steps_readable(tree@, i),
    ensures
        r@ == subtree_steps(tree@, root as int, float_truthy@),
{
    let mut out: Vec<CodePathStep> = Vec::new();
    push_subtree_steps(tree, root, float_truthy, &mut out);
    assert(out@ =~= subtree_steps(tree@, root as int, float_truthy@));
    out
}

} // verus!
