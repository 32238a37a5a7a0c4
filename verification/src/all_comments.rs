use vstd::prelude::*;

use crate::syntax_tree::{is_comment, NodeView, SyntaxTree};

verus! {

/// The comment nodes among the first `k` nodes of `t`, in order.
pub open spec fn comments_among(t: Seq<NodeView>, k: int) -> Seq<usize>
    decreases k,
{
    if k <= 0 {
        Seq::empty()
    } else if is_comment(t, (k - 1) as usize) {
        comments_among(t, k - 1).push((k - 1) as usize)
    } else {
        comments_among(t, k - 1)
    }
}

/// The comments among the first `k` nodes are exactly the nodes before `k`
/// that are comments, each once, in increasing order.
pub proof fn lemma_comments_among(t: Seq<NodeView>, k: int)
    requires
        0 <= k <= usize::MAX,
    ensures
        forall|x: usize| #[trigger] comments_among(t, k).contains(x) <==> (x < k && is_comment(t, x)),
        forall|i: int, j: int|
            0 <= i < j < comments_among(t, k).len() ==> #[trigger] comments_among(t, k)[i] < #[trigger] comments_among(
                t,
                k,
            )[j],
    decreases k,
{
    if k > 0 {
        lemma_comments_among(t, k - 1);
        let prev = comments_among(t, k - 1);
        if is_comment(t, (k - 1) as usize) {
            let cur = prev.push((k - 1) as usize);
            assert forall|x: usize| #[trigger] cur.contains(x) <==> (x < k && is_comment(t, x)) by {
                if x == (k - 1) as usize {
                    assert(cur[prev.len() as int] == x);
                    assert(cur.contains(x));
                } else if cur.contains(x) {
                    let i = choose|i: int| 0 <= i < cur.len() && cur[i] == x;
                    assert(i < prev.len());
                    assert(prev[i] == x);
                    assert(prev.contains(x));
                } else if x < k && is_comment(t, x) {
                    assert(prev.contains(x));
                    let i = choose|i: int| 0 <= i < prev.len() && prev[i] == x;
                    assert(cur[i] == x);
                }
            }
            assert forall|i: int, j: int| 0 <= i < j < cur.len() implies #[trigger] cur[i] < #[trigger] cur[j] by {
                if j == prev.len() {
                    assert(cur[i] == prev[i]);
                    assert(prev.contains(prev[i]));
                } else {
                    assert(cur[i] == prev[i] && cur[j] == prev[j]);
                }
            }
        }
    }
}

/// The comments of a file, in the order they come in.
pub struct AllComments(pub Vec<usize>);

impl AllComments {
    /// Collects the comment nodes of `tree`. Nodes are numbered in the order
    /// of the source, so this is the order the comments come in.
    pub fn from_tree(tree: &SyntaxTree) -> (r: AllComments)
        ensures
            r.0@ == comments_among(tree@, tree@.len() as int),
    {
        let mut out: Vec<usize> = Vec::new();
        let mut i: usize = 0;
        while i < tree.nodes.len()
            invariant
                i <= tree@.len(),
                tree@.len() == tree.nodes@.len(),
                out@ == comments_among(tree@, i as int),
            decreases tree.nodes.len() - i,
        {
            if tree.kind_is(i, "comment") {
                out.push(i);
            }
            i = i + 1;
        }
        AllComments(out)
    }
}

} // verus!
