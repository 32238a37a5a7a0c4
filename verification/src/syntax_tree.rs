use vstd::prelude::*;

use crate::text::{chars_of, str_eq, string_of};

verus! {

/// One node of a syntax tree: its kind, whether it is named, its parent,
/// the field of the parent that holds it, its children (all of them, in
/// order), its source text, and where that text starts in the source (as a
/// count of the characters before it).
pub struct SyntaxNode {
    pub kind: String,
    pub is_named: bool,
    pub parent: Option<usize>,
    pub field: Option<String>,
    pub children: Vec<usize>,
    pub text: String,
    pub start: usize,
}

/// The mathematical value of a node.
pub struct NodeView {
    pub kind: Seq<char>,
    pub is_named: bool,
    pub parent: Option<usize>,
    pub field: Option<Seq<char>>,
    pub children: Seq<usize>,
    pub text: Seq<char>,
    pub start: usize,
}

impl View for SyntaxNode {
    type V = NodeView;

    open spec fn view(&self) -> NodeView {
        NodeView {
            kind: self.kind@,
            is_named: self.is_named,
            parent: self.parent,
            field: match self.field {
                Some(f) => Some(f@),
                None => None,
            },
            children: self.children@,
            text: self.text@,
            start: self.start,
        }
    }
}

/// A syntax tree whose nodes are numbered in pre-order: a node comes after
/// its parent and before its children.
pub struct SyntaxTree {
    pub nodes: Vec<SyntaxNode>,
}

impl View for SyntaxTree {
    type V = Seq<NodeView>;

    open spec fn view(&self) -> Seq<NodeView> {
        self.nodes@.map_values(|n: SyntaxNode| n@)
    }
}

/// The tree is well formed: every child comes after its parent and names a
/// node of the tree whose parent it is; every parent comes before.
pub open spec fn tree_wf(t: Seq<NodeView>) -> bool {
    forall|i: int|
        0 <= i < t.len() ==> {
            &&& forall|k: int|
                0 <= k < (#[trigger] t[i]).children.len() ==> i < t[i].children[k] < t.len()
                    && t[t[i].children[k] as int].parent == Some(i as usize)
            &&& (t[i].parent matches Some(p) ==> p < i && t[p as int].children.contains(i as usize))
            &&& t[i].children.no_duplicates()
        }
}

pub open spec fn is_comment(t: Seq<NodeView>, n: usize) -> bool {
    t[n as int].kind == "comment"@
}

/// The members of `cs` that are named and no comment, in order.
pub open spec fn named_non_comment(t: Seq<NodeView>, cs: Seq<usize>) -> Seq<usize>
    decreases cs.len(),
{
    if cs.len() == 0 {
        Seq::empty()
    } else {
        let rest = named_non_comment(t, cs.drop_last());
        if t[cs.last() as int].is_named && !is_comment(t, cs.last()) {
            rest.push(cs.last())
        } else {
            rest
        }
    }
}

/// The members of `cs` that are no comment, in order.
pub open spec fn non_comment(t: Seq<NodeView>, cs: Seq<usize>) -> Seq<usize>
    decreases cs.len(),
{
    if cs.len() == 0 {
        Seq::empty()
    } else {
        let rest = non_comment(t, cs.drop_last());
        if !is_comment(t, cs.last()) {
            rest.push(cs.last())
        } else {
            rest
        }
    }
}

/// The first child of `n` held in field `name`.
pub open spec fn field_child(t: Seq<NodeView>, cs: Seq<usize>, name: Seq<char>) -> Option<usize>
    decreases cs.len(),
{
    if cs.len() == 0 {
        None
    } else if t[cs[0] as int].field == Some(name) {
        Some(cs[0])
    } else {
        field_child(t, cs.drop_first(), name)
    }
}

/// Node `n` is node `a` or lies inside it: `a` is met going up from `n`
/// through its parents.
pub open spec fn is_same_or_descendant_spec(t: Seq<NodeView>, n: usize, a: usize) -> bool
    decreases n,
{
    if n == a {
        true
    } else if n < t.len() {
        match t[n as int].parent {
            Some(p) => if p < n {
                is_same_or_descendant_spec(t, p, a)
            } else {
                false
            },
            None => false,
        }
    } else {
        false
    }
}

impl SyntaxTree {
    pub open spec fn wf(&self) -> bool {
        tree_wf(self@)
    }

    fn node(&self, n: usize) -> (r: &SyntaxNode)
        requires
            n < self@.len(),
        ensures
            r@ == self@[n as int],
    {
        &self.nodes[n]
    }

    /// Whether node `n` is of kind `kind`.
    pub fn kind_is(&self, n: usize, kind: &str) -> (b: bool)
        requires
            n < self@.len(),
        ensures
            b == (self@[n as int].kind == kind@),
    {
        str_eq(self.node(n).kind.as_str(), kind)
    }

    fn is_comment_node(&self, n: usize) -> (b: bool)
        requires
            n < self@.len(),
        ensures
            b == is_comment(self@, n),
    {
        self.kind_is(n, "comment")
    }

    /// The child of `n` in field `name`, if any.
    pub fn child_by_field_name(&self, n: usize, name: &str) -> (r: Option<usize>)
        requires
            self.wf(),
            n < self@.len(),
        ensures
            r == field_child(self@, self@[n as int].children, name@),
            r matches Some(c) ==> n < c < self@.len(),
    {
        let ghost t = self@;
        let children = &self.node(n).children;
        let mut i: usize = 0;
        assert(t[n as int].children.skip(0) =~= t[n as int].children);
        while i < children.len()
            invariant
                tree_wf(t),
                t == self@,
                (n as int) < t.len(),
                children@ == t[n as int].children,
                i <= children@.len(),
                field_child(t, children@, name@) == field_child(t, children@.skip(i as int), name@),
            decreases children.len() - i,
        {
            let c = children[i];
            let ghost rest = children@.skip(i as int);
            assert(rest[0] == c);
            assert(rest.drop_first() =~= children@.skip(i + 1));
            assert(n < c < t.len());
            let matches = match &self.node(c).field {
                Some(f) => str_eq(f.as_str(), name),
                None => false,
            };
            if matches {
                return Some(c);
            }
            i = i + 1;
        }
        None
    }

    /// The children of `n` that are named and no comment.
    pub fn non_comment_named_children(&self, n: usize) -> (r: Vec<usize>)
        requires
            self.wf(),
            n < self@.len(),
        ensures
            r@ == named_non_comment(self@, self@[n as int].children),
            forall|k: int| 0 <= k < r@.len() ==> n < #[trigger] r@[k] < self@.len(),
    {
        let ghost t = self@;
        let children = &self.node(n).children;
        let mut out: Vec<usize> = Vec::new();
        let mut i: usize = 0;
        while i < children.len()
            invariant
                tree_wf(t),
                t == self@,
                (n as int) < t.len(),
                children@ == t[n as int].children,
                i <= children@.len(),
                out@ == named_non_comment(t, children@.take(i as int)),
                forall|k: int| 0 <= k < out@.len() ==> n < #[trigger] out@[k] < t.len(),
            decreases children.len() - i,
        {
            assert(children@.take(i + 1).drop_last() =~= children@.take(i as int));
            let c = children[i];
            assert(n < c < t.len());
            if self.node(c).is_named && !self.is_comment_node(c) {
                out.push(c);
            }
            i = i + 1;
        }
        assert(children@.take(children@.len() as int) =~= children@);
        out
    }

    /// The children of `n` that are no comment.
    pub fn non_comment_children(&self, n: usize) -> (r: Vec<usize>)
        requires
            self.wf(),
            n < self@.len(),
        ensures
            r@ == non_comment(self@, self@[n as int].children),
            forall|k: int| 0 <= k < r@.len() ==> n < #[trigger] r@[k] < self@.len(),
    {
        let ghost t = self@;
        let children = &self.node(n).children;
        let mut out: Vec<usize> = Vec::new();
        let mut i: usize = 0;
        while i < children.len()
            invariant
                tree_wf(t),
                t == self@,
                (n as int) < t.len(),
                children@ == t[n as int].children,
                i <= children@.len(),
                out@ == non_comment(t, children@.take(i as int)),
                forall|k: int| 0 <= k < out@.len() ==> n < #[trigger] out@[k] < t.len(),
            decreases children.len() - i,
        {
            assert(children@.take(i + 1).drop_last() =~= children@.take(i as int));
            let c = children[i];
            assert(n < c < t.len());
            if !self.is_comment_node(c) {
                out.push(c);
            }
            i = i + 1;
        }
        assert(children@.take(children@.len() as int) =~= children@);
        out
    }
}

/// The position of the first `x` in `s` (the length of `s` where there is
/// none).
pub open spec fn position_in(s: Seq<usize>, x: usize) -> int
    decreases s.len(),
{
    if s.len() == 0 {
        0
    } else if s[0] == x {
        0
    } else {
        1 + position_in(s.drop_first(), x)
    }
}

pub proof fn lemma_position_in(s: Seq<usize>, x: usize)
    ensures
        0 <= position_in(s, x) <= s.len(),
        forall|j: int| 0 <= j < position_in(s, x) ==> s[j] != x,
        s.contains(x) ==> position_in(s, x) < s.len() && s[position_in(s, x)] == x,
    decreases s.len(),
{
    if s.len() > 0 && s[0] != x {
        let d = s.drop_first();
        lemma_position_in(d, x);
        assert forall|j: int| 0 <= j < position_in(s, x) implies s[j] != x by {
            if j > 0 {
                assert(s[j] == d[j - 1]);
            }
        }
        if s.contains(x) {
            let k = s.index_of(x);
            assert(d.contains(x)) by {
                assert(k > 0);
                assert(d[k - 1] == x);
            }
        }
    }
}

/// What skipping nodes of the kinds `kinds` down from `n` reaches: while
/// the node is of one of those kinds, its first named child that is no
/// comment (the node itself where it has none).
pub open spec fn skip_spec(t: Seq<NodeView>, n: usize, kinds: Seq<Seq<char>>) -> usize
    decreases t.len() - n,
{
    if !tree_wf(t) || n >= t.len() || !kinds.contains(t[n as int].kind) {
        n
    } else {
        let cs = named_non_comment(t, t[n as int].children);
        if cs.len() == 0 {
            n
        } else if cs[0] > n && cs[0] < t.len() {
            skip_spec(t, cs[0], kinds)
        } else {
            n
        }
    }
}

/// The members of `named_non_comment(t, cs)` are members of `cs`.
pub proof fn lemma_named_non_comment_subset(t: Seq<NodeView>, cs: Seq<usize>)
    ensures
        forall|k: int| 0 <= k < named_non_comment(t, cs).len() ==> cs.contains(#[trigger] named_non_comment(t, cs)[k]),
    decreases cs.len(),
{
    if cs.len() > 0 {
        lemma_named_non_comment_subset(t, cs.drop_last());
        let r = named_non_comment(t, cs.drop_last());
        assert forall|k: int| 0 <= k < named_non_comment(t, cs).len() implies cs.contains(#[trigger] named_non_comment(t, cs)[k]) by {
            if k < r.len() {
                assert(cs.drop_last().contains(r[k]));
                let j = cs.drop_last().index_of(r[k]);
                assert(cs[j] == r[k]);
            } else {
                assert(cs[cs.len() - 1] == cs.last());
            }
        }
    }
}

/// The members of `non_comment(t, cs)` are members of `cs`.
pub proof fn lemma_non_comment_subset(t: Seq<NodeView>, cs: Seq<usize>)
    ensures
        forall|k: int| 0 <= k < non_comment(t, cs).len() ==> cs.contains(#[trigger] non_comment(t, cs)[k]),
    decreases cs.len(),
{
    if cs.len() > 0 {
        lemma_non_comment_subset(t, cs.drop_last());
        let r = non_comment(t, cs.drop_last());
        assert forall|k: int| 0 <= k < non_comment(t, cs).len() implies cs.contains(#[trigger] non_comment(t, cs)[k]) by {
            if k < r.len() {
                assert(cs.drop_last().contains(r[k]));
                let j = cs.drop_last().index_of(r[k]);
                assert(cs[j] == r[k]);
            } else {
                assert(cs[cs.len() - 1] == cs.last());
            }
        }
    }
}

/// The nearest ancestor of `n` that is no parenthesized expression.
pub open spec fn next_non_parentheses_ancestor_spec(t: Seq<NodeView>, n: usize) -> Option<usize>
    decreases n,
{
    if !tree_wf(t) || n >= t.len() {
        None
    } else {
        match t[n as int].parent {
            None => None,
            Some(p) => if p >= n {
                None
            } else if t[p as int].kind == "parenthesized_expression"@ {
                next_non_parentheses_ancestor_spec(t, p)
            } else {
                Some(p)
            },
        }
    }
}

fn kinds_contain(kinds: &Vec<String>, kind: &str) -> (b: bool)
    ensures
        b == kinds@.map_values(|k: String| k@).contains(kind@),
{
    let ghost v = kinds@.map_values(|k: String| k@);
    let mut i: usize = 0;
    while i < kinds.len()
        invariant
            i <= kinds@.len(),
            v == kinds@.map_values(|k: String| k@),
            forall|j: int| 0 <= j < i ==> v[j] != kind@,
        decreases kinds.len() - i,
    {
        if str_eq(kinds[i].as_str(), kind) {
            assert(v[i as int] == kind@);
            return true;
        }
        i = i + 1;
    }
    false
}

impl SyntaxTree {
    /// Skips down from `n` through nodes of the kinds `kinds` (see
    /// `skip_spec`).
    pub fn skip_nodes_of_types(&self, n: usize, kinds: &Vec<String>) -> (r: usize)
        requires
            self.wf(),
            n < self@.len(),
        ensures
            r == skip_spec(self@, n, kinds@.map_values(|k: String| k@)),
            r < self@.len(),
            kinds@.map_values(|k: String| k@).contains(self@[r as int].kind) ==> named_non_comment(
                self@,
                self@[r as int].children,
            ).len() == 0,
        decreases self@.len() - n,
    {
        let ghost ks = kinds@.map_values(|k: String| k@);
        if !kinds_contain(kinds, self.node(n).kind.as_str()) {
            return n;
        }
        let cs = self.non_comment_named_children(n);
        if cs.len() == 0 {
            return n;
        }
        let c = cs[0];
        assert(c > n);
        self.skip_nodes_of_types(c, kinds)
    }

    /// Skips down from `n` through nodes of kind `kind`.
    pub fn skip_nodes_of_type(&self, n: usize, kind: &str) -> (r: usize)
        requires
            self.wf(),
            n < self@.len(),
        ensures
            r == skip_spec(self@, n, seq![kind@]),
            r < self@.len(),
            self@[r as int].kind == kind@ ==> named_non_comment(self@, self@[r as int].children).len() == 0,
    {
        let mut kinds: Vec<String> = Vec::new();
        kinds.push(String::from_str(kind));
        assert(kinds@.map_values(|k: String| k@) =~= seq![kind@]);
        let r = self.skip_nodes_of_types(n, &kinds);
        assert(seq![kind@][0] == kind@);
        r
    }

    /// Skips down from `n` through parenthesized expressions.
    pub fn skip_parenthesized_expressions(&self, n: usize) -> (r: usize)
        requires
            self.wf(),
            n < self@.len(),
        ensures
            r == skip_spec(self@, n, seq!["parenthesized_expression"@]),
            r < self@.len(),
            self@[r as int].kind == "parenthesized_expression"@ ==> named_non_comment(
                self@,
                self@[r as int].children,
            ).len() == 0,
    {
        self.skip_nodes_of_type(n, "parenthesized_expression")
    }

    /// Whether node `n` is node `a` or lies inside it.
    pub fn is_same_or_descendant_of(&self, n: usize, a: usize) -> (b: bool)
        requires
            self.wf(),
            n < self@.len(),
        ensures
            b == is_same_or_descendant_spec(self@, n, a),
        decreases n,
    {
        if n == a {
            return true;
        }
        match self.node(n).parent {
            None => false,
            Some(p) => self.is_same_or_descendant_of(p, a),
        }
    }

    /// The nearest ancestor of `n` that is no parenthesized expression.
    pub fn maybe_next_non_parentheses_ancestor(&self, n: usize) -> (r: Option<usize>)
        requires
            self.wf(),
            n < self@.len(),
        ensures
            r == next_non_parentheses_ancestor_spec(self@, n),
            r matches Some(a) ==> a < n && self@[a as int].kind != "parenthesized_expression"@,
        decreases n,
    {
        match self.node(n).parent {
            None => None,
            Some(p) => {
                if self.kind_is(p, "parenthesized_expression") {
                    self.maybe_next_non_parentheses_ancestor(p)
                } else {
                    Some(p)
                }
            },
        }
    }

    /// The first child of `n` that is no comment.
    pub fn maybe_get_first_non_comment_child(&self, n: usize) -> (r: Option<usize>)
        requires
            self.wf(),
            n < self@.len(),
        ensures
            r == if non_comment(self@, self@[n as int].children).len() > 0 {
                Some(non_comment(self@, self@[n as int].children)[0])
            } else {
                None::<usize>
            },
    {
        let cs = self.non_comment_children(n);
        if cs.len() > 0 {
            Some(cs[0])
        } else {
            None
        }
    }

    /// The last sibling before `n` that is no comment.
    pub fn maybe_get_prev_non_comment_sibling(&self, n: usize) -> (r: Option<usize>)
        requires
            self.wf(),
            n < self@.len(),
        ensures
            match self@[n as int].parent {
                None => r is None,
                Some(p) => {
                    let before = self@[p as int].children.take(position_in(self@[p as int].children, n));
                    r == if non_comment(self@, before).len() > 0 {
                        Some(non_comment(self@, before).last())
                    } else {
                        None::<usize>
                    }
                },
            },
    {
        let ghost t = self@;
        match self.node(n).parent {
            None => None,
            Some(p) => {
                let siblings = &self.node(p).children;
                assert(t[p as int].children.contains(n));
                proof {
                    lemma_position_in(t[p as int].children, n);
                }
                let ghost pos = position_in(t[p as int].children, n);
                let mut i: usize = 0;
                while siblings[i] != n
                    invariant
                        siblings@ == t[p as int].children,
                        siblings@.len() == siblings.len(),
                        0 <= i <= pos < siblings@.len(),
                        siblings@[pos] == n,
                        forall|j: int| 0 <= j < pos ==> siblings@[j] != n,
                    decreases pos - i,
                {
                    assert(i < pos) by {
                        if i == pos {
                            assert(siblings@[i as int] == n);
                        }
                    }
                    i = i + 1;
                }
                let ghost before = siblings@.take(pos);
                assert(i == pos);
                let mut k = i;
                while k > 0
                    invariant
                        siblings@ == t[p as int].children,
                        tree_wf(t),
                        t == self@,
                        (p as int) < t.len(),
                        k <= pos < siblings@.len(),
                        (n as int) < t.len(),
                        t[n as int].parent == Some(p),
                        pos == position_in(t[p as int].children, n),
                        before == siblings@.take(pos),
                        non_comment(t, before) == non_comment(t, siblings@.take(k as int)),
                    decreases k,
                {
                    let c = siblings[k - 1];
                    assert(siblings@.take(k as int).drop_last() =~= siblings@.take(k - 1));
                    assert(siblings@.take(k as int).last() == c);
                    assert(p < c < t.len());
                    if !self.is_comment_node(c) {
                        assert(non_comment(t, siblings@.take(k as int)) == non_comment(t, siblings@.take(k - 1)).push(c));
                        assert(t[n as int].parent == Some(p));
                        return Some(c);
                    }
                    k = k - 1;
                }
                assert(siblings@.take(0) =~= Seq::<usize>::empty());
                None
            },
        }
    }

    /// The first child of `n` that is no comment, where the caller knows
    /// there is one.
    pub fn get_first_non_comment_child(&self, n: usize) -> (r: usize)
        requires
            self.wf(),
            n < self@.len(),
            non_comment(self@, self@[n as int].children).len() > 0,
        ensures
            r == non_comment(self@, self@[n as int].children)[0],
    {
        let cs = self.non_comment_children(n);
        cs[0]
    }

    /// The last sibling before `n` that is no comment, where the caller
    /// knows there is one.
    pub fn get_prev_non_comment_sibling(&self, n: usize) -> (r: usize)
        requires
            self.wf(),
            n < self@.len(),
            self@[n as int].parent matches Some(p) && non_comment(
                self@,
                self@[p as int].children.take(position_in(self@[p as int].children, n)),
            ).len() > 0,
        ensures
            ({
                let p = self@[n as int].parent->0;
                r == non_comment(self@, self@[p as int].children.take(position_in(self@[p as int].children, n))).last()
            }),
    {
        match self.maybe_get_prev_non_comment_sibling(n) {
            Some(s) => s,
            None => n,
        }
    }

    /// A punctuation token (see `is_punctuation_kind`).
    pub fn is_punctuation(&self, n: usize) -> (b: bool)
        requires
            n < self@.len(),
        ensures
            b == crate::ast_helpers::is_punctuation_kind_spec(self@[n as int].kind),
    {
        crate::ast_helpers::is_punctuation_kind(self.node(n).kind.as_str())
    }

    /// The first named child of `n` of kind `kind`, if any.
    pub fn get_first_child_of_kind(&self, n: usize, kind: &str) -> (r: Option<usize>)
        requires
            self.wf(),
            n < self@.len(),
        ensures
            match r {
                Some(c) => self@[n as int].children.contains(c) && self@[c as int].is_named && self@[c as int].kind == kind@
                    && forall|j: int| 0 <= j < position_in(self@[n as int].children, c) ==> !(self@[self@[n as int].children[j] as int].is_named
                        && #[trigger] self@[self@[n as int].children[j] as int].kind == kind@),
                None => forall|j: int| 0 <= j < self@[n as int].children.len() ==> !(self@[self@[n as int].children[j] as int].is_named
                    && #[trigger] self@[self@[n as int].children[j] as int].kind == kind@),
            },
    {
        let ghost t = self@;
        let children = &self.node(n).children;
        let mut i: usize = 0;
        while i < children.len()
            invariant
                tree_wf(t),
                t == self@,
                (n as int) < t.len(),
                children@ == t[n as int].children,
                i <= children@.len(),
                forall|j: int| 0 <= j < i ==> !(t[children@[j] as int].is_named && #[trigger] t[children@[j] as int].kind == kind@),
            decreases children.len() - i,
        {
            let c = children[i];
            assert(n < c < t.len());
            if self.node(c).is_named && self.kind_is(c, kind) {
                proof {
                    assert(children@[i as int] == c);
                    assert(children@.contains(c));
                    lemma_position_in(children@, c);
                    let x = position_in(children@, c);
                    assert(x <= i) by {
                        if x > i {
                            assert(children@[i as int] != c);
                        }
                    }
                    assert forall|j: int| 0 <= j < x implies !(t[children@[j] as int].is_named
                        && #[trigger] t[children@[j] as int].kind == kind@) by {}
                }
                return Some(c);
            }
            i = i + 1;
        }
        None
    }
}

/// The text of child `c`, where there is one.
pub open spec fn text_of(t: Seq<NodeView>, c: Option<usize>) -> Option<Seq<char>> {
    match c {
        Some(c) => Some(t[c as int].text),
        None => None,
    }
}

/// Whether an expression is an optional chain: a call or member access
/// with an optional chain, or whose callee or object is one.
pub open spec fn is_chain_spec(t: Seq<NodeView>, n: usize) -> bool
    decreases t.len() - n,
{
    if !tree_wf(t) || n >= t.len() {
        false
    } else {
        let k = t[n as int].kind;
        let inner = if k == "call_expression"@ {
            field_child(t, t[n as int].children, "function"@)
        } else {
            field_child(t, t[n as int].children, "object"@)
        };
        if k == "call_expression"@ || k == "member_expression"@ || k == "subscript_expression"@ {
            field_child(t, t[n as int].children, "optional_chain"@) is Some || match inner {
                Some(c) => if n < c < t.len() {
                    is_chain_spec(t, c)
                } else {
                    false
                },
                None => false,
            }
        } else {
            false
        }
    }
}

/// The expression a sequence expression ends with: follow `right` while
/// the node is a sequence expression.
pub open spec fn last_expression_spec(t: Seq<NodeView>, n: usize) -> usize
    decreases t.len() - n,
{
    if !tree_wf(t) || n >= t.len() || t[n as int].kind != "sequence_expression"@ {
        n
    } else {
        match field_child(t, t[n as int].children, "right"@) {
            Some(c) => if n < c < t.len() {
                last_expression_spec(t, c)
            } else {
                n
            },
            None => n,
        }
    }
}

/// What the arguments of a call (or `new`) are: none where it has no list
/// of arguments; `None` where a template stands in their place.
pub open spec fn call_arguments_spec(t: Seq<NodeView>, n: usize) -> Option<Seq<usize>> {
    match field_child(t, t[n as int].children, "arguments"@) {
        None => Some(Seq::empty()),
        Some(a) => if t[a as int].kind == "template_string"@ {
            None
        } else {
            Some(named_non_comment(t, t[a as int].children))
        },
    }
}

/// A call or `new` expression.
pub open spec fn is_call_or_new(t: Seq<NodeView>, n: usize) -> bool {
    t[n as int].kind == "call_expression"@ || t[n as int].kind == "new_expression"@
}

/// The arguments field of a call holds a list of arguments or a template.
pub open spec fn call_arguments_ok(t: Seq<NodeView>, n: usize) -> bool {
    match field_child(t, t[n as int].children, "arguments"@) {
        None => true,
        Some(a) => t[a as int].kind == "template_string"@ || t[a as int].kind == "arguments"@,
    }
}

pub proof fn lemma_field_child_in(t: Seq<NodeView>, n: usize, name: Seq<char>)
    requires
        tree_wf(t),
        0 <= n < t.len(),
    ensures
        field_child(t, t[n as int].children, name) matches Some(c) ==> n < c < t.len(),
{
    lemma_field_child_member(t, t[n as int].children, name);
}

proof fn lemma_field_child_member(t: Seq<NodeView>, cs: Seq<usize>, name: Seq<char>)
    ensures
        field_child(t, cs, name) matches Some(c) ==> cs.contains(c),
    decreases cs.len(),
{
    if cs.len() > 0 && t[cs[0] as int].field != Some(name) {
        lemma_field_child_member(t, cs.drop_first(), name);
        if field_child(t, cs, name) is Some {
            let c = field_child(t, cs, name)->0;
            let j = cs.drop_first().index_of(c);
            assert(cs[j + 1] == c);
        }
    } else if cs.len() > 0 {
        assert(cs[0] == cs[0]);
    }
}

impl SyntaxTree {
    /// The arguments of a call or `new` expression (see
    /// `call_arguments_spec`).
    pub fn get_call_expression_arguments(&self, n: usize) -> (r: Option<Vec<usize>>)
        requires
            self.wf(),
            n < self@.len(),
            is_call_or_new(self@, n),
            call_arguments_ok(self@, n),
        ensures
            match r {
                Some(v) => call_arguments_spec(self@, n) == Some(v@),
                None => call_arguments_spec(self@, n) is None,
            },
    {
        proof {
            lemma_field_child_in(self@, n, "arguments"@);
        }
        match self.child_by_field_name(n, "arguments") {
            None => Some(Vec::new()),
            Some(a) => if self.kind_is(a, "template_string") {
                None
            } else {
                Some(self.non_comment_named_children(a))
            },
        }
    }

    /// The number of arguments of a call (see `call_arguments_spec`).
    pub fn get_num_call_expression_arguments(&self, n: usize) -> (r: Option<usize>)
        requires
            self.wf(),
            n < self@.len(),
            is_call_or_new(self@, n),
            call_arguments_ok(self@, n),
        ensures
            match r {
                Some(k) => call_arguments_spec(self@, n) matches Some(v) && v.len() == k,
                None => call_arguments_spec(self@, n) is None,
            },
    {
        match self.get_call_expression_arguments(n) {
            Some(v) => Some(v.len()),
            None => None,
        }
    }

    /// Whether a call has exactly one argument and `predicate` holds of it.
    /// `predicate` is asked about the first argument (where there is one)
    /// before the others are counted.
    pub fn call_expression_has_single_matching_argument(
        &self,
        n: usize,
        predicate: impl FnOnce(usize) -> bool,
    ) -> (b: bool)
        requires
            self.wf(),
            n < self@.len(),
            is_call_or_new(self@, n),
            call_arguments_ok(self@, n),
            match call_arguments_spec(self@, n) {
                Some(v) => v.len() > 0 ==> call_requires(predicate, (v[0],)),
                None => true,
            },
        ensures
            match call_arguments_spec(self@, n) {
                Some(v) => {
                    &&& b ==> v.len() == 1 && call_ensures(predicate, (v[0],), true)
                    &&& (v.len() == 1 && !b) ==> call_ensures(predicate, (v[0],), false)
                },
                None => !b,
            },
    {
        let arguments = match self.get_call_expression_arguments(n) {
            Some(a) => a,
            None => return false,
        };
        if arguments.len() == 0 {
            return false;
        }
        if !predicate(arguments[0]) {
            return false;
        }
        arguments.len() == 1
    }

    /// A `for ... of` loop: a `for ... in` statement whose operator is `of`.
    pub fn is_for_of(&self, n: usize) -> (b: bool)
        requires
            self.wf(),
            n < self@.len(),
        ensures
            b == (self@[n as int].kind == "for_in_statement"@ && text_of(
                self@,
                field_child(self@, self@[n as int].children, "operator"@),
            ) == Some("of"@)),
    {
        proof {
            lemma_field_child_in(self@, n, "operator"@);
        }
        if !self.kind_is(n, "for_in_statement") {
            return false;
        }
        match self.child_by_field_name(n, "operator") {
            Some(c) => str_eq(self.node(c).text.as_str(), "of"),
            None => false,
        }
    }

    /// A `for await ... of` loop: a `for ... of` loop whose second child is
    /// `await`.
    pub fn is_for_of_await(&self, n: usize) -> (b: bool)
        requires
            self.wf(),
            n < self@.len(),
            self@[n as int].kind == "for_in_statement"@,
        ensures
            b == (text_of(self@, field_child(self@, self@[n as int].children, "operator"@)) == Some("of"@)
                && self@[n as int].children.len() > 1 && self@[self@[n as int].children[1] as int].text == "await"@),
    {
        if !self.is_for_of(n) {
            return false;
        }
        let children = &self.node(n).children;
        if children.len() > 1 {
            let c = children[1];
            assert(n < c < self@.len());
            str_eq(self.node(c).text.as_str(), "await")
        } else {
            false
        }
    }

    /// Whether an expression is an optional chain (see `is_chain_spec`).
    pub fn is_chain_expression(&self, n: usize) -> (b: bool)
        requires
            self.wf(),
            n < self@.len(),
        ensures
            b == is_chain_spec(self@, n),
        decreases self@.len() - n,
    {
        proof {
            lemma_field_child_in(self@, n, "function"@);
            lemma_field_child_in(self@, n, "object"@);
            lemma_field_child_in(self@, n, "optional_chain"@);
        }
        let is_call = self.kind_is(n, "call_expression");
        if !(is_call || self.kind_is(n, "member_expression") || self.kind_is(n, "subscript_expression")) {
            return false;
        }
        if self.child_by_field_name(n, "optional_chain").is_some() {
            return true;
        }
        let inner = if is_call {
            self.child_by_field_name(n, "function")
        } else {
            self.child_by_field_name(n, "object")
        };
        match inner {
            Some(c) => self.is_chain_expression(c),
            None => false,
        }
    }

    /// The outermost expression of an optional chain: a chain whose parent
    /// is none.
    pub fn is_outermost_chain_expression(&self, n: usize) -> (b: bool)
        requires
            self.wf(),
            n < self@.len(),
            self@[n as int].parent is Some,
        ensures
            b == (is_chain_spec(self@, n) && !is_chain_spec(self@, self@[n as int].parent->0)),
    {
        let p = match self.node(n).parent {
            Some(p) => p,
            None => 0,
        };
        self.is_chain_expression(n) && !self.is_chain_expression(p)
    }

    /// A binary expression with a logical operator.
    pub fn is_logical_expression(&self, n: usize) -> (b: bool)
        requires
            self.wf(),
            n < self@.len(),
        ensures
            b == (self@[n as int].kind == "binary_expression"@ && match field_child(self@, self@[n as int].children, "operator"@) {
                Some(o) => self@[o as int].kind == "&&"@ || self@[o as int].kind == "||"@ || self@[o as int].kind == "??"@,
                None => false,
            }),
    {
        proof {
            lemma_field_child_in(self@, n, "operator"@);
        }
        if !self.kind_is(n, "binary_expression") {
            return false;
        }
        match self.child_by_field_name(n, "operator") {
            Some(o) => self.kind_is(o, "&&") || self.kind_is(o, "||") || self.kind_is(o, "??"),
            None => false,
        }
    }

    /// A binary expression whose operator is `&&`.
    pub fn is_logical_and(&self, n: usize) -> (b: bool)
        requires
            self.wf(),
            n < self@.len(),
        ensures
            b == (self@[n as int].kind == "binary_expression"@ && match field_child(self@, self@[n as int].children, "operator"@) {
                Some(o) => self@[o as int].kind == "&&"@,
                None => false,
            }),
    {
        proof {
            lemma_field_child_in(self@, n, "operator"@);
        }
        if !self.kind_is(n, "binary_expression") {
            return false;
        }
        match self.child_by_field_name(n, "operator") {
            Some(o) => self.kind_is(o, "&&"),
            None => false,
        }
    }

    /// The expression a sequence expression ends with: follow `right` while
    /// the node is a sequence expression.
    pub fn get_last_expression_of_sequence_expression(&self, n: usize) -> (r: usize)
        requires
            self.wf(),
            n < self@.len(),
            forall|i: int| 0 <= i < self@.len() && #[trigger] self@[i].kind == "sequence_expression"@
                ==> field_child(self@, self@[i].children, "right"@) is Some,
        ensures
            r < self@.len(),
            r == last_expression_spec(self@, n),
            self@[r as int].kind != "sequence_expression"@,
        decreases self@.len() - n,
    {
        proof {
            lemma_field_child_in(self@, n, "right"@);
        }
        if !self.kind_is(n, "sequence_expression") {
            return n;
        }
        match self.child_by_field_name(n, "right") {
            Some(c) => self.get_last_expression_of_sequence_expression(c),
            None => n,
        }
    }
}

/// The first of `cs` that is `x`, by the texts of the nodes before it:
/// whether one of the children before the one in field `name` has text `x`.
pub open spec fn text_before_field(t: Seq<NodeView>, cs: Seq<usize>, name: Seq<char>, x: Seq<char>) -> bool
    decreases cs.len(),
{
    if cs.len() == 0 {
        false
    } else if t[cs[0] as int].field == Some(name) {
        false
    } else {
        t[cs[0] as int].text == x || text_before_field(t, cs.drop_first(), name, x)
    }
}

/// The first member of a sequence, where there is one.
pub open spec fn first_of(s: Seq<usize>) -> Option<usize> {
    if s.len() > 0 {
        Some(s[0])
    } else {
        None
    }
}

impl SyntaxTree {
    /// A generator method: a `*` comes before its name.
    pub fn is_generator_method_definition(&self, n: usize) -> (b: bool)
        requires
            self.wf(),
            n < self@.len(),
        ensures
            b == text_before_field(self@, self@[n as int].children, "name"@, "*"@),
    {
        let ghost t = self@;
        let children = &self.node(n).children;
        let mut i: usize = 0;
        assert(children@.skip(0) =~= children@);
        while i < children.len()
            invariant
                tree_wf(t),
                t == self@,
                (n as int) < t.len(),
                children@ == t[n as int].children,
                i <= children@.len(),
                text_before_field(t, children@, "name"@, "*"@) == text_before_field(t, children@.skip(i as int), "name"@, "*"@),
            decreases children.len() - i,
        {
            let c = children[i];
            let ghost rest = children@.skip(i as int);
            assert(rest[0] == c);
            assert(rest.drop_first() =~= children@.skip(i + 1));
            assert(n < c < t.len());
            let is_name = match &self.node(c).field {
                Some(f) => str_eq(f.as_str(), "name"),
                None => false,
            };
            if is_name {
                return false;
            }
            if str_eq(self.node(c).text.as_str(), "*") {
                return true;
            }
            i = i + 1;
        }
        false
    }

    /// An update expression whose argument comes first (`x++`).
    pub fn is_postfix_update_expression(&self, n: usize) -> (b: bool)
        requires
            self.wf(),
            n < self@.len(),
        ensures
            b == (self@[n as int].kind == "update_expression"@ && first_of(non_comment(self@, self@[n as int].children))
                == field_child(self@, self@[n as int].children, "argument"@)),
    {
        if !self.kind_is(n, "update_expression") {
            return false;
        }
        let first = self.maybe_get_first_non_comment_child(n);
        let argument = self.child_by_field_name(n, "argument");
        first == argument
    }

    /// The text of the directive an expression statement holds: its first
    /// named child that is no comment, where that is a string.
    pub fn maybe_get_directive(&self, n: usize) -> (r: Option<String>)
        requires
            self.wf(),
            n < self@.len(),
            self@[n as int].kind == "expression_statement"@ ==> named_non_comment(self@, self@[n as int].children).len() > 0,
        ensures
            match r {
                Some(text) => self@[n as int].kind == "expression_statement"@ && {
                    let c = named_non_comment(self@, self@[n as int].children)[0];
                    self@[c as int].kind == "string"@ && text@ == self@[c as int].text
                },
                None => !(self@[n as int].kind == "expression_statement"@ && self@[named_non_comment(
                    self@,
                    self@[n as int].children,
                )[0] as int].kind == "string"@),
            },
    {
        if !self.kind_is(n, "expression_statement") {
            return None;
        }
        let cs = self.non_comment_named_children(n);
        let c = cs[0];
        if self.kind_is(c, "string") {
            Some(self.node(c).text.clone())
        } else {
            None
        }
    }

    /// The identifier of a default import.
    pub fn is_default_import(&self, n: usize) -> (b: bool)
        requires
            self.wf(),
            n < self@.len(),
            self@[n as int].kind == "identifier"@ ==> self@[n as int].parent is Some,
        ensures
            b == (self@[n as int].kind == "identifier"@ && self@[self@[n as int].parent->0 as int].kind == "import_clause"@),
    {
        if !self.kind_is(n, "identifier") {
            return false;
        }
        match self.node(n).parent {
            Some(p) => self.kind_is(p, "import_clause"),
            None => false,
        }
    }

    /// An import statement whose clause opens with a default import.
    pub fn is_default_import_declaration(&self, n: usize) -> (b: bool)
        requires
            self.wf(),
            n < self@.len(),
            self@[n as int].kind == "import_statement"@ ==> named_non_comment(self@, self@[n as int].children).len() > 0,
            forall|i: int| 0 <= i < self@.len() && #[trigger] self@[i].kind == "import_clause"@ ==> named_non_comment(self@, self@[i].children).len() > 0,
        ensures
            b == (self@[n as int].kind == "import_statement"@ && {
                let c = named_non_comment(self@, self@[n as int].children)[0];
                self@[c as int].kind == "import_clause"@ && self@[named_non_comment(self@, self@[c as int].children)[0] as int].kind == "identifier"@
            }),
    {
        if !self.kind_is(n, "import_statement") {
            return false;
        }
        let cs = self.non_comment_named_children(n);
        let c = cs[0];
        if !self.kind_is(c, "import_clause") {
            return false;
        }
        let inner = self.non_comment_named_children(c);
        self.kind_is(inner[0], "identifier")
    }

    /// An `export default` statement: the child after `export` (comments
    /// aside) is `default`.
    pub fn is_export_default(&self, n: usize) -> (b: bool)
        requires
            self.wf(),
            n < self@.len(),
            self@[n as int].kind == "export_statement"@ ==> exists|j: int|
                0 <= j < non_comment(self@, self@[n as int].children).len() - 1 && #[trigger] self@[non_comment(
                    self@,
                    self@[n as int].children,
                )[j] as int].kind == "export"@,
        ensures
            b == (self@[n as int].kind == "export_statement"@ && {
                let cs = non_comment(self@, self@[n as int].children);
                let j = choose_export(self@, cs);
                self@[cs[j + 1] as int].kind == "default"@
            }),
    {
        if !self.kind_is(n, "export_statement") {
            return false;
        }
        let ghost t = self@;
        let cs = self.non_comment_children(n);
        let mut j: usize = 0;
        proof {
            lemma_choose_export(t, cs@);
        }
        while !self.kind_is(cs[j], "export")
            invariant
                t == self@,
                cs@ == non_comment(t, t[n as int].children),
                cs@.len() == cs.len(),
                forall|k: int| 0 <= k < cs@.len() ==> (#[trigger] cs@[k] as int) < t.len(),
                0 <= j <= choose_export(t, cs@) < cs@.len() - 1,
                t[cs@[choose_export(t, cs@)] as int].kind == "export"@,
                forall|k: int| 0 <= k < choose_export(t, cs@) ==> t[cs@[k] as int].kind != "export"@,
            decreases choose_export(t, cs@) - j,
        {
            assert(j < choose_export(t, cs@)) by {
                if j == choose_export(t, cs@) {
                    assert(t[cs@[j as int] as int].kind == "export"@);
                }
            }
            j = j + 1;
        }
        assert(j == choose_export(t, cs@)) by {
            if j < choose_export(t, cs@) {
                assert(t[cs@[j as int] as int].kind != "export"@);
            }
        }
        self.kind_is(cs[j + 1], "default")
    }

    /// How many things an import clause imports: a namespace import is one;
    /// named imports count their specifiers; a default import is one, plus
    /// what follows it.
    pub fn get_num_import_specifiers(&self, n: usize) -> (r: usize)
        requires
            self.wf(),
            n < self@.len(),
            import_clause_ok(self@, n),
        ensures
            r == num_import_specifiers_spec(self@, n),
    {
        let cs = self.non_comment_named_children(n);
        let first = cs[0];
        if self.kind_is(first, "namespace_import") {
            1
        } else if self.kind_is(first, "named_imports") {
            self.non_comment_named_children(first).len()
        } else {
            if cs.len() < 2 {
                1
            } else {
                let next = cs[1];
                if self.kind_is(next, "namespace_import") {
                    2
                } else {
                    let k = self.non_comment_named_children(next).len();
                    let total = self.nodes.len();
                    proof {
                        assert(k <= self@[next as int].children.len()) by {
                            lemma_named_non_comment_len(self@, self@[next as int].children);
                        }
                        assert(self@[next as int].children.len() <= self@.len() - next - 1) by {
                            lemma_children_fit(self@, next as int);
                        }
                        assert(self@.len() == self.nodes@.len());
                        assert(self.nodes@.len() == total);
                    }
                    1 + k
                }
            }
        }
    }
}

/// The position of the first `export` among `cs`.
pub open spec fn choose_export(t: Seq<NodeView>, cs: Seq<usize>) -> int {
    choose|j: int| 0 <= j < cs.len() && t[cs[j] as int].kind == "export"@ && forall|k: int| 0 <= k < j ==> t[cs[k] as int].kind != "export"@
}

proof fn lemma_choose_export(t: Seq<NodeView>, cs: Seq<usize>)
    requires
        exists|j: int| 0 <= j < cs.len() - 1 && #[trigger] t[cs[j] as int].kind == "export"@,
    ensures
        0 <= choose_export(t, cs) < cs.len() - 1,
        t[cs[choose_export(t, cs)] as int].kind == "export"@,
        forall|k: int| 0 <= k < choose_export(t, cs) ==> t[cs[k] as int].kind != "export"@,
{
    let j0 = choose|j: int| 0 <= j < cs.len() - 1 && #[trigger] t[cs[j] as int].kind == "export"@;
    let first = first_export(t, cs, j0);
    assert(0 <= first && t[cs[first] as int].kind == "export"@ && forall|k: int| 0 <= k < first ==> t[cs[k] as int].kind != "export"@);
    let c = choose_export(t, cs);
    assert(c == first) by {
        if c < first {
            assert(t[cs[c] as int].kind != "export"@);
        } else if c > first {
            assert(t[cs[first] as int].kind != "export"@);
        }
    }
}

proof fn first_export(t: Seq<NodeView>, cs: Seq<usize>, j: int) -> (f: int)
    requires
        0 <= j < cs.len(),
        t[cs[j] as int].kind == "export"@,
    ensures
        0 <= f <= j,
        t[cs[f] as int].kind == "export"@,
        forall|k: int| 0 <= k < f ==> t[cs[k] as int].kind != "export"@,
    decreases j,
{
    if exists|k: int| 0 <= k < j && t[cs[k] as int].kind == "export"@ {
        let k = choose|k: int| 0 <= k < j && t[cs[k] as int].kind == "export"@;
        first_export(t, cs, k)
    } else {
        j
    }
}

proof fn lemma_named_non_comment_len(t: Seq<NodeView>, cs: Seq<usize>)
    ensures
        named_non_comment(t, cs).len() <= cs.len(),
    decreases cs.len(),
{
    if cs.len() > 0 {
        lemma_named_non_comment_len(t, cs.drop_last());
    }
}

/// A node's children are distinct nodes after it, so there are fewer of
/// them than nodes after it.
proof fn lemma_children_fit(t: Seq<NodeView>, i: int)
    requires
        tree_wf(t),
        0 <= i < t.len(),
    ensures
        t[i].children.len() <= t.len() - i - 1,
{
    let cs = t[i].children;
    lemma_distinct_bounded(cs, i + 1, t.len());
}

proof fn lemma_distinct_bounded(s: Seq<usize>, lo: int, n: nat)
    requires
        0 <= lo <= n,
        forall|k: int| 0 <= k < s.len() ==> lo <= (#[trigger] s[k] as int) < n,
    ensures
        s.no_duplicates() ==> s.len() <= n - lo,
{
    if s.no_duplicates() {
        let set = s.to_set();
        s.unique_seq_to_set();
        vstd::set_lib::lemma_int_range(lo, n as int);
        let range = vstd::set_lib::set_int_range(lo, n as int);
        let f = |x: usize| x as int;
        let mapped = set.map(f);
        assert(set.finite()) by {
            vstd::seq_lib::seq_to_set_is_finite(s);
        }
        assert forall|y: int| mapped.contains(y) implies range.contains(y) by {
            let x = choose|x: usize| set.contains(x) && f(x) == y;
            let k = s.index_of(x);
            assert(s[k] == x);
        }
        assert(mapped.subset_of(range));
        vstd::set_lib::lemma_len_subset(mapped, range);
        assert(vstd::relations::injective_on(f, set));
        vstd::set_lib::lemma_map_size(set, mapped, f);
    }
}

/// An import clause has a namespace import, named imports, or a default
/// import followed by at most one of those.
pub open spec fn import_clause_ok(t: Seq<NodeView>, n: usize) -> bool {
    let cs = named_non_comment(t, t[n as int].children);
    &&& cs.len() > 0
    &&& (t[cs[0] as int].kind == "namespace_import"@ || t[cs[0] as int].kind == "named_imports"@) ==> cs.len() == 1
    &&& (t[cs[0] as int].kind == "identifier"@ && cs.len() > 1) ==> cs.len() == 2 && (t[cs[1] as int].kind
        == "namespace_import"@ || t[cs[1] as int].kind == "named_imports"@)
    &&& t[cs[0] as int].kind == "namespace_import"@ || t[cs[0] as int].kind == "named_imports"@ || t[cs[0] as int].kind
        == "identifier"@
}

pub open spec fn num_import_specifiers_spec(t: Seq<NodeView>, n: usize) -> int {
    let cs = named_non_comment(t, t[n as int].children);
    let first = cs[0];
    if t[first as int].kind == "namespace_import"@ {
        1
    } else if t[first as int].kind == "named_imports"@ {
        named_non_comment(t, t[first as int].children).len() as int
    } else if cs.len() < 2 {
        1
    } else if t[cs[1] as int].kind == "namespace_import"@ {
        2
    } else {
        1 + named_non_comment(t, t[cs[1] as int].children).len() as int
    }
}

impl SyntaxTree {
    /// The key of a property of an object literal: the key of a pair, the
    /// name of a method, a shorthand property itself.
    pub fn get_object_property_key(&self, n: usize) -> (r: usize)
        requires
            self.wf(),
            n < self@.len(),
            self@[n as int].kind == "pair"@ ==> field_child(self@, self@[n as int].children, "key"@) is Some,
            self@[n as int].kind == "method_definition"@ ==> field_child(self@, self@[n as int].children, "name"@) is Some,
            self@[n as int].kind == "pair"@ || self@[n as int].kind == "method_definition"@ || self@[n as int].kind
                == "shorthand_property_identifier"@,
        ensures
            Some(r) == if self@[n as int].kind == "pair"@ {
                field_child(self@, self@[n as int].children, "key"@)
            } else if self@[n as int].kind == "method_definition"@ {
                field_child(self@, self@[n as int].children, "name"@)
            } else {
                Some(n)
            },
    {
        if self.kind_is(n, "pair") {
            match self.child_by_field_name(n, "key") {
                Some(k) => k,
                None => n,
            }
        } else if self.kind_is(n, "method_definition") {
            match self.child_by_field_name(n, "name") {
                Some(k) => k,
                None => n,
            }
        } else {
            n
        }
    }

    /// The computed name of a pair or a method, where its key is one.
    pub fn get_object_property_computed_property_name(&self, n: usize) -> (r: Option<usize>)
        requires
            self.wf(),
            n < self@.len(),
        ensures
            r == ({
                let key = if self@[n as int].kind == "pair"@ {
                    field_child(self@, self@[n as int].children, "key"@)
                } else if self@[n as int].kind == "method_definition"@ {
                    field_child(self@, self@[n as int].children, "name"@)
                } else {
                    None
                };
                match key {
                    Some(k) => if self@[k as int].kind == "computed_property_name"@ {
                        Some(k)
                    } else {
                        None
                    },
                    None => None,
                }
            }),
    {
        proof {
            lemma_field_child_in(self@, n, "key"@);
            lemma_field_child_in(self@, n, "name"@);
        }
        let key = if self.kind_is(n, "pair") {
            self.child_by_field_name(n, "key")
        } else if self.kind_is(n, "method_definition") {
            self.child_by_field_name(n, "name")
        } else {
            None
        };
        match key {
            Some(k) => if self.kind_is(k, "computed_property_name") {
                Some(k)
            } else {
                None
            },
            None => None,
        }
    }

    /// The name of a JSX opening or self-closing element.
    pub fn is_jsx_tag_name(&self, n: usize) -> (b: bool)
        requires
            self.wf(),
            n < self@.len(),
        ensures
            b == (self@[n as int].parent matches Some(p) && (self@[p as int].kind == "jsx_opening_element"@
                || self@[p as int].kind == "jsx_self_closing_element"@) && field_child(self@, self@[p as int].children, "name"@)
                == Some(n)),
    {
        match self.node(n).parent {
            Some(p) => (self.kind_is(p, "jsx_opening_element") || self.kind_is(p, "jsx_self_closing_element"))
                && self.child_by_field_name(p, "name") == Some(n),
            None => false,
        }
    }

    /// A call whose arguments are a template (a tagged template).
    pub fn is_tagged_template_expression(&self, n: usize) -> (b: bool)
        requires
            self.wf(),
            n < self@.len(),
            self@[n as int].kind == "call_expression"@ ==> field_child(self@, self@[n as int].children, "arguments"@) is Some,
        ensures
            b == (self@[n as int].kind == "call_expression"@ && self@[field_child(self@, self@[n as int].children, "arguments"@)->0 as int].kind
                == "template_string"@),
    {
        proof {
            lemma_field_child_in(self@, n, "arguments"@);
        }
        if !self.kind_is(n, "call_expression") {
            return false;
        }
        match self.child_by_field_name(n, "arguments") {
            Some(a) => self.kind_is(a, "template_string"),
            None => false,
        }
    }

    /// A template string without substitutions.
    pub fn is_simple_template_literal(&self, n: usize) -> (b: bool)
        requires
            self.wf(),
            n < self@.len(),
        ensures
            b == (self@[n as int].kind == "template_string"@ && forall|k: int|
                0 <= k < named_non_comment(self@, self@[n as int].children).len() ==> self@[#[trigger] named_non_comment(
                    self@,
                    self@[n as int].children,
                )[k] as int].kind != "template_substitution"@),
    {
        if !self.kind_is(n, "template_string") {
            return false;
        }
        let cs = self.non_comment_named_children(n);
        let mut i: usize = 0;
        while i < cs.len()
            invariant
                i <= cs@.len(),
                cs@ == named_non_comment(self@, self@[n as int].children),
                forall|k: int| 0 <= k < cs@.len() ==> (#[trigger] cs@[k] as int) < self@.len(),
                forall|k: int| 0 <= k < i ==> self@[#[trigger] cs@[k] as int].kind != "template_substitution"@,
            decreases cs.len() - i,
        {
            if self.kind_is(cs[i], "template_substitution") {
                return false;
            }
            i = i + 1;
        }
        true
    }

    /// Whether `n` is the first argument of the call `call`.
    pub fn is_first_call_expression_argument(&self, n: usize, call: usize) -> (b: bool)
        requires
            self.wf(),
            call < self@.len(),
            self@[call as int].kind == "call_expression"@,
            field_child(self@, self@[call as int].children, "arguments"@) is Some,
        ensures
            b == ({
                let a = field_child(self@, self@[call as int].children, "arguments"@)->0;
                self@[a as int].kind == "arguments"@ && first_of(named_non_comment(self@, self@[a as int].children))
                    == Some(n)
            }),
    {
        proof {
            lemma_field_child_in(self@, call, "arguments"@);
        }
        match self.child_by_field_name(call, "arguments") {
            Some(a) => {
                if !self.kind_is(a, "arguments") {
                    return false;
                }
                let cs = self.non_comment_named_children(a);
                cs.len() > 0 && cs[0] == n
            },
            None => false,
        }
    }

    /// The parameters of a function: the lone `parameter` of an arrow
    /// function that has one, else the named children of its `parameters`.
    pub fn get_function_params(&self, n: usize) -> (r: Vec<usize>)
        requires
            self.wf(),
            n < self@.len(),
            !(self@[n as int].kind == "arrow_function"@ && field_child(self@, self@[n as int].children, "parameter"@) is Some)
                ==> field_child(self@, self@[n as int].children, "parameters"@) is Some,
        ensures
            r@ == if self@[n as int].kind == "arrow_function"@ && field_child(self@, self@[n as int].children, "parameter"@) is Some {
                seq![field_child(self@, self@[n as int].children, "parameter"@)->0]
            } else {
                named_non_comment(self@, self@[field_child(self@, self@[n as int].children, "parameters"@)->0 as int].children)
            },
    {
        proof {
            lemma_field_child_in(self@, n, "parameters"@);
        }
        if self.kind_is(n, "arrow_function") {
            match self.child_by_field_name(n, "parameter") {
                Some(p) => {
                    let mut v: Vec<usize> = Vec::new();
                    v.push(p);
                    assert(v@ =~= seq![p]);
                    return v;
                },
                None => {},
            }
        }
        match self.child_by_field_name(n, "parameters") {
            Some(ps) => self.non_comment_named_children(ps),
            None => Vec::new(),
        }
    }

    /// The contents of a comment node: its text without `//`, or without
    /// `/*` and `*/`.
    pub fn comment_contents(&self, n: usize) -> (r: String)
        requires
            self.wf(),
            n < self@.len(),
            crate::ast_helpers::is_comment_text(self@[n as int].text),
        ensures
            r@ == crate::ast_helpers::comment_contents_spec(self@[n as int].text),
    {
        crate::ast_helpers::get_comment_contents(self.node(n).text.as_str())
    }

    /// A line comment node.
    pub fn is_line_comment(&self, n: usize) -> (b: bool)
        requires
            self.wf(),
            n < self@.len(),
        ensures
            b == (is_comment(self@, n) && crate::ast_helpers::comment_type_spec(self@[n as int].text)
                == crate::ast_helpers::CommentType::Line),
    {
        self.is_comment_node(n) && crate::ast_helpers::get_comment_type(self.node(n).text.as_str())
            == crate::ast_helpers::CommentType::Line
    }

    /// A block comment node.
    pub fn is_block_comment(&self, n: usize) -> (b: bool)
        requires
            self.wf(),
            n < self@.len(),
        ensures
            b == (is_comment(self@, n) && crate::ast_helpers::comment_type_spec(self@[n as int].text)
                == crate::ast_helpers::CommentType::Block),
    {
        self.is_comment_node(n) && crate::ast_helpers::get_comment_type(self.node(n).text.as_str())
            == crate::ast_helpers::CommentType::Block
    }
}


/// Where the text of node `c` ends in the source.
pub open spec fn node_end(t: Seq<NodeView>, c: usize) -> int {
    t[c as int].start + t[c as int].text.len()
}

/// A template string as its chunks are read from: it opens and closes with
/// a backtick at its ends, holds only escape sequences and substitutions
/// between them, its children come in the order of their places and none
/// ends after the template.
pub open spec fn template_chunks_ok(t: Seq<NodeView>, n: usize) -> bool {
    let cs = t[n as int].children;
    &&& cs.len() >= 2
    &&& t[cs[0] as int].kind == "`"@
    &&& t[cs[0] as int].start == t[n as int].start
    &&& t[cs[0] as int].text.len() == 1
    &&& t[cs.last() as int].kind == "`"@
    &&& forall|k: int|
        0 < k < cs.len() - 1 ==> (#[trigger] t[cs[k] as int].kind == "escape_sequence"@ || t[cs[k] as int].kind
            == "template_substitution"@)
    &&& forall|j: int, k: int| 0 <= j < k < cs.len() ==> node_end(t, #[trigger] cs[j]) <= t[#[trigger] cs[k] as int].start
    &&& node_end(t, cs.last()) <= node_end(t, n)
    &&& node_end(t, n) <= usize::MAX
}

/// The chunks of the literal text of template string `n`, read from its
/// child `i` on, the next chunk starting at `next`, with or without the
/// opening backtick seen: each chunk with the place it starts at. A chunk
/// ends at each substitution and at the closing backtick.
pub open spec fn template_chunks(t: Seq<NodeView>, n: usize, i: int, next: int, seen: bool) -> Seq<(Seq<char>, int)>
    decreases t[n as int].children.len() - i,
{
    let cs = t[n as int].children;
    if i < 0 || i >= cs.len() {
        Seq::empty()
    } else {
        let c = cs[i];
        let piece = (t[n as int].text.subrange(next - t[n as int].start, t[c as int].start - t[n as int].start), next);
        if t[c as int].kind == "template_substitution"@ {
            seq![piece] + template_chunks(t, n, i + 1, node_end(t, c), seen)
        } else if t[c as int].kind == "`"@ {
            if seen {
                seq![piece]
            } else {
                template_chunks(t, n, i + 1, next + 1, true)
            }
        } else {
            template_chunks(t, n, i + 1, next, seen)
        }
    }
}

/// The chunks as texts and places.
pub open spec fn chunks_view(r: Seq<(String, usize)>) -> Seq<(Seq<char>, int)> {
    r.map_values(|p: (String, usize)| (p.0@, p.1 as int))
}

proof fn lemma_backtick_is_no_substitution()
    ensures
        "`"@ != "template_substitution"@,
{
    reveal_strlit("`");
    reveal_strlit("template_substitution");
    assert("`"@.len() == 1);
    assert("template_substitution"@.len() == 21);
}

impl SyntaxTree {
    /// The chunks of literal text of a template string, between its
    /// substitutions, each with the place where it starts (see
    /// `template_chunks`).
    pub fn get_template_string_chunks(&self, n: usize) -> (r: Vec<(String, usize)>)
        requires
            self.wf(),
            n < self@.len(),
            self@[n as int].kind == "template_string"@,
            template_chunks_ok(self@, n),
        ensures
            chunks_view(r@) == template_chunks(self@, n, 0, self@[n as int].start as int, false),
    {
        let ghost t = self@;
        let node = self.node(n);
        let children = &node.children;
        let text = chars_of(node.text.as_str());
        let start = node.start;
        let mut out: Vec<(String, usize)> = Vec::new();
        let mut next: usize = start;
        let mut seen = false;
        let mut i: usize = 0;
        while i < children.len()
            invariant
                tree_wf(t),
                t == self@,
                (n as int) < t.len(),
                template_chunks_ok(t, n),
                children@ == t[n as int].children,
                text@ == t[n as int].text,
                start == t[n as int].start,
                i <= children@.len(),
                !seen ==> i == 0 && next == start,
                seen ==> i >= 1 && start < next && forall|j: int| i <= j < children@.len() ==> next <= t[#[trigger] children@[j] as int].start,
                chunks_view(out@) + template_chunks(t, n, i as int, next as int, seen) == template_chunks(t, n, 0, start as int, false),
            decreases children.len() - i,
        {
            let c = children[i];
            assert(i < t[n as int].children.len());
            assert(n < c < t.len());
            let ghost rest = template_chunks(t, n, i as int + 1, next as int, seen);
            let cnode = self.node(c);
            proof {
                lemma_backtick_is_no_substitution();
            }
            if str_eq(cnode.kind.as_str(), "template_substitution") || (seen && str_eq(cnode.kind.as_str(), "`")) {
                assert(i >= 1);
                assert(node_end(t, children@[i as int]) <= node_end(t, n)) by {
                    if (i as int) < children@.len() - 1 {
                        assert(node_end(t, children@[i as int]) <= t[children@[children@.len() - 1] as int].start);
                    }
                }
                let piece = string_of(&text, next - start, cnode.start - start);
                let ghost before = chunks_view(out@);
                out.push((piece, next));
                assert(chunks_view(out@) =~= before.push((piece@, next as int)));
                if seen && str_eq(cnode.kind.as_str(), "`") {
                    assert(chunks_view(out@) =~= before + template_chunks(t, n, i as int, next as int, seen));
                    return out;
                }
                let len = chars_of(cnode.text.as_str()).len();
                let end = cnode.start + len;
                assert(chunks_view(out@) + template_chunks(t, n, i + 1, end as int, seen) =~= before
                    + template_chunks(t, n, i as int, next as int, seen));
                proof {
                    assert forall|j: int| i + 1 <= j < children@.len() implies end <= t[#[trigger] children@[j] as int].start by {
                        assert(node_end(t, children@[i as int]) <= t[children@[j] as int].start);
                    }
                }
                next = end;
            } else if str_eq(cnode.kind.as_str(), "`") {
                assert(i == 0);
                proof {
                    assert forall|j: int| 1 <= j < children@.len() implies next + 1 <= t[#[trigger] children@[j] as int].start by {
                        assert(node_end(t, children@[0]) <= t[children@[j] as int].start);
                    }
                }
                assert(node_end(t, children@[0]) <= node_end(t, n)) by {
                    assert(node_end(t, children@[0]) <= t[children@[children@.len() - 1] as int].start);
                }
                next = next + 1;
                seen = true;
            } else {
                assert(i >= 1) by {
                    if i == 0 {
                        assert(t[children@[0] as int].kind == "`"@);
                    }
                }
            }
            i = i + 1;
        }
        out
    }
}


/// How many of the children of `n` from the `i`-th on are substitutions.
pub open spec fn substitutions_from(t: Seq<NodeView>, n: usize, i: int) -> nat
    decreases t[n as int].children.len() - i,
{
    if i < 0 || i >= t[n as int].children.len() {
        0
    } else {
        (if t[t[n as int].children[i] as int].kind == "template_substitution"@ { 1nat } else { 0nat })
            + substitutions_from(t, n, i + 1)
    }
}

proof fn lemma_template_kinds_differ()
    ensures
        "`"@ != "template_substitution"@,
        "`"@ != "escape_sequence"@,
        "escape_sequence"@ != "template_substitution"@,
{
    lemma_backtick_is_no_substitution();
    reveal_strlit("`");
    reveal_strlit("escape_sequence");
    reveal_strlit("template_substitution");
    assert("`"@.len() != "escape_sequence"@.len());
    assert("escape_sequence"@[0] != "template_substitution"@[0]);
}

proof fn lemma_chunks_from(t: Seq<NodeView>, n: usize, i: int, next: int)
    requires
        template_chunks_ok(t, n),
        1 <= i < t[n as int].children.len(),
    ensures
        template_chunks(t, n, i, next, true).len() == substitutions_from(t, n, i) + 1,
    decreases t[n as int].children.len() - i,
{
    let cs = t[n as int].children;
    lemma_template_kinds_differ();
    if i < cs.len() - 1 {
        let c = cs[i];
        assert(t[c as int].kind == "escape_sequence"@ || t[c as int].kind == "template_substitution"@);
        if t[c as int].kind == "template_substitution"@ {
            lemma_chunks_from(t, n, i + 1, node_end(t, c));
        } else {
            lemma_chunks_from(t, n, i + 1, next);
        }
    } else {
        assert(cs[i] == cs.last());
        assert(substitutions_from(t, n, i + 1) == 0);
    }
}

/// A template string is read as one chunk more than it has substitutions:
/// a chunk before each substitution and one before the closing backtick.
pub proof fn lemma_one_chunk_more_than_substitutions(t: Seq<NodeView>, n: usize)
    requires
        template_chunks_ok(t, n),
    ensures
        template_chunks(t, n, 0, t[n as int].start as int, false).len() == substitutions_from(t, n, 0) + 1,
{
    lemma_template_kinds_differ();
    lemma_chunks_from(t, n, 1, t[n as int].start + 1);
}

/// Skipping down through nodes of some kinds a second time goes no further:
/// where the first skip stops, the second stays.
pub proof fn lemma_skip_idempotent(t: Seq<NodeView>, n: usize, kinds: Seq<Seq<char>>)
    ensures
        skip_spec(t, skip_spec(t, n, kinds), kinds) == skip_spec(t, n, kinds),
    decreases t.len() - n,
{
    if !tree_wf(t) || n >= t.len() || !kinds.contains(t[n as int].kind) {
    } else {
        let cs = named_non_comment(t, t[n as int].children);
        if cs.len() > 0 && cs[0] > n && cs[0] < t.len() {
            lemma_skip_idempotent(t, cs[0], kinds);
        }
    }
}

/// Lying inside is an order on the nodes of a tree: every node is itself,
/// a node lies inside each of its ancestors and never inside a later node,
/// and what lies inside a node lies inside all that node lies inside.
pub proof fn lemma_descendant_order(t: Seq<NodeView>, n: usize, a: usize, b: usize)
    requires
        tree_wf(t),
        n < t.len(),
    ensures
        is_same_or_descendant_spec(t, n, n),
        t[n as int].parent matches Some(p) ==> is_same_or_descendant_spec(t, n, p),
        is_same_or_descendant_spec(t, n, a) ==> a <= n,
        is_same_or_descendant_spec(t, n, a) && is_same_or_descendant_spec(t, a, b) ==> is_same_or_descendant_spec(
            t,
            n,
            b,
        ),
    decreases n,
{
    assert(t[n as int].parent matches Some(p) ==> p < n);
    if let Some(p) = t[n as int].parent {
        lemma_descendant_order(t, p, a, b);
        assert(is_same_or_descendant_spec(t, p, p));
    }
}

/// Each child of a node lies inside it.
pub proof fn lemma_children_are_descendants(t: Seq<NodeView>, n: usize, k: int)
    requires
        tree_wf(t),
        n < t.len(),
        0 <= k < t[n as int].children.len(),
    ensures
        is_same_or_descendant_spec(t, t[n as int].children[k], n),
{
    let c = t[n as int].children[k];
    assert(n < c < t.len() && t[c as int].parent == Some(n));
    lemma_descendant_order(t, c, n, n);
}

} // verus!
