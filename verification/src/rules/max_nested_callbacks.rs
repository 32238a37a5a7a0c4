use vstd::prelude::*;

use crate::syntax_tree::{field_child, NodeView, SyntaxTree};

verus! {

/// The maximum when none is given.
pub const DEFAULT_MAX: usize = 10;

#[derive(Copy, Clone, Debug, PartialEq, Eq, Structural)]
pub struct OptionsObject {
    pub max: usize,
}

impl Default for OptionsObject {
    fn default() -> (o: Self)
        ensures
            o.max == DEFAULT_MAX,
    {
        OptionsObject { max: DEFAULT_MAX }
    }
}

/// The maximum depth of nested callbacks, as a number or in an object.
#[derive(Copy, Clone, Debug, PartialEq, Eq, Structural)]
pub enum Options {
    Usize(usize),
    Object(OptionsObject),
}

impl Default for Options {
    fn default() -> (o: Self)
        ensures
            o == Options::Usize(DEFAULT_MAX),
    {
        Options::Usize(DEFAULT_MAX)
    }
}

impl Options {
    pub open spec fn max_spec(self) -> usize {
        match self {
            Options::Usize(v) => v,
            Options::Object(o) => o.max,
        }
    }

    pub fn max(&self) -> (n: usize)
        ensures
            n == self.max_spec(),
    {
        match self {
            Options::Usize(v) => *v,
            Options::Object(o) => o.max,
        }
    }
}

/// The state of the rule: the maximum, and the callbacks entered and not
/// yet left (by node, innermost last).
pub struct MaxNestedCallbacks {
    pub threshold: usize,
    pub callback_stack: Vec<usize>,
}

impl MaxNestedCallbacks {
    pub fn new(options: Options) -> (r: Self)
        ensures
            r.threshold == options.max_spec(),
            r.callback_stack@.len() == 0,
    {
        MaxNestedCallbacks { threshold: options.max(), callback_stack: Vec::new() }
    }

    /// A function passed as an argument is entered: it nests one level
    /// deeper; the depth is reported when it passes the maximum.
    pub fn on_callback(&mut self, node: usize) -> (r: Option<usize>)
        ensures
            final(self).threshold == old(self).threshold,
            final(self).callback_stack@ == old(self).callback_stack@.push(node),
            r == if final(self).callback_stack@.len() > old(self).threshold {
                Some(final(self).callback_stack@.len() as usize)
            } else {
                None
            },
    {
        self.callback_stack.push(node);
        let depth = self.callback_stack.len();
        if depth > self.threshold {
            Some(depth)
        } else {
            None
        }
    }

    /// A function is left: it stops nesting if it is the innermost
    /// callback.
    pub fn on_function_exit(&mut self, node: usize)
        ensures
            final(self).threshold == old(self).threshold,
            final(self).callback_stack@ == if old(self).callback_stack@.len() > 0
                && old(self).callback_stack@.last() == node {
                old(self).callback_stack@.drop_last()
            } else {
                old(self).callback_stack@
            },
    {
        let n = self.callback_stack.len();
        if n > 0 && self.callback_stack[n - 1] == node {
            self.callback_stack.pop();
        }
    }
}


/// Leaving the callback just entered takes the nesting back to where it
/// was: after `on_callback(node)` the innermost callback is `node`, and
/// `on_function_exit(node)` then drops it.
pub proof fn lemma_enter_then_exit(stack: Seq<usize>, node: usize)
    ensures
        ({
            let entered = stack.push(node);
            &&& (entered.len() > 0 && entered.last() == node)
            &&& entered.drop_last() == stack
        }),
{
    assert(stack.push(node).drop_last() =~= stack);
}


/// A function or arrow function is a callback: it is an argument of a call.
pub open spec fn is_callback_spec(t: Seq<NodeView>, n: usize) -> bool {
    &&& (t[n as int].kind == "function"@ || t[n as int].kind == "arrow_function"@)
    &&& match t[n as int].parent {
        Some(p) => t[p as int].kind == "arguments"@ && match t[p as int].parent {
            Some(c) => t[c as int].kind == "call_expression"@ && field_child(t, t[c as int].children, "arguments"@)
                == Some(p),
            None => false,
        },
        None => false,
    }
}

/// Whether node `n` of `tree` is a callback (see `is_callback_spec`).
pub fn is_callback(tree: &SyntaxTree, n: usize) -> (b: bool)
    requires
        tree.wf(),
        n < tree@.len(),
    ensures
        b == is_callback_spec(tree@, n),
{
    if !(tree.kind_is(n, "function") || tree.kind_is(n, "arrow_function")) {
        return false;
    }
    assert(tree.nodes@[n as int]@ == tree@[n as int]);
    let p = match tree.nodes[n].parent {
        Some(p) => p,
        None => return false,
    };
    if !tree.kind_is(p, "arguments") {
        return false;
    }
    assert(tree.nodes@[p as int]@ == tree@[p as int]);
    let c = match tree.nodes[p].parent {
        Some(c) => c,
        None => return false,
    };
    tree.kind_is(c, "call_expression") && tree.child_by_field_name(c, "arguments") == Some(p)
}

impl MaxNestedCallbacks {
    /// Entering node `n` of `tree`: a callback nests one level deeper (see
    /// `on_callback`); other nodes change nothing.
    pub fn enter_node(&mut self, tree: &SyntaxTree, n: usize) -> (r: Option<usize>)
        requires
            tree.wf(),
            n < tree@.len(),
        ensures
            final(self).threshold == old(self).threshold,
            final(self).callback_stack@ == if is_callback_spec(tree@, n) {
                old(self).callback_stack@.push(n)
            } else {
                old(self).callback_stack@
            },
            r == if is_callback_spec(tree@, n) && final(self).callback_stack@.len() > old(self).threshold {
                Some(final(self).callback_stack@.len() as usize)
            } else {
                None
            },
    {
        if is_callback(tree, n) {
            self.on_callback(n)
        } else {
            None
        }
    }

    /// Leaving node `n` of `tree`: a function or arrow function stops
    /// nesting if it is the innermost callback (see `on_function_exit`).
    pub fn exit_node(&mut self, tree: &SyntaxTree, n: usize)
        requires
            n < tree@.len(),
        ensures
            final(self).threshold == old(self).threshold,
            final(self).callback_stack@ == if (tree@[n as int].kind == "function"@ || tree@[n as int].kind
                == "arrow_function"@) && old(self).callback_stack@.len() > 0 && old(self).callback_stack@.last() == n {
                old(self).callback_stack@.drop_last()
            } else {
                old(self).callback_stack@
            },
    {
        if tree.kind_is(n, "function") || tree.kind_is(n, "arrow_function") {
            self.on_function_exit(n);
        }
    }
}

/// What makes a callback: a function or an arrow function that stands in
/// the argument list of a call. What the call calls does not matter: a plain
/// name, a member access such as `a.forEach`, or any other expression.
/// Nothing else is a callback: not a function in another place, not another
/// kind of node in an argument list.
pub proof fn lemma_callbacks_are_arguments_of_calls(t: Seq<NodeView>, n: usize, p: usize, c: usize)
    requires
        t[n as int].parent == Some(p),
        t[p as int].parent == Some(c),
    ensures
        is_callback_spec(t, n) <==> ((t[n as int].kind == "function"@ || t[n as int].kind == "arrow_function"@)
            && t[p as int].kind == "arguments"@ && t[c as int].kind == "call_expression"@ && field_child(
            t,
            t[c as int].children,
            "arguments"@,
        ) == Some(p)),
{
}

/// A node without a parent, or whose parent has none, is no callback.
pub proof fn lemma_callbacks_have_a_call_above(t: Seq<NodeView>, n: usize)
    ensures
        (t[n as int].parent is None || t[t[n as int].parent->0 as int].parent is None) ==> !is_callback_spec(t, n),
{
}

} // verus!
