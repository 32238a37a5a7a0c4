use vstd::prelude::*;

use crate::syntax_tree::{named_non_comment, SyntaxTree};

verus! {

/// The maximum when none is given.
pub const DEFAULT_MAX: usize = 10;

/// The maximum, as a number or in an object.
#[derive(Copy, Clone, Debug, PartialEq, Eq, Structural)]
pub enum Max {
    Usize(usize),
    Object(MaxObject),
}

#[derive(Copy, Clone, Debug, PartialEq, Eq, Structural)]
pub struct MaxObject {
    pub max: usize,
}

impl Default for MaxObject {
    fn default() -> (o: Self)
        ensures
            o.max == DEFAULT_MAX,
    {
        MaxObject { max: DEFAULT_MAX }
    }
}

impl Default for Max {
    fn default() -> (m: Self)
        ensures
            m == Max::Usize(DEFAULT_MAX),
    {
        Max::Usize(DEFAULT_MAX)
    }
}

impl Max {
    pub open spec fn value_spec(self) -> usize {
        match self {
            Max::Usize(v) => v,
            Max::Object(o) => o.max,
        }
    }

    /// The number the maximum stands for.
    pub fn value(self) -> (n: usize)
        ensures
            n == self.value_spec(),
    {
        match self {
            Max::Usize(v) => v,
            Max::Object(o) => o.max,
        }
    }
}

/// The options object: whether top-level functions are exempt (unless
/// there are several).
#[derive(Copy, Clone, Debug, PartialEq, Eq, Structural)]
pub struct OptionsObject {
    pub ignore_top_level_functions: bool,
}

impl Default for OptionsObject {
    fn default() -> (o: Self)
        ensures
            !o.ignore_top_level_functions,
    {
        OptionsObject { ignore_top_level_functions: false }
    }
}

/// The forms in which the options are given: none, a maximum, or a maximum
/// and an options object.
#[derive(Copy, Clone, Debug, PartialEq, Eq, Structural)]
pub enum OptionsVariants {
    EmptyList,
    JustMax(Max),
    MaxAndOptionsObject(Max, OptionsObject),
}

/// The rule's settings.
#[derive(Copy, Clone, Debug, PartialEq, Eq, Structural)]
pub struct Options {
    pub max: usize,
    pub ignore_top_level_functions: bool,
}

impl Options {
    pub fn from_max_and_options_object(max: Max, options_object: OptionsObject) -> (o: Self)
        ensures
            o.max == max.value_spec(),
            o.ignore_top_level_functions == options_object.ignore_top_level_functions,
    {
        Options { max: max.value(), ignore_top_level_functions: options_object.ignore_top_level_functions }
    }

    /// The settings that options given in any form stand for; what is left
    /// out takes its default.
    pub fn from_variants(value: OptionsVariants) -> (o: Self)
        ensures
            o == match value {
                OptionsVariants::EmptyList => Options { max: DEFAULT_MAX, ignore_top_level_functions: false },
                OptionsVariants::JustMax(m) => Options { max: m.value_spec(), ignore_top_level_functions: false },
                OptionsVariants::MaxAndOptionsObject(m, o) => Options {
                    max: m.value_spec(),
                    ignore_top_level_functions: o.ignore_top_level_functions,
                },
            },
    {
        match value {
            OptionsVariants::EmptyList => Self::from_max_and_options_object(Max::default(), OptionsObject::default()),
            OptionsVariants::JustMax(max) => Self::from_max_and_options_object(max, OptionsObject::default()),
            OptionsVariants::MaxAndOptionsObject(max, options_object) => Self::from_max_and_options_object(
                max,
                options_object,
            ),
        }
    }
}

impl Default for Options {
    fn default() -> (o: Self)
        ensures
            o == (Options { max: DEFAULT_MAX, ignore_top_level_functions: false }),
    {
        Options::from_variants(OptionsVariants::EmptyList)
    }
}

/// A function that counts: its node, and how many statements it holds.
#[derive(Copy, Clone, Debug, PartialEq, Eq, Structural)]
pub struct Counted {
    pub node: usize,
    pub count: usize,
}

/// The state of the rule: its settings, the statement counts of the
/// functions entered and not yet left (innermost last), and the top-level
/// functions held back when they are exempt.
pub struct MaxStatements {
    pub options: Options,
    pub function_stack: Vec<usize>,
    pub top_level_functions: Vec<Counted>,
}

/// A function with more statements than the maximum is reported.
pub open spec fn too_many(count: usize, max: usize) -> bool {
    count > max
}

impl MaxStatements {
    pub fn new(options: Options) -> (r: Self)
        ensures
            r.options == options,
            r.function_stack@.len() == 0,
            r.top_level_functions@.len() == 0,
    {
        MaxStatements { options, function_stack: Vec::new(), top_level_functions: Vec::new() }
    }

    /// Enters a function (or a static block): it holds no statement yet.
    pub fn enter_function(&mut self)
        ensures
            final(self).function_stack@ == old(self).function_stack@.push(0),
            final(self).options == old(self).options,
            final(self).top_level_functions@ == old(self).top_level_functions@,
    {
        self.function_stack.push(0);
    }

    /// A block of `statements` statements: they count for the innermost
    /// function.
    pub fn on_statement_block(&mut self, statements: usize)
        requires
            old(self).function_stack@.len() > 0,
            old(self).function_stack@.last() + statements <= usize::MAX,
        ensures
            final(self).function_stack@ == old(self).function_stack@.drop_last().push(
                (old(self).function_stack@.last() + statements) as usize,
            ),
            final(self).options == old(self).options,
            final(self).top_level_functions@ == old(self).top_level_functions@,
    {
        let n = self.function_stack.len();
        let count = self.function_stack[n - 1];
        let total = count + statements;
        self.function_stack.set(n - 1, total);
        assert(self.function_stack@ =~= old(self).function_stack@.drop_last().push(total));
    }

    /// Statement block `n` of `tree`: its statements (the named children
    /// that are no comment) count for the innermost function.
    pub fn on_statement_block_node(&mut self, tree: &SyntaxTree, n: usize)
        requires
            tree.wf(),
            n < tree@.len(),
            old(self).function_stack@.len() > 0,
            old(self).function_stack@.last() + named_non_comment(tree@, tree@[n as int].children).len() <= usize::MAX,
        ensures
            final(self).function_stack@ == old(self).function_stack@.drop_last().push(
                (old(self).function_stack@.last() + named_non_comment(tree@, tree@[n as int].children).len()) as usize,
            ),
            final(self).options == old(self).options,
            final(self).top_level_functions@ == old(self).top_level_functions@,
    {
        let statements = tree.non_comment_named_children(n).len();
        self.on_statement_block(statements);
    }

    /// Leaves a function (`node`; `is_static_block` for a static block):
    /// returns the count to report, if any. Static blocks are never
    /// reported; a top-level function is held back when top-level functions
    /// are exempt.
    pub fn exit_function(&mut self, node: usize, is_static_block: bool) -> (r: Option<usize>)
        requires
            old(self).function_stack@.len() > 0,
        ensures
            final(self).function_stack@ == old(self).function_stack@.drop_last(),
            final(self).options == old(self).options,
            ({
                let count = old(self).function_stack@.last();
                let held = !is_static_block && old(self).options.ignore_top_level_functions
                    && old(self).function_stack@.len() == 1;
                &&& final(self).top_level_functions@ == if held {
                    old(self).top_level_functions@.push(Counted { node, count })
                } else {
                    old(self).top_level_functions@
                }
                &&& r == if !is_static_block && !held && too_many(count, old(self).options.max) {
                    Some(count)
                } else {
                    None
                }
            }),
    {
        let count = match self.function_stack.pop() {
            Some(c) => c,
            None => 0,
        };
        if is_static_block {
            return None;
        }
        if self.options.ignore_top_level_functions && self.function_stack.len() == 0 {
            self.top_level_functions.push(Counted { node, count });
            None
        } else if count > self.options.max {
            Some(count)
        } else {
            None
        }
    }

    /// At the end of the program: the top-level functions held back are
    /// reported (where too long) unless there is only one.
    pub fn on_program_exit(&self) -> (r: Vec<Counted>)
        ensures
            r@ == if self.top_level_functions@.len() == 1 {
                Seq::empty()
            } else {
                self.top_level_functions@.filter(|c: Counted| too_many(c.count, self.options.max))
            },
    {
        let mut out: Vec<Counted> = Vec::new();
        if self.top_level_functions.len() == 1 {
            return out;
        }
        let ghost all = self.top_level_functions@;
        let mut i: usize = 0;
        while i < self.top_level_functions.len()
            invariant
                i <= all.len(),
                all == self.top_level_functions@,
                out@ == all.take(i as int).filter(|c: Counted| too_many(c.count, self.options.max)),
            decreases self.top_level_functions.len() - i,
        {
            let c = self.top_level_functions[i];
            proof {
                assert(all.take(i + 1).drop_last() == all.take(i as int));
                reveal(Seq::filter);
            }
            if c.count > self.options.max {
                out.push(c);
            }
            i = i + 1;
        }
        assert(all.take(all.len() as int) == all);
        out
    }
}

/// A function is too long exactly when it has more statements than the
/// maximum: one with exactly the maximum is not, one with one more is.
pub proof fn lemma_too_many_past_max(count: usize, max: usize)
    ensures
        too_many(count, max) <==> count > max,
        !too_many(max, max),
        max < usize::MAX ==> too_many((max + 1) as usize, max),
{
}

} // verus!
