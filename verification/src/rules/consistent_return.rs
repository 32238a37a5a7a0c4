use vstd::prelude::*;

use crate::syntax_tree::{field_child, named_non_comment, NodeView, SyntaxTree};

verus! {

/// The rule's one option: whether `return undefined` and `return void ...`
/// count as returning no value.
#[derive(Copy, Clone, Debug, PartialEq, Eq, Structural)]
pub struct Options {
    pub treat_undefined_as_unspecified: bool,
}

impl Default for Options {
    fn default() -> (o: Self)
        ensures
            o == (Options { treat_undefined_as_unspecified: false }),
    {
        Options { treat_undefined_as_unspecified: false }
    }
}

/// What a `return` statement returns.
#[derive(Copy, Clone, Debug, PartialEq, Eq, Structural)]
pub enum ReturnArgument {
    /// A bare `return;`.
    Nothing,
    /// `return undefined;`
    Undefined,
    /// `return void ...;`
    Void,
    /// Any other value.
    Other,
}

pub open spec fn has_return_value_spec(argument: ReturnArgument, options: Options) -> bool {
    match argument {
        ReturnArgument::Nothing => false,
        ReturnArgument::Undefined | ReturnArgument::Void => !options.treat_undefined_as_unspecified,
        ReturnArgument::Other => true,
    }
}

/// Whether a `return` statement counts as returning a value.
pub fn has_return_value(argument: ReturnArgument, options: Options) -> (b: bool)
    ensures
        b == has_return_value_spec(argument, options),
{
    match argument {
        ReturnArgument::Nothing => false,
        ReturnArgument::Undefined | ReturnArgument::Void => !options.treat_undefined_as_unspecified,
        ReturnArgument::Other => true,
    }
}

/// What `return` statement `n` returns: its first named child that is no
/// comment is its argument.
pub open spec fn return_argument_spec(t: Seq<NodeView>, n: usize) -> ReturnArgument {
    let cs = named_non_comment(t, t[n as int].children);
    if cs.len() == 0 {
        ReturnArgument::Nothing
    } else if t[cs[0] as int].kind == "undefined"@ {
        ReturnArgument::Undefined
    } else if t[cs[0] as int].kind == "unary_expression"@ && (match field_child(
        t,
        t[cs[0] as int].children,
        "operator"@,
    ) {
        Some(o) => t[o as int].kind == "void"@,
        None => false,
    }) {
        ReturnArgument::Void
    } else {
        ReturnArgument::Other
    }
}

/// A unary expression that is the argument of `return` statement `n` has an
/// operator.
pub open spec fn return_argument_readable(t: Seq<NodeView>, n: usize) -> bool {
    let cs = named_non_comment(t, t[n as int].children);
    cs.len() > 0 && t[cs[0] as int].kind == "unary_expression"@ ==> field_child(
        t,
        t[cs[0] as int].children,
        "operator"@,
    ) is Some
}

/// What `return` statement `n` of `tree` returns, read off the tree.
pub fn return_argument_of(tree: &SyntaxTree, n: usize) -> (r: ReturnArgument)
    requires
        tree.wf(),
        n < tree@.len(),
        return_argument_readable(tree@, n),
    ensures
        r == return_argument_spec(tree@, n),
{
    let children = tree.non_comment_named_children(n);
    if children.len() == 0 {
        return ReturnArgument::Nothing;
    }
    let a = children[0];
    if tree.kind_is(a, "undefined") {
        ReturnArgument::Undefined
    } else if tree.kind_is(a, "unary_expression") {
        match tree.child_by_field_name(a, "operator") {
            Some(o) => if tree.kind_is(o, "void") {
                ReturnArgument::Void
            } else {
                ReturnArgument::Other
            },
            None => ReturnArgument::Other,
        }
    } else {
        ReturnArgument::Other
    }
}

/// What a `return` that disagrees with the first one of its function is told.
#[derive(Copy, Clone, Debug, PartialEq, Eq, Structural)]
pub enum Message {
    /// The first `return` gave a value; this one does not.
    MissingReturnValue,
    /// The first `return` gave none; this one does.
    UnexpectedReturnValue,
}

/// What the first `return` of a code path recorded: whether it gave a value,
/// and the name of the function (for the messages).
pub struct FuncInfo {
    pub code_path: usize,
    pub has_return_value: bool,
    pub name: String,
}

/// The first `return` of each code path met so far, in the order met.
pub struct ConsistentReturn {
    pub func_infos: Vec<FuncInfo>,
}

/// The recorded first `return` of code path `c`, if any.
pub open spec fn lookup(infos: Seq<FuncInfo>, c: usize) -> Option<FuncInfo>
    decreases infos.len(),
{
    if infos.len() == 0 {
        None
    } else {
        match lookup(infos.drop_last(), c) {
            Some(b) => Some(b),
            None => if infos.last().code_path == c {
                Some(infos.last())
            } else {
                None
            },
        }
    }
}

pub open spec fn message_for(first_has_value: bool) -> Message {
    if first_has_value {
        Message::MissingReturnValue
    } else {
        Message::UnexpectedReturnValue
    }
}

impl ConsistentReturn {
    pub fn new() -> (s: Self)
        ensures
            s.func_infos@.len() == 0,
    {
        ConsistentReturn { func_infos: Vec::new() }
    }

    /// The recorded `return` of code path `code_path`, by position.
    fn find(&self, code_path: usize) -> (r: Option<usize>)
        ensures
            match r {
                Some(i) => i < self.func_infos@.len() && lookup(self.func_infos@, code_path) == Some(
                    self.func_infos@[i as int],
                ),
                None => lookup(self.func_infos@, code_path) is None,
            },
    {
        let mut i: usize = 0;
        while i < self.func_infos.len()
            invariant
                i <= self.func_infos@.len(),
                lookup(self.func_infos@.take(i as int), code_path) is None,
            decreases self.func_infos.len() - i,
        {
            assert(self.func_infos@.take(i + 1).drop_last() == self.func_infos@.take(i as int));
            if self.func_infos[i].code_path == code_path {
                proof {
                    lemma_lookup_prefix(self.func_infos@, (i + 1) as int, code_path);
                }
                return Some(i);
            }
            i = i + 1;
        }
        assert(self.func_infos@.take(self.func_infos@.len() as int) == self.func_infos@);
        None
    }

    /// Handles a `return` in code path `code_path` that does or does not
    /// give a value (`has_value`), where `name` names the function. The first
    /// `return` of a code path is recorded and passes; a later one is
    /// reported (with the recorded name) when it disagrees with the first.
    pub fn on_return(&mut self, code_path: usize, has_value: bool, name: String) -> (r: Option<
        (Message, String),
    >)
        ensures
            lookup(old(self).func_infos@, code_path) is None ==> {
                &&& r is None
                &&& final(self).func_infos@.len() == old(self).func_infos@.len() + 1
                &&& final(self).func_infos@.drop_last() == old(self).func_infos@
                &&& final(self).func_infos@.last().code_path == code_path
                &&& final(self).func_infos@.last().has_return_value == has_value
                &&& final(self).func_infos@.last().name@ == name@
            },
            lookup(old(self).func_infos@, code_path) matches Some(first) ==> {
                &&& final(self).func_infos@ == old(self).func_infos@
                &&& (r is Some <==> first.has_return_value != has_value)
                &&& (r matches Some((m, n)) ==> m == message_for(first.has_return_value) && n@
                    == first.name@)
            },
    {
        match self.find(code_path) {
            None => {
                self.func_infos.push(FuncInfo { code_path, has_return_value: has_value, name });
                None
            },
            Some(i) => {
                let first = self.func_infos[i].has_return_value;
                if first != has_value {
                    let message = if first {
                        Message::MissingReturnValue
                    } else {
                        Message::UnexpectedReturnValue
                    };
                    Some((message, self.func_infos[i].name.clone()))
                } else {
                    None
                }
            },
        }
    }

    /// At the end of the program: the code paths (of `ends`, in order) that
    /// can reach their end without a value after a `return` gave one there.
    /// Each end is a code path, whether its end can be reached, and whether
    /// it is a constructor (which is exempt).
    pub fn missing_returns(&self, ends: &Vec<(usize, bool, bool)>) -> (r: Vec<usize>)
        ensures
            r@ == missing_returns_spec(self.func_infos@, ends@),
    {
        let mut out: Vec<usize> = Vec::new();
        let mut i: usize = 0;
        while i < ends.len()
            invariant
                i <= ends@.len(),
                out@ == missing_returns_spec(self.func_infos@, ends@.take(i as int)),
            decreases ends.len() - i,
        {
            assert(ends@.take(i + 1).drop_last() == ends@.take(i as int));
            let (code_path, reachable, is_constructor) = ends[i];
            let first = self.find(code_path);
            let gives_value = match first {
                Some(j) => self.func_infos[j].has_return_value,
                None => false,
            };
            if gives_value && reachable && !is_constructor {
                out.push(code_path);
            }
            i = i + 1;
        }
        assert(ends@.take(ends@.len() as int) == ends@);
        out
    }
}

/// The code paths of `ends` whose first `return` gave a value, whose end is
/// reachable and which are no constructors.
pub open spec fn missing_returns_spec(infos: Seq<FuncInfo>, ends: Seq<(usize, bool, bool)>) -> Seq<usize>
    decreases ends.len(),
{
    if ends.len() == 0 {
        Seq::empty()
    } else {
        let rest = missing_returns_spec(infos, ends.drop_last());
        let (c, reachable, is_constructor) = ends.last();
        if (lookup(infos, c) matches Some(info) && info.has_return_value) && reachable
            && !is_constructor {
            rest.push(c)
        } else {
            rest
        }
    }
}

proof fn lemma_lookup_prefix(infos: Seq<FuncInfo>, n: int, c: usize)
    requires
        0 < n <= infos.len(),
        lookup(infos.take(n - 1), c) is None,
        infos[n - 1].code_path == c,
    ensures
        lookup(infos, c) == Some(infos[n - 1]),
    decreases infos.len() - n,
{
    assert(infos.take(n).drop_last() == infos.take(n - 1));
    if n < infos.len() {
        lemma_lookup_prefix_extend(infos, n, c);
    } else {
        assert(infos.take(n) == infos);
    }
}

proof fn lemma_lookup_prefix_extend(infos: Seq<FuncInfo>, n: int, c: usize)
    requires
        0 < n <= infos.len(),
        lookup(infos.take(n), c) is Some,
    ensures
        lookup(infos, c) == lookup(infos.take(n), c),
    decreases infos.len() - n,
{
    if n < infos.len() {
        assert(infos.take(n + 1).drop_last() == infos.take(n));
        lemma_lookup_prefix_extend(infos, n + 1, c);
    } else {
        assert(infos.take(n) == infos);
    }
}

/// `lookup` finds the first record of code path `c`: a record of `c` that
/// no earlier record of `c` comes before; none where `c` has no record.
pub proof fn lemma_lookup_finds_first(infos: Seq<FuncInfo>, c: usize)
    ensures
        match lookup(infos, c) {
            Some(f) => exists|j: int|
                0 <= j < infos.len() && infos[j] == f && f.code_path == c && forall|i: int|
                    0 <= i < j ==> (#[trigger] infos[i]).code_path != c,
            None => forall|i: int| 0 <= i < infos.len() ==> (#[trigger] infos[i]).code_path != c,
        },
    decreases infos.len(),
{
    if infos.len() > 0 {
        let rest = infos.drop_last();
        lemma_lookup_finds_first(rest, c);
        match lookup(rest, c) {
            Some(f) => {
                let j = choose|j: int|
                    0 <= j < rest.len() && rest[j] == f && f.code_path == c && forall|i: int|
                        0 <= i < j ==> (#[trigger] rest[i]).code_path != c;
                assert(infos[j] == f);
                assert forall|i: int| 0 <= i < j implies (#[trigger] infos[i]).code_path != c by {
                    assert(infos[i] == rest[i]);
                }
            },
            None => {
                if infos.last().code_path == c {
                    let j = infos.len() - 1;
                    assert forall|i: int| 0 <= i < j implies (#[trigger] infos[i]).code_path != c by {
                        assert(infos[i] == rest[i]);
                    }
                } else {
                    assert forall|i: int| 0 <= i < infos.len() implies (#[trigger] infos[i]).code_path != c by {
                        if i < rest.len() {
                            assert(infos[i] == rest[i]);
                        }
                    }
                }
            },
        }
    }
}

/// The code paths reported at the end of the program as missing a value:
/// exactly those ends that can be reached, of functions that are no
/// constructors, whose first `return` gave a value.
pub proof fn lemma_missing_returns_members(infos: Seq<FuncInfo>, ends: Seq<(usize, bool, bool)>)
    ensures
        forall|x: usize|
            #[trigger] missing_returns_spec(infos, ends).contains(x) <==> (exists|k: int|
                0 <= k < ends.len() && #[trigger] ends[k] == (x, true, false)) && (lookup(infos, x) matches Some(
                info
            ) && info.has_return_value),
    decreases ends.len(),
{
    if ends.len() > 0 {
        let rest_ends = ends.drop_last();
        lemma_missing_returns_members(infos, rest_ends);
        let rest = missing_returns_spec(infos, rest_ends);
        let (c, reachable, is_constructor) = ends.last();
        assert forall|x: usize|
            #[trigger] missing_returns_spec(infos, ends).contains(x) <==> (exists|k: int|
                0 <= k < ends.len() && #[trigger] ends[k] == (x, true, false)) && (lookup(infos, x) matches Some(
                info
            ) && info.has_return_value) by {
            let r = missing_returns_spec(infos, ends);
            if (exists|k: int| 0 <= k < ends.len() && #[trigger] ends[k] == (x, true, false)) {
                let k = choose|k: int| 0 <= k < ends.len() && #[trigger] ends[k] == (x, true, false);
                if k < rest_ends.len() {
                    assert(rest_ends[k] == ends[k]);
                }
            }
            if (exists|k: int| 0 <= k < rest_ends.len() && #[trigger] rest_ends[k] == (x, true, false)) {
                let k = choose|k: int| 0 <= k < rest_ends.len() && #[trigger] rest_ends[k] == (x, true, false);
                assert(ends[k] == rest_ends[k]);
            }
            if (lookup(infos, c) matches Some(info) && info.has_return_value) && reachable && !is_constructor {
                assert(r == rest.push(c));
                assert(r[rest.len() as int] == c);
                if rest.contains(x) {
                    let i = choose|i: int| 0 <= i < rest.len() && rest[i] == x;
                    assert(r[i] == x);
                }
                if r.contains(x) && x != c {
                    let i = choose|i: int| 0 <= i < r.len() && r[i] == x;
                    assert(rest[i] == x);
                }
                assert(ends[ends.len() - 1] == (c, true, false));
            } else {
                assert(r == rest);
            }
        }
    }
}

} // verus!
