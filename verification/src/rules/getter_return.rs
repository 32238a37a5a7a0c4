use vstd::prelude::*;

use crate::pattern::{regex_compiles, regex_matches, Pattern};
use crate::text::str_eq;
use crate::syntax_tree::{field_child, NodeView, SyntaxTree};

verus! {

/// The rule's one option: whether a bare `return` is enough.
#[derive(Copy, Clone, Debug, PartialEq, Eq, Structural)]
pub struct Options {
    pub allow_implicit: bool,
}

impl Default for Options {
    fn default() -> (o: Self)
        ensures
            o == (Options { allow_implicit: false }),
    {
        Options { allow_implicit: false }
    }
}

/// The callee of a call as `object.property`.
pub struct MemberAccess {
    pub object: String,
    pub property: String,
}

/// Where the object literal that holds a `get` function stands.
pub enum Enclosing {
    /// It is an argument of a call to `callee`.
    ArgumentOf(Option<MemberAccess>),
    /// It is a property value of an object literal that is an argument of
    /// a call to `callee`.
    PropertyOfArgumentOf(Option<MemberAccess>),
    Other,
}

/// How a function node stands: as the value of a property named `get`, as
/// a method named `get` of an object literal, or otherwise.
pub enum Placement {
    GetProperty(Enclosing),
    GetMethod(Enclosing),
    Other,
}

/// What the rule needs to know of a function to tell whether it is a
/// getter.
pub struct FunctionFacts {
    /// The kind of its node.
    pub kind: String,
    pub body_is_block: bool,
    /// A method definition with the `get` keyword.
    pub has_get_keyword: bool,
    pub placement: Placement,
}

/// Node `n` has a child (a token or not) of kind `kind`.
pub open spec fn has_child_kind(t: Seq<NodeView>, n: usize, kind: Seq<char>) -> bool {
    exists|j: int| 0 <= j < t[n as int].children.len() && #[trigger] t[t[n as int].children[j] as int].kind == kind
}

/// The facts of function node `n` that `is_getter` takes, read off the tree:
/// its kind, whether its body is a block, and whether it is a method
/// definition with the `get` keyword; `placement` is how the node stands,
/// which the caller tells.
pub fn function_facts_of(tree: &SyntaxTree, n: usize, placement: Placement) -> (r: FunctionFacts)
    requires
        tree.wf(),
        n < tree@.len(),
    ensures
        r.kind@ == tree@[n as int].kind,
        r.body_is_block == (match field_child(tree@, tree@[n as int].children, "body"@) {
            Some(b) => tree@[b as int].kind == "statement_block"@,
            None => false,
        }),
        r.has_get_keyword == (tree@[n as int].kind == "method_definition"@ && has_child_kind(tree@, n, "get"@)),
        r.placement == placement,
{
    let ghost t = tree@;
    assert(tree.nodes@[n as int]@ == t[n as int]);
    let kind = tree.nodes[n].kind.clone();
    let body_is_block = match tree.child_by_field_name(n, "body") {
        Some(b) => tree.kind_is(b, "statement_block"),
        None => false,
    };
    let mut has_get_keyword = false;
    if tree.kind_is(n, "method_definition") {
        let children = &tree.nodes[n].children;
        let mut i: usize = 0;
        while i < children.len() && !has_get_keyword
            invariant
                tree.wf(),
                t == tree@,
                (n as int) < t.len(),
                children@ == t[n as int].children,
                i <= children@.len(),
                has_get_keyword ==> has_child_kind(t, n, "get"@),
                !has_get_keyword ==> forall|j: int| 0 <= j < i ==> #[trigger] t[t[n as int].children[j] as int].kind
                    != "get"@,
            decreases children.len() - i,
        {
            let c = children[i];
            assert(n < c < t.len());
            if tree.kind_is(c, "get") {
                assert(t[t[n as int].children[i as int] as int].kind == "get"@);
                has_get_keyword = true;
            }
            i = i + 1;
        }
    }
    FunctionFacts { kind, body_is_block, has_get_keyword, placement }
}

/// The kinds of function node, as a regular expression.
pub open spec fn function_kinds_source() -> Seq<char> {
    "^(?:(?:arrow_|generator_)?function|method_definition)$"@
}

pub open spec fn is_access(a: Option<MemberAccess>, object: Seq<char>, property: Seq<char>) -> bool {
    match a {
        Some(a) => a.object@ == object && a.property@ == property,
        None => false,
    }
}

/// The object literal is a property descriptor handed to a function that
/// defines a getter with it.
pub open spec fn is_descriptor_spec(e: Enclosing) -> bool {
    match e {
        Enclosing::ArgumentOf(c) => is_access(c, "Object"@, "defineProperty"@) || is_access(
            c,
            "Reflect"@,
            "defineProperty"@,
        ),
        Enclosing::PropertyOfArgumentOf(c) => is_access(c, "Object"@, "defineProperties"@)
            || is_access(c, "Object"@, "create"@),
        Enclosing::Other => false,
    }
}

/// A getter: a function node whose body is a block, that is a `get` method
/// definition or the `get` of a property descriptor.
pub open spec fn is_getter_spec(f: FunctionFacts) -> bool {
    if !(regex_compiles(function_kinds_source()) && regex_matches(function_kinds_source(), f.kind@)) {
        false
    } else if !f.body_is_block {
        false
    } else if f.kind@ == "method_definition"@ && f.has_get_keyword {
        true
    } else {
        match f.placement {
            Placement::GetProperty(e) => is_descriptor_spec(e),
            Placement::GetMethod(e) => is_descriptor_spec(e),
            Placement::Other => false,
        }
    }
}

fn access_is(a: &Option<MemberAccess>, object: &str, property: &str) -> (b: bool)
    ensures
        b == is_access(*a, object@, property@),
{
    match a {
        Some(a) => str_eq(a.object.as_str(), object) && str_eq(a.property.as_str(), property),
        None => false,
    }
}

fn is_descriptor(e: &Enclosing) -> (b: bool)
    ensures
        b == is_descriptor_spec(*e),
{
    match e {
        Enclosing::ArgumentOf(c) => access_is(c, "Object", "defineProperty") || access_is(
            c,
            "Reflect",
            "defineProperty",
        ),
        Enclosing::PropertyOfArgumentOf(c) => access_is(c, "Object", "defineProperties")
            || access_is(c, "Object", "create"),
        Enclosing::Other => false,
    }
}

/// Whether a function is a getter (see `is_getter_spec`).
pub fn is_getter(f: &FunctionFacts) -> (b: bool)
    ensures
        b == is_getter_spec(*f),
{
    let source = "^(?:(?:arrow_|generator_)?function|method_definition)$";
    assert(source@ == function_kinds_source());
    let kind_matches = match Pattern::new(source) {
        Some(p) => p.is_match(f.kind.as_str()),
        None => false,
    };
    if !kind_matches {
        return false;
    }
    if !f.body_is_block {
        return false;
    }
    if str_eq(f.kind.as_str(), "method_definition") && f.has_get_keyword {
        return true;
    }
    match &f.placement {
        Placement::GetProperty(e) => is_descriptor(e),
        Placement::GetMethod(e) => is_descriptor(e),
        Placement::Other => false,
    }
}

/// What the rule reports.
#[derive(Copy, Clone, Debug, PartialEq, Eq, Structural)]
pub enum Message {
    /// A getter (or a `return` in it) gives no value.
    Expected,
    /// A getter that returns a value on some paths can end without one.
    ExpectedAlways,
}

/// The state of the rule: its option, and for each getter's code path
/// whether a `return` was met in it.
pub struct GetterReturn {
    pub allow_implicit: bool,
    pub code_paths_to_check: Vec<(usize, bool)>,
}

/// Where code path `c` stands in `to_check`.
pub open spec fn position(to_check: Seq<(usize, bool)>, c: usize) -> Option<int>
    decreases to_check.len(),
{
    if to_check.len() == 0 {
        None
    } else {
        match position(to_check.drop_last(), c) {
            Some(i) => Some(i),
            None => if to_check.last().0 == c {
                Some(to_check.len() - 1)
            } else {
                None
            },
        }
    }
}

proof fn lemma_position(to_check: Seq<(usize, bool)>, c: usize)
    ensures
        position(to_check, c) matches Some(i) ==> 0 <= i < to_check.len() && to_check[i].0 == c
            && forall|j: int| 0 <= j < i ==> to_check[j].0 != c,
        position(to_check, c) is None ==> forall|j: int| 0 <= j < to_check.len() ==> to_check[j].0 != c,
    decreases to_check.len(),
{
    if to_check.len() > 0 {
        let d = to_check.drop_last();
        lemma_position(d, c);
        assert(forall|j: int| 0 <= j < d.len() ==> d[j] == to_check[j]);
    }
}

fn find(to_check: &Vec<(usize, bool)>, c: usize) -> (r: Option<usize>)
    ensures
        match r {
            Some(i) => position(to_check@, c) == Some(i as int),
            None => position(to_check@, c) is None,
        },
{
    proof {
        lemma_position(to_check@, c);
    }
    let mut i: usize = 0;
    while i < to_check.len()
        invariant
            i <= to_check@.len(),
            forall|j: int| 0 <= j < i ==> to_check@[j].0 != c,
            position(to_check@, c) matches Some(p) ==> 0 <= p < to_check@.len() && to_check@[p].0 == c
                && forall|j: int| 0 <= j < p ==> to_check@[j].0 != c,
            position(to_check@, c) is None ==> forall|j: int| 0 <= j < to_check@.len() ==> to_check@[j].0 != c,
        decreases to_check.len() - i,
    {
        if to_check[i].0 == c {
            return Some(i);
        }
        i = i + 1;
    }
    None
}

impl GetterReturn {
    /// At the start of the program: the code paths to check are those of
    /// `getters`, none with a `return` yet.
    pub fn new(options: Options, getters: &Vec<usize>) -> (r: Self)
        ensures
            r.allow_implicit == options.allow_implicit,
            r.code_paths_to_check@ == getters@.map_values(|c: usize| (c, false)),
    {
        let mut to_check: Vec<(usize, bool)> = Vec::new();
        let mut i: usize = 0;
        while i < getters.len()
            invariant
                i <= getters@.len(),
                to_check@ =~= getters@.take(i as int).map_values(|c: usize| (c, false)),
            decreases getters.len() - i,
        {
            to_check.push((getters[i], false));
            assert(getters@.take(i + 1).map_values(|c: usize| (c, false)) =~= getters@.take(
                i as int,
            ).map_values(|c: usize| (c, false)).push((getters@[i as int], false)));
            i = i + 1;
        }
        assert(getters@.take(getters@.len() as int) == getters@);
        GetterReturn { allow_implicit: options.allow_implicit, code_paths_to_check: to_check }
    }

    /// A `return` in code path `code_path`, with or without a value: in a
    /// getter, it is recorded, and reported when it has no value (unless
    /// that is allowed).
    pub fn on_return(&mut self, code_path: usize, has_value: bool) -> (report: bool)
        ensures
            final(self).allow_implicit == old(self).allow_implicit,
            position(old(self).code_paths_to_check@, code_path) is None ==> !report
                && final(self).code_paths_to_check@ == old(self).code_paths_to_check@,
            position(old(self).code_paths_to_check@, code_path) matches Some(i) ==> {
                &&& final(self).code_paths_to_check@ == old(self).code_paths_to_check@.update(
                    i,
                    (code_path, true),
                )
                &&& report == (!old(self).allow_implicit && !has_value)
            },
    {
        match find(&self.code_paths_to_check, code_path) {
            None => false,
            Some(i) => {
                proof {
                    lemma_position(self.code_paths_to_check@, code_path);
                }
                self.code_paths_to_check.set(i, (code_path, true));
                !self.allow_implicit && !has_value
            },
        }
    }

    /// At the end of the program: for each of `ends` (a code path and
    /// whether its end can be reached), in order, a getter that can reach
    /// its end is reported, as not always returning a value if it has a
    /// `return`, else as returning none.
    pub fn on_program_exit(&self, ends: &Vec<(usize, bool)>) -> (r: Vec<(usize, Message)>)
        ensures
            r@ == exit_reports(self.code_paths_to_check@, ends@),
    {
        let mut out: Vec<(usize, Message)> = Vec::new();
        let mut i: usize = 0;
        while i < ends.len()
            invariant
                i <= ends@.len(),
                out@ == exit_reports(self.code_paths_to_check@, ends@.take(i as int)),
            decreases ends.len() - i,
        {
            assert(ends@.take(i + 1).drop_last() == ends@.take(i as int));
            let (c, reachable) = ends[i];
            match find(&self.code_paths_to_check, c) {
                Some(j) => {
                    proof {
                        lemma_position(self.code_paths_to_check@, c);
                    }
                    if reachable {
                        let message = if self.code_paths_to_check[j].1 {
                            Message::ExpectedAlways
                        } else {
                            Message::Expected
                        };
                        out.push((c, message));
                    }
                },
                None => {},
            }
            i = i + 1;
        }
        assert(ends@.take(ends@.len() as int) == ends@);
        out
    }
}

/// The reports at the end of the program (see `on_program_exit`).
pub open spec fn exit_reports(to_check: Seq<(usize, bool)>, ends: Seq<(usize, bool)>) -> Seq<
    (usize, Message),
>
    decreases ends.len(),
{
    if ends.len() == 0 {
        Seq::empty()
    } else {
        let rest = exit_reports(to_check, ends.drop_last());
        let (c, reachable) = ends.last();
        match position(to_check, c) {
            Some(j) => if reachable {
                rest.push(
                    (
                        c,
                        if to_check[j].1 {
                            Message::ExpectedAlways
                        } else {
                            Message::Expected
                        },
                    ),
                )
            } else {
                rest
            },
            None => rest,
        }
    }
}

/// Which functions are getters: none whose body is not a block; a method
/// definition with the `get` keyword (of a function kind the rule checks)
/// always; any other only as the `get` of a property descriptor, that is an
/// object handed as an argument to `Object.defineProperty` or
/// `Reflect.defineProperty`, or standing as a property value in an object
/// handed to `Object.defineProperties` or `Object.create`. A `get` of an
/// object handed to any other call is no getter.
pub proof fn lemma_getters(f: FunctionFacts)
    ensures
        !f.body_is_block ==> !is_getter_spec(f),
        ({
            let kind_ok = regex_compiles(function_kinds_source()) && regex_matches(function_kinds_source(), f.kind@);
            let descriptor = |e: Enclosing| match e {
                Enclosing::ArgumentOf(Some(c)) => (c.object@ == "Object"@ || c.object@ == "Reflect"@)
                    && c.property@ == "defineProperty"@,
                Enclosing::PropertyOfArgumentOf(Some(c)) => c.object@ == "Object"@ && (c.property@
                    == "defineProperties"@ || c.property@ == "create"@),
                _ => false,
            };
            &&& !kind_ok ==> !is_getter_spec(f)
            &&& (kind_ok && f.body_is_block && f.kind@ == "method_definition"@ && f.has_get_keyword) ==> is_getter_spec(f)
            &&& (kind_ok && f.body_is_block && !(f.kind@ == "method_definition"@ && f.has_get_keyword)) ==> (
            is_getter_spec(f) <==> match f.placement {
                Placement::GetProperty(e) => descriptor(e),
                Placement::GetMethod(e) => descriptor(e),
                Placement::Other => false,
            })
        }),
{
    reveal_strlit("Object");
    reveal_strlit("Reflect");
    assert("Object"@.len() != "Reflect"@.len());
}

/// `position` finds the first entry for code path `c`; none where `c` has
/// no entry.
pub proof fn lemma_position_finds_first(to_check: Seq<(usize, bool)>, c: usize)
    ensures
        match position(to_check, c) {
            Some(j) => 0 <= j < to_check.len() && to_check[j].0 == c && forall|i: int|
                0 <= i < j ==> (#[trigger] to_check[i]).0 != c,
            None => forall|i: int| 0 <= i < to_check.len() ==> (#[trigger] to_check[i]).0 != c,
        },
    decreases to_check.len(),
{
    if to_check.len() > 0 {
        let rest = to_check.drop_last();
        lemma_position_finds_first(rest, c);
        assert forall|i: int| 0 <= i < rest.len() implies #[trigger] to_check[i] == rest[i] by {}
    }
}

/// The reports at the end of the program: one for each end that can be
/// reached of a getter's code path, saying that the getter does not always
/// return a value where a `return` was met in it, and that it returns none
/// otherwise; nothing for other code paths or ends that cannot be reached.
pub proof fn lemma_exit_reports_members(to_check: Seq<(usize, bool)>, ends: Seq<(usize, bool)>)
    ensures
        forall|c: usize, m: Message|
            #[trigger] exit_reports(to_check, ends).contains((c, m)) <==> (exists|k: int|
                0 <= k < ends.len() && #[trigger] ends[k] == (c, true)) && (position(to_check, c) matches Some(j)
                && m == if to_check[j].1 {
                Message::ExpectedAlways
            } else {
                Message::Expected
            }),
    decreases ends.len(),
{
    if ends.len() > 0 {
        let rest_ends = ends.drop_last();
        lemma_exit_reports_members(to_check, rest_ends);
        let rest = exit_reports(to_check, rest_ends);
        let (c0, reachable) = ends.last();
        assert forall|c: usize, m: Message|
            #[trigger] exit_reports(to_check, ends).contains((c, m)) <==> (exists|k: int|
                0 <= k < ends.len() && #[trigger] ends[k] == (c, true)) && (position(to_check, c) matches Some(j)
                && m == if to_check[j].1 {
                Message::ExpectedAlways
            } else {
                Message::Expected
            }) by {
            let r = exit_reports(to_check, ends);
            if (exists|k: int| 0 <= k < ends.len() && #[trigger] ends[k] == (c, true)) {
                let k = choose|k: int| 0 <= k < ends.len() && #[trigger] ends[k] == (c, true);
                if k < rest_ends.len() {
                    assert(rest_ends[k] == ends[k]);
                }
            }
            if (exists|k: int| 0 <= k < rest_ends.len() && #[trigger] rest_ends[k] == (c, true)) {
                let k = choose|k: int| 0 <= k < rest_ends.len() && #[trigger] rest_ends[k] == (c, true);
                assert(ends[k] == rest_ends[k]);
            }
            assert(ends[ends.len() - 1] == (c0, reachable));
            match position(to_check, c0) {
                Some(j) => if reachable {
                    let e = (c0, if to_check[j].1 { Message::ExpectedAlways } else { Message::Expected });
                    assert(r == rest.push(e));
                    assert(r[rest.len() as int] == e);
                    if rest.contains((c, m)) {
                        let i = choose|i: int| 0 <= i < rest.len() && rest[i] == (c, m);
                        assert(r[i] == (c, m));
                    }
                    if r.contains((c, m)) && (c, m) != e {
                        let i = choose|i: int| 0 <= i < r.len() && r[i] == (c, m);
                        assert(rest[i] == (c, m));
                    }
                } else {
                    assert(r == rest);
                },
                None => {
                    assert(r == rest);
                },
            }
        }
    }
}

} // verus!
