use vstd::prelude::*;

use crate::ast_helpers::{comment_contents_spec, get_comment_contents, is_comment_text};
use crate::pattern::{regex_compiles, regex_matches, Pattern};
use crate::syntax_tree::{field_child, lemma_field_child_in, named_non_comment, NodeView, SyntaxTree};
use crate::text::{chars_of, string_of, trim, trim_chars};

verus! {

/// The rule's one option: the pattern of a comment that stands for the
/// missing default case.
pub struct Options {
    pub comment_pattern: Option<String>,
}

impl Default for Options {
    fn default() -> (o: Self)
        ensures
            o.comment_pattern is None,
    {
        Options { comment_pattern: None }
    }
}

/// The pattern used where none is given: a comment that says "no default",
/// in any case.
pub open spec fn default_comment_pattern() -> Seq<char> {
    "(?i)^no default$"@
}

/// The pattern of `options`.
pub open spec fn comment_pattern_source(options: Options) -> Seq<char> {
    match options.comment_pattern {
        Some(p) => p@,
        None => default_comment_pattern(),
    }
}

/// The rule, with its comment pattern compiled.
pub struct DefaultCase {
    pub comment_pattern: Pattern,
}

impl DefaultCase {
    /// Compiles the comment pattern; `None` when it is no regular
    /// expression.
    pub fn new(options: Options) -> (r: Option<Self>)
        ensures
            r is Some <==> regex_compiles(comment_pattern_source(options)),
            r matches Some(d) ==> d.comment_pattern@ == comment_pattern_source(options),
    {
        let source = match &options.comment_pattern {
            Some(p) => p.clone(),
            None => String::from_str("(?i)^no default$"),
        };
        match Pattern::new(source.as_str()) {
            Some(p) => Some(DefaultCase { comment_pattern: p }),
            None => None,
        }
    }

    /// Whether a switch statement is reported, given how many cases it has,
    /// whether one is the default, and the text of the last comment after
    /// its last case: a switch with cases and no default is reported unless
    /// that comment, trimmed, matches the comment pattern.
    pub fn check_switch(&self, num_cases: usize, has_default: bool, last_comment: Option<&str>) -> (report: bool)
        requires
            last_comment matches Some(c) ==> is_comment_text(c@),
        ensures
            report == (num_cases > 0 && !has_default && !(last_comment matches Some(c)
                && regex_matches(self.comment_pattern@, trim(comment_contents_spec(c@))))),
    {
        if num_cases == 0 || has_default {
            return false;
        }
        match last_comment {
            Some(c) => {
                let contents = get_comment_contents(c);
                let cs = chars_of(contents.as_str());
                let trimmed = trim_chars(&cs);
                let text = string_of(&trimmed, 0, trimmed.len());
                assert(text@ =~= trim(comment_contents_spec(c@)));
                !self.comment_pattern.is_match(text.as_str())
            },
            None => true,
        }
    }
}

/// The cases of switch statement `n`: the named children of its body that
/// are no comment.
pub open spec fn switch_cases(t: Seq<NodeView>, n: usize) -> Seq<usize> {
    named_non_comment(t, t[field_child(t, t[n as int].children, "body"@)->0 as int].children)
}

/// Whether one of the cases of switch statement `n` is the default.
pub open spec fn has_default_case(t: Seq<NodeView>, n: usize) -> bool {
    exists|k: int| 0 <= k < switch_cases(t, n).len() && t[#[trigger] switch_cases(t, n)[k] as int].kind == "switch_default"@
}

impl DefaultCase {
    /// Whether switch statement `n` of `tree` is reported, given the text of
    /// the last comment after its last case (see `check_switch`).
    pub fn check_switch_statement(&self, tree: &SyntaxTree, n: usize, last_comment: Option<&str>) -> (report: bool)
        requires
            tree.wf(),
            n < tree@.len(),
            field_child(tree@, tree@[n as int].children, "body"@) is Some,
            last_comment matches Some(c) ==> is_comment_text(c@),
        ensures
            report == (switch_cases(tree@, n).len() > 0 && !has_default_case(tree@, n) && !(last_comment matches Some(
                c,
            ) && regex_matches(self.comment_pattern@, trim(comment_contents_spec(c@))))),
    {
        proof {
            lemma_field_child_in(tree@, n, "body"@);
        }
        let body = match tree.child_by_field_name(n, "body") {
            Some(b) => b,
            None => n,
        };
        let cases = tree.non_comment_named_children(body);
        let mut has_default = false;
        let mut i: usize = 0;
        while i < cases.len()
            invariant
                i <= cases@.len(),
                cases@ == switch_cases(tree@, n),
                forall|k: int| 0 <= k < cases@.len() ==> (#[trigger] cases@[k] as int) < tree@.len(),
                has_default == exists|k: int| 0 <= k < i && tree@[#[trigger] cases@[k] as int].kind == "switch_default"@,
            decreases cases.len() - i,
        {
            if tree.kind_is(cases[i], "switch_default") {
                has_default = true;
            }
            i = i + 1;
        }
        self.check_switch(cases.len(), has_default, last_comment)
    }
}

} // verus!
