use vstd::prelude::*;

use crate::text::concat;

verus! {

/// How seriously a rule's reports are taken.
#[derive(Copy, Clone, Debug, PartialEq, Eq, Structural)]
pub enum ErrorLevel {
    Off,
    Warning,
    Error,
}

/// The names of the rules of this plugin, in the order the configuration
/// that turns them all on lists them.
pub open spec fn rule_names() -> Seq<Seq<char>> {
    seq![
        "for-direction"@,
        "no-async-promise-executor"@,
        "no-await-in-loop"@,
        "no-compare-neg-zero"@,
        "no-cond-assign"@,
        "no-debugger"@,
        "no-dupe-class-members"@,
        "max-params"@,
        "max-nested-callbacks"@,
        "no-dupe-else-if"@,
        "no-dupe-keys"@,
        "no-duplicate-case"@,
        "no-unneeded-ternary"@,
        "no-array-constructor"@,
        "no-eq-null"@,
        "no-extra-bind"@,
        "no-extra-label"@,
        "no-labels"@,
        "no-lonely-if"@,
        "no-multi-assign"@,
        "no-negated-condition"@,
        "no-nested-ternary"@,
        "no-new"@,
        "no-new-wrappers"@,
        "no-octal"@,
        "no-octal-escape"@,
        "no-plusplus"@,
        "no-proto"@,
        "no-restricted-properties"@,
        "no-return-assign"@,
        "no-script-url"@,
        "no-sequences"@,
        "no-ternary"@,
        "no-throw-literal"@,
        "no-unused-labels"@,
        "no-useless-call"@,
        "no-useless-catch"@,
        "sort-keys"@,
        "default-case"@,
        "default-case-last"@,
        "require-yield"@,
        "no-multi-str"@,
        "no-mixed-operators"@,
        "no-empty-pattern"@,
        "no-constructor-return"@,
        "complexity"@,
        "consistent-return"@,
        "getter-return"@,
        "no-unreachable"@,
        "no-fallthrough"@,
        "no-useless-return"@,
        "no-self-assign"@,
        "constructor-super"@,
        "no-unreachable-loop"@,
        "array-callback-return"@,
        "no-this-before-super"@,
        "no-unsafe-finally"@,
        "no-unsafe-negation"@,
        "no-unsafe-optional-chaining"@,
        "yield-star-spacing"@,
        "array-bracket-newline"@,
        "space-unary-ops"@,
        "no-const-assign"@,
        "no-class-assign"@,
        "no-ex-assign"@,
        "no-func-assign"@,
        "no-import-assign"@,
        "no-new-object"@,
        "no-param-reassign"@,
        "wrap-regex"@,
        "dot-location"@,
        "symbol-description"@,
        "no-constant-binary-expression"@,
        "no-constant-condition"@,
        "no-dupe-args"@,
        "yoda"@,
        "vars-on-top"@,
        "max-statements"@,
        "prefer-object-has-own"@,
        "line-comment-position"@,
        "guard-for-in"@,
        "no-inner-declarations"@,
        "no-undef"@,
        "accessor-pairs"@,
        "no-unused-vars"@,
        "no-duplicate-imports"@,
        "no-new-native-nonconstructor"@,
        "no-new-symbol"@,
        "no-empty-character-class"@,
        "no-control-regex"@,
        "no-regex-spaces"@,
        "no-invalid-regexp"@,
        "no-useless-escape"@,
        "class-methods-use-this"@,
        "default-param-last"@
    ]
}

/// The configuration that turns every rule of the plugin on: for each rule,
/// its key `eslint-builtin/` followed by its name, at the error level.
pub fn all() -> (r: Vec<(String, ErrorLevel)>)
    ensures
        r@.len() == rule_names().len(),
        forall|i: int| 0 <= i < r@.len() ==> (#[trigger] r@[i]).0@ == "eslint-builtin/"@ + rule_names()[i]
            && r@[i].1 == ErrorLevel::Error,
{
    let names: Vec<&str> = vec![
        "for-direction",
        "no-async-promise-executor",
        "no-await-in-loop",
        "no-compare-neg-zero",
        "no-cond-assign",
        "no-debugger",
        "no-dupe-class-members",
        "max-params",
        "max-nested-callbacks",
        "no-dupe-else-if",
        "no-dupe-keys",
        "no-duplicate-case",
        "no-unneeded-ternary",
        "no-array-constructor",
        "no-eq-null",
        "no-extra-bind",
        "no-extra-label",
        "no-labels",
        "no-lonely-if",
        "no-multi-assign",
        "no-negated-condition",
        "no-nested-ternary",
        "no-new",
        "no-new-wrappers",
        "no-octal",
        "no-octal-escape",
        "no-plusplus",
        "no-proto",
        "no-restricted-properties",
        "no-return-assign",
        "no-script-url",
        "no-sequences",
        "no-ternary",
        "no-throw-literal",
        "no-unused-labels",
        "no-useless-call",
        "no-useless-catch",
        "sort-keys",
        "default-case",
        "default-case-last",
        "require-yield",
        "no-multi-str",
        "no-mixed-operators",
        "no-empty-pattern",
        "no-constructor-return",
        "complexity",
        "consistent-return",
        "getter-return",
        "no-unreachable",
        "no-fallthrough",
        "no-useless-return",
        "no-self-assign",
        "constructor-super",
        "no-unreachable-loop",
        "array-callback-return",
        "no-this-before-super",
        "no-unsafe-finally",
        "no-unsafe-negation",
        "no-unsafe-optional-chaining",
        "yield-star-spacing",
        "array-bracket-newline",
        "space-unary-ops",
        "no-const-assign",
        "no-class-assign",
        "no-ex-assign",
        "no-func-assign",
        "no-import-assign",
        "no-new-object",
        "no-param-reassign",
        "wrap-regex",
        "dot-location",
        "symbol-description",
        "no-constant-binary-expression",
        "no-constant-condition",
        "no-dupe-args",
        "yoda",
        "vars-on-top",
        "max-statements",
        "prefer-object-has-own",
        "line-comment-position",
        "guard-for-in",
        "no-inner-declarations",
        "no-undef",
        "accessor-pairs",
        "no-unused-vars",
        "no-duplicate-imports",
        "no-new-native-nonconstructor",
        "no-new-symbol",
        "no-empty-character-class",
        "no-control-regex",
        "no-regex-spaces",
        "no-invalid-regexp",
        "no-useless-escape",
        "class-methods-use-this",
        "default-param-last"
    ];
    assert(names@.map_values(|n: &str| n@) =~= rule_names());
    let mut r: Vec<(String, ErrorLevel)> = Vec::new();
    let mut i: usize = 0;
    while i < names.len()
        invariant
            names@.map_values(|n: &str| n@) == rule_names(),
            i <= names@.len(),
            r@.len() == i,
            forall|k: int| 0 <= k < i ==> (#[trigger] r@[k]).0@ == "eslint-builtin/"@ + rule_names()[k]
                && r@[k].1 == ErrorLevel::Error,
        decreases names.len() - i,
    {
        assert(names@.map_values(|n: &str| n@)[i as int] == names@[i as int]@);
        let key = concat("eslint-builtin/", names[i]);
        r.push((key, ErrorLevel::Error));
        i = i + 1;
    }
    r
}

} // verus!
