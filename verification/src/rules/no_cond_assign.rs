use vstd::prelude::*;

use crate::text::str_eq;

verus! {

/// When assignments in tests are forbidden: unless in parentheses (the
/// default), or always.
#[derive(Copy, Clone, Debug, PartialEq, Eq, Structural)]
pub enum ProhibitAssign {
    ExceptParens,
    Always,
}

impl Default for ProhibitAssign {
    fn default() -> (p: Self)
        ensures
            p == ProhibitAssign::ExceptParens,
    {
        ProhibitAssign::ExceptParens
    }
}

/// One node on the way up from an assignment: whether it is the condition
/// of a test (of an `if`, a loop or a conditional expression that is its
/// parent), and whether it is a function.
#[derive(Copy, Clone, Debug, PartialEq, Eq, Structural)]
pub struct Ancestor {
    pub is_test_condition: bool,
    pub is_function: bool,
}

/// The position in `chain` of the test whose condition holds `chain[i]`
/// (going up from position `i`, stopping at a function), if any. `chain[0]`
/// is the assignment and `chain[k + 1]` the parent of `chain[k]`.
pub open spec fn conditional_ancestor_from(chain: Seq<Ancestor>, i: int) -> Option<int>
    decreases chain.len() - i,
{
    if i < 0 || i >= chain.len() {
        None
    } else if chain[i].is_test_condition {
        Some(i + 1)
    } else if i + 1 >= chain.len() {
        None
    } else if chain[i + 1].is_function {
        None
    } else {
        conditional_ancestor_from(chain, i + 1)
    }
}

/// Finds the test that an assignment stands in the condition of (see
/// `conditional_ancestor_from`).
pub fn find_conditional_ancestor(chain: &Vec<Ancestor>) -> (r: Option<usize>)
    ensures
        match r {
            Some(k) => conditional_ancestor_from(chain@, 0) == Some(k as int),
            None => conditional_ancestor_from(chain@, 0) is None,
        },
{
    let mut i: usize = 0;
    if chain.len() == 0 {
        return None;
    }
    while i < chain.len()
        invariant
            i < chain@.len(),
            conditional_ancestor_from(chain@, 0) == conditional_ancestor_from(chain@, i as int),
        decreases chain.len() - i,
    {
        if chain[i].is_test_condition {
            return Some(i + 1);
        }
        if i + 1 >= chain.len() {
            return None;
        }
        if chain[i + 1].is_function {
            return None;
        }
        i = i + 1;
    }
    None
}

/// How a message names the test: statements by a phrase, other kinds by
/// the kind itself.
pub open spec fn description_spec(kind: Seq<char>) -> Seq<char> {
    if kind == "do_statement"@ {
        "a 'do...while' statement"@
    } else if kind == "for_statement"@ {
        "a 'for' statement"@
    } else if kind == "if_statement"@ {
        "an 'if' statement"@
    } else if kind == "while_statement"@ {
        "a 'while' statement"@
    } else {
        kind
    }
}

pub fn description(kind: &str) -> (r: String)
    ensures
        r@ == description_spec(kind@),
{
    if str_eq(kind, "do_statement") {
        String::from_str("a 'do...while' statement")
    } else if str_eq(kind, "for_statement") {
        String::from_str("a 'for' statement")
    } else if str_eq(kind, "if_statement") {
        String::from_str("an 'if' statement")
    } else if str_eq(kind, "while_statement") {
        String::from_str("a 'while' statement")
    } else {
        String::from_str(kind)
    }
}

/// An assignment is reported (as unexpected in its test) only when
/// assignments are always forbidden and it stands in a test.
pub fn check_assignment(prohibit: ProhibitAssign, chain: &Vec<Ancestor>) -> (r: Option<usize>)
    ensures
        r == if prohibit == ProhibitAssign::Always {
            match conditional_ancestor_from(chain@, 0) {
                Some(k) => Some(k as usize),
                None => None,
            }
        } else {
            None::<usize>
        },
{
    if prohibit != ProhibitAssign::Always {
        return None;
    }
    find_conditional_ancestor(chain)
}

/// A test whose condition is an assignment (alone, or in one pair of
/// parentheses) is reported as missing a comparison unless assignments are
/// always forbidden (the other check reports them then).
pub fn check_test_with_assignment(prohibit: ProhibitAssign) -> (report: bool)
    ensures
        report == (prohibit == ProhibitAssign::ExceptParens),
{
    prohibit == ProhibitAssign::ExceptParens
}

/// What `conditional_ancestor_from` finds: going up from position `i`, the
/// first test condition met before any function (the result is the
/// position of the test, just above its condition); none when every test
/// condition above lies beyond a function.
pub proof fn lemma_conditional_ancestor(chain: Seq<Ancestor>, i: int)
    requires
        0 <= i,
    ensures
        match conditional_ancestor_from(chain, i) {
            Some(k) => {
                &&& i < k <= chain.len()
                &&& chain[k - 1].is_test_condition
                &&& forall|j: int| i <= j < k - 1 ==> !(#[trigger] chain[j]).is_test_condition
                &&& forall|j: int| i < j < k ==> !(#[trigger] chain[j]).is_function
            },
            None => forall|j: int|
                i <= j < chain.len() && (#[trigger] chain[j]).is_test_condition ==> exists|m: int|
                    i < m <= j && (#[trigger] chain[m]).is_function,
        },
    decreases chain.len() - i,
{
    if i < chain.len() && !chain[i].is_test_condition && i + 1 < chain.len() {
        if chain[i + 1].is_function {
            assert forall|j: int| i <= j < chain.len() && (#[trigger] chain[j]).is_test_condition implies exists|m: int|
                i < m <= j && (#[trigger] chain[m]).is_function by {
                assert(chain[i + 1].is_function);
            }
        } else {
            lemma_conditional_ancestor(chain, i + 1);
            match conditional_ancestor_from(chain, i + 1) {
                Some(k) => {},
                None => {
                    assert forall|j: int| i <= j < chain.len() && (#[trigger] chain[j]).is_test_condition implies exists|m: int|
                        i < m <= j && (#[trigger] chain[m]).is_function by {
                        assert(j != i);
                    }
                },
            }
        }
    }
}

/// An assignment stands in a test exactly when, going up from it, a test
/// condition is met before any function: then a test is found, else none.
pub proof fn lemma_test_found_before_functions(chain: Seq<Ancestor>)
    ensures
        conditional_ancestor_from(chain, 0) is None ==> forall|j: int|
            0 <= j < chain.len() && (#[trigger] chain[j]).is_test_condition ==> exists|m: int|
                0 < m <= j && (#[trigger] chain[m]).is_function,
        (exists|j: int| 0 <= j < chain.len() && (#[trigger] chain[j]).is_test_condition && forall|m: int|
            0 < m <= j ==> !(#[trigger] chain[m]).is_function) ==> conditional_ancestor_from(chain, 0) is Some,
{
    lemma_conditional_ancestor(chain, 0);
}

} // verus!
