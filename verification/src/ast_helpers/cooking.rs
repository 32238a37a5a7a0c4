use vstd::prelude::*;

use crate::ast_helpers::{close_brace, cooked, cooked_from, escape_at};

verus! {

/// Walking the escapes of `s` from position `i` on, the last one is a
/// backslash followed by a carriage return that ends `s` (an escape that a
/// following line feed would lengthen).
pub open spec fn cr_escape_ends(s: Seq<char>, i: int) -> bool
    decreases s.len() - i,
{
    if i < 0 || i >= s.len() {
        false
    } else if s[i] == '\\' {
        if i + 2 == s.len() && s[i + 1] == '\r' {
            true
        } else {
            match escape_at(s, i + 1) {
                Some((_, k)) => if k >= 1 && i + 1 + k <= s.len() {
                    cr_escape_ends(s, i + 1 + k)
                } else {
                    false
                },
                None => false,
            }
        }
    } else {
        cr_escape_ends(s, i + 1)
    }
}

proof fn lemma_close_brace_prefix(a: Seq<char>, b: Seq<char>, j: int)
    requires
        close_brace(a, j) is Some,
    ensures
        close_brace(a + b, j) == close_brace(a, j),
    decreases a.len() - j,
{
    if a[j] != '}' {
        lemma_close_brace_prefix(a, b, j + 1);
    }
}

proof fn lemma_close_brace_shift(a: Seq<char>, b: Seq<char>, j: int)
    requires
        0 <= j,
    ensures
        close_brace(a + b, a.len() + j) == (match close_brace(b, j) {
            Some(p) => Some(a.len() + p),
            None => None,
        }),
    decreases b.len() - j,
{
    if j < b.len() && b[j] != '}' {
        lemma_close_brace_shift(a, b, j + 1);
    }
}

proof fn lemma_escape_at_prefix(a: Seq<char>, b: Seq<char>, i: int)
    requires
        0 <= i < a.len(),
        escape_at(a, i) is Some,
        ({
            let (out, k) = escape_at(a, i)->0;
            i + k <= a.len()
        }),
        !(a[i] == '\r' && i + 1 == a.len() && b.len() > 0 && b[0] == '\n'),
    ensures
        escape_at(a + b, i) == escape_at(a, i),
{
    let s = a + b;
    assert(s[i] == a[i]);
    let c = a[i];
    if c == 'x' {
        assert(s.subrange(i + 1, i + 3) =~= a.subrange(i + 1, i + 3));
    } else if c == 'u' {
        if i + 1 < a.len() && a[i + 1] == '{' {
            assert(s[i + 1] == a[i + 1]);
            lemma_close_brace_prefix(a, b, i + 2);
            let j = close_brace(a, i + 2)->0;
            crate::ast_helpers::lemma_close_brace(a, i + 2);
            assert(s.subrange(i + 2, j) =~= a.subrange(i + 2, j));
        } else {
            assert(i + 5 <= a.len());
            assert(s[i + 1] == a[i + 1]);
            assert(s.subrange(i + 1, i + 5) =~= a.subrange(i + 1, i + 5));
        }
    } else if c == '\r' {
        if i + 1 < a.len() {
            assert(s[i + 1] == a[i + 1]);
        } else if b.len() > 0 {
            assert(s[i + 1] == b[0]);
        }
    }
}

proof fn lemma_escape_at_shift(a: Seq<char>, b: Seq<char>, i: int)
    requires
        0 <= i,
    ensures
        escape_at(a + b, a.len() + i) == escape_at(b, i),
{
    let s = a + b;
    let n = a.len() as int;
    if i < b.len() {
        assert(s[n + i] == b[i]);
        let c = b[i];
        if i + 1 < b.len() {
            assert(s[n + i + 1] == b[i + 1]);
        }
        if c == 'x' {
            if i + 3 <= b.len() {
                assert(s.subrange(n + i + 1, n + i + 3) =~= b.subrange(i + 1, i + 3));
            }
        } else if c == 'u' {
            if i + 1 < b.len() && b[i + 1] == '{' {
                lemma_close_brace_shift(a, b, i + 2);
                if close_brace(b, i + 2) is Some {
                    let j = close_brace(b, i + 2)->0;
                    crate::ast_helpers::lemma_close_brace(b, i + 2);
                    assert(s.subrange(n + i + 2, n + j) =~= b.subrange(i + 2, j));
                }
            } else {
                if i + 5 <= b.len() {
                    assert(s.subrange(n + i + 1, n + i + 5) =~= b.subrange(i + 1, i + 5));
                }
            }
        }
    }
}

proof fn lemma_cooked_from_shift(a: Seq<char>, b: Seq<char>, i: int)
    requires
        0 <= i,
    ensures
        cooked_from(a + b, a.len() + i) == cooked_from(b, i),
    decreases b.len() - i,
{
    let s = a + b;
    let n = a.len() as int;
    if i < b.len() {
        assert(s[n + i] == b[i]);
        if b[i] == '\\' {
            lemma_escape_at_shift(a, b, i + 1);
            match escape_at(b, i + 1) {
                Some((out, k)) => {
                    if k >= 1 && i + 1 + k <= b.len() {
                        lemma_cooked_from_shift(a, b, i + 1 + k);
                        assert(n + i + 1 + k == n + (i + 1 + k));
                    }
                },
                None => {},
            }
        } else {
            lemma_cooked_from_shift(a, b, i + 1);
        }
    }
}

proof fn lemma_cooked_from_concat(a: Seq<char>, b: Seq<char>, i: int)
    requires
        0 <= i <= a.len(),
        cooked_from(a, i) is Some,
        cooked(b) is Some,
        !(cr_escape_ends(a, i) && b.len() > 0 && b[0] == '\n'),
    ensures
        cooked_from(a + b, i) == Some(cooked_from(a, i)->0 + cooked(b)->0),
    decreases a.len() - i,
{
    let s = a + b;
    if i == a.len() {
        lemma_cooked_from_shift(a, b, 0);
        assert(Seq::<char>::empty() + cooked(b)->0 =~= cooked(b)->0);
    } else {
        assert(s[i] == a[i]);
        if a[i] == '\\' {
            let (out, k) = escape_at(a, i + 1)->0;
            assert(i + 1 < a.len());
            lemma_escape_at_prefix(a, b, i + 1);
            lemma_cooked_from_concat(a, b, i + 1 + k);
            let rest = cooked_from(a, i + 1 + k)->0;
            assert(out + (rest + cooked(b)->0) =~= (out + rest) + cooked(b)->0);
        } else {
            lemma_cooked_from_concat(a, b, i + 1);
            let rest = cooked_from(a, i + 1)->0;
            assert(seq![a[i]] + (rest + cooked(b)->0) =~= (seq![a[i]] + rest) + cooked(b)->0);
        }
    }
}

/// Cooking distributes over joining texts made of whole escapes: the cooked
/// value of `a` followed by `b` is the cooked value of `a` followed by that of
/// `b`. The one exception is `a` ending in an escaped carriage return while
/// `b` opens with a line feed, which the escape then takes in.
pub proof fn lemma_cooked_concat(a: Seq<char>, b: Seq<char>)
    requires
        cooked(a) is Some,
        cooked(b) is Some,
        !(cr_escape_ends(a, 0) && b.len() > 0 && b[0] == '\n'),
    ensures
        cooked(a + b) == Some(cooked(a)->0 + cooked(b)->0),
{
    lemma_cooked_from_concat(a, b, 0);
}

} // verus!
