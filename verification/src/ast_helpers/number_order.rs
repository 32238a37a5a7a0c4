use vstd::prelude::*;

use std::cmp::Ordering;

verus! {

/// The value of a numeric literal that reads without floating point: not a
/// number, a number that is an integer, or a BigInt.
#[derive(Copy, Clone, Debug, PartialEq, Eq, Structural)]
pub enum IntegerValue {
    NaN,
    Integer(i64),
    BigInt(i64),
}

/// The integer an `IntegerValue` stands for; none for NaN.
pub open spec fn integer_value_of(v: IntegerValue) -> Option<int> {
    match v {
        IntegerValue::NaN => None,
        IntegerValue::Integer(x) => Some(x as int),
        IntegerValue::BigInt(x) => Some(x as int),
    }
}

/// A number and a BigInt written with the same digits stand for the same
/// integer, the one they hold; NaN stands for none, so that it equals
/// nothing and is ordered against nothing, itself included. Equality of
/// values is symmetric.
pub proof fn lemma_integer_values(x: i64, a: IntegerValue, b: IntegerValue)
    ensures
        integer_value_of(IntegerValue::Integer(x)) == Some(x as int),
        integer_value_of(IntegerValue::BigInt(x)) == Some(x as int),
        integer_value_of(IntegerValue::NaN) is None,
        (integer_value_of(a) is Some && integer_value_of(a) == integer_value_of(b)) == (integer_value_of(b) is Some
            && integer_value_of(b) == integer_value_of(a)),
{
}

/// Whether two values are equal: NaN equals nothing, and a number and a
/// BigInt are equal when they stand for the same integer.
pub fn integer_values_equal(a: IntegerValue, b: IntegerValue) -> (r: bool)
    ensures
        r == (integer_value_of(a) is Some && integer_value_of(a) == integer_value_of(b)),
{
    let x = match a {
        IntegerValue::NaN => {
            return false;
        },
        IntegerValue::Integer(x) => x,
        IntegerValue::BigInt(x) => x,
    };
    let y = match b {
        IntegerValue::NaN => {
            return false;
        },
        IntegerValue::Integer(y) => y,
        IntegerValue::BigInt(y) => y,
    };
    x == y
}

/// How two values are ordered by the integers they stand for; none where
/// either is NaN.
pub fn compare_integer_values(a: IntegerValue, b: IntegerValue) -> (r: Option<Ordering>)
    ensures
        match (integer_value_of(a), integer_value_of(b)) {
            (Some(x), Some(y)) => r == Some(
                if x < y {
                    Ordering::Less
                } else if x == y {
                    Ordering::Equal
                } else {
                    Ordering::Greater
                },
            ),
            _ => r is None,
        },
{
    let x = match a {
        IntegerValue::NaN => {
            return None;
        },
        IntegerValue::Integer(x) => x,
        IntegerValue::BigInt(x) => x,
    };
    let y = match b {
        IntegerValue::NaN => {
            return None;
        },
        IntegerValue::Integer(y) => y,
        IntegerValue::BigInt(y) => y,
    };
    if x < y {
        Some(Ordering::Less)
    } else if x == y {
        Some(Ordering::Equal)
    } else {
        Some(Ordering::Greater)
    }
}

} // verus!
