use vstd::prelude::*;

use crate::text::chars_of;

verus! {

/// What the integer reading of a numeric literal's text gives: not a number,
/// an integer, a BigInt, or text that only reads as a non-integer number.
#[derive(Copy, Clone, Debug, PartialEq, Eq, Structural)]
pub enum IntegerReading {
    NaN,
    Integer(i64),
    BigInt(i64),
    NotInteger,
}

/// The value of a digit in bases up to 36.
pub open spec fn digit_value(c: char) -> Option<nat> {
    if '0' <= c <= '9' {
        Some((c as nat - '0' as nat) as nat)
    } else if 'a' <= c <= 'z' {
        Some((c as nat - 'a' as nat + 10) as nat)
    } else if 'A' <= c <= 'Z' {
        Some((c as nat - 'A' as nat + 10) as nat)
    } else {
        None
    }
}

/// The value of a run of digits in `radix` (none at all reads as 0).
pub open spec fn digits_value(cs: Seq<char>, radix: nat) -> Option<nat>
    decreases cs.len(),
{
    if cs.len() == 0 {
        Some(0)
    } else {
        match (digits_value(cs.drop_last(), radix), digit_value(cs.last())) {
            (Some(v), Some(d)) => if d < radix {
                Some(v * radix + d)
            } else {
                None
            },
            _ => None,
        }
    }
}

/// How a 64-bit signed integer reads in `radix`: an optional sign, then at
/// least one digit, and a value in range.
pub open spec fn radix_i64(cs: Seq<char>, radix: nat) -> Option<int> {
    let negative = cs.len() > 0 && cs[0] == '-';
    let digits = if cs.len() > 0 && (cs[0] == '+' || cs[0] == '-') {
        cs.drop_first()
    } else {
        cs
    };
    if digits.len() == 0 {
        None
    } else {
        match digits_value(digits, radix) {
            Some(v) => if negative {
                if v <= 0x8000_0000_0000_0000 {
                    Some(-v)
                } else {
                    None
                }
            } else {
                if v <= 0x7fff_ffff_ffff_ffff {
                    Some(v as int)
                } else {
                    None
                }
            },
            None => None,
        }
    }
}

pub open spec fn starts_with_two(s: Seq<char>, a: char, b: char) -> bool {
    s.len() >= 2 && s[0] == a && s[1] == b
}

pub open spec fn is_bigint_literal_spec(s: Seq<char>) -> bool {
    s.len() > 0 && s.last() == 'n'
}

pub open spec fn is_hex_literal_spec(s: Seq<char>) -> bool {
    starts_with_two(s, '0', 'x') || starts_with_two(s, '0', 'X')
}

pub open spec fn is_binary_literal_spec(s: Seq<char>) -> bool {
    starts_with_two(s, '0', 'b') || starts_with_two(s, '0', 'B')
}

pub open spec fn is_octal_literal_spec(s: Seq<char>) -> bool {
    starts_with_two(s, '0', 'o') || starts_with_two(s, '0', 'O')
}

/// An integer, as a Number or as a BigInt.
pub open spec fn integer_or_bigint(v: Option<int>, is_bigint: bool) -> IntegerReading {
    match v {
        Some(x) => if is_bigint {
            IntegerReading::BigInt(x as i64)
        } else {
            IntegerReading::Integer(x as i64)
        },
        None => IntegerReading::NaN,
    }
}

/// How the text of a numeric literal reads as an integer, once its
/// separators `_` are gone: a trailing `n` makes a BigInt; `0x`, `0o`, `0b`
/// prefix hexadecimal, octal and binary digits; a leading `0` before more
/// digits and no `.` makes a legacy octal literal; anything else is read in
/// decimal, and text that is no decimal integer is not a number if it is a
/// BigInt, else it has to be read as a non-integer number.
pub open spec fn integer_reading(value: Seq<char>) -> IntegerReading {
    let is_bigint = is_bigint_literal_spec(value);
    let v = if is_bigint {
        value.drop_last()
    } else {
        value
    };
    if is_hex_literal_spec(v) {
        integer_or_bigint(radix_i64(v.skip(2), 16), is_bigint)
    } else if is_octal_literal_spec(v) {
        integer_or_bigint(radix_i64(v.skip(2), 8), is_bigint)
    } else if is_binary_literal_spec(v) {
        integer_or_bigint(radix_i64(v.skip(2), 2), is_bigint)
    } else if v.len() > 1 && v[0] == '0' && !v.drop_first().contains('.') {
        integer_or_bigint(radix_i64(v.drop_first(), 8), is_bigint)
    } else {
        match radix_i64(v, 10) {
            Some(x) => integer_or_bigint(Some(x), is_bigint),
            None => if is_bigint {
                IntegerReading::NaN
            } else {
                IntegerReading::NotInteger
            },
        }
    }
}

/// The text without its numeric separators.
pub open spec fn without_separators(s: Seq<char>) -> Seq<char>
    decreases s.len(),
{
    if s.len() == 0 {
        s
    } else if s.last() == '_' {
        without_separators(s.drop_last())
    } else {
        without_separators(s.drop_last()).push(s.last())
    }
}

pub fn is_bigint_literal(number_node_text: &str) -> (b: bool)
    ensures
        b == is_bigint_literal_spec(number_node_text@),
{
    let cs = chars_of(number_node_text);
    cs.len() > 0 && cs[cs.len() - 1] == 'n'
}

fn starts_with_pair(cs: &Vec<char>, a: char, b: char) -> (r: bool)
    ensures
        r == starts_with_two(cs@, a, b),
{
    cs.len() >= 2 && cs[0] == a && cs[1] == b
}

pub fn is_hex_literal(number_node_text: &str) -> (b: bool)
    ensures
        b == is_hex_literal_spec(number_node_text@),
{
    let cs = chars_of(number_node_text);
    starts_with_pair(&cs, '0', 'x') || starts_with_pair(&cs, '0', 'X')
}

pub fn is_binary_literal(number_node_text: &str) -> (b: bool)
    ensures
        b == is_binary_literal_spec(number_node_text@),
{
    let cs = chars_of(number_node_text);
    starts_with_pair(&cs, '0', 'b') || starts_with_pair(&cs, '0', 'B')
}

pub fn is_octal_literal(number_node_text: &str) -> (b: bool)
    ensures
        b == is_octal_literal_spec(number_node_text@),
{
    let cs = chars_of(number_node_text);
    starts_with_pair(&cs, '0', 'o') || starts_with_pair(&cs, '0', 'O')
}

fn digit_value_exec(c: char) -> (r: Option<u64>)
    ensures
        r matches Some(v) ==> digit_value(c) == Some(v as nat),
        r is None ==> digit_value(c) is None,
{
    if '0' <= c && c <= '9' {
        Some((c as u32 - '0' as u32) as u64)
    } else if 'a' <= c && c <= 'z' {
        Some((c as u32 - 'a' as u32 + 10) as u64)
    } else if 'A' <= c && c <= 'Z' {
        Some((c as u32 - 'A' as u32 + 10) as u64)
    } else {
        None
    }
}

pub proof fn lemma_digits_none_extends(cs: Seq<char>, radix: nat, k: nat)
    requires
        k <= cs.len(),
        digits_value(cs.take(k as int), radix) is None,
    ensures
        digits_value(cs, radix) is None,
    decreases cs.len() - k,
{
    if k < cs.len() {
        assert(cs.take(k as int + 1).drop_last() == cs.take(k as int));
        lemma_digits_none_extends(cs, radix, k + 1);
    } else {
        assert(cs.take(k as int) == cs);
    }
}

pub proof fn lemma_digits_big_extends(cs: Seq<char>, radix: nat, k: nat, bound: nat)
    requires
        radix >= 1,
        k <= cs.len(),
        digits_value(cs.take(k as int), radix) matches Some(v) && v > bound,
    ensures
        digits_value(cs, radix) matches Some(w) ==> w > bound,
    decreases cs.len() - k,
{
    if k < cs.len() {
        let t = cs.take(k as int + 1);
        assert(t.drop_last() == cs.take(k as int));
        if digits_value(t, radix) is None {
            lemma_digits_none_extends(cs, radix, k + 1);
        } else {
            let v = digits_value(cs.take(k as int), radix)->0;
            assert(v * radix >= v) by (nonlinear_arith)
                requires
                    radix >= 1,
            ;
            lemma_digits_big_extends(cs, radix, k + 1, bound);
        }
    } else {
        assert(cs.take(k as int) == cs);
    }
}

/// Reads `cs[from..]` as a 64-bit signed integer in `radix`
/// (`i64::from_str_radix`).
pub fn parse_i64_radix(cs: &Vec<char>, from: usize, radix: u64) -> (r: Option<i64>)
    requires
        from <= cs@.len(),
        2 <= radix <= 36,
    ensures
        r matches Some(x) ==> radix_i64(cs@.skip(from as int), radix as nat) == Some(x as int),
        r is None ==> radix_i64(cs@.skip(from as int), radix as nat) is None,
{
    let ghost s = cs@.skip(from as int);
    let len = cs.len();
    let mut i = from;
    let negative = i < len && cs[i] == '-';
    if i < len && (cs[i] == '+' || cs[i] == '-') {
        i = i + 1;
    }
    let ghost digits = cs@.subrange(i as int, len as int);
    assert(digits =~= (if s.len() > 0 && (s[0] == '+' || s[0] == '-') { s.drop_first() } else { s }));
    if i == len {
        return None;
    }
    let start = i;
    let bound: u64 = if negative { 0x8000_0000_0000_0000 } else { 0x7fff_ffff_ffff_ffff };
    let mut v: u64 = 0;
    while i < len
        invariant
            start <= i <= len,
            from <= start < len,
            len == cs@.len(),
            ({
                let s = cs@.skip(from as int);
                if s.len() > 0 && (s[0] == '+' || s[0] == '-') {
                    s.drop_first()
                } else {
                    s
                }
            }) =~= cs@.subrange(start as int, len as int),
            negative == (cs@.skip(from as int).len() > 0 && cs@.skip(from as int)[0] == '-'),
            bound == (if negative { 0x8000_0000_0000_0000u64 } else { 0x7fff_ffff_ffff_ffffu64 }),
            2 <= radix <= 36,
            v <= bound,
            bound <= 0x8000_0000_0000_0000,
            digits_value(cs@.subrange(start as int, i as int), radix as nat) == Some(v as nat),
        decreases len - i,
    {
        let t = Ghost(cs@.subrange(start as int, i + 1));
        assert(t@.drop_last() == cs@.subrange(start as int, i as int));
        assert(t@.last() == cs@[i as int]);
        match digit_value_exec(cs[i]) {
            Some(d) => {
                if d >= radix {
                    proof {
                        assert(cs@.subrange(start as int, len as int).take((i + 1 - start) as int) =~= t@);
                        lemma_digits_none_extends(cs@.subrange(start as int, len as int), radix as nat, (i + 1 - start) as nat);
                    }
                    return None;
                }
                let room = bound - d;
                let q = room / radix;
                if v > q {
                    proof {
                        assert((v as nat) * (radix as nat) + (d as nat) > bound as nat) by (nonlinear_arith)
                            requires
                                v > q,
                                q == room / radix,
                                room + d == bound,
                                radix >= 2,
                                d < radix,
                                d <= bound,
                        ;
                        assert(cs@.subrange(start as int, len as int).take((i + 1 - start) as int) =~= t@);
                        lemma_digits_big_extends(cs@.subrange(start as int, len as int), radix as nat, (i + 1 - start) as nat, bound as nat);
                    }
                    return None;
                }
                proof {
                    assert((v as nat) * (radix as nat) + (d as nat) <= bound as nat) by (nonlinear_arith)
                        requires
                            v <= q,
                            q == room / radix,
                                room + d == bound,
                            radix >= 2,
                            d <= bound,
                    ;
                }
                v = v * radix + d;
            },
            None => {
                proof {
                    assert(cs@.subrange(start as int, len as int).take((i + 1 - start) as int) =~= t@);
                    lemma_digits_none_extends(cs@.subrange(start as int, len as int), radix as nat, (i + 1 - start) as nat);
                }
                return None;
            },
        }
        i = i + 1;
    }
    if negative {
        if v == 0x8000_0000_0000_0000 {
            Some(i64::MIN)
        } else {
            Some(-(v as i64))
        }
    } else {
        Some(v as i64)
    }
}


/// How the text of a numeric literal reads as an integer (see
/// `integer_reading`).
pub fn parse_integer_literal(value: &str) -> (r: IntegerReading)
    ensures
        r == integer_reading(without_separators(value@)),
{
    let raw = chars_of(value);
    let mut cs: Vec<char> = Vec::new();
    let mut i: usize = 0;
    while i < raw.len()
        invariant
            i <= raw.len(),
            cs@ == without_separators(raw@.take(i as int)),
        decreases raw.len() - i,
    {
        assert(raw@.take(i + 1).drop_last() == raw@.take(i as int));
        assert(raw@.take(i + 1).last() == raw@[i as int]);
        if raw[i] != '_' {
            cs.push(raw[i]);
        }
        i = i + 1;
    }
    assert(raw@.take(raw.len() as int) == raw@);
    let ghost full = cs@;
    let is_bigint = cs.len() > 0 && cs[cs.len() - 1] == 'n';
    if is_bigint {
        cs.pop();
    }
    let ghost v = cs@;
    assert(v == (if is_bigint { full.drop_last() } else { full }));
    let (radix, from): (u64, usize) = if starts_with_pair(&cs, '0', 'x') || starts_with_pair(&cs, '0', 'X') {
        (16, 2)
    } else if starts_with_pair(&cs, '0', 'o') || starts_with_pair(&cs, '0', 'O') {
        (8, 2)
    } else if starts_with_pair(&cs, '0', 'b') || starts_with_pair(&cs, '0', 'B') {
        (2, 2)
    } else if cs.len() > 1 && cs[0] == '0' && !contains_from(&cs, 1, '.') {
        assert(v.skip(1) == v.drop_first());
        (8, 1)
    } else {
        assert(v.skip(0) == v);
        (10, 0)
    };
    let parsed = parse_i64_radix(&cs, from, radix);
    match parsed {
        Some(x) => if is_bigint {
            IntegerReading::BigInt(x)
        } else {
            IntegerReading::Integer(x)
        },
        None => if is_bigint || radix != 10 {
            IntegerReading::NaN
        } else {
            IntegerReading::NotInteger
        },
    }
}

/// Whether `c` occurs in `cs` at or after position `from`.
fn contains_from(cs: &Vec<char>, from: usize, c: char) -> (b: bool)
    requires
        from <= cs@.len(),
    ensures
        b == cs@.skip(from as int).contains(c),
{
    let mut i = from;
    while i < cs.len()
        invariant
            from <= i <= cs@.len(),
            forall|j: int| from <= j < i ==> cs@[j] != c,
        decreases cs.len() - i,
    {
        if cs[i] == c {
            assert(cs@.skip(from as int)[i - from] == c);
            return true;
        }
        i = i + 1;
    }
    assert forall|j: int| 0 <= j < cs@.skip(from as int).len() implies cs@.skip(from as int)[j] != c by {
        assert(cs@.skip(from as int)[j] == cs@[j + from]);
    }
    false
}

/// Removing separators from joined text removes them from each part.
pub proof fn lemma_without_separators_concat(a: Seq<char>, b: Seq<char>)
    ensures
        without_separators(a + b) == without_separators(a) + without_separators(b),
    decreases b.len(),
{
    if b.len() == 0 {
        assert(a + b == a);
        assert(without_separators(b) == b);
    } else {
        assert((a + b).drop_last() == a + b.drop_last());
        assert((a + b).last() == b.last());
        lemma_without_separators_concat(a, b.drop_last());
    }
}

/// A separator `_` anywhere in a literal changes nothing of how it reads.
pub proof fn lemma_separator_changes_nothing(a: Seq<char>, b: Seq<char>)
    ensures
        integer_reading(without_separators(a + seq!['_'] + b)) == integer_reading(without_separators(a + b)),
{
    lemma_without_separators_concat(a + seq!['_'], b);
    lemma_without_separators_concat(a, seq!['_']);
    lemma_without_separators_concat(a, b);
    let e: Seq<char> = Seq::empty();
    assert(seq!['_'].drop_last() == e);
    assert(without_separators(e) == e);
    assert(without_separators(a) + e == without_separators(a));
}

/// A BigInt literal has the value of the same literal without its `n`:
/// where the plain text reads as an integer, the text with `n` reads as a
/// BigInt of that value, and where the plain text is not a number (NaN) or
/// no integer, the text with `n` is not a number.
pub proof fn lemma_bigint_suffix(v: Seq<char>)
    requires
        !is_bigint_literal_spec(v),
    ensures
        integer_reading(v) matches IntegerReading::Integer(x) ==> integer_reading(v.push('n'))
            == IntegerReading::BigInt(x),
        integer_reading(v) matches IntegerReading::NaN ==> integer_reading(v.push('n')) == IntegerReading::NaN,
        integer_reading(v) matches IntegerReading::NotInteger ==> integer_reading(v.push('n'))
            == IntegerReading::NaN,
        !(integer_reading(v) is BigInt),
{
    assert(v.push('n').drop_last() == v);
    assert(is_bigint_literal_spec(v.push('n')));
}

/// The digits after a prefix `0` and `letter`, without a BigInt's `n`.
proof fn lemma_prefixed_digits(letter: char, d: Seq<char>)
    ensures
        (seq!['0', letter] + d).skip(2) == d,
        d.len() > 0 ==> (seq!['0', letter] + d).drop_last() == seq!['0', letter] + d.drop_last(),
        d.len() > 0 ==> (seq!['0', letter] + d.drop_last()).skip(2) == d.drop_last(),
        (seq!['0', letter] + d).len() >= 2,
        (seq!['0', letter] + d)[0] == '0',
        (seq!['0', letter] + d)[1] == letter,
        d.len() > 0 ==> (seq!['0', letter] + d).last() == d.last(),
{
    if d.len() > 0 {
        assert((seq!['0', letter] + d).drop_last() =~= seq!['0', letter] + d.drop_last());
    }
    assert((seq!['0', letter] + d).skip(2) =~= d);
    if d.len() > 0 {
        assert((seq!['0', letter] + d.drop_last()).skip(2) =~= d.drop_last());
    }
}

/// The letter of a hexadecimal prefix may be written in either case.
pub proof fn lemma_hex_prefix_case(d: Seq<char>)
    ensures
        integer_reading(seq!['0', 'x'] + d) == integer_reading(seq!['0', 'X'] + d),
{
    lemma_prefixed_digits('x', d);
    lemma_prefixed_digits('X', d);
}

/// The letter of an octal prefix may be written in either case.
pub proof fn lemma_octal_prefix_case(d: Seq<char>)
    ensures
        integer_reading(seq!['0', 'o'] + d) == integer_reading(seq!['0', 'O'] + d),
{
    lemma_prefixed_digits('o', d);
    lemma_prefixed_digits('O', d);
}

/// The letter of a binary prefix may be written in either case.
pub proof fn lemma_binary_prefix_case(d: Seq<char>)
    ensures
        integer_reading(seq!['0', 'b'] + d) == integer_reading(seq!['0', 'B'] + d),
{
    lemma_prefixed_digits('b', d);
    lemma_prefixed_digits('B', d);
}

/// Whether a numeric literal that reads as `r` is truthy; `None` where the
/// text has to be read as a non-integer number to tell.
pub open spec fn reading_truthy(r: IntegerReading) -> Option<bool> {
    match r {
        IntegerReading::NaN => Some(false),
        IntegerReading::Integer(v) => Some(v != 0),
        IntegerReading::BigInt(v) => Some(v != 0),
        IntegerReading::NotInteger => None,
    }
}

pub fn is_truthy_reading(r: IntegerReading) -> (b: Option<bool>)
    ensures
        b == reading_truthy(r),
{
    match r {
        IntegerReading::NaN => Some(false),
        IntegerReading::Integer(v) => Some(v != 0),
        IntegerReading::BigInt(v) => Some(v != 0),
        IntegerReading::NotInteger => None,
    }
}
} // verus!
