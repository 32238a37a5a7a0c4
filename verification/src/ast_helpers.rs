use vstd::prelude::*;

pub mod number;
pub mod cooking;
pub mod number_order;
pub mod node_laws;

use crate::pattern::{regex_compiles, regex_matches, Pattern};
use crate::text::{char_from_u32, chars_of, push_char, str_eq, string_of};

verus! {

#[derive(Copy, Clone, Debug, PartialEq, Eq, Structural)]
pub enum MethodDefinitionKind {
    Method,
    Constructor,
    Get,
    Setter,
}

#[derive(Copy, Clone, Debug, PartialEq, Eq, Structural)]
pub enum ObjectPropertyKind {
    Init,
    Get,
    Setter,
}

#[derive(Copy, Clone, Debug, PartialEq, Eq, Structural)]
pub enum CommentType {
    Block,
    Line,
}

/// The value of a hexadecimal digit.
pub open spec fn hex_digit(c: char) -> Option<nat> {
    if '0' <= c <= '9' {
        Some((c as nat - '0' as nat) as nat)
    } else if 'a' <= c <= 'f' {
        Some((c as nat - 'a' as nat + 10) as nat)
    } else if 'A' <= c <= 'F' {
        Some((c as nat - 'A' as nat + 10) as nat)
    } else {
        None
    }
}

/// The value of a run of hexadecimal digits (none at all reads as 0).
pub open spec fn hex_digits_value(cs: Seq<char>) -> Option<nat>
    decreases cs.len(),
{
    if cs.len() == 0 {
        Some(0)
    } else {
        match (hex_digits_value(cs.drop_last()), hex_digit(cs.last())) {
            (Some(v), Some(d)) => Some(v * 16 + d),
            _ => None,
        }
    }
}

/// How a 32-bit unsigned integer reads in base 16: an optional `+`, then at
/// least one hexadecimal digit, and a value below 2^32.
pub open spec fn hex_u32(cs: Seq<char>) -> Option<nat> {
    let digits = if cs.len() > 0 && cs[0] == '+' {
        cs.drop_first()
    } else {
        cs
    };
    if digits.len() == 0 {
        None
    } else {
        match hex_digits_value(digits) {
            Some(v) => if v < 0x1_0000_0000 {
                Some(v)
            } else {
                None
            },
            None => None,
        }
    }
}

/// `v` is a Unicode scalar value: it can be a `char`.
pub open spec fn is_scalar(v: nat) -> bool {
    v <= 0x10FFFF && !(0xD800 <= v <= 0xDFFF)
}

/// A line terminator of JavaScript.
pub open spec fn is_new_line_spec(c: char) -> bool {
    c == '\n' || c == '\r' || c == '\u{2028}' || c == '\u{2029}'
}

/// The position of the first `}` at or after `j`.
pub open spec fn close_brace(s: Seq<char>, j: int) -> Option<int>
    decreases s.len() - j,
{
    if j < 0 || j >= s.len() {
        None
    } else if s[j] == '}' {
        Some(j)
    } else {
        close_brace(s, j + 1)
    }
}

/// The character whose scalar value is `v`.
pub open spec fn char_with_value(v: nat) -> char {
    choose|c: char| #[trigger] scalar_value(c) == v
}

/// The scalar value of `c`.
pub open spec fn scalar_value(c: char) -> nat {
    c as nat
}

pub proof fn lemma_char_value(c: char, v: u32)
    requires
        c as u32 == v,
    ensures
        scalar_value(c) == v as nat,
{
}

pub proof fn lemma_char_injective(a: char, b: char)
    requires
        scalar_value(a) == scalar_value(b),
    ensures
        a == b,
{
}

/// The character that the hexadecimal digits `digits` name, if they do.
pub open spec fn hex_char(digits: Seq<char>) -> Option<char> {
    match hex_u32(digits) {
        Some(v) => if is_scalar(v) {
            Some(char_with_value(v))
        } else {
            None
        },
        None => None,
    }
}

/// What the escape whose first character (the one after the backslash) is at
/// position `i` of `s` stands for, and how many characters it takes; `None`
/// where the escape cannot be decoded.
pub open spec fn escape_at(s: Seq<char>, i: int) -> Option<(Seq<char>, int)> {
    if i < 0 || i >= s.len() {
        None
    } else {
        let c = s[i];
        if c == 'n' {
            Some((seq!['\n'], 1))
        } else if c == 'r' {
            Some((seq!['\r'], 1))
        } else if c == 'x' {
            if i + 3 <= s.len() {
                match hex_char(s.subrange(i + 1, i + 3)) {
                    Some(ch) => Some((seq![ch], 3)),
                    None => None,
                }
            } else {
                None
            }
        } else if c == 'u' {
            if i + 1 < s.len() && s[i + 1] == '{' {
                match close_brace(s, i + 2) {
                    Some(j) => match hex_char(s.subrange(i + 2, j)) {
                        Some(ch) => Some((seq![ch], j - i + 1)),
                        None => None,
                    },
                    None => None,
                }
            } else if i + 5 <= s.len() {
                match hex_char(s.subrange(i + 1, i + 5)) {
                    Some(ch) => Some((seq![ch], 5)),
                    None => None,
                }
            } else {
                None
            }
        } else if c == 't' {
            Some((seq!['\t'], 1))
        } else if c == 'b' {
            Some((seq!['\u{8}'], 1))
        } else if c == 'v' {
            Some((seq!['\u{b}'], 1))
        } else if c == 'f' {
            Some((seq!['\u{c}'], 1))
        } else if c == '\r' {
            if i + 1 < s.len() && s[i + 1] == '\n' {
                Some((Seq::empty(), 2))
            } else {
                Some((Seq::empty(), 1))
            }
        } else if '0' <= c <= '7' {
            None
        } else if is_new_line_spec(c) {
            Some((Seq::empty(), 1))
        } else {
            Some((seq![c], 1))
        }
    }
}

/// The cooked value of `s` from position `i` on: each escape replaced by what
/// it stands for; `None` where an escape cannot be decoded.
pub open spec fn cooked_from(s: Seq<char>, i: int) -> Option<Seq<char>>
    decreases s.len() - i,
{
    if i < 0 || i >= s.len() {
        Some(Seq::empty())
    } else if s[i] == '\\' {
        match escape_at(s, i + 1) {
            None => None,
            Some((out, k)) => if k >= 1 && i + 1 + k <= s.len() {
                match cooked_from(s, i + 1 + k) {
                    Some(rest) => Some(out + rest),
                    None => None,
                }
            } else {
                None
            },
        }
    } else {
        match cooked_from(s, i + 1) {
            Some(rest) => Some(seq![s[i]] + rest),
            None => None,
        }
    }
}

/// The cooked value of a string literal's or template's text.
pub open spec fn cooked(s: Seq<char>) -> Option<Seq<char>> {
    cooked_from(s, 0)
}

/// Whether `ch` ends a line in JavaScript.
pub fn is_new_line(ch: char) -> (b: bool)
    ensures
        b == is_new_line_spec(ch),
{
    ch == '\n' || ch == '\r' || ch == '\u{2028}' || ch == '\u{2029}'
}

fn hex_digit_exec(c: char) -> (r: Option<u32>)
    ensures
        r matches Some(v) ==> hex_digit(c) == Some(v as nat),
        r is None ==> hex_digit(c) is None,
{
    if '0' <= c && c <= '9' {
        Some(c as u32 - '0' as u32)
    } else if 'a' <= c && c <= 'f' {
        Some(c as u32 - 'a' as u32 + 10)
    } else if 'A' <= c && c <= 'F' {
        Some(c as u32 - 'A' as u32 + 10)
    } else {
        None
    }
}

/// Reads `chars[from..to]` as a hexadecimal 32-bit unsigned integer.
pub fn read_hex_char(chars: &Vec<char>, from: usize, to: usize) -> (r: Option<u32>)
    requires
        from <= to <= chars@.len(),
    ensures
        r matches Some(v) ==> hex_u32(chars@.subrange(from as int, to as int)) == Some(v as nat),
        r is None ==> hex_u32(chars@.subrange(from as int, to as int)) is None,
{
    let ghost cs = chars@.subrange(from as int, to as int);
    let mut i = from;
    if i < to && chars[i] == '+' {
        i = i + 1;
    }
    let ghost digits = chars@.subrange(i as int, to as int);
    assert(digits == (if cs.len() > 0 && cs[0] == '+' { cs.drop_first() } else { cs }));
    if i == to {
        return None;
    }
    let start = i;
    let mut v: u64 = 0;
    while i < to
        invariant
            start <= i <= to <= chars@.len(),
            from <= start < to,
            ({
                let cs = chars@.subrange(from as int, to as int);
                if cs.len() > 0 && cs[0] == '+' {
                    cs.drop_first()
                } else {
                    cs
                }
            }) == chars@.subrange(start as int, to as int),
            v < 0x1_0000_0000,
            hex_digits_value(chars@.subrange(start as int, i as int)) == Some(v as nat),
        decreases to - i,
    {
        assert(chars@.subrange(start as int, i + 1).drop_last() == chars@.subrange(start as int, i as int));
        assert(chars@.subrange(start as int, i + 1).last() == chars@[i as int]);
        match hex_digit_exec(chars[i]) {
            Some(d) => {
                let nv = v * 16 + d as u64;
                assert(hex_digits_value(chars@.subrange(start as int, i + 1)) == Some(nv as nat));
                if nv >= 0x1_0000_0000 {
                    proof {
                        assert(chars@.subrange(start as int, to as int).take((i + 1 - start) as int) == chars@.subrange(start as int, i + 1));
                        lemma_hex_digits_monotone(chars@.subrange(start as int, to as int), (i + 1 - start) as nat);
                    }
                    return None;
                }
                v = nv;
            },
            None => {
                proof {
                    lemma_hex_digits_invalid(chars@.subrange(start as int, to as int), (i - start) as nat);
                    assert(chars@.subrange(start as int, to as int)[(i - start) as int] == chars@[i as int]);
                }
                return None;
            },
        }
        i = i + 1;
    }
    Some(v as u32)
}

/// A run of digits whose first `k` digits already read as at least 2^32 reads
/// as at least 2^32 (or not at all).
pub proof fn lemma_hex_digits_monotone(cs: Seq<char>, k: nat)
    requires
        k <= cs.len(),
        hex_digits_value(cs.take(k as int)) matches Some(v) && v >= 0x1_0000_0000,
    ensures
        hex_digits_value(cs) matches Some(w) ==> w >= 0x1_0000_0000,
    decreases cs.len() - k,
{
    if k < cs.len() {
        let t = cs.take(k as int + 1);
        assert(t.drop_last() == cs.take(k as int));
        if hex_digits_value(t) is None {
            lemma_hex_digits_none_extends(cs, k + 1);
        } else {
            lemma_hex_digits_monotone(cs, k + 1);
        }
    } else {
        assert(cs.take(k as int) == cs);
    }
}

/// Once a prefix fails to read, so does the whole run.
pub proof fn lemma_hex_digits_none_extends(cs: Seq<char>, k: nat)
    requires
        k <= cs.len(),
        hex_digits_value(cs.take(k as int)) is None,
    ensures
        hex_digits_value(cs) is None,
    decreases cs.len() - k,
{
    if k < cs.len() {
        let t = cs.take(k as int + 1);
        assert(t.drop_last() == cs.take(k as int));
        lemma_hex_digits_none_extends(cs, k + 1);
    } else {
        assert(cs.take(k as int) == cs);
    }
}

/// A run with a character that is no hexadecimal digit does not read.
pub proof fn lemma_hex_digits_invalid(cs: Seq<char>, k: nat)
    requires
        k < cs.len(),
        hex_digit(cs[k as int]) is None,
    ensures
        hex_digits_value(cs) is None,
{
    let t = cs.take(k as int + 1);
    assert(t.last() == cs[k as int]);
    lemma_hex_digits_none_extends(cs, k + 1);
}


pub proof fn lemma_close_brace(s: Seq<char>, j: int)
    requires
        close_brace(s, j) is Some,
    ensures
        ({
            let k = close_brace(s, j)->0;
            &&& j <= k < s.len()
            &&& s[k] == '}'
            &&& forall|m: int| j <= m < k ==> s[m] != '}'
        }),
    decreases s.len() - j,
{
    if 0 <= j < s.len() && s[j] != '}' {
        lemma_close_brace(s, j + 1);
    }
}

/// The character named by the hexadecimal digits `chars[from..to]`.
fn read_hex_scalar(chars: &Vec<char>, from: usize, to: usize) -> (r: char)
    requires
        from <= to <= chars@.len(),
        hex_char(chars@.subrange(from as int, to as int)) is Some,
    ensures
        hex_char(chars@.subrange(from as int, to as int)) == Some(r),
{
    match read_hex_char(chars, from, to) {
        Some(v) => match char_from_u32(v) {
            Some(c) => {
                proof {
                    lemma_char_value(c, v);
                    let e = char_with_value(v as nat);
                    assert(scalar_value(e) == v as nat);
                    lemma_char_injective(e, c);
                }
                c
            },
            None => {
                assert(false);
                ' '
            },
        },
        None => {
            assert(false);
            ' '
        },
    }
}

/// Decodes the escape whose first character (the one after the backslash)
/// is at `pos`: what it stands for, and how many characters it takes.
pub fn read_escaped_char(chars: &Vec<char>, pos: usize) -> (r: (Vec<char>, usize))
    requires
        escape_at(chars@, pos as int) is Some,
    ensures
        escape_at(chars@, pos as int) == Some((r.0@, r.1 as int)),
{
    let ch = chars[pos];
    assert(chars@[pos as int] == ch);
    let mut out: Vec<char> = Vec::new();
    if ch == 'n' {
        out.push('\n');
        (out, 1)
    } else if ch == 'r' {
        out.push('\r');
        (out, 1)
    } else if ch == 'x' {
        assert(pos + 3 <= chars@.len());
        assert(chars@.len() == chars.len());
        let c = read_hex_scalar(chars, pos + 1, pos + 3);
        out.push(c);
        (out, 3)
    } else if ch == 'u' {
        if pos < chars.len() - 1 && chars[pos + 1] == '{' {
            let ghost k = close_brace(chars@, pos + 2)->0;
            proof {
                lemma_close_brace(chars@, pos + 2);
            }
            let mut j = pos + 2;
            while chars[j] != '}'
                invariant
                    pos + 2 <= j <= k < chars@.len(),
                    chars@.len() <= usize::MAX,
                    chars@[k] == '}',
                    forall|m: int| pos + 2 <= m < k ==> chars@[m] != '}',
                decreases k - j,
            {
                j = j + 1;
            }
            let c = read_hex_scalar(chars, pos + 2, j);
            out.push(c);
            (out, j - pos + 1)
        } else {
            let c = read_hex_scalar(chars, pos + 1, pos + 5);
            out.push(c);
            (out, 5)
        }
    } else if ch == 't' {
        out.push('\t');
        (out, 1)
    } else if ch == 'b' {
        out.push('\u{8}');
        (out, 1)
    } else if ch == 'v' {
        out.push('\u{b}');
        (out, 1)
    } else if ch == 'f' {
        out.push('\u{c}');
        (out, 1)
    } else if ch == '\r' {
        if pos < chars.len() - 1 && chars[pos + 1] == '\n' {
            (out, 2)
        } else {
            (out, 1)
        }
    } else if is_new_line(ch) {
        (out, 1)
    } else {
        out.push(ch);
        (out, 1)
    }
}

/// The cooked value of the text of a string literal or template: each escape
/// replaced by what it stands for.
pub fn get_cooked_value(input: &str) -> (r: String)
    requires
        cooked(input@) is Some,
    ensures
        r@ == cooked(input@)->0,
{
    let chars = chars_of(input);
    let ghost s = chars@;
    let mut out = String::new();
    let mut i: usize = 0;
    while i < chars.len()
        invariant
            s == chars@,
            i <= chars.len(),
            cooked_from(s, i as int) is Some,
            out@ + cooked_from(s, i as int)->0 == cooked(s)->0,
        decreases chars.len() - i,
    {
        if chars[i] == '\\' {
            let (escaped, k) = read_escaped_char(&chars, i + 1);
            let mut j: usize = 0;
            let ghost out0 = out@;
            while j < escaped.len()
                invariant
                    j <= escaped.len(),
                    out@ == out0 + escaped@.take(j as int),
                decreases escaped.len() - j,
            {
                push_char(&mut out, escaped[j]);
                assert(escaped@.take(j + 1) == escaped@.take(j as int).push(escaped@[j as int]));
                j = j + 1;
            }
            assert(escaped@.take(escaped.len() as int) == escaped@);
            assert(out@ + cooked_from(s, (i + 1 + k) as int)->0 == out0 + (escaped@ + cooked_from(s, (i + 1 + k) as int)->0));
            i = i + 1 + k;
        } else {
            let ghost out0 = out@;
            push_char(&mut out, chars[i]);
            assert(out@ + cooked_from(s, i + 1)->0 == out0 + (seq![s[i as int]] + cooked_from(s, i + 1)->0));
            i = i + 1;
        }
    }
    assert(cooked_from(s, i as int)->0 == Seq::<char>::empty());
    assert(out@ + Seq::<char>::empty() == out@);
    out
}

pub proof fn lemma_cooked_from_plain(s: Seq<char>, i: int)
    requires
        0 <= i <= s.len(),
        !s.contains('\\'),
    ensures
        cooked_from(s, i) == Some(s.skip(i)),
    decreases s.len() - i,
{
    if i < s.len() {
        assert(s[i] != '\\') by {
            if s[i] == '\\' {
                assert(s.contains('\\'));
            }
        }
        lemma_cooked_from_plain(s, i + 1);
        assert(seq![s[i]] + s.skip(i + 1) =~= s.skip(i));
    } else {
        assert(s.skip(i) =~= Seq::<char>::empty());
    }
}

/// Text without a backslash is its own cooked value.
pub proof fn lemma_cooked_without_escapes(s: Seq<char>)
    requires
        !s.contains('\\'),
    ensures
        cooked(s) == Some(s),
{
    lemma_cooked_from_plain(s, 0);
    assert(s.skip(0) =~= s);
}

pub proof fn lemma_escape_at_shrinks(s: Seq<char>, i: int)
    requires
        escape_at(s, i) is Some,
    ensures
        ({
            let (out, k) = escape_at(s, i)->0;
            out.len() <= 1 && k >= 1
        }),
{
    if 0 <= i && i + 1 < s.len() && s[i] == 'u' && s[i + 1] == '{' && close_brace(s, i + 2) is Some {
        lemma_close_brace(s, i + 2);
    }
}

pub proof fn lemma_cooked_from_len(s: Seq<char>, i: int)
    requires
        0 <= i,
        cooked_from(s, i) is Some,
    ensures
        cooked_from(s, i)->0.len() + i <= s.len() || i >= s.len(),
    decreases s.len() - i,
{
    if i < s.len() {
        if s[i] == '\\' {
            lemma_escape_at_shrinks(s, i + 1);
            let (out, k) = escape_at(s, i + 1)->0;
            lemma_cooked_from_len(s, i + 1 + k);
        } else {
            lemma_cooked_from_len(s, i + 1);
        }
    }
}

/// Cooking never lengthens the text: every escape stands for at most one
/// character.
pub proof fn lemma_cooked_not_longer(s: Seq<char>)
    requires
        cooked(s) is Some,
    ensures
        cooked(s)->0.len() <= s.len(),
{
    lemma_cooked_from_len(s, 0);
}

/// A comment text that opens with `//` is a line comment; any other a block
/// comment.
pub open spec fn comment_type_spec(text: Seq<char>) -> CommentType {
    if text.len() >= 2 && text[0] == '/' && text[1] == '/' {
        CommentType::Line
    } else {
        CommentType::Block
    }
}

/// The type of a comment, by its text.
pub fn get_comment_type(text: &str) -> (t: CommentType)
    ensures
        t == comment_type_spec(text@),
{
    let cs = chars_of(text);
    if cs.len() >= 2 && cs[0] == '/' && cs[1] == '/' {
        CommentType::Line
    } else {
        CommentType::Block
    }
}

/// The text of a well-formed comment: a line comment opens with `//`, a
/// block comment opens with `/*` and closes with `*/`.
pub open spec fn is_comment_text(text: Seq<char>) -> bool {
    ||| (text.len() >= 2 && text[0] == '/' && text[1] == '/')
    ||| (text.len() >= 4 && text[0] == '/' && text[1] == '*' && text[text.len() - 2] == '*'
        && text[text.len() - 1] == '/')
}

/// What a comment says: its text without `//`, or without `/*` and `*/`.
pub open spec fn comment_contents_spec(text: Seq<char>) -> Seq<char> {
    if comment_type_spec(text) == CommentType::Line {
        text.skip(2)
    } else {
        text.subrange(2, text.len() - 2)
    }
}

pub fn get_comment_contents(text: &str) -> (r: String)
    requires
        is_comment_text(text@),
    ensures
        r@ == comment_contents_spec(text@),
{
    let cs = chars_of(text);
    let n = cs.len();
    if n >= 2 && cs[0] == '/' && cs[1] == '/' {
        let r = string_of(&cs, 2, n);
        assert(r@ =~= text@.skip(2));
        r
    } else {
        string_of(&cs, 2, n - 2)
    }
}

/// A kind of token that is punctuation: its name does not open with a
/// letter (as a regular expression says).
pub open spec fn is_punctuation_kind_spec(kind: Seq<char>) -> bool {
    !(regex_compiles("^[a-zA-Z]"@) && regex_matches("^[a-zA-Z]"@, kind))
}

pub fn is_punctuation_kind(kind: &str) -> (b: bool)
    ensures
        b == is_punctuation_kind_spec(kind@),
{
    match Pattern::new("^[a-zA-Z]") {
        Some(p) => !p.is_match(kind),
        None => true,
    }
}

/// A child token of a comma-separated list (comments left out): a comma,
/// or another token, named or not.
#[derive(Copy, Clone, Debug, PartialEq, Eq, Structural)]
pub enum ListToken {
    Comma,
    Other { node: usize, is_named: bool },
}

/// The items of a comma-separated list, holes included: each named token is
/// an item; a comma that does not follow an item stands for a hole. The
/// result goes with whether the last token seen was an item.
pub open spec fn comma_separated_spec(tokens: Seq<ListToken>) -> (Seq<Option<usize>>, bool)
    decreases tokens.len(),
{
    if tokens.len() == 0 {
        (Seq::empty(), false)
    } else {
        let (items, just_saw_item) = comma_separated_spec(tokens.drop_last());
        match tokens.last() {
            ListToken::Comma => if just_saw_item {
                (items, false)
            } else {
                (items.push(None), false)
            },
            ListToken::Other { node, is_named } => if is_named {
                (items.push(Some(node)), true)
            } else {
                (items, just_saw_item)
            },
        }
    }
}

/// The items of a comma-separated list of child tokens (see
/// `comma_separated_spec`).
pub fn get_comma_separated_optional_non_comment_named_children(tokens: &Vec<ListToken>) -> (r: Vec<
    Option<usize>,
>)
    ensures
        r@ == comma_separated_spec(tokens@).0,
{
    let mut items: Vec<Option<usize>> = Vec::new();
    let mut just_saw_item = false;
    let mut i: usize = 0;
    while i < tokens.len()
        invariant
            i <= tokens@.len(),
            (items@, just_saw_item) == comma_separated_spec(tokens@.take(i as int)),
        decreases tokens.len() - i,
    {
        assert(tokens@.take(i + 1).drop_last() == tokens@.take(i as int));
        assert(tokens@.take(i + 1).last() == tokens@[i as int]);
        match tokens[i] {
            ListToken::Comma => {
                if just_saw_item {
                    just_saw_item = false;
                } else {
                    items.push(None);
                }
            },
            ListToken::Other { node, is_named } => {
                if is_named {
                    just_saw_item = true;
                    items.push(Some(node));
                }
            },
        }
        i = i + 1;
    }
    assert(tokens@.take(tokens@.len() as int) == tokens@);
    items
}

/// A child of a template string: whether it is an escape sequence, its
/// text, and the literal text between the previous child and it (none for
/// the first child).
pub struct TemplatePart {
    pub is_escape: bool,
    pub text: String,
    pub quasi_before: Option<String>,
}

/// The texts that cooking a template part looks at decode.
pub open spec fn part_cooks(p: TemplatePart) -> bool {
    &&& (p.is_escape ==> cooked(p.text@) is Some)
    &&& (p.quasi_before matches Some(q) ==> cooked(q@) is Some)
}

/// A part yields a cooked literal character: an escape that stands for some
/// character, or literal text before it that does.
pub open spec fn part_has_cooked(p: TemplatePart) -> bool {
    (p.is_escape && cooked(p.text@)->0.len() > 0) || (p.quasi_before matches Some(q) && q@.len() > 0
        && cooked(q@)->0.len() > 0)
}

/// Whether a template string yields any literal character once cooked.
pub fn template_string_has_any_cooked_literal_characters(parts: &Vec<TemplatePart>) -> (b: bool)
    requires
        forall|i: int| 0 <= i < parts@.len() ==> part_cooks(#[trigger] parts@[i]),
    ensures
        b == exists|i: int| 0 <= i < parts@.len() && part_has_cooked(#[trigger] parts@[i]),
{
    let mut i: usize = 0;
    while i < parts.len()
        invariant
            i <= parts@.len(),
            forall|i: int| 0 <= i < parts@.len() ==> part_cooks(#[trigger] parts@[i]),
            forall|j: int| 0 <= j < i ==> !part_has_cooked(#[trigger] parts@[j]),
        decreases parts.len() - i,
    {
        let part = &parts[i];
        assert(part_cooks(parts@[i as int]));
        if part.is_escape && get_cooked_value(part.text.as_str()).unicode_len() > 0 {
            assert(part_has_cooked(parts@[i as int]));
            return true;
        }
        match &part.quasi_before {
            Some(q) => {
                if q.unicode_len() > 0 && get_cooked_value(q.as_str()).unicode_len() > 0 {
                    assert(part_has_cooked(parts@[i as int]));
                    return true;
                }
            },
            None => {},
        }
        i = i + 1;
    }
    false
}

/// The name of a method definition.
pub enum MethodName {
    /// A plain identifier, by its text.
    Property(String),
    /// A string literal, by its text (quotes included).
    String(String),
    Other,
}

/// A string literal's text, quotes left off, is `value`.
pub open spec fn string_text_equals(text: Seq<char>, value: Seq<char>) -> bool {
    text.len() >= 2 && text.subrange(1, text.len() - 1) == value
}

/// The kind of a method definition: a constructor is a class method (not
/// static) named `constructor`, plainly or as a string; otherwise the
/// keyword before the name (`get`, `static get` or `set`) decides.
pub open spec fn method_definition_kind_spec(
    name: MethodName,
    is_object_method: bool,
    is_static: bool,
    before_name: Option<Seq<char>>,
) -> MethodDefinitionKind {
    let is_constructor_name = match name {
        MethodName::Property(t) => t@ == "constructor"@,
        MethodName::String(t) => string_text_equals(t@, "constructor"@),
        MethodName::Other => false,
    };
    if is_constructor_name && !is_object_method && !is_static {
        MethodDefinitionKind::Constructor
    } else if before_name == Some("get"@) || before_name == Some("static get"@) {
        MethodDefinitionKind::Get
    } else if before_name == Some("set"@) {
        MethodDefinitionKind::Setter
    } else {
        MethodDefinitionKind::Method
    }
}

/// The kind of a method definition named `name`; `is_object_method` says
/// whether it is in an object literal, `is_static` whether it is a static
/// class member, and `before_name` gives the text of the token before its
/// name (comments aside), if any.
pub fn get_method_definition_kind(
    name: &MethodName,
    is_object_method: bool,
    is_static: bool,
    before_name: Option<&str>,
) -> (k: MethodDefinitionKind)
    requires
        name matches MethodName::String(t) ==> t@.len() >= 2,
    ensures
        k == method_definition_kind_spec(
            *name,
            is_object_method,
            is_static,
            match before_name {
                Some(b) => Some(b@),
                None => None,
            },
        ),
{
    let is_constructor_name = match name {
        MethodName::Property(t) => str_eq(t.as_str(), "constructor"),
        MethodName::String(t) => {
            let cs = chars_of(t.as_str());
            let inner = string_of(&cs, 1, cs.len() - 1);
            str_eq(inner.as_str(), "constructor")
        },
        MethodName::Other => false,
    };
    if is_constructor_name && !is_object_method && !is_static {
        return MethodDefinitionKind::Constructor;
    }
    match before_name {
        Some(b) => if str_eq(b, "get") || str_eq(b, "static get") {
            MethodDefinitionKind::Get
        } else if str_eq(b, "set") {
            MethodDefinitionKind::Setter
        } else {
            MethodDefinitionKind::Method
        },
        None => MethodDefinitionKind::Method,
    }
}

/// A property of an object literal: a pair, a shorthand property, or a
/// method definition given by the texts of its children before its name.
pub enum PropertyNode {
    Pair,
    Shorthand,
    MethodDefinition(Vec<String>),
}

/// The first of `texts` that is `get` or `set` decides; none makes a plain
/// property.
pub open spec fn property_kind_of_texts(texts: Seq<Seq<char>>) -> ObjectPropertyKind
    decreases texts.len(),
{
    if texts.len() == 0 {
        ObjectPropertyKind::Init
    } else if texts[0] == "get"@ {
        ObjectPropertyKind::Get
    } else if texts[0] == "set"@ {
        ObjectPropertyKind::Setter
    } else {
        property_kind_of_texts(texts.drop_first())
    }
}

pub open spec fn object_property_kind_spec(node: PropertyNode) -> ObjectPropertyKind {
    match node {
        PropertyNode::Pair | PropertyNode::Shorthand => ObjectPropertyKind::Init,
        PropertyNode::MethodDefinition(texts) => property_kind_of_texts(texts@.map_values(|t: String| t@)),
    }
}

/// The kind of a property of an object literal.
pub fn get_object_property_kind(node: &PropertyNode) -> (k: ObjectPropertyKind)
    ensures
        k == object_property_kind_spec(*node),
{
    match node {
        PropertyNode::Pair | PropertyNode::Shorthand => ObjectPropertyKind::Init,
        PropertyNode::MethodDefinition(texts) => {
            let ghost all = texts@.map_values(|t: String| t@);
            assert(all.skip(0) =~= all);
            let mut i: usize = 0;
            while i < texts.len()
                invariant
                    i <= texts@.len(),
                    all == texts@.map_values(|t: String| t@),
                    object_property_kind_spec(*node) == property_kind_of_texts(all),
                    property_kind_of_texts(all) == property_kind_of_texts(all.skip(i as int)),
                decreases texts.len() - i,
            {
                let ghost rest = all.skip(i as int);
                assert(rest[0] == texts@[i as int]@);
                assert(rest.drop_first() =~= all.skip(i + 1));
                if str_eq(texts[i].as_str(), "get") {
                    return ObjectPropertyKind::Get;
                }
                if str_eq(texts[i].as_str(), "set") {
                    return ObjectPropertyKind::Setter;
                }
                i = i + 1;
            }
            assert(all.skip(i as int).len() == 0);
            ObjectPropertyKind::Init
        },
    }
}

/// A child of a class member: whether it is a decorator, and its text.
pub struct MemberChild {
    pub is_decorator: bool,
    pub text: String,
}

/// A class member is static when its first child after its decorators is
/// `static` (or `static get`).
pub open spec fn is_class_member_static_spec(children: Seq<MemberChild>) -> bool
    decreases children.len(),
{
    if children.len() == 0 {
        false
    } else if children[0].is_decorator {
        is_class_member_static_spec(children.drop_first())
    } else {
        children[0].text@ == "static"@ || children[0].text@ == "static get"@
    }
}

pub fn is_class_member_static(children: &Vec<MemberChild>) -> (b: bool)
    ensures
        b == is_class_member_static_spec(children@),
{
    assert(children@.skip(0) =~= children@);
    let mut i: usize = 0;
    while i < children.len()
        invariant
            i <= children@.len(),
            is_class_member_static_spec(children@) == is_class_member_static_spec(children@.skip(i as int)),
        decreases children.len() - i,
    {
        let ghost rest = children@.skip(i as int);
        assert(rest[0] == children@[i as int]);
        assert(rest.drop_first() =~= children@.skip(i + 1));
        if !children[i].is_decorator {
            return str_eq(children[i].text.as_str(), "static") || str_eq(children[i].text.as_str(), "static get");
        }
        i = i + 1;
    }
    false
}

} // verus!
