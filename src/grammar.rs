//! The grammar as spec functions. Each rule reads the characters `s` from
//! position `i` and either fails (`None`) or gives its value and the position
//! just after what it consumed. Alternatives are tried in order and the first
//! one that succeeds wins, as in a backtracking parser.
//!
//! The conditions on positions in the recursive rules (`advances`, `i <= d`)
//! hold on every parse (see `lemma_value_advances`); they are written out so
//! that the recursion visibly terminates.
use vstd::prelude::*;
use crate::value::{digits_value, signed, JValue, NumView};

verus! {

/// Whitespace skipped around delimiters.
pub open spec fn is_ws(c: char) -> bool {
    c == ' ' || c == '\t' || c == '\n' || c == '\r'
}

pub open spec fn is_digit(c: char) -> bool {
    '0' <= c && c <= '9'
}

/// Whether `s` holds the character `c` at position `i`.
pub open spec fn char_at(s: Seq<char>, i: int, c: char) -> bool {
    0 <= i < s.len() && s[i] == c
}

/// Whether the word `w` stands in `s` from position `i`.
pub open spec fn word_at(s: Seq<char>, i: int, w: Seq<char>) -> bool {
    0 <= i && i + w.len() <= s.len() && s.subrange(i, i + w.len()) == w
}

/// The end of the (possibly empty) run of whitespace from `i`.
pub open spec fn ws_end(s: Seq<char>, i: int) -> int
    decreases s.len() - i,
{
    if 0 <= i < s.len() && is_ws(s[i]) {
        ws_end(s, i + 1)
    } else {
        i
    }
}

/// The end of the (possibly empty) run of digits from `i`.
pub open spec fn digits_end(s: Seq<char>, i: int) -> int
    decreases s.len() - i,
{
    if 0 <= i < s.len() && is_digit(s[i]) {
        digits_end(s, i + 1)
    } else {
        i
    }
}

/// The position of the first `"` at or after `i`, or the length of `s` if there is none.
pub open spec fn quote_from(s: Seq<char>, i: int) -> int
    decreases s.len() - i,
{
    if 0 <= i < s.len() && s[i] != '"' {
        quote_from(s, i + 1)
    } else {
        i
    }
}

pub open spec fn null_word() -> Seq<char> {
    seq!['n', 'u', 'l', 'l']
}

pub open spec fn true_word() -> Seq<char> {
    seq!['t', 'r', 'u', 'e']
}

pub open spec fn false_word() -> Seq<char> {
    seq!['f', 'a', 'l', 's', 'e']
}

/// `null`
pub open spec fn spec_null(s: Seq<char>, i: int) -> Option<((), int)> {
    if word_at(s, i, null_word()) {
        Some(((), i + 4))
    } else {
        None
    }
}

/// `true | false`
pub open spec fn spec_boolean(s: Seq<char>, i: int) -> Option<(bool, int)> {
    if word_at(s, i, true_word()) {
        Some((true, i + 4))
    } else if word_at(s, i, false_word()) {
        Some((false, i + 5))
    } else {
        None
    }
}

/// `'"' body '"'`, where the body is everything up to the next `"`, taken verbatim.
pub open spec fn spec_string(s: Seq<char>, i: int) -> Option<(Seq<char>, int)> {
    if char_at(s, i, '"') && quote_from(s, i + 1) < s.len() {
        Some((s.subrange(i + 1, quote_from(s, i + 1)), quote_from(s, i + 1) + 1))
    } else {
        None
    }
}

/// The value of a literal with the given sign, integer digits and fraction digits.
pub open spec fn decimal(negative: bool, int_digits: Seq<char>, frac_digits: Seq<char>) -> NumView {
    NumView {
        mantissa: signed(negative, digits_value(int_digits + frac_digits)),
        exponent: -(frac_digits.len() as int),
    }
}

/// `['-'] digits ['.' digits]`
pub open spec fn spec_number(s: Seq<char>, i: int) -> Option<(NumView, int)> {
    let negative = char_at(s, i, '-');
    let a = if negative { i + 1 } else { i };
    let b = digits_end(s, a);
    if !(0 <= i <= s.len()) || b == a {
        None
    } else if char_at(s, b, '.') {
        let c = digits_end(s, b + 1);
        if c == b + 1 {
            None
        } else {
            Some((decimal(negative, s.subrange(a, b), s.subrange(b + 1, c)), c))
        }
    } else {
        Some((decimal(negative, s.subrange(a, b), Seq::empty()), b))
    }
}

/// `['+' | '-'] digits`
pub open spec fn spec_integer(s: Seq<char>, i: int) -> Option<(int, int)> {
    let negative = char_at(s, i, '-');
    let a = if negative || char_at(s, i, '+') { i + 1 } else { i };
    let b = digits_end(s, a);
    if !(0 <= i <= s.len()) || b == a {
        None
    } else {
        Some((signed(negative, digits_value(s.subrange(a, b))), b))
    }
}

/// `number 'e' integer`, worth `number * 10^integer`.
pub open spec fn spec_scientific(s: Seq<char>, i: int) -> Option<(NumView, int)> {
    match spec_number(s, i) {
        Some((n, j)) => if char_at(s, j, 'e') {
            match spec_integer(s, j + 1) {
                Some((e, k)) => Some((NumView { mantissa: n.mantissa, exponent: n.exponent + e }, k)),
                None => None,
            }
        } else {
            None
        },
        None => None,
    }
}

/// Whether a rule that started at `i` and ended at `j` consumed something.
pub open spec fn advances(s: Seq<char>, i: int, j: int) -> bool {
    i < j <= s.len()
}

/// `null | string | scientific | number | boolean | array | object`, the first that matches.
pub open spec fn spec_value(s: Seq<char>, i: int) -> Option<(JValue, int)>
    decreases s.len() - i, 1int,
{
    if !(0 <= i <= s.len()) {
        None
    } else if let Some((_, j)) = spec_null(s, i) {
        Some((JValue::Null, j))
    } else if let Some((t, j)) = spec_string(s, i) {
        Some((JValue::Str(t), j))
    } else if let Some((n, j)) = spec_scientific(s, i) {
        Some((JValue::Num(n), j))
    } else if let Some((n, j)) = spec_number(s, i) {
        Some((JValue::Num(n), j))
    } else if let Some((b, j)) = spec_boolean(s, i) {
        Some((JValue::Bool(b), j))
    } else if let Some((a, j)) = spec_array(s, i) {
        Some((JValue::Arr(a), j))
    } else if let Some((o, j)) = spec_object(s, i) {
        Some((JValue::Obj(o), j))
    } else {
        None
    }
}

/// `(ws ',' ws value)*` from `i`: the values, and where the last one ended.
pub open spec fn spec_more_elements(s: Seq<char>, i: int) -> (Seq<JValue>, int)
    decreases s.len() - i, 3int,
{
    let c = ws_end(s, i);
    if 0 <= i <= s.len() && char_at(s, c, ',') {
        let d = ws_end(s, c + 1);
        match if i <= d <= s.len() { spec_value(s, d) } else { None } {
            Some((v, e)) => if advances(s, i, e) {
                let (rest, f) = spec_more_elements(s, e);
                (seq![v] + rest, f)
            } else {
                (Seq::empty(), i)
            },
            None => (Seq::empty(), i),
        }
    } else {
        (Seq::empty(), i)
    }
}

/// `(value (ws ',' ws value)*)?` from `i`.
pub open spec fn spec_elements(s: Seq<char>, i: int) -> (Seq<JValue>, int)
    decreases s.len() - i, 2int,
{
    match spec_value(s, i) {
        Some((v, e)) => if advances(s, i, e) {
            let (rest, f) = spec_more_elements(s, e);
            (seq![v] + rest, f)
        } else {
            (Seq::empty(), i)
        },
        None => (Seq::empty(), i),
    }
}

/// `ws '[' ws elements ws ']' ws`
pub open spec fn spec_array(s: Seq<char>, i: int) -> Option<(Seq<JValue>, int)>
    decreases s.len() - i, 0int,
{
    let a = ws_end(s, i);
    if 0 <= i <= s.len() && char_at(s, a, '[') {
        let b = ws_end(s, a + 1);
        let (vs, c) = if i < b <= s.len() { spec_elements(s, b) } else { (Seq::empty(), b) };
        let d = ws_end(s, c);
        if b <= c && char_at(s, d, ']') {
            Some((vs, ws_end(s, d + 1)))
        } else {
            None
        }
    } else {
        None
    }
}

/// `string ws ':' ws value`
pub open spec fn spec_member(s: Seq<char>, i: int) -> Option<((Seq<char>, JValue), int)>
    decreases s.len() - i, 2int,
{
    match spec_string(s, i) {
        Some((k, j)) => {
            let c = ws_end(s, j);
            let d = ws_end(s, c + 1);
            if char_at(s, c, ':') && i <= d <= s.len() {
                match spec_value(s, d) {
                    Some((v, e)) => Some(((k, v), e)),
                    None => None,
                }
            } else {
                None
            }
        },
        None => None,
    }
}

/// `(ws ',' ws member)*` from `i`.
pub open spec fn spec_more_members(s: Seq<char>, i: int) -> (Seq<(Seq<char>, JValue)>, int)
    decreases s.len() - i, 4int,
{
    let c = ws_end(s, i);
    if 0 <= i <= s.len() && char_at(s, c, ',') {
        let d = ws_end(s, c + 1);
        match if i <= d <= s.len() { spec_member(s, d) } else { None } {
            Some((m, e)) => if advances(s, i, e) {
                let (rest, f) = spec_more_members(s, e);
                (seq![m] + rest, f)
            } else {
                (Seq::empty(), i)
            },
            None => (Seq::empty(), i),
        }
    } else {
        (Seq::empty(), i)
    }
}

/// `(member (ws ',' ws member)*)?` from `i`, in source order.
pub open spec fn spec_members(s: Seq<char>, i: int) -> (Seq<(Seq<char>, JValue)>, int)
    decreases s.len() - i, 3int,
{
    match spec_member(s, i) {
        Some((m, e)) => if advances(s, i, e) {
            let (rest, f) = spec_more_members(s, e);
            (seq![m] + rest, f)
        } else {
            (Seq::empty(), i)
        },
        None => (Seq::empty(), i),
    }
}

/// `ws '{' ws members ws '}' ws`; the members are merged so that each key keeps
/// its last value.
pub open spec fn spec_object(s: Seq<char>, i: int) -> Option<(Seq<(Seq<char>, JValue)>, int)>
    decreases s.len() - i, 0int,
{
    let a = ws_end(s, i);
    if 0 <= i <= s.len() && char_at(s, a, '{') {
        let b = ws_end(s, a + 1);
        let (ms, c) = if i < b <= s.len() { spec_members(s, b) } else { (Seq::empty(), b) };
        let d = ws_end(s, c);
        if b <= c && char_at(s, d, '}') {
            Some((merge_members(ms), ws_end(s, d + 1)))
        } else {
            None
        }
    } else {
        None
    }
}

/// The index of the member with key `k`, or -1.
pub open spec fn key_index(ms: Seq<(Seq<char>, JValue)>, k: Seq<char>) -> int
    decreases ms.len(),
{
    if ms.len() == 0 {
        -1
    } else if ms.last().0 == k {
        ms.len() - 1
    } else {
        key_index(ms.drop_last(), k)
    }
}

/// Sets key `k` to `v`: replaces the member with that key, or appends one.
pub open spec fn insert_member(ms: Seq<(Seq<char>, JValue)>, k: Seq<char>, v: JValue) -> Seq<(Seq<char>, JValue)> {
    let j = key_index(ms, k);
    if j >= 0 {
        ms.update(j, (k, v))
    } else {
        ms.push((k, v))
    }
}

/// Inserts the members in order, so that a later value of a key replaces an earlier one.
pub open spec fn merge_members(ms: Seq<(Seq<char>, JValue)>) -> Seq<(Seq<char>, JValue)>
    decreases ms.len(),
{
    if ms.len() == 0 {
        Seq::empty()
    } else {
        insert_member(merge_members(ms.drop_last()), ms.last().0, ms.last().1)
    }
}

pub proof fn lemma_ws_end(s: Seq<char>, i: int)
    requires
        0 <= i <= s.len(),
    ensures
        i <= ws_end(s, i) <= s.len(),
    decreases s.len() - i,
{
    if i < s.len() && is_ws(s[i]) {
        lemma_ws_end(s, i + 1);
    }
}

pub proof fn lemma_digits_end(s: Seq<char>, i: int)
    requires
        0 <= i <= s.len(),
    ensures
        i <= digits_end(s, i) <= s.len(),
    decreases s.len() - i,
{
    if i < s.len() && is_digit(s[i]) {
        lemma_digits_end(s, i + 1);
    }
}

pub proof fn lemma_quote_from(s: Seq<char>, i: int)
    requires
        0 <= i <= s.len(),
    ensures
        i <= quote_from(s, i) <= s.len(),
        quote_from(s, i) < s.len() ==> s[quote_from(s, i)] == '"',
        forall|j: int| i <= j < quote_from(s, i) ==> s[j] != '"',
    decreases s.len() - i,
{
    if i < s.len() && s[i] != '"' {
        lemma_quote_from(s, i + 1);
    }
}

/// A number literal spans at least one character and stays within the text.
pub proof fn lemma_number_advances(s: Seq<char>, i: int)
    requires
        0 <= i <= s.len(),
    ensures
        spec_number(s, i) matches Some((_, j)) ==> i < j <= s.len(),
{
    let a = if char_at(s, i, '-') { i + 1 } else { i };
    lemma_digits_end(s, a);
    let b = digits_end(s, a);
    if char_at(s, b, '.') {
        lemma_digits_end(s, b + 1);
    }
}

/// A value spans at least one character and stays within the text.
pub proof fn lemma_value_advances(s: Seq<char>, i: int)
    requires
        0 <= i <= s.len(),
    ensures
        spec_value(s, i) matches Some((_, j)) ==> i < j <= s.len(),
{
    lemma_number_advances(s, i);
    if i < s.len() {
        lemma_quote_from(s, i + 1);
    }
    lemma_ws_end(s, i);
    let a = ws_end(s, i);
    if a < s.len() {
        lemma_ws_end(s, a + 1);
    }
    let n = spec_number(s, i);
    if let Some((_, j)) = n {
        if j < s.len() {
            let a2 = if char_at(s, j + 1, '-') || char_at(s, j + 1, '+') { j + 2 } else { j + 1 };
            lemma_digits_end(s, a2);
        }
    }
    if let Some((_, j)) = spec_array(s, i) {
        let (_, c) = if i < ws_end(s, a + 1) <= s.len() { spec_elements(s, ws_end(s, a + 1)) } else {
            (Seq::empty(), ws_end(s, a + 1))
        };
        lemma_ws_end(s, c);
        lemma_ws_end(s, ws_end(s, c) + 1);
    }
    if let Some((_, j)) = spec_object(s, i) {
        let (_, c) = if i < ws_end(s, a + 1) <= s.len() { spec_members(s, ws_end(s, a + 1)) } else {
            (Seq::empty(), ws_end(s, a + 1))
        };
        lemma_ws_end(s, c);
        lemma_ws_end(s, ws_end(s, c) + 1);
    }
}

} // verus!
