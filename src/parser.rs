//! The executable parser. Every rule takes the text and a character offset
//! into it, and returns the value and the offset just past what it consumed;
//! a failed rule consumes nothing and reports where it was tried and what it
//! expected there.
use vstd::prelude::*;
use vstd::string::StrSliceExecFns;
use crate::grammar::{
    char_at, digits_end, false_word, insert_member, is_digit, is_ws, key_index, lemma_number_advances,
    lemma_quote_from, lemma_value_advances, merge_members, null_word, quote_from,
    spec_array, spec_boolean, spec_elements, spec_integer, spec_member, spec_members,
    spec_more_elements, spec_more_members, spec_null, spec_number, spec_object, spec_scientific,
    spec_string, spec_value, true_word, word_at, ws_end,
};
use crate::value::{
    digits_value, lemma_array_model, lemma_object_model, member_models, models, signed, JValue,
    JsonNumber, JsonValue,
};

verus! {

/// The grammar rule that could not be matched.
#[derive(Debug, Clone, Copy, PartialEq, Eq, Structural)]
pub enum Expected {
    Null,
    Boolean,
    String,
    Number,
    Integer,
    ScientificNumber,
    Array,
    Object,
    Value,
}

/// A failed parse: the character offset at which the rule was tried, and the rule.
#[derive(Debug, Clone, Copy, PartialEq, Eq, Structural)]
pub struct ParseError {
    pub offset: usize,
    pub expected: Expected,
}

pub fn is_whitespace(c: char) -> (r: bool)
    ensures
        r == is_ws(c),
{
    c == ' ' || c == '\t' || c == '\n' || c == '\r'
}

pub fn is_ascii_digit(c: char) -> (r: bool)
    ensures
        r == is_digit(c),
{
    '0' <= c && c <= '9'
}

/// Whether `input` holds `c` at offset `pos`.
fn char_is(input: &str, pos: usize, c: char) -> (r: bool)
    ensures
        r == char_at(input@, pos as int, c),
        input@.len() <= usize::MAX,
{
    pos < input.unicode_len() && input.get_char(pos) == c
}

/// The offset just past the whitespace that starts at `pos`.
pub fn skip_whitespace(input: &str, pos: usize) -> (r: usize)
    requires
        pos <= input@.len(),
    ensures
        r == ws_end(input@, pos as int),
        pos <= r <= input@.len(),
{
    let len = input.unicode_len();
    let mut j: usize = pos;
    while j < len && is_whitespace(input.get_char(j))
        invariant
            pos <= j <= len,
            len == input@.len(),
            ws_end(input@, pos as int) == ws_end(input@, j as int),
        decreases len - j,
    {
        j = j + 1;
    }
    j
}

/// The offset just past the digits that start at `pos`.
pub fn skip_digits(input: &str, pos: usize) -> (r: usize)
    requires
        pos <= input@.len(),
    ensures
        r == digits_end(input@, pos as int),
        pos <= r <= input@.len(),
{
    let len = input.unicode_len();
    let mut j: usize = pos;
    while j < len && is_ascii_digit(input.get_char(j))
        invariant
            pos <= j <= len,
            len == input@.len(),
            digits_end(input@, pos as int) == digits_end(input@, j as int),
        decreases len - j,
    {
        j = j + 1;
    }
    j
}

/// Whether the word `w` stands in `input` at offset `pos`.
fn word_is(input: &str, pos: usize, w: &str) -> (r: bool)
    ensures
        r == word_at(input@, pos as int, w@),
        input@.len() <= usize::MAX,
{
    let len = input.unicode_len();
    let n = w.unicode_len();
    if pos > len || n > len - pos {
        return false;
    }
    let mut k: usize = 0;
    while k < n
        invariant
            k <= n,
            n == w@.len(),
            len == input@.len(),
            pos + n <= len,
            forall|m: int| 0 <= m < k ==> input@[pos + m] == w@[m],
        decreases n - k,
    {
        if input.get_char(pos + k) != w.get_char(k) {
            assert(input@.subrange(pos as int, pos + n)[k as int] != w@[k as int]);
            return false;
        }
        k = k + 1;
    }
    assert(input@.subrange(pos as int, pos + n) =~= w@);
    true
}

/// `null`
pub fn parse_null(input: &str, pos: usize) -> (r: Result<((), usize), ParseError>)
    ensures
        match spec_null(input@, pos as int) {
            Some((_, e)) => r matches Ok((_, f)) && f == e,
            None => r == Err::<((), usize), ParseError>(ParseError { offset: pos, expected: Expected::Null }),
        },
{
    proof {
        reveal_strlit("null");
        assert("null"@ == null_word());
    }
    if word_is(input, pos, "null") {
        Ok(((), pos + 4))
    } else {
        Err(ParseError { offset: pos, expected: Expected::Null })
    }
}

/// `true | false`
pub fn parse_boolean(input: &str, pos: usize) -> (r: Result<(bool, usize), ParseError>)
    ensures
        match spec_boolean(input@, pos as int) {
            Some((b, e)) => r matches Ok((c, f)) && c == b && f == e,
            None => r == Err::<(bool, usize), ParseError>(ParseError { offset: pos, expected: Expected::Boolean }),
        },
{
    proof {
        reveal_strlit("true");
        reveal_strlit("false");
        assert("true"@ == true_word());
        assert("false"@ == false_word());
    }
    if word_is(input, pos, "true") {
        Ok((true, pos + 4))
    } else if word_is(input, pos, "false") {
        Ok((false, pos + 5))
    } else {
        Err(ParseError { offset: pos, expected: Expected::Boolean })
    }
}

/// `'"' body '"'`: the body is the text up to the next `"`, with no escapes.
pub fn parse_string(input: &str, pos: usize) -> (r: Result<(String, usize), ParseError>)
    ensures
        match spec_string(input@, pos as int) {
            Some((b, e)) => r matches Ok((t, f)) && t@ == b && f == e,
            None => r == Err::<(String, usize), ParseError>(ParseError { offset: pos, expected: Expected::String }),
        },
{
    let len = input.unicode_len();
    if !char_is(input, pos, '"') {
        return Err(ParseError { offset: pos, expected: Expected::String });
    }
    let mut j: usize = pos + 1;
    while j < len && input.get_char(j) != '"'
        invariant
            pos < j <= len,
            len == input@.len(),
            quote_from(input@, pos + 1) == quote_from(input@, j as int),
        decreases len - j,
    {
        j = j + 1;
    }
    if j == len {
        return Err(ParseError { offset: pos, expected: Expected::String });
    }
    let body = input.substring_char(pos + 1, j).to_owned();
    Ok((body, j + 1))
}

/// `['-'] digits ['.' digits]`, kept exactly as its sign and digit runs.
pub fn parse_number(input: &str, pos: usize) -> (r: Result<(JsonNumber, usize), ParseError>)
    requires
        pos <= input@.len(),
    ensures
        match spec_number(input@, pos as int) {
            Some((n, e)) => r matches Ok((m, f)) && m.model() == n && f == e && !m.exp_negative
                && m.exp_digits@.len() == 0,
            None => r == Err::<(JsonNumber, usize), ParseError>(ParseError { offset: pos, expected: Expected::Number }),
        },
{
    let negative = char_is(input, pos, '-');
    let a = if negative { pos + 1 } else { pos };
    let b = skip_digits(input, a);
    if b == a {
        return Err(ParseError { offset: pos, expected: Expected::Number });
    }
    let int_digits = input.substring_char(a, b).to_owned();
    if char_is(input, b, '.') {
        let c = skip_digits(input, b + 1);
        if c == b + 1 {
            return Err(ParseError { offset: pos, expected: Expected::Number });
        }
        let frac_digits = input.substring_char(b + 1, c).to_owned();
        let n = JsonNumber { negative, int_digits, frac_digits, exp_negative: false, exp_digits: String::new() };
        Ok((n, c))
    } else {
        let n = JsonNumber {
            negative,
            int_digits,
            frac_digits: String::new(),
            exp_negative: false,
            exp_digits: String::new(),
        };
        proof {
            assert(n.int_digits@ + n.frac_digits@ =~= n.int_digits@);
        }
        Ok((n, b))
    }
}

/// `['+' | '-'] digits`: whether the sign is `-`, and the digits.
pub fn parse_integer(input: &str, pos: usize) -> (r: Result<((bool, String), usize), ParseError>)
    requires
        pos <= input@.len(),
    ensures
        match spec_integer(input@, pos as int) {
            Some((v, e)) => r matches Ok(((neg, d), f)) && signed(neg, digits_value(d@)) == v && f == e,
            None => r == Err::<((bool, String), usize), ParseError>(ParseError { offset: pos, expected: Expected::Integer }),
        },
{
    let negative = char_is(input, pos, '-');
    let a = if negative || char_is(input, pos, '+') { pos + 1 } else { pos };
    let b = skip_digits(input, a);
    if b == a {
        return Err(ParseError { offset: pos, expected: Expected::Integer });
    }
    Ok(((negative, input.substring_char(a, b).to_owned()), b))
}

/// `number 'e' integer`, worth `number * 10^integer`.
pub fn parse_scientific_notation(input: &str, pos: usize) -> (r: Result<(JsonNumber, usize), ParseError>)
    requires
        pos <= input@.len(),
    ensures
        match spec_scientific(input@, pos as int) {
            Some((n, e)) => r matches Ok((m, f)) && m.model() == n && f == e,
            None => r == Err::<(JsonNumber, usize), ParseError>(
                ParseError { offset: pos, expected: Expected::ScientificNumber },
            ),
        },
{
    let err = ParseError { offset: pos, expected: Expected::ScientificNumber };
    match parse_number(input, pos) {
        Ok((n, j)) => {
            proof {
                lemma_number_advances(input@, pos as int);
            }
            if !char_is(input, j, 'e') {
                return Err(err);
            }
            match parse_integer(input, j + 1) {
                Ok(((exp_negative, exp_digits), k)) => {
                    let m = JsonNumber {
                        negative: n.negative,
                        int_digits: n.int_digits,
                        frac_digits: n.frac_digits,
                        exp_negative,
                        exp_digits,
                    };
                    Ok((m, k))
                },
                Err(_) => Err(err),
            }
        },
        Err(_) => Err(err),
    }
}

/// `null | string | scientific | number | boolean | array | object`: the first
/// rule that matches at `pos` gives the value.
pub fn parse_value(input: &str, pos: usize) -> (r: Result<(JsonValue, usize), ParseError>)
    requires
        pos <= input@.len(),
    ensures
        match spec_value(input@, pos as int) {
            Some((v, e)) => r matches Ok((w, f)) && w.model() == v && f == e,
            None => r == Err::<(JsonValue, usize), ParseError>(ParseError { offset: pos, expected: Expected::Value }),
        },
        r matches Ok((_, f)) ==> pos < f <= input@.len(),
    decreases input@.len() - pos, 1int,
{
    proof {
        lemma_value_advances(input@, pos as int);
    }
    if let Ok((_, j)) = parse_null(input, pos) {
        return Ok((JsonValue::Null, j));
    }
    if let Ok((t, j)) = parse_string(input, pos) {
        return Ok((JsonValue::String(t), j));
    }
    if let Ok((n, j)) = parse_scientific_notation(input, pos) {
        return Ok((JsonValue::Number(n), j));
    }
    if let Ok((n, j)) = parse_number(input, pos) {
        return Ok((JsonValue::Number(n), j));
    }
    if let Ok((b, j)) = parse_boolean(input, pos) {
        return Ok((JsonValue::Boolean(b), j));
    }
    if let Ok((a, j)) = parse_array(input, pos) {
        proof {
            lemma_array_model(a);
        }
        return Ok((JsonValue::Array(a), j));
    }
    if let Ok((o, j)) = parse_object(input, pos) {
        proof {
            lemma_object_model(o);
        }
        return Ok((JsonValue::Object(o), j));
    }
    Err(ParseError { offset: pos, expected: Expected::Value })
}

/// `ws '[' ws (value (ws ',' ws value)*)? ws ']' ws`
pub fn parse_array(input: &str, pos: usize) -> (r: Result<(Vec<JsonValue>, usize), ParseError>)
    requires
        pos <= input@.len(),
    ensures
        match spec_array(input@, pos as int) {
            Some((vs, e)) => r matches Ok((a, f)) && models(a@) == vs && f == e,
            None => r == Err::<(Vec<JsonValue>, usize), ParseError>(ParseError { offset: pos, expected: Expected::Array }),
        },
    decreases input@.len() - pos, 0int,
{
    let ghost s = input@;
    let err = ParseError { offset: pos, expected: Expected::Array };
    let a = skip_whitespace(input, pos);
    if !char_is(input, a, '[') {
        return Err(err);
    }
    let b = skip_whitespace(input, a + 1);
    let mut items: Vec<JsonValue> = Vec::new();
    let mut cur: usize = b;
    if let Ok((v, e)) = parse_value(input, b) {
        let ghost vm = v.model();
        items.push(v);
        cur = e;
        proof {
            assert(models(items@) =~= seq![vm]);
        }
        loop
            invariant
                pos < b < cur <= s.len(),
                s == input@,
                spec_elements(s, b as int) == (
                    models(items@) + spec_more_elements(s, cur as int).0,
                    spec_more_elements(s, cur as int).1,
                ),
            ensures
                spec_elements(s, b as int) == (models(items@), cur as int),
            decreases s.len() - cur,
        {
            let c = skip_whitespace(input, cur);
            if !char_is(input, c, ',') {
                assert(models(items@) + Seq::empty() =~= models(items@));
                break;
            }
            let d = skip_whitespace(input, c + 1);
            match parse_value(input, d) {
                Ok((v, e)) => {
                    let ghost vm = v.model();
                    let ghost before = models(items@);
                    items.push(v);
                    cur = e;
                    proof {
                        assert(models(items@) =~= before.push(vm));
                        assert(before + (seq![vm] + spec_more_elements(s, e as int).0) =~= models(items@)
                            + spec_more_elements(s, e as int).0);
                    }
                },
                Err(_) => {
                    assert(models(items@) + Seq::empty() =~= models(items@));
                    break;
                },
            }
        }
    } else {
        assert(models(items@) =~= Seq::empty());
    }
    let d = skip_whitespace(input, cur);
    if !char_is(input, d, ']') {
        return Err(err);
    }
    Ok((items, skip_whitespace(input, d + 1)))
}

/// `string ws ':' ws value`
fn parse_member(input: &str, pos: usize) -> (r: Result<((String, JsonValue), usize), ParseError>)
    requires
        pos <= input@.len(),
    ensures
        match spec_member(input@, pos as int) {
            Some(((k, v), e)) => r matches Ok(((key, w), f)) && key@ == k && w.model() == v && f == e,
            None => r is Err,
        },
        r matches Ok((_, f)) ==> pos < f <= input@.len(),
    decreases input@.len() - pos, 2int,
{
    let (key, j) = match parse_string(input, pos) {
        Ok(kj) => kj,
        Err(e) => {
            return Err(e);
        },
    };
    proof {
        lemma_quote_from(input@, pos + 1);
    }
    let c = skip_whitespace(input, j);
    if !char_is(input, c, ':') {
        return Err(ParseError { offset: pos, expected: Expected::String });
    }
    let d = skip_whitespace(input, c + 1);
    match parse_value(input, d) {
        Ok((v, e)) => Ok(((key, v), e)),
        Err(e) => Err(e),
    }
}

/// The index of the member whose key is `k`, if any.
fn find_key(members: &Vec<(String, JsonValue)>, k: &String) -> (r: Option<usize>)
    ensures
        match r {
            Some(j) => key_index(member_models(members@), k@) == j,
            None => key_index(member_models(members@), k@) == -1,
        },
        r matches Some(j) ==> j < members@.len(),
{
    let ghost ms = member_models(members@);
    let mut j: usize = members.len();
    assert(ms.take(j as int) =~= ms);
    while j > 0
        invariant
            j <= members.len(),
            ms == member_models(members@),
            key_index(ms, k@) == key_index(ms.take(j as int), k@),
        decreases j,
    {
        assert(ms.take(j as int).drop_last() =~= ms.take(j - 1));
        if members[j - 1].0 == *k {
            return Some(j - 1);
        }
        j = j - 1;
    }
    None
}

/// Sets key `k` to `v`: replaces the member with that key, or appends one.
fn insert_member_into(members: &mut Vec<(String, JsonValue)>, k: String, v: JsonValue)
    ensures
        member_models(final(members)@) == insert_member(member_models(old(members)@), k@, v.model()),
{
    let ghost km = k@;
    let ghost vm = v.model();
    match find_key(members, &k) {
        Some(j) => {
            members.set(j, (k, v));
            assert(member_models(members@) =~= member_models(old(members)@).update(j as int, (km, vm)));
        },
        None => {
            members.push((k, v));
            assert(member_models(members@) =~= member_models(old(members)@).push((km, vm)));
        },
    }
}

/// `ws '{' ws (member (ws ',' ws member)*)? ws '}' ws`; a repeated key keeps its last value.
pub fn parse_object(input: &str, pos: usize) -> (r: Result<(Vec<(String, JsonValue)>, usize), ParseError>)
    requires
        pos <= input@.len(),
    ensures
        match spec_object(input@, pos as int) {
            Some((ms, e)) => r matches Ok((m, f)) && member_models(m@) == ms && f == e,
            None => r == Err::<(Vec<(String, JsonValue)>, usize), ParseError>(
                ParseError { offset: pos, expected: Expected::Object },
            ),
        },
    decreases input@.len() - pos, 0int,
{
    let ghost s = input@;
    let err = ParseError { offset: pos, expected: Expected::Object };
    let a = skip_whitespace(input, pos);
    if !char_is(input, a, '{') {
        return Err(err);
    }
    let b = skip_whitespace(input, a + 1);
    let mut members: Vec<(String, JsonValue)> = Vec::new();
    let ghost mut raw: Seq<(Seq<char>, JValue)> = Seq::empty();
    let mut cur: usize = b;
    if let Ok(((k, v), e)) = parse_member(input, b) {
        let ghost m = (k@, v.model());
        assert(member_models(members@) =~= Seq::empty());
        insert_member_into(&mut members, k, v);
        cur = e;
        proof {
            raw = seq![m];
            assert(raw.drop_last() =~= Seq::empty());
            assert(merge_members(raw.drop_last()) == Seq::<(Seq<char>, JValue)>::empty());
        }
        loop
            invariant
                pos < b < cur <= s.len(),
                s == input@,
                spec_members(s, b as int) == (
                    raw + spec_more_members(s, cur as int).0,
                    spec_more_members(s, cur as int).1,
                ),
                member_models(members@) == merge_members(raw),
            ensures
                spec_members(s, b as int) == (raw, cur as int),
                member_models(members@) == merge_members(raw),
            decreases s.len() - cur,
        {
            let c = skip_whitespace(input, cur);
            if !char_is(input, c, ',') {
                assert(raw + Seq::empty() =~= raw);
                break;
            }
            let d = skip_whitespace(input, c + 1);
            match parse_member(input, d) {
                Ok(((k, v), e)) => {
                    let ghost m = (k@, v.model());
                    let ghost before = raw;
                    insert_member_into(&mut members, k, v);
                    cur = e;
                    proof {
                        raw = before.push(m);
                        assert(raw.drop_last() =~= before);
                        assert(before + (seq![m] + spec_more_members(s, e as int).0) =~= raw
                            + spec_more_members(s, e as int).0);
                    }
                },
                Err(_) => {
                    assert(raw + Seq::empty() =~= raw);
                    break;
                },
            }
        }
    } else {
        assert(member_models(members@) =~= Seq::empty());
    }
    let d = skip_whitespace(input, cur);
    if !char_is(input, d, '}') {
        return Err(err);
    }
    Ok((members, skip_whitespace(input, d + 1)))
}

/// Parses one value from the start of `input`. Text after the value is left
/// unread, as the grammar does not say what may follow a complete document.
pub fn parse_json(input: &str) -> (r: Result<JsonValue, ParseError>)
    ensures
        match spec_value(input@, 0) {
            Some((v, _)) => r matches Ok(w) && w.model() == v,
            None => r == Err::<JsonValue, ParseError>(ParseError { offset: 0, expected: Expected::Value }),
        },
{
    match parse_value(input, 0) {
        Ok((v, _)) => Ok(v),
        Err(e) => Err(e),
    }
}

} // verus!
