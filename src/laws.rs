//! Properties of the grammar, stated over the spec functions that the
//! parser's contracts use.
use vstd::prelude::*;
use crate::grammar::{
    char_at, decimal, digits_end, false_word, insert_member, is_digit, key_index, lemma_quote_from,
    merge_members, null_word, quote_from, spec_integer, spec_number, spec_value, true_word,
    word_at,
};
use crate::value::{digits_value, signed, JValue, NumView};

verus! {

/// The word `null` parses as null wherever it stands, consuming exactly the word.
pub proof fn law_null_literal(s: Seq<char>, i: int)
    requires
        word_at(s, i, null_word()),
    ensures
        spec_value(s, i) == Some((JValue::Null, i + 4)),
{
}

/// The words `true` and `false` parse as the matching boolean, consuming exactly the word.
pub proof fn law_boolean_literals(s: Seq<char>, i: int)
    ensures
        word_at(s, i, true_word()) ==> spec_value(s, i) == Some((JValue::Bool(true), i + 4)),
        word_at(s, i, false_word()) ==> spec_value(s, i) == Some((JValue::Bool(false), i + 5)),
{
    if word_at(s, i, true_word()) {
        assert(s[i] == s.subrange(i, i + 4)[0]);
        assert(!word_at(s, i, null_word()));
        assert(digits_end(s, i) == i);
    }
    if word_at(s, i, false_word()) {
        assert(s[i] == s.subrange(i, i + 5)[0]);
        assert(!word_at(s, i, null_word()));
        assert(s.subrange(i, i + 4)[0] == 'f');
        assert(!word_at(s, i, true_word()));
        assert(digits_end(s, i) == i);
    }
}

/// A quoted text whose body holds no `"` parses as that body, verbatim.
pub proof fn law_string_verbatim(body: Seq<char>)
    requires
        forall|j: int| 0 <= j < body.len() ==> body[j] != '"',
    ensures
        spec_value(seq!['"'] + body + seq!['"'], 0) == Some(
            (JValue::Str(body), body.len() + 2int),
        ),
{
    let s = seq!['"'] + body + seq!['"'];
    let n = body.len() as int;
    lemma_quote_from(s, 1);
    let q = quote_from(s, 1);
    assert(s[n + 1] == '"');
    if q < n + 1 {
        assert(s[q] == body[q - 1]);
    }
    assert(q == n + 1);
    assert(s.subrange(1, q) =~= body);
    assert(!word_at(s, 0, null_word())) by {
        if word_at(s, 0, null_word()) {
            assert(s.subrange(0, 4)[0] == '"');
        }
    }
}

/// Whether every character of `d` is a decimal digit.
pub open spec fn all_digits(d: Seq<char>) -> bool {
    forall|j: int| 0 <= j < d.len() ==> is_digit(d[j])
}

/// `10^n`
pub open spec fn pow10(n: nat) -> nat
    decreases n,
{
    if n == 0 {
        1
    } else {
        10 * pow10((n - 1) as nat)
    }
}

/// The text of a plain number literal: `['-'] int_digits ['.' frac_digits]`.
pub open spec fn number_text(negative: bool, int_digits: Seq<char>, frac_digits: Seq<char>) -> Seq<char> {
    (if negative { seq!['-'] } else { Seq::empty() }) + int_digits + (if frac_digits.len() > 0 {
        seq!['.'] + frac_digits
    } else {
        Seq::empty()
    })
}

proof fn lemma_digit_run(s: Seq<char>, a: int, n: int)
    requires
        0 <= a,
        0 <= n,
        a + n <= s.len(),
        forall|j: int| a <= j < a + n ==> is_digit(s[j]),
        a + n == s.len() || !is_digit(s[a + n]),
    ensures
        digits_end(s, a) == a + n,
    decreases n,
{
    if n > 0 {
        lemma_digit_run(s, a + 1, n - 1);
    }
}

/// Joining two digit runs shifts the first by the length of the second.
pub proof fn lemma_digits_concat(d: Seq<char>, f: Seq<char>)
    ensures
        digits_value(d + f) == digits_value(d) * pow10(f.len()) + digits_value(f),
    decreases f.len(),
{
    if f.len() == 0 {
        assert(d + f =~= d);
        assert(pow10(0) == 1);
        assert(digits_value(f) == 0);
    } else {
        let f1 = f.drop_last();
        assert((d + f).drop_last() =~= d + f1);
        lemma_digits_concat(d, f1);
        assert((d + f).last() == f.last());
        assert(digits_value(d + f) == digits_value(d + f1) * 10 + (f.last() as int - '0' as int) as nat);
        assert(digits_value(f) == digits_value(f1) * 10 + (f.last() as int - '0' as int) as nat);
        assert(pow10(f.len()) == 10 * pow10(f1.len()));
        let x = digits_value(d);
        let p = pow10(f1.len());
        assert((x * p + digits_value(f1)) * 10 == x * (10 * p) + digits_value(f1) * 10)
            by (nonlinear_arith);
        assert(digits_value(d + f1) == x * p + digits_value(f1));
    }
}

/// A plain number literal parses to its exact value: the mantissa is the
/// signed integer `int_digits * 10^|frac_digits| + frac_digits`, scaled by
/// `10^-|frac_digits|`, so the value is `sign * (int_digits + frac_digits / 10^|frac_digits|)`.
pub proof fn law_number_value(negative: bool, int_digits: Seq<char>, frac_digits: Seq<char>)
    requires
        int_digits.len() > 0,
        all_digits(int_digits),
        all_digits(frac_digits),
    ensures
        spec_value(number_text(negative, int_digits, frac_digits), 0) == Some(
            (
                JValue::Num(
                    NumView {
                        mantissa: signed(
                            negative,
                            digits_value(int_digits) * pow10(frac_digits.len()) + digits_value(frac_digits),
                        ),
                        exponent: -(frac_digits.len() as int),
                    },
                ),
                number_text(negative, int_digits, frac_digits).len() as int,
            ),
        ),
{
    let s = number_text(negative, int_digits, frac_digits);
    lemma_digits_concat(int_digits, frac_digits);
    lemma_number_text(negative, int_digits, frac_digits);
    assert(s[0] == '-' || is_digit(s[0]));
    assert(!word_at(s, 0, null_word())) by {
        if word_at(s, 0, null_word()) {
            assert(s.subrange(0, 4)[0] == s[0]);
        }
    }
}

proof fn lemma_number_text(negative: bool, int_digits: Seq<char>, frac_digits: Seq<char>)
    requires
        int_digits.len() > 0,
        all_digits(int_digits),
        all_digits(frac_digits),
    ensures
        spec_number(number_text(negative, int_digits, frac_digits), 0) == Some(
            (
                decimal(negative, int_digits, frac_digits),
                number_text(negative, int_digits, frac_digits).len() as int,
            ),
        ),
        number_text(negative, int_digits, frac_digits)[0] == '-' || is_digit(
            number_text(negative, int_digits, frac_digits)[0],
        ),
{
    let s = number_text(negative, int_digits, frac_digits);
    let a: int = if negative { 1 } else { 0 };
    let b = a + int_digits.len();
    assert(s.subrange(a, b) =~= int_digits);
    assert(forall|j: int| a <= j < b ==> s[j] == int_digits[j - a]);
    assert(s[a] == int_digits[0]);
    lemma_digit_run(s, a, int_digits.len() as int);
    assert(char_at(s, 0, '-') == negative);
    if frac_digits.len() > 0 {
        assert(s[b] == '.');
        assert(s.subrange(b + 1, s.len() as int) =~= frac_digits);
        assert(forall|j: int| b + 1 <= j < s.len() ==> s[j] == frac_digits[j - b - 1]);
        lemma_digit_run(s, b + 1, frac_digits.len() as int);
    } else {
        assert(s.len() == b);
        assert(frac_digits =~= Seq::<char>::empty());
    }
}

/// A number followed by `e` and a signed integer `e` parses to the number
/// times `10^e`.
pub proof fn law_scientific_scales(s: Seq<char>, i: int, n: NumView, j: int, e: int, k: int)
    requires
        spec_number(s, i) == Some((n, j)),
        char_at(s, j, 'e'),
        spec_integer(s, j + 1) == Some((e, k)),
    ensures
        spec_value(s, i) == Some(
            (JValue::Num(NumView { mantissa: n.mantissa, exponent: n.exponent + e }), k),
        ),
{
    let a = if char_at(s, i, '-') { i + 1 } else { i };
    assert(digits_end(s, a) != a);
    assert(!word_at(s, i, null_word())) by {
        if word_at(s, i, null_word()) {
            assert(s.subrange(i, i + 4)[0] == s[i]);
        }
    }
}

/// What the member list holds for key `k`: the value of its last member with that key.
pub open spec fn lookup(ms: Seq<(Seq<char>, JValue)>, k: Seq<char>) -> Option<JValue> {
    let j = key_index(ms, k);
    if j >= 0 {
        Some(ms[j].1)
    } else {
        None
    }
}

/// Whether no two members share a key.
pub open spec fn keys_distinct(ms: Seq<(Seq<char>, JValue)>) -> bool {
    forall|a: int, b: int| 0 <= a < b < ms.len() ==> ms[a].0 != ms[b].0
}

proof fn lemma_key_index(ms: Seq<(Seq<char>, JValue)>, k: Seq<char>)
    ensures
        -1 <= key_index(ms, k) < ms.len(),
        key_index(ms, k) >= 0 ==> ms[key_index(ms, k)].0 == k,
        key_index(ms, k) >= 0 ==> forall|j: int| key_index(ms, k) < j < ms.len() ==> ms[j].0 != k,
        key_index(ms, k) == -1 ==> forall|j: int| 0 <= j < ms.len() ==> ms[j].0 != k,
    decreases ms.len(),
{
    if ms.len() > 0 {
        lemma_key_index(ms.drop_last(), k);
        assert(forall|j: int| 0 <= j < ms.len() - 1 ==> ms.drop_last()[j] == ms[j]);
    }
}

proof fn lemma_key_index_same_keys(m1: Seq<(Seq<char>, JValue)>, m2: Seq<(Seq<char>, JValue)>, k: Seq<char>)
    requires
        m1.len() == m2.len(),
        forall|j: int| 0 <= j < m1.len() ==> m1[j].0 == m2[j].0,
    ensures
        key_index(m1, k) == key_index(m2, k),
    decreases m1.len(),
{
    if m1.len() > 0 {
        lemma_key_index_same_keys(m1.drop_last(), m2.drop_last(), k);
    }
}

/// Merging members keeps each key once, with the value of its last member:
/// a repeated key keeps only the last value.
pub proof fn law_last_value_wins(raw: Seq<(Seq<char>, JValue)>, k: Seq<char>)
    ensures
        lookup(merge_members(raw), k) == lookup(raw, k),
        keys_distinct(merge_members(raw)),
    decreases raw.len(),
{
    if raw.len() > 0 {
        let m = raw.last();
        let r1 = raw.drop_last();
        let ms = merge_members(r1);
        law_last_value_wins(r1, k);
        lemma_key_index(r1, k);
        lemma_key_index(ms, k);
        lemma_key_index(ms, m.0);
        let merged = insert_member(ms, m.0, m.1);
        let j = key_index(ms, m.0);
        if j >= 0 {
            lemma_key_index_same_keys(merged, ms, k);
        } else {
            assert(merged.drop_last() =~= ms);
        }
    }
}

} // verus!
