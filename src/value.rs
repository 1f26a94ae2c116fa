use vstd::prelude::*;

verus! {

/// The mathematical value `mantissa * 10^exponent` of a number literal.
pub struct NumView {
    pub mantissa: int,
    pub exponent: int,
}

/// The abstract value tree that a parse produces.
pub enum JValue {
    Str(Seq<char>),
    Num(NumView),
    Bool(bool),
    Null,
    Arr(Seq<JValue>),
    /// Members with pairwise distinct keys.
    Obj(Seq<(Seq<char>, JValue)>),
}

/// The numeric value of a run of decimal digits.
pub open spec fn digits_value(d: Seq<char>) -> nat
    decreases d.len(),
{
    if d.len() == 0 {
        0
    } else {
        digits_value(d.drop_last()) * 10 + ((d.last() as int - '0' as int) as nat)
    }
}

/// `m` with a minus sign when `negative` holds.
pub open spec fn signed(negative: bool, m: nat) -> int {
    if negative {
        -m
    } else {
        m as int
    }
}

/// A number literal kept as the text of its parts, so that no precision is lost:
/// `[-] int_digits [. frac_digits] [e [+|-] exp_digits]`.
#[derive(Debug, PartialEq)]
pub struct JsonNumber {
    pub negative: bool,
    pub int_digits: String,
    pub frac_digits: String,
    pub exp_negative: bool,
    pub exp_digits: String,
}

impl JsonNumber {
    /// The exact value: sign and both digit runs form the mantissa, the
    /// fraction shifts the exponent.
    pub open spec fn model(self) -> NumView {
        NumView {
            mantissa: signed(self.negative, digits_value(self.int_digits@ + self.frac_digits@)),
            exponent: signed(self.exp_negative, digits_value(self.exp_digits@))
                - self.frac_digits@.len(),
        }
    }
}

/// A parsed JSON value.
#[derive(Debug, PartialEq)]
pub enum JsonValue {
    String(String),
    Number(JsonNumber),
    Boolean(bool),
    Null,
    Array(Vec<JsonValue>),
    /// Members in order of first appearance; a repeated key holds its last value.
    Object(Vec<(String, JsonValue)>),
}

impl JsonValue {
    pub open spec fn model(self) -> JValue
        decreases self,
    {
        match self {
            JsonValue::String(s) => JValue::Str(s@),
            JsonValue::Number(n) => JValue::Num(n.model()),
            JsonValue::Boolean(b) => JValue::Bool(b),
            JsonValue::Null => JValue::Null,
            JsonValue::Array(v) => JValue::Arr(
                Seq::new(v@.len(), |i: int| if 0 <= i < v@.len() { v@[i].model() } else { JValue::Null }),
            ),
            JsonValue::Object(m) => JValue::Obj(
                Seq::new(
                    m@.len(),
                    |i: int|
                        if 0 <= i < m@.len() {
                            (m@[i].0@, m@[i].1.model())
                        } else {
                            (Seq::empty(), JValue::Null)
                        },
                ),
            ),
        }
    }
}

/// The models of a sequence of values.
pub open spec fn models(v: Seq<JsonValue>) -> Seq<JValue> {
    v.map_values(|x: JsonValue| x.model())
}

/// The models of a list of members.
pub open spec fn member_models(ms: Seq<(String, JsonValue)>) -> Seq<(Seq<char>, JValue)> {
    ms.map_values(|p: (String, JsonValue)| (p.0@, p.1.model()))
}

pub proof fn lemma_array_model(v: Vec<JsonValue>)
    ensures
        JsonValue::Array(v).model() == JValue::Arr(models(v@)),
{
    assert(JsonValue::Array(v).model()->Arr_0 =~= models(v@));
}

pub proof fn lemma_object_model(m: Vec<(String, JsonValue)>)
    ensures
        JsonValue::Object(m).model() == JValue::Obj(member_models(m@)),
{
    assert(JsonValue::Object(m).model()->Obj_0 =~= member_models(m@));
}

} // verus!
