//! JSON values.
use serde_json::Value;
use vstd::arithmetic::div_mod::lemma_div_denominator;
use vstd::arithmetic::power2::{
    lemma2_to64, lemma_pow2_pos, lemma_pow2_strictly_increases, lemma_pow2_unfold, pow2,
};
use vstd::prelude::*;

use crate::numeral::{parse_unsigned, read_u64};
use crate::text::{chars_of, same_str};

verus! {

#[verifier::external_type_specification]
#[verifier::external_body]
pub struct ExValue(serde_json::Value);

#[verifier::external_type_specification]
#[verifier::external_body]
pub struct ExJsonError(serde_json::Error);

/// A number: what it is as an integer where it is one, the bits of its double, and its text.
#[derive(Debug)]
pub struct JsonNumber {
    pub unsigned: Option<u64>,
    pub signed: Option<i64>,
    pub double_bits: Option<u64>,
    pub text: String,
}

/// A JSON value. Arrays and objects come with their text.
#[derive(Debug)]
pub enum JsonValue {
    Null,
    Bool(bool),
    Number(JsonNumber),
    Text(String),
    Array(Vec<JsonValue>, String),
    Object(Vec<(String, JsonValue)>, String),
}

pub struct NumberModel {
    pub unsigned: Option<u64>,
    pub signed: Option<i64>,
    pub double_bits: Option<u64>,
    pub text: Seq<char>,
}

pub enum JsonModel {
    Null,
    Bool(bool),
    Number(NumberModel),
    Text(Seq<char>),
    Array(Seq<JsonModel>, Seq<char>),
    Object(Seq<(Seq<char>, JsonModel)>, Seq<char>),
}

impl JsonNumber {
    pub open spec fn model(self) -> NumberModel {
        NumberModel {
            unsigned: self.unsigned,
            signed: self.signed,
            double_bits: self.double_bits,
            text: self.text@,
        }
    }
}

impl JsonValue {
    pub open spec fn model(self) -> JsonModel
        decreases self,
    {
        match self {
            JsonValue::Null => JsonModel::Null,
            JsonValue::Bool(b) => JsonModel::Bool(b),
            JsonValue::Number(n) => JsonModel::Number(n.model()),
            JsonValue::Text(s) => JsonModel::Text(s@),
            JsonValue::Array(items, text) => JsonModel::Array(
                Seq::new(
                    items@.len(),
                    |i: int|
                        if 0 <= i < items@.len() {
                            items@[i].model()
                        } else {
                            JsonModel::Null
                        },
                ),
                text@,
            ),
            JsonValue::Object(members, text) => JsonModel::Object(
                Seq::new(
                    members@.len(),
                    |i: int|
                        if 0 <= i < members@.len() {
                            (members@[i].0@, members@[i].1.model())
                        } else {
                            (Seq::empty(), JsonModel::Null)
                        },
                ),
                text@,
            ),
        }
    }
}

// ---------------------------------------------------------------------------
// Decoding
// ---------------------------------------------------------------------------

/// What a value of serde_json holds.
pub uninterp spec fn json_tree(value: Value) -> JsonModel;

/// The value that serde_json decodes from the given bytes, if they are JSON.
pub uninterp spec fn json_decoded(bytes: Seq<u8>) -> Option<JsonModel>;

/// `serde_json::from_slice`: the value that the bytes stand for, or an error where they are no
/// JSON.
#[verifier::external_body]
fn decode_value(bytes: &[u8]) -> (r: Result<Value, serde_json::Error>)
    ensures
        match r {
            Ok(v) => json_decoded(bytes@) == Some(json_tree(v)),
            Err(_) => json_decoded(bytes@) is None,
        },
{
    serde_json::from_slice(bytes)
}

/// The variants of `serde_json::Value` with what they hold: for a number what `Number::as_u64`,
/// `as_i64` and `as_f64` give and its text, for an array or an object its items and its text.
#[verifier::external_body]
fn json_value(value: &Value) -> (out: JsonValue)
    ensures
        out.model() == json_tree(*value),
{
    match value {
        Value::Null => JsonValue::Null,
        Value::Bool(b) => JsonValue::Bool(*b),
        Value::Number(n) => JsonValue::Number(JsonNumber {
            unsigned: n.as_u64(), signed: n.as_i64(),
            double_bits: n.as_f64().map(|d| d.to_bits()), text: n.to_string(),
        }),
        Value::String(s) => JsonValue::Text(s.clone()),
        Value::Array(v) => JsonValue::Array(v.iter().map(json_value).collect(), value.to_string()),
        Value::Object(m) => JsonValue::Object(
            m.iter().map(|(k, v)| (k.clone(), json_value(v))).collect(),
            value.to_string(),
        ),
    }
}

/// The value that the bytes stand for.
pub fn parse_json(bytes: &[u8]) -> (r: Result<JsonValue, serde_json::Error>)
    ensures
        match r {
            Ok(v) => json_decoded(bytes@) == Some(v.model()),
            Err(_) => json_decoded(bytes@) is None,
        },
{
    match decode_value(bytes) {
        Ok(v) => Ok(json_value(&v)),
        Err(e) => Err(e),
    }
}

// ---------------------------------------------------------------------------
// Looking into values
// ---------------------------------------------------------------------------

/// The member with the given key, from the `i`-th on.
pub open spec fn member_from(
    members: Seq<(Seq<char>, JsonModel)>,
    key: Seq<char>,
    i: int,
) -> Option<JsonModel>
    decreases members.len() - i,
{
    if i >= members.len() {
        None
    } else if members[i].0 == key {
        Some(members[i].1)
    } else {
        member_from(members, key, i + 1)
    }
}

/// The member of an object with the given key.
pub open spec fn member(value: JsonModel, key: Seq<char>) -> Option<JsonModel> {
    match value {
        JsonModel::Object(members, _) => member_from(members, key, 0),
        _ => None,
    }
}

/// The items of an array.
pub open spec fn items(value: JsonModel) -> Option<Seq<JsonModel>> {
    match value {
        JsonModel::Array(v, _) => Some(v),
        _ => None,
    }
}

/// The member of an object with the given key.
pub fn object_get<'a>(value: &'a JsonValue, key: &str) -> (out: Option<&'a JsonValue>)
    ensures
        match out {
            Some(v) => member(value.model(), key@) == Some(v.model()),
            None => member(value.model(), key@) is None,
        },
{
    match value {
        JsonValue::Object(members, text) => {
            let ghost models = value.model()->Object_0;
            let mut i: usize = 0;
            while i < members.len()
                invariant
                    i <= members@.len(),
                    *value == JsonValue::Object(*members, *text),
                    models == value.model()->Object_0,
                    models.len() == members@.len(),
                    member_from(models, key@, 0) == member_from(models, key@, i as int),
                decreases members@.len() - i,
            {
                assert(models[i as int] == (
                    members@[i as int].0@,
                    members@[i as int].1.model(),
                ));
                if same_str(members[i].0.as_str(), key) {
                    return Some(&members[i].1);
                }
                i += 1;
            }
            None
        },
        _ => None,
    }
}

pub open spec fn value_models(v: Seq<JsonValue>) -> Seq<JsonModel> {
    v.map_values(|x: JsonValue| x.model())
}

/// The items of an array.
pub fn as_array(value: &JsonValue) -> (out: Option<&Vec<JsonValue>>)
    ensures
        match out {
            Some(v) => items(value.model()) == Some(value_models(v@)),
            None => items(value.model()) is None,
        },
{
    match value {
        JsonValue::Array(v, _) => {
            assert(value.model()->Array_0 =~= value_models(v@));
            Some(v)
        },
        _ => None,
    }
}

// ---------------------------------------------------------------------------
// Values as text, as numbers, as truth values
// ---------------------------------------------------------------------------

/// A value as text: nothing for null, a text as it is, everything else as JSON writes it.
pub open spec fn value_text(value: JsonModel) -> Seq<char> {
    match value {
        JsonModel::Null => Seq::empty(),
        JsonModel::Bool(b) => if b {
            "true"@
        } else {
            "false"@
        },
        JsonModel::Number(n) => n.text,
        JsonModel::Text(s) => s,
        JsonModel::Array(_, text) => text,
        JsonModel::Object(_, text) => text,
    }
}

/// A value as text.
pub fn parquet_value(value: &JsonValue) -> (out: String)
    ensures
        out@ == value_text(value.model()),
{
    match value {
        JsonValue::Null => {
            let s = String::new();
            assert(s@ =~= Seq::<char>::empty());
            s
        },
        JsonValue::Bool(b) => if *b {
            "true".to_owned()
        } else {
            "false".to_owned()
        },
        JsonValue::Number(n) => n.text.clone(),
        JsonValue::Text(s) => s.clone(),
        JsonValue::Array(_, text) => text.clone(),
        JsonValue::Object(_, text) => text.clone(),
    }
}

/// The integer part of the double with the given bits; nothing below zero, and no more than a
/// machine word holds. What is no number counts as zero.
pub open spec fn double_to_u64(bits: u64) -> nat {
    let negative = bits >= 0x8000_0000_0000_0000;
    let exponent = (bits as nat / 0x10_0000_0000_0000) % 2048;
    let fraction = bits as nat % 0x10_0000_0000_0000;
    let significand = (0x10_0000_0000_0000 + fraction) as nat;
    if negative || exponent < 1023 || exponent == 2047 && fraction != 0 {
        0
    } else if exponent >= 1087 {
        u64::MAX as nat
    } else if exponent >= 1075 {
        significand * pow2((exponent - 1075) as nat)
    } else {
        significand / pow2((1075 - exponent) as nat)
    }
}

fn halved(x: u64, k: u64) -> (out: u64)
    ensures
        out == x as nat / pow2(k as nat),
{
    let mut out: u64 = x;
    let mut i: u64 = 0;
    assert(x as nat / pow2(0) == x) by {
        lemma2_to64();
    }
    while i < k
        invariant
            i <= k,
            out == x as nat / pow2(i as nat),
        decreases k - i,
    {
        proof {
            lemma_pow2_pos(i as nat);
            lemma_pow2_unfold((i + 1) as nat);
            lemma_div_denominator(x as int, pow2(i as nat) as int, 2);
            assert(pow2(i as nat) * 2 == pow2((i + 1) as nat));
        }
        out = out / 2;
        i += 1;
    }
    out
}

fn doubled(x: u64, k: u64) -> (out: u64)
    requires
        x < 0x20_0000_0000_0000,
        k <= 11,
    ensures
        out == x as nat * pow2(k as nat),
{
    let mut out: u64 = x;
    let mut i: u64 = 0;
    proof {
        lemma2_to64();
    }
    while i < k
        invariant
            i <= k <= 11,
            x < 0x20_0000_0000_0000,
            out == x as nat * pow2(i as nat),
        decreases k - i,
    {
        proof {
            lemma2_to64();
            lemma_pow2_unfold((i + 1) as nat);
            let p = pow2(i as nat);
            if i < 10 {
                lemma_pow2_strictly_increases(i as nat, 10);
            }
            assert(x as nat * p <= 0x1f_ffff_ffff_ffff * 1024) by (nonlinear_arith)
                requires
                    x <= 0x1f_ffff_ffff_ffff,
                    p <= 1024,
            ;
            assert((x as nat * p) * 2 == x as nat * (2 * p)) by (nonlinear_arith);
        }
        out = out * 2;
        i += 1;
    }
    out
}

/// The integer part of the double with the given bits.
pub fn truncate_double(bits: u64) -> (n: u64)
    ensures
        n == double_to_u64(bits),
{
    let negative = bits >= 0x8000_0000_0000_0000;
    let exponent: u64 = (bits / 0x10_0000_0000_0000) % 2048;
    let fraction: u64 = bits % 0x10_0000_0000_0000;
    let significand: u64 = 0x10_0000_0000_0000 + fraction;
    if negative || exponent < 1023 || (exponent == 2047 && fraction != 0) {
        0
    } else if exponent >= 1087 {
        u64::MAX
    } else if exponent >= 1075 {
        doubled(significand, exponent - 1075)
    } else {
        halved(significand, 1075 - exponent)
    }
}

/// The number that a value stands for: its integer part where it has one, zero where it is none.
pub open spec fn value_u64(value: JsonModel) -> nat {
    match value {
        JsonModel::Number(n) => match (n.unsigned, n.signed, n.double_bits) {
            (Some(u), _, _) => u as nat,
            (None, Some(i), _) if i >= 0 => i as nat,
            (None, _, Some(bits)) => double_to_u64(bits),
            _ => 0,
        },
        JsonModel::Bool(b) => if b {
            1
        } else {
            0
        },
        JsonModel::Text(s) => match parse_unsigned(s, u64::MAX as nat) {
            Some(n) => n,
            None => 0,
        },
        _ => 0,
    }
}

/// The number that a value stands for.
pub fn metadata_value_u64(value: &JsonValue) -> (n: u64)
    ensures
        n == value_u64(value.model()),
{
    match value {
        JsonValue::Number(n) => match n.unsigned {
            Some(u) => u,
            None => {
                match n.signed {
                    Some(i) => if i >= 0 {
                        return i as u64;
                    },
                    None => {},
                }
                match n.double_bits {
                    Some(bits) => truncate_double(bits),
                    None => 0,
                }
            },
        },
        JsonValue::Bool(b) => if *b {
            1
        } else {
            0
        },
        JsonValue::Text(s) => match read_u64(&chars_of(s.as_str())) {
            Some(n) => n,
            None => 0,
        },
        _ => 0,
    }
}

/// Whether a value says yes: a number that is not zero, or a text that says so.
pub open spec fn value_bool(value: JsonModel) -> bool {
    match value {
        JsonModel::Bool(b) => b,
        JsonModel::Number(n) => match (n.signed, n.unsigned, n.double_bits) {
            (Some(i), _, _) => i != 0,
            (None, Some(u), _) => u != 0,
            (None, None, Some(bits)) => bits as nat % 0x8000_0000_0000_0000 != 0,
            _ => false,
        },
        JsonModel::Text(s) => s == "1"@ || s == "true"@ || s == "TRUE"@ || s == "True"@,
        _ => false,
    }
}

/// Whether a value says yes.
pub fn metadata_value_bool(value: &JsonValue) -> (r: bool)
    ensures
        r == value_bool(value.model()),
{
    match value {
        JsonValue::Bool(b) => *b,
        JsonValue::Number(n) => match n.signed {
            Some(i) => i != 0,
            None => match n.unsigned {
                Some(u) => u != 0,
                None => match n.double_bits {
                    Some(bits) => bits % 0x8000_0000_0000_0000 != 0,
                    None => false,
                },
            },
        },
        JsonValue::Text(s) => {
            let s = s.as_str();
            same_str(s, "1") || same_str(s, "true") || same_str(s, "TRUE") || same_str(s, "True")
        },
        _ => false,
    }
}

} // verus!
