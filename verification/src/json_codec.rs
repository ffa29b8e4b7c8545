//! JSON text: the calls into `serde_json`, and values to and from its own type.
use vstd::arithmetic::power2::pow2;
use vstd::prelude::*;
use vstd::utf8::encode_utf8;

use crate::bytes::{
    le32, le32_bytes, le64, le64_bytes, lemma_le32_roundtrip, lemma_le64_roundtrip, put_u32,
    put_u64,
};
use crate::json::{
    alike, entry_models, finite_single, lemma_entry_models_push, lemma_models_push, lemma_view,
    models, normal, normal_entries, object_put, storable, Json, JsonValue,
};

verus! {

// ── serde_json's types ──────────────────────────────────────────────
/// `serde_json::Value`.
#[verifier::external_type_specification]
#[verifier::external_body]
pub struct ExValue(serde_json::Value);

/// `serde_json::Map`.
#[verifier::external_type_specification]
#[verifier::external_body]
#[verifier::reject_recursive_types(K)]
#[verifier::reject_recursive_types(V)]
pub struct ExMap<K, V>(serde_json::Map<K, V>);

/// What a `serde_json::Value` holds.
pub uninterp spec fn json_model(v: serde_json::Value) -> Json;

/// What a `serde_json::Map` holds, in the order in which it is walked.
pub uninterp spec fn json_entries(
    m: serde_json::Map<String, serde_json::Value>,
) -> Seq<(Seq<char>, Json)>;

/// What `serde_json::from_slice` reads out of the bytes of a document: the
/// value, or the text of the error.
pub uninterp spec fn json_document(data: Seq<u8>) -> Result<Json, Seq<char>>;

/// The compact text that `serde_json` writes for a value.
pub uninterp spec fn json_text(j: Json) -> Seq<char>;

/// The indented text that `serde_json` writes for a value.
pub uninterp spec fn json_pretty_text(j: Json) -> Seq<char>;

/// The place of the highest bit of a positive number.
pub open spec fn top_bit(n: nat) -> nat
    decreases n,
{
    if n <= 1 {
        0
    } else {
        1 + top_bit(n / 2)
    }
}

/// The bits of a finite single-precision number in double precision: the sign, the
/// exponent moved to the wider range, and the fraction with zeros behind it. A
/// number below the normal ones of single precision is a normal one of double
/// precision.
pub open spec fn widened(bits: u32) -> u64 {
    let sign = bits as int / 0x8000_0000;
    let exponent = bits as int / 0x80_0000 % 0x100;
    let fraction = bits as int % 0x80_0000;
    let magnitude = if exponent > 0 {
        (exponent + 896) * 0x10_0000_0000_0000 + fraction * 0x2000_0000
    } else if fraction > 0 {
        let k = top_bit(fraction as nat);
        (k + 874) * 0x10_0000_0000_0000 + (fraction - pow2(k)) * pow2((52 - k) as nat)
    } else {
        0
    };
    (sign * 0x8000_0000_0000_0000 + magnitude) as u64
}

/// The models of a row of values.
pub open spec fn value_models(v: Seq<serde_json::Value>) -> Seq<Json> {
    Seq::new(v.len(), |i: int| json_model(v[i]))
}

/// The models of the entries of a map.
pub open spec fn pair_models(v: Seq<(&String, &serde_json::Value)>) -> Seq<(Seq<char>, Json)> {
    Seq::new(v.len(), |i: int| (v[i].0@, json_model(*v[i].1)))
}

/// The bytes are those of a document that reads as `j`.
pub open spec fn reads_as(data: Seq<u8>, j: Json) -> bool {
    json_document(data) == Ok::<Json, Seq<char>>(j)
}

/// The bytes are no document, and `e` is the text of the error.
pub open spec fn fails_as(data: Seq<u8>, e: Seq<char>) -> bool {
    json_document(data) == Err::<Json, Seq<char>>(e)
}

/// The bytes are those of a document that reads as a value like `j`.
pub open spec fn reads_like(data: Seq<u8>, j: Json) -> bool {
    json_document(data) matches Ok(k) && alike(j, k)
}

// ── Reading ─────────────────────────────────────────────────────────
/// `serde_json::from_slice`, which reads a document of JSON text. The value or
/// the error's text is a function of the bytes.
#[verifier::external_body]
fn read_document(data: &[u8]) -> (r: Result<serde_json::Value, String>)
    ensures
        match json_document(data@) {
            Ok(j) => r matches Ok(v) && json_model(v) == j,
            Err(text) => r matches Err(e) && e@ == text,
        },
{
    serde_json::from_slice::<serde_json::Value>(data).map_err(|e| e.to_string())
}

/// `serde_json::Value::as_bool`: the truth value of a boolean, `None` of
/// anything else.
#[verifier::external_body]
fn value_bool(v: &serde_json::Value) -> (r: Option<bool>)
    ensures
        r == json_model(*v).boolean(),
{
    v.as_bool()
}

/// `serde_json::Value::as_u64`: the number of a non-negative integer, `None`
/// of anything else.
#[verifier::external_body]
fn value_u64(v: &serde_json::Value) -> (r: Option<u64>)
    ensures
        r == json_model(*v).uint(),
{
    v.as_u64()
}

/// `serde_json::Value::as_i64`: the number of an integer that fits, `None` of
/// anything else.
#[verifier::external_body]
fn value_i64(v: &serde_json::Value) -> (r: Option<i64>)
    ensures
        r == match json_model(*v) {
            Json::UInt(n) => if n <= i64::MAX {
                Some(n as i64)
            } else {
                None
            },
            Json::Int(n) => Some(n),
            _ => None,
        },
{
    v.as_i64()
}

/// `serde_json::Value::as_f64`, by its bits, of what is no integer: those of a
/// fraction, `None` of anything else.
#[verifier::external_body]
fn value_double(v: &serde_json::Value) -> (r: Option<u64>)
    requires
        !(json_model(*v) is UInt),
        !(json_model(*v) is Int),
    ensures
        r == match json_model(*v) {
            Json::Float(bits) => Some(bits),
            _ => None,
        },
{
    match v.as_f64() {
        Some(x) => Some(x.to_bits()),
        None => None,
    }
}

/// `serde_json::Value::as_str`: the text of a string, `None` of anything else.
#[verifier::external_body]
fn value_str(v: &serde_json::Value) -> (r: Option<&str>)
    ensures
        match r {
            Some(s) => json_model(*v) == Json::Text(s@),
            None => json_model(*v).text() is None,
        },
{
    v.as_str()
}

/// `serde_json::Value::as_array`: the items of an array, `None` of anything
/// else.
#[verifier::external_body]
fn value_array(v: &serde_json::Value) -> (r: Option<&Vec<serde_json::Value>>)
    ensures
        match r {
            Some(a) => json_model(*v) == Json::Array(value_models(a@)),
            None => json_model(*v).items() is None,
        },
{
    v.as_array()
}

/// `serde_json::Value::as_object`: the map of an object, `None` of anything
/// else.
#[verifier::external_body]
fn value_object(v: &serde_json::Value) -> (r: Option<&serde_json::Map<String, serde_json::Value>>)
    ensures
        match r {
            Some(m) => json_model(*v) == Json::Object(json_entries(*m)),
            None => json_model(*v).entries() is None,
        },
{
    v.as_object()
}

/// `serde_json::Map::iter`: every entry, in the order of the keys.
#[verifier::external_body]
fn map_entries(m: &serde_json::Map<String, serde_json::Value>) -> (r: Vec<
    (&String, &serde_json::Value),
>)
    ensures
        pair_models(r@) == json_entries(*m),
{
    m.iter().collect()
}

/// The library's value for one of `serde_json`.
fn from_value(v: &serde_json::Value) -> (r: JsonValue)
    ensures
        r@ == json_model(*v),
    decreases json_model(*v),
{
    broadcast use lemma_view;

    if let Some(b) = value_bool(v) {
        return JsonValue::Bool(b);
    }
    if let Some(n) = value_u64(v) {
        return JsonValue::UInt(n);
    }
    if let Some(n) = value_i64(v) {
        return JsonValue::Int(n);
    }
    if let Some(bits) = value_double(v) {
        return JsonValue::Float(bits);
    }
    if let Some(s) = value_str(v) {
        return JsonValue::Text(s.to_owned());
    }
    if let Some(a) = value_array(v) {
        let mut out: Vec<JsonValue> = Vec::new();
        let mut i: usize = 0;
        while i < a.len()
            invariant
                i <= a@.len(),
                json_model(*v) == Json::Array(value_models(a@)),
                models(out@) == value_models(a@).take(i as int),
            decreases a@.len() - i,
        {
            assert(decreases_to!(json_model(*v) => json_model(*v)->Array_0[i as int]));
            let x = from_value(&a[i]);
            proof {
                lemma_models_push(out@, x);
                assert(value_models(a@).take(i + 1) =~= value_models(a@).take(i as int).push(x@));
            }
            out.push(x);
            i += 1;
        }
        assert(value_models(a@).take(i as int) =~= value_models(a@));
        return JsonValue::Array(out);
    }
    if let Some(m) = value_object(v) {
        let e = map_entries(m);
        let mut out: Vec<(String, JsonValue)> = Vec::new();
        let mut i: usize = 0;
        while i < e.len()
            invariant
                i <= e@.len(),
                json_model(*v) == Json::Object(pair_models(e@)),
                entry_models(out@) == pair_models(e@).take(i as int),
            decreases e@.len() - i,
        {
            assert(decreases_to!(json_model(*v) => json_model(*v)->Object_0[i as int].1));
            let k = e[i].0.clone();
            let x = from_value(e[i].1);
            proof {
                lemma_entry_models_push(out@, (k, x));
                assert(pair_models(e@).take(i + 1) =~= pair_models(e@).take(i as int).push(
                    (k@, x@),
                ));
            }
            out.push((k, x));
            i += 1;
        }
        assert(pair_models(e@).take(i as int) =~= pair_models(e@));
        return JsonValue::Object(out);
    }
    JsonValue::Null
}

/// Reads the bytes of a JSON document.
pub fn parse_json(data: &[u8]) -> (r: Result<JsonValue, String>)
    ensures
        match r {
            Ok(v) => reads_as(data@, v@),
            Err(e) => fails_as(data@, e@),
        },
{
    match read_document(data) {
        Ok(v) => Ok(from_value(&v)),
        Err(e) => Err(e),
    }
}

// ── Writing ─────────────────────────────────────────────────────────
/// `serde_json::Value::Null`.
#[verifier::external_body]
fn null_value() -> (r: serde_json::Value)
    ensures
        json_model(r) == Json::Null,
{
    serde_json::Value::Null
}

/// `serde_json::Value::Bool`.
#[verifier::external_body]
fn bool_value(b: bool) -> (r: serde_json::Value)
    ensures
        json_model(r) == Json::Bool(b),
{
    serde_json::Value::Bool(b)
}

/// `serde_json::Value::from` of a `u64`: that number.
#[verifier::external_body]
fn u64_value(n: u64) -> (r: serde_json::Value)
    ensures
        json_model(r) == Json::UInt(n),
{
    serde_json::Value::from(n)
}

/// `serde_json::Value::from` of an `i64`: that number.
#[verifier::external_body]
fn i64_value(n: i64) -> (r: serde_json::Value)
    ensures
        json_model(r) == normal(Json::Int(n)),
{
    serde_json::Value::from(n)
}

/// `serde_json::Value::from` of the double-precision number that
/// `byteorder::LittleEndian::read_f64` makes of the bytes, low byte first: that
/// number where it is finite, else null.
#[verifier::external_body]
fn double_value(b: &[u8]) -> (r: serde_json::Value)
    requires
        b@.len() == 8,
    ensures
        json_model(r) == normal(Json::Float(le64(b@, 0))),
{
    serde_json::Value::from(<byteorder::LittleEndian as byteorder::ByteOrder>::read_f64(b))
}

/// `serde_json::Value::from` of the single-precision number that
/// `byteorder::LittleEndian::read_f32` makes of the bytes, low byte first: that
/// number in double precision where it is finite, else null.
#[verifier::external_body]
fn single_value(b: &[u8]) -> (r: serde_json::Value)
    requires
        b@.len() == 4,
    ensures
        json_model(r) == (if finite_single(le32(b@, 0)) {
            Json::Float(widened(le32(b@, 0)))
        } else {
            Json::Null
        }),
{
    serde_json::Value::from(<byteorder::LittleEndian as byteorder::ByteOrder>::read_f32(b))
}

/// `serde_json::Value::String`.
#[verifier::external_body]
fn string_value(s: String) -> (r: serde_json::Value)
    ensures
        json_model(r) == Json::Text(s@),
{
    serde_json::Value::String(s)
}

/// `serde_json::Value::Array`.
#[verifier::external_body]
fn array_value(a: Vec<serde_json::Value>) -> (r: serde_json::Value)
    ensures
        json_model(r) == Json::Array(value_models(a@)),
{
    serde_json::Value::Array(a)
}

/// `serde_json::Value::Object`.
#[verifier::external_body]
fn object_value(m: serde_json::Map<String, serde_json::Value>) -> (r: serde_json::Value)
    ensures
        json_model(r) == Json::Object(json_entries(m)),
{
    serde_json::Value::Object(m)
}

/// `serde_json::Map::new`: a map without entries.
#[verifier::external_body]
fn map_new() -> (r: serde_json::Map<String, serde_json::Value>)
    ensures
        json_entries(r) == Seq::<(Seq<char>, Json)>::empty(),
{
    serde_json::Map::new()
}

/// `serde_json::Map::insert`: the value stands under the key, in place of an
/// earlier one, and the entries stay in key order.
#[verifier::external_body]
fn map_insert(
    m: &mut serde_json::Map<String, serde_json::Value>,
    key: String,
    value: serde_json::Value,
)
    ensures
        json_entries(*final(m)) == object_put(json_entries(*old(m)), key@, json_model(value)),
{
    m.insert(key, value);
}

/// The value of `serde_json` for one of the library.
fn to_value(j: &JsonValue) -> (r: serde_json::Value)
    ensures
        json_model(r) == normal(j@),
    decreases j,
{
    broadcast use lemma_view;

    match j {
        JsonValue::Null => null_value(),
        JsonValue::Bool(b) => bool_value(*b),
        JsonValue::UInt(n) => u64_value(*n),
        JsonValue::Int(n) => i64_value(*n),
        JsonValue::Float(bits) => {
            let mut b: Vec<u8> = Vec::new();
            put_u64(&mut b, *bits);
            proof {
                assert(b@.subrange(0, 8) =~= le64_bytes(*bits));
                lemma_le64_roundtrip(b@, 0, *bits);
            }
            double_value(b.as_slice())
        },
        JsonValue::Text(s) => string_value(s.clone()),
        JsonValue::Array(a) => {
            let mut out: Vec<serde_json::Value> = Vec::new();
            let mut i: usize = 0;
            while i < a.len()
                invariant
                    i <= a@.len(),
                    out@.len() == i,
                    forall|k: int| 0 <= k < i ==> json_model(#[trigger] out@[k]) == normal(a@[k]@),
                    j matches JsonValue::Array(x) && x == a,
                decreases a@.len() - i,
            {
                let x = to_value(&a[i]);
                out.push(x);
                i += 1;
            }
            assert(value_models(out@) =~= normal(j@)->Array_0);
            array_value(out)
        },
        JsonValue::Object(o) => object_value(to_map(o)),
    }
}

/// The map of `serde_json` for the entries of an object.
fn to_map(o: &Vec<(String, JsonValue)>) -> (m: serde_json::Map<String, serde_json::Value>)
    ensures
        json_entries(m) == normal_entries(entry_models(o@)),
    decreases o,
{
    let mut m = map_new();
    let mut i: usize = 0;
    assert(entry_models(o@).take(0) =~= Seq::empty());
    while i < o.len()
        invariant
            i <= o@.len(),
            json_entries(m) == normal_entries(entry_models(o@).take(i as int)),
        decreases o@.len() - i,
    {
        let x = to_value(&o[i].1);
        proof {
            let t = entry_models(o@).take(i + 1);
            assert(t.drop_last() =~= entry_models(o@).take(i as int));
            assert(t.last() == (o@[i as int].0@, o@[i as int].1@));
        }
        map_insert(&mut m, o[i].0.clone(), x);
        i += 1;
    }
    assert(entry_models(o@).take(i as int) =~= entry_models(o@));
    m
}

/// `serde_json::Value::to_string`: the compact text. Where nothing nests deeper than
/// the reader allows and no fraction comes near the largest, the reader gives the
/// value back, its fractions as fractions: their bits may differ, as the reader
/// rounds them in its own way. What the text looks like is left unsaid but for its
/// name.
#[verifier::external_body]
fn write_compact(v: &serde_json::Value) -> (r: String)
    ensures
        r@ == json_text(json_model(*v)),
        storable(json_model(*v)) ==> reads_like(encode_utf8(r@), json_model(*v)),
{
    v.to_string()
}

/// `serde_json::to_string_pretty`: the indented text, which is always written.
/// What it looks like is left unsaid but for its name.
#[verifier::external_body]
fn write_pretty(v: &serde_json::Value) -> (r: String)
    ensures
        r@ == json_pretty_text(json_model(*v)),
{
    serde_json::to_string_pretty(v).unwrap_or_default()
}

/// The compact text of a value.
pub fn json_to_string(j: &JsonValue) -> (r: String)
    ensures
        r@ == json_text(normal(j@)),
        storable(normal(j@)) ==> reads_like(encode_utf8(r@), normal(j@)),
{
    write_compact(&to_value(j))
}

/// The indented text of a value.
pub fn json_to_string_pretty(j: &JsonValue) -> (r: String)
    ensures
        r@ == json_pretty_text(normal(j@)),
{
    write_pretty(&to_value(j))
}

/// The JSON value of the single-precision number whose bits are given.
pub fn json_single(bits: u32) -> (r: JsonValue)
    ensures
        r@ == single_model(bits),
{
    let mut b: Vec<u8> = Vec::new();
    put_u32(&mut b, bits);
    proof {
        assert(b@.subrange(0, 4) =~= le32_bytes(bits));
        lemma_le32_roundtrip(b@, 0, bits);
    }
    from_value(&single_value(b.as_slice()))
}

/// What a single-precision number is in JSON: null where it is not finite.
pub open spec fn single_model(bits: u32) -> Json {
    if finite_single(bits) {
        Json::Float(widened(bits))
    } else {
        Json::Null
    }
}

} // verus!
