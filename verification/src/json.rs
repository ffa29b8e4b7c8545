//! JSON values, and the calls into `serde_json` that read and write them.
use vstd::prelude::*;

use crate::text::{chars_of, str_eq};

verus! {

// ── The model ───────────────────────────────────────────────────────
/// A JSON value. An object is its entries in the order of their keys; a
/// fraction is kept as the sixty-four bits of its double-precision form.
#[verifier::ext_equal]
pub enum Json {
    Null,
    Bool(bool),
    UInt(u64),
    Int(i64),
    Float(u64),
    Text(Seq<char>),
    Array(Seq<Json>),
    Object(Seq<(Seq<char>, Json)>),
}

/// `a` comes before `b` in the order of their characters.
pub open spec fn text_less(a: Seq<char>, b: Seq<char>) -> bool
    decreases a.len(),
{
    if b.len() == 0 {
        false
    } else if a.len() == 0 {
        true
    } else if a[0] != b[0] {
        a[0] < b[0]
    } else {
        text_less(a.drop_first(), b.drop_first())
    }
}

/// The value of the first entry under `key`.
pub open spec fn object_get(o: Seq<(Seq<char>, Json)>, key: Seq<char>) -> Option<Json>
    decreases o.len(),
{
    if o.len() == 0 {
        None
    } else if o[0].0 == key {
        Some(o[0].1)
    } else {
        object_get(o.drop_first(), key)
    }
}

/// The entries with `value` under `key`: in place of an equal key's entry, or
/// before the first greater key.
pub open spec fn object_put(o: Seq<(Seq<char>, Json)>, key: Seq<char>, value: Json) -> Seq<
    (Seq<char>, Json),
>
    decreases o.len(),
{
    if o.len() == 0 {
        seq![(key, value)]
    } else if o[0].0 == key {
        seq![(key, value)] + o.drop_first()
    } else if text_less(key, o[0].0) {
        seq![(key, value)] + o
    } else {
        seq![o[0]] + object_put(o.drop_first(), key, value)
    }
}

/// What is put under a key is found there, and nothing else changes.
pub proof fn lemma_object_put_get(
    o: Seq<(Seq<char>, Json)>,
    key: Seq<char>,
    value: Json,
    other: Seq<char>,
)
    ensures
        object_get(object_put(o, key, value), key) == Some(value),
        other != key ==> object_get(object_put(o, key, value), other) == object_get(o, other),
    decreases o.len(),
{
    let p = object_put(o, key, value);
    if o.len() == 0 {
        assert(p.drop_first() =~= o);
    } else if o[0].0 == key {
        assert(p.drop_first() =~= o.drop_first());
    } else if text_less(key, o[0].0) {
        assert(p.drop_first() =~= o);
    } else {
        assert(p.drop_first() =~= object_put(o.drop_first(), key, value));
        lemma_object_put_get(o.drop_first(), key, value, other);
    }
}

impl Json {
    /// The number, where this is a non-negative integer.
    pub open spec fn uint(self) -> Option<u64> {
        match self {
            Json::UInt(n) => Some(n),
            _ => None,
        }
    }

    /// The truth value, where this is one.
    pub open spec fn boolean(self) -> Option<bool> {
        match self {
            Json::Bool(b) => Some(b),
            _ => None,
        }
    }

    /// The text, where this is a string.
    pub open spec fn text(self) -> Option<Seq<char>> {
        match self {
            Json::Text(s) => Some(s),
            _ => None,
        }
    }

    /// The items, where this is an array.
    pub open spec fn items(self) -> Option<Seq<Json>> {
        match self {
            Json::Array(a) => Some(a),
            _ => None,
        }
    }

    /// The entries, where this is an object.
    pub open spec fn entries(self) -> Option<Seq<(Seq<char>, Json)>> {
        match self {
            Json::Object(o) => Some(o),
            _ => None,
        }
    }

    /// The value under `key`, where this is an object that has the key.
    pub open spec fn field(self, key: Seq<char>) -> Option<Json> {
        match self {
            Json::Object(o) => object_get(o, key),
            _ => None,
        }
    }
}

/// The text that `v` holds.
pub open spec fn text_of(v: Option<Json>) -> Option<Seq<char>> {
    match v {
        Some(j) => j.text(),
        None => None,
    }
}

/// The non-negative integer that `v` holds.
pub open spec fn uint_of(v: Option<Json>) -> Option<u64> {
    match v {
        Some(j) => j.uint(),
        None => None,
    }
}

/// The items of the array that `v` holds.
pub open spec fn items_of(v: Option<Json>) -> Option<Seq<Json>> {
    match v {
        Some(j) => j.items(),
        None => None,
    }
}

/// The entries of the object that `v` holds.
pub open spec fn entries_of(v: Option<Json>) -> Option<Seq<(Seq<char>, Json)>> {
    match v {
        Some(j) => j.entries(),
        None => None,
    }
}

/// The bits are those of a finite double-precision number.
pub open spec fn finite_double(bits: u64) -> bool {
    bits / 0x10_0000_0000_0000 % 0x800 != 0x7ff
}

/// The bits are those of a finite single-precision number.
pub open spec fn finite_single(bits: u32) -> bool {
    bits / 0x80_0000 % 0x100 != 0xff
}

/// How deep arrays and objects nest in `j`.
pub open spec fn nesting(j: Json) -> nat
    decreases j,
{
    match j {
        Json::Array(a) => 1 + nesting_of_items(a),
        Json::Object(o) => 1 + nesting_of_entries(o),
        _ => 0,
    }
}

/// The deepest nesting among the items.
pub open spec fn nesting_of_items(a: Seq<Json>) -> nat
    decreases a,
{
    if a.len() == 0 {
        0
    } else {
        let x = nesting(a.last());
        let y = nesting_of_items(a.drop_last());
        if x > y {
            x
        } else {
            y
        }
    }
}

/// The deepest nesting among the values of the entries.
pub open spec fn nesting_of_entries(o: Seq<(Seq<char>, Json)>) -> nat
    decreases o,
{
    if o.len() == 0 {
        0
    } else {
        let x = nesting(o.last().1);
        let y = nesting_of_entries(o.drop_last());
        if x > y {
            x
        } else {
            y
        }
    }
}

/// No fraction occurs in `j`.
pub open spec fn fraction_free(j: Json) -> bool
    decreases j,
{
    match j {
        Json::Float(_) => false,
        Json::Array(a) => forall|i: int| 0 <= i < a.len() ==> fraction_free(#[trigger] a[i]),
        Json::Object(o) => forall|i: int| 0 <= i < o.len() ==> fraction_free((#[trigger] o[i]).1),
        _ => true,
    }
}

/// No fraction in `j` is as large as ten to the power of three hundred and eight.
pub open spec fn moderate(j: Json) -> bool
    decreases j,
{
    match j {
        Json::Float(bits) => bits % 0x8000_0000_0000_0000 < 0x7fe1_ccf3_85eb_c8a0,
        Json::Array(a) => forall|i: int| 0 <= i < a.len() ==> moderate(#[trigger] a[i]),
        Json::Object(o) => forall|i: int| 0 <= i < o.len() ==> moderate((#[trigger] o[i]).1),
        _ => true,
    }
}

/// A value whose text can be read back.
pub open spec fn storable(j: Json) -> bool {
    moderate(j) && nesting(j) < 128
}

/// The two values differ at most in the bits of their fractions.
pub open spec fn alike(a: Json, b: Json) -> bool
    decreases a,
{
    match a {
        Json::Float(_) => b is Float,
        Json::Array(x) => match b {
            Json::Array(y) => x.len() == y.len() && forall|i: int|
                0 <= i < x.len() ==> alike(#[trigger] x[i], y[i]),
            _ => false,
        },
        Json::Object(x) => match b {
            Json::Object(y) => x.len() == y.len() && forall|i: int|
                0 <= i < x.len() ==> (#[trigger] x[i]).0 == y[i].0 && alike(x[i].1, y[i].1),
            _ => false,
        },
        _ => a == b,
    }
}

/// The entries have the same keys in the same order, and values that differ at most
/// in the bits of their fractions.
pub open spec fn alike_entries(x: Seq<(Seq<char>, Json)>, y: Seq<(Seq<char>, Json)>) -> bool {
    x.len() == y.len() && forall|i: int|
        0 <= i < x.len() ==> (#[trigger] x[i]).0 == y[i].0 && alike(x[i].1, y[i].1)
}

/// Where no fraction occurs, values that are alike are the same.
pub proof fn lemma_alike_exact(a: Json, b: Json)
    requires
        alike(a, b),
        fraction_free(a),
    ensures
        a == b,
    decreases a,
{
    match a {
        Json::Array(x) => {
            let y = b->Array_0;
            assert forall|i: int| 0 <= i < x.len() implies x[i] == y[i] by {
                lemma_alike_exact(x[i], y[i]);
            }
            assert(x =~= y);
        },
        Json::Object(x) => {
            let y = b->Object_0;
            assert forall|i: int| 0 <= i < x.len() implies x[i] == y[i] by {
                lemma_alike_exact(x[i].1, y[i].1);
            }
            assert(x =~= y);
        },
        _ => {},
    }
}

/// What stands under a key in entries that are alike is alike.
pub proof fn lemma_alike_get(
    x: Seq<(Seq<char>, Json)>,
    y: Seq<(Seq<char>, Json)>,
    key: Seq<char>,
)
    requires
        alike_entries(x, y),
    ensures
        match object_get(x, key) {
            Some(v) => object_get(y, key) matches Some(w) && alike(v, w),
            None => object_get(y, key) is None,
        },
    decreases x.len(),
{
    if x.len() > 0 {
        assert(x[0].0 == y[0].0);
        if x[0].0 != key {
            let (p, q) = (x.drop_first(), y.drop_first());
            assert forall|i: int| 0 <= i < p.len() implies (#[trigger] p[i]).0 == q[i].0 && alike(
                p[i].1,
                q[i].1,
            ) by {
                assert(p[i] == x[i + 1]);
            }
            lemma_alike_get(p, q, key);
        }
    }
}

/// The entries put into an empty object one after the other, each value in its
/// normal form.
pub open spec fn normal_entries(o: Seq<(Seq<char>, Json)>) -> Seq<(Seq<char>, Json)>
    decreases o,
{
    if o.len() == 0 {
        Seq::empty()
    } else {
        object_put(normal_entries(o.drop_last()), o.last().0, normal(o.last().1))
    }
}

/// The value with the entries of every object in key order, each key once, and
/// without numbers that are not finite.
pub open spec fn normal(j: Json) -> Json
    decreases j,
{
    match j {
        Json::Float(bits) => if finite_double(bits) {
            j
        } else {
            Json::Null
        },
        Json::Int(n) => if n >= 0 {
            Json::UInt(n as u64)
        } else {
            j
        },
        Json::Array(a) => Json::Array(
            Seq::new(
                a.len(),
                |i: int|
                    if 0 <= i < a.len() {
                        normal(a[i])
                    } else {
                        Json::Null
                    },
            ),
        ),
        Json::Object(o) => Json::Object(normal_entries(o)),
        _ => j,
    }
}

// ── Executable values ───────────────────────────────────────────────
/// A JSON value. `Int` holds the negative integers, and `Float` the bits of a
/// double-precision number.
#[derive(Debug)]
pub enum JsonValue {
    Null,
    Bool(bool),
    UInt(u64),
    Int(i64),
    Float(u64),
    Text(String),
    Array(Vec<JsonValue>),
    Object(Vec<(String, JsonValue)>),
}

/// What a JSON value stands for.
pub open spec fn model_of(x: JsonValue) -> Json
    decreases x,
{
    match x {
        JsonValue::Null => Json::Null,
        JsonValue::Bool(b) => Json::Bool(b),
        JsonValue::UInt(n) => Json::UInt(n),
        JsonValue::Int(n) => Json::Int(n),
        JsonValue::Float(bits) => Json::Float(bits),
        JsonValue::Text(s) => Json::Text(s@),
        JsonValue::Array(v) => Json::Array(
            Seq::new(
                v@.len(),
                |i: int|
                    if 0 <= i < v@.len() {
                        model_of(v@[i])
                    } else {
                        Json::Null
                    },
            ),
        ),
        JsonValue::Object(v) => Json::Object(
            Seq::new(
                v@.len(),
                |i: int|
                    if 0 <= i < v@.len() {
                        (v@[i].0@, model_of(v@[i].1))
                    } else {
                        (Seq::empty(), Json::Null)
                    },
            ),
        ),
    }
}

impl View for JsonValue {
    type V = Json;

    open spec fn view(&self) -> Json {
        model_of(*self)
    }
}

/// The models of a row of values.
pub open spec fn models(v: Seq<JsonValue>) -> Seq<Json> {
    Seq::new(v.len(), |i: int| v[i]@)
}

/// The models of a row of entries.
pub open spec fn entry_models(v: Seq<(String, JsonValue)>) -> Seq<(Seq<char>, Json)> {
    Seq::new(v.len(), |i: int| (v[i].0@, v[i].1@))
}

/// A row that grows by one grows its models by one.
pub proof fn lemma_models_push(v: Seq<JsonValue>, x: JsonValue)
    ensures
        models(v.push(x)) == models(v).push(x@),
{
    assert(models(v.push(x)) =~= models(v).push(x@));
}

/// A row of entries that grows by one grows its models by one.
pub proof fn lemma_entry_models_push(v: Seq<(String, JsonValue)>, x: (String, JsonValue))
    ensures
        entry_models(v.push(x)) == entry_models(v).push((x.0@, x.1@)),
{
    assert(entry_models(v.push(x)) =~= entry_models(v).push((x.0@, x.1@)));
}

/// A value of either kind shows the models of what it holds.
pub broadcast proof fn lemma_view(v: JsonValue)
    ensures
        #![trigger v.view()]
        v matches JsonValue::Array(a) ==> v@ == Json::Array(models(a@)),
        v matches JsonValue::Object(o) ==> v@ == Json::Object(entry_models(o@)),
{
    match v {
        JsonValue::Array(a) => {
            assert(v@->Array_0 =~= models(a@));
        },
        JsonValue::Object(o) => {
            assert(v@->Object_0 =~= entry_models(o@));
        },
        _ => {},
    }
}

/// Whether `a` comes before `b` in the order of their characters.
pub fn str_less(a: &str, b: &str) -> (r: bool)
    ensures
        r == text_less(a@, b@),
{
    let x = chars_of(a);
    let y = chars_of(b);
    let mut i: usize = 0;
    assert(a@.skip(0) =~= a@);
    assert(b@.skip(0) =~= b@);
    while i < x.len() && i < y.len()
        invariant
            i <= x@.len(),
            i <= y@.len(),
            x@ == a@,
            y@ == b@,
            text_less(a@, b@) == text_less(a@.skip(i as int), b@.skip(i as int)),
        decreases x@.len() - i,
    {
        proof {
            assert(a@.skip(i as int).drop_first() =~= a@.skip(i + 1));
            assert(b@.skip(i as int).drop_first() =~= b@.skip(i + 1));
        }
        if x[i] != y[i] {
            return x[i] < y[i];
        }
        i += 1;
    }
    i < y.len()
}

/// Puts `value` under `key`.
pub fn object_insert(o: &mut Vec<(String, JsonValue)>, key: String, value: JsonValue)
    ensures
        entry_models(final(o)@) == object_put(entry_models(old(o)@), key@, value@),
{
    let mut i: usize = 0;
    let ghost all = entry_models(o@);
    assert(all.skip(0) =~= all);
    assert(all.take(0) + object_put(all.skip(0), key@, value@) =~= object_put(all, key@, value@));
    while i < o.len()
        invariant
            i <= o@.len(),
            o@ == old(o)@,
            all == entry_models(old(o)@),
            object_put(all, key@, value@) == all.take(i as int) + object_put(
                all.skip(i as int),
                key@,
                value@,
            ),
        decreases o@.len() - i,
    {
        let ghost rest = all.skip(i as int);
        proof {
            assert(rest[0] == (o@[i as int].0@, o@[i as int].1@));
            assert(rest.drop_first() =~= all.skip(i + 1));
        }
        if o[i].0 == key {
            o.set(i, (key, value));
            assert(entry_models(o@) =~= all.take(i as int) + (seq![(key@, value@)]
                + rest.drop_first()));
            return ;
        }
        if str_less(key.as_str(), o[i].0.as_str()) {
            o.insert(i, (key, value));
            assert(entry_models(o@) =~= all.take(i as int) + (seq![(key@, value@)] + rest));
            return ;
        }
        assert(all.take(i as int) + (seq![rest[0]] + object_put(all.skip(i + 1), key@, value@))
            =~= all.take(i + 1) + object_put(all.skip(i + 1), key@, value@));
        i += 1;
    }
    o.push((key, value));
    assert(all.skip(i as int) =~= Seq::empty());
    assert(entry_models(o@) =~= all.take(i as int) + seq![(key@, value@)]);
}

/// The value of the first entry under `key`.
pub fn object_find<'a>(o: &'a Vec<(String, JsonValue)>, key: &str) -> (r: Option<&'a JsonValue>)
    ensures
        match r {
            Some(v) => object_get(entry_models(o@), key@) == Some(v@),
            None => object_get(entry_models(o@), key@) is None,
        },
{
    let mut i: usize = 0;
    let ghost all = entry_models(o@);
    assert(all.skip(0) =~= all);
    while i < o.len()
        invariant
            i <= o@.len(),
            all == entry_models(o@),
            object_get(all, key@) == object_get(all.skip(i as int), key@),
        decreases o@.len() - i,
    {
        proof {
            assert(all.skip(i as int)[0] == (o@[i as int].0@, o@[i as int].1@));
            assert(all.skip(i as int).drop_first() =~= all.skip(i + 1));
        }
        if str_eq(o[i].0.as_str(), key) {
            return Some(&o[i].1);
        }
        i += 1;
    }
    None
}

/// A copy of the entries.
pub fn object_copy(o: &Vec<(String, JsonValue)>) -> (r: Vec<(String, JsonValue)>)
    ensures
        entry_models(r@) == entry_models(o@),
    decreases o,
{
    let mut out: Vec<(String, JsonValue)> = Vec::new();
    let mut i: usize = 0;
    while i < o.len()
        invariant
            i <= o@.len(),
            entry_models(out@) == entry_models(o@).take(i as int),
        decreases o@.len() - i,
    {
        let k = o[i].0.clone();
        let v = o[i].1.copy();
        proof {
            lemma_entry_models_push(out@, (k, v));
            assert(entry_models(o@).take(i + 1) =~= entry_models(o@).take(i as int).push(
                entry_models(o@)[i as int],
            ));
        }
        out.push((k, v));
        i += 1;
    }
    assert(entry_models(o@).take(i as int) =~= entry_models(o@));
    out
}

impl JsonValue {
    /// A copy of the value.
    pub fn copy(&self) -> (r: JsonValue)
        ensures
            r@ == self@,
        decreases self,
    {
        broadcast use lemma_view;

        match self {
            JsonValue::Null => JsonValue::Null,
            JsonValue::Bool(b) => JsonValue::Bool(*b),
            JsonValue::UInt(n) => JsonValue::UInt(*n),
            JsonValue::Int(n) => JsonValue::Int(*n),
            JsonValue::Float(bits) => JsonValue::Float(*bits),
            JsonValue::Text(s) => JsonValue::Text(s.clone()),
            JsonValue::Array(a) => {
                let mut out: Vec<JsonValue> = Vec::new();
                let mut i: usize = 0;
                while i < a.len()
                    invariant
                        i <= a@.len(),
                        models(out@) == models(a@).take(i as int),
                        self matches JsonValue::Array(x) && x == a,
                    decreases a@.len() - i,
                {
                    let v = a[i].copy();
                    proof {
                        lemma_models_push(out@, v);
                        assert(models(a@).take(i + 1) =~= models(a@).take(i as int).push(
                            models(a@)[i as int],
                        ));
                    }
                    out.push(v);
                    i += 1;
                }
                assert(models(a@).take(i as int) =~= models(a@));
                JsonValue::Array(out)
            },
            JsonValue::Object(o) => JsonValue::Object(object_copy(o)),
        }
    }

    /// The number, where this is a non-negative integer.
    pub fn as_u64(&self) -> (r: Option<u64>)
        ensures
            r == self@.uint(),
    {
        match self {
            JsonValue::UInt(n) => Some(*n),
            _ => None,
        }
    }

    /// The truth value, where this is one.
    pub fn as_bool(&self) -> (r: Option<bool>)
        ensures
            r == self@.boolean(),
    {
        match self {
            JsonValue::Bool(b) => Some(*b),
            _ => None,
        }
    }

    /// The text, where this is a string.
    pub fn as_str(&self) -> (r: Option<&str>)
        ensures
            match r {
                Some(s) => self@.text() == Some(s@),
                None => self@.text() is None,
            },
    {
        match self {
            JsonValue::Text(s) => Some(s.as_str()),
            _ => None,
        }
    }

    /// The items, where this is an array.
    pub fn as_array(&self) -> (r: Option<&Vec<JsonValue>>)
        ensures
            match r {
                Some(a) => self@.items() == Some(models(a@)),
                None => self@.items() is None,
            },
    {
        broadcast use lemma_view;

        match self {
            JsonValue::Array(a) => Some(a),
            _ => None,
        }
    }

    /// The entries, where this is an object.
    pub fn as_object(&self) -> (r: Option<&Vec<(String, JsonValue)>>)
        ensures
            match r {
                Some(o) => self@.entries() == Some(entry_models(o@)),
                None => self@.entries() is None,
            },
    {
        broadcast use lemma_view;

        match self {
            JsonValue::Object(o) => Some(o),
            _ => None,
        }
    }

    /// The value under `key`, where this is an object that has the key.
    pub fn get(&self, key: &str) -> (r: Option<&JsonValue>)
        ensures
            match r {
                Some(v) => self@.field(key@) == Some(v@),
                None => self@.field(key@) is None,
            },
    {
        match self.as_object() {
            Some(o) => object_find(o, key),
            None => None,
        }
    }
}

/// Keys stand in the order of their characters: of two the one whose first different
/// character is the smaller comes before the other, and a beginning before the whole.
pub proof fn lemma_text_order(a: Seq<char>, b: Seq<char>, c: Seq<char>, x: char, y: char)
    ensures
        !text_less(a, a),
        !text_less(a + b, a),
        b.len() > 0 ==> text_less(a, a + b),
        x < y ==> text_less(a + (seq![x] + b), a + (seq![y] + c)),
        x < y ==> !text_less(a + (seq![y] + c), a + (seq![x] + b)),
    decreases a.len(),
{
    let (p, q) = (seq![x] + b, seq![y] + c);
    if a.len() == 0 {
        assert(a + b =~= b && a + p =~= p && a + q =~= q);
    } else {
        let t = a.drop_first();
        lemma_text_order(t, b, c, x, y);
        assert((a + b).drop_first() =~= t + b);
        assert((a + p).drop_first() =~= t + p);
        assert((a + q).drop_first() =~= t + q);
    }
}

} // verus!
