//! SafeTensors files: their header, and what they become as `.axon` files.
use vstd::prelude::*;

use crate::builder::{added, built, empty_draft, faithful, lemma_build_keeps, AxonBuilder, Draft};
use crate::bytes::{get_u64, le64, slice, to_vec};
use crate::container::{open_file, payload_of, Opened};
use crate::error::{clamp, eof, AxonError, AxonResult, Failure};
use crate::json::{
    entry_models, items_of, models, object_find, object_get, object_insert, object_put, text_of,
    Json, JsonValue,
};
use crate::json_codec::{json_document, parse_json};
use crate::runtime::outcome;
use crate::slices::copy_u64;
use crate::tensor::{dtype_name, dtype_size, DType};
use crate::text::{concat2, decimal_text, str_eq};

verus! {

// ── The model ───────────────────────────────────────────────────────
/// A tensor of a SafeTensors file.
#[verifier::ext_equal]
pub struct SafeTensor {
    pub name: Seq<char>,
    pub dtype: DType,
    pub shape: Seq<u64>,
    pub data_offset: u64,
    pub data_size: u64,
}

/// What the header of a SafeTensors file holds.
#[verifier::ext_equal]
pub struct SafeHeader {
    pub metadata: Seq<(Seq<char>, Json)>,
    pub tensors: Seq<SafeTensor>,
}

/// The element type that a name stands for.
pub open spec fn dtype_named(s: Seq<char>) -> Option<DType> {
    if s == "F32"@ || s == "float32"@ {
        Some(DType::F32)
    } else if s == "F16"@ || s == "float16"@ || s == "half"@ {
        Some(DType::F16)
    } else if s == "BF16"@ || s == "bfloat16"@ {
        Some(DType::BF16)
    } else if s == "I32"@ || s == "int32"@ {
        Some(DType::I32)
    } else if s == "I64"@ || s == "int64"@ {
        Some(DType::I64)
    } else if s == "I8"@ || s == "int8"@ {
        Some(DType::I8)
    } else if s == "U8"@ || s == "uint8"@ {
        Some(DType::U8)
    } else {
        None
    }
}

/// The number at a place of a list, zero where there is none.
pub open spec fn number_at(a: Seq<Json>, i: int) -> u64 {
    if 0 <= i < a.len() {
        match a[i].uint() {
            Some(n) => n,
            None => 0,
        }
    } else {
        0
    }
}

/// The dimensions that a list states. What is no number counts one.
pub open spec fn dimensions(a: Seq<Json>) -> Seq<u64> {
    Seq::new(
        a.len(),
        |i: int|
            match a[i].uint() {
                Some(n) => n,
                None => 1,
            },
    )
}

/// The tensor that an entry of the header states, its data behind `base`, or why
/// it states none.
pub open spec fn entry_tensor(
    name: Seq<char>,
    entry: Seq<(Seq<char>, Json)>,
    base: int,
) -> Result<SafeTensor, Failure> {
    let offsets = items_of(object_get(entry, "data_offsets"@));
    if text_of(object_get(entry, "dtype"@)) is None {
        Err(Failure::InvalidManifest(name + ": missing dtype"@))
    } else if items_of(object_get(entry, "shape"@)) is None {
        Err(Failure::InvalidManifest(name + ": missing shape"@))
    } else if offsets is None {
        Err(Failure::InvalidManifest(name + ": missing data_offsets"@))
    } else if dtype_named(text_of(object_get(entry, "dtype"@))->0) is None {
        Err(Failure::InvalidDtype(0))
    } else {
        let (begin, end) = (number_at(offsets->0, 0), number_at(offsets->0, 1));
        if end < begin || base + begin > u64::MAX {
            Err(Failure::InvalidManifest(name + ": data_offsets out of range"@))
        } else {
            Ok(
                SafeTensor {
                    name,
                    dtype: dtype_named(text_of(object_get(entry, "dtype"@))->0)->0,
                    shape: dimensions(items_of(object_get(entry, "shape"@))->0),
                    data_offset: (base + begin) as u64,
                    data_size: (end - begin) as u64,
                },
            )
        }
    }
}

/// The entries put one after the other.
pub open spec fn put_all(
    into: Seq<(Seq<char>, Json)>,
    from: Seq<(Seq<char>, Json)>,
    k: int,
) -> Seq<(Seq<char>, Json)>
    decreases from.len() - k,
{
    if k >= from.len() {
        into
    } else {
        put_all(object_put(into, from[k].0, from[k].1), from, k + 1)
    }
}

/// What the entries of the header state from the `k`th on, behind what was
/// gathered. Entries that state no tensor are passed over.
pub open spec fn gathered(
    entries: Seq<(Seq<char>, Json)>,
    base: int,
    k: int,
    done: SafeHeader,
) -> SafeHeader
    decreases entries.len() - k,
{
    if k >= entries.len() {
        done
    } else if entries[k].0 == "__metadata__"@ {
        let metadata = match entries[k].1.entries() {
            Some(o) => put_all(done.metadata, o, 0),
            None => done.metadata,
        };
        gathered(entries, base, k + 1, SafeHeader { metadata, ..done })
    } else {
        let tensors = match entries[k].1.entries() {
            Some(o) => match entry_tensor(entries[k].0, o, base) {
                Ok(t) => done.tensors.push(t),
                Err(_) => done.tensors,
            },
            None => done.tensors,
        };
        gathered(entries, base, k + 1, SafeHeader { tensors, ..done })
    }
}

/// `t` put behind every tensor that does not begin later.
pub open spec fn inserted(s: Seq<SafeTensor>, t: SafeTensor) -> Seq<SafeTensor>
    decreases s.len(),
{
    if s.len() == 0 {
        seq![t]
    } else if s.last().data_offset <= t.data_offset {
        s.push(t)
    } else {
        inserted(s.drop_last(), t).push(s.last())
    }
}

/// The first `k` tensors in the order of their places. Those with one place keep
/// their order.
pub open spec fn by_offset(s: Seq<SafeTensor>, k: int) -> Seq<SafeTensor>
    decreases k,
{
    if k <= 0 {
        Seq::empty()
    } else {
        inserted(by_offset(s, k - 1), s[k - 1])
    }
}

/// What the document of a header states, its tensors by where they begin. The
/// data of the tensors begin at `base`.
pub open spec fn header_in(j: Json, base: int) -> SafeHeader {
    let none = SafeHeader { metadata: Seq::empty(), tensors: Seq::empty() };
    let h = match j.entries() {
        Some(o) => gathered(o, base, 0, none),
        None => none,
    };
    SafeHeader { tensors: by_offset(h.tensors, h.tensors.len() as int), ..h }
}

/// What the header of a SafeTensors file holds, or why there is none.
pub open spec fn safetensors_header(d: Seq<u8>) -> Result<SafeHeader, Failure> {
    if d.len() < 8 {
        Err(eof(8, d.len() as int))
    } else if 8 + le64(d, 0) > d.len() {
        Err(eof(8 + le64(d, 0), d.len() as int))
    } else {
        let base = 8 + le64(d, 0);
        match json_document(d.subrange(8, base)) {
            Err(e) => Err(Failure::InvalidManifest("SafeTensors header JSON: "@ + e)),
            Ok(j) => Ok(header_in(j, base)),
        }
    }
}

/// A draft with the tensors from the `k`th on, each with its bytes.
pub open spec fn safe_draft(d: Seq<u8>, ts: Seq<SafeTensor>, k: int, b: Draft) -> Result<
    Draft,
    Failure,
>
    decreases ts.len() - k,
{
    if k >= ts.len() {
        Ok(b)
    } else {
        let t = ts[k];
        let end = t.data_offset + t.data_size;
        if end > d.len() {
            Err(eof(end, d.len() as int))
        } else {
            safe_draft(
                d,
                ts,
                k + 1,
                added(
                    b,
                    t.name,
                    d.subrange(t.data_offset as int, end),
                    t.dtype,
                    t.shape,
                    true,
                ),
            )
        }
    }
}

/// The `.axon` file that a SafeTensors file becomes, or why it becomes none.
pub open spec fn safetensors_file(d: Seq<u8>) -> Result<Seq<u8>, Failure> {
    match safetensors_header(d) {
        Err(e) => Err(e),
        Ok(h) => match safe_draft(d, h.tensors, 0, empty_draft()) {
            Err(e) => Err(e),
            Ok(b) => built(b),
        },
    }
}

// ── Laws ────────────────────────────────────────────────────────────
/// The word that the long name of a type begins with.
pub open spec fn dtype_word(d: DType) -> Seq<char> {
    match d {
        DType::F32 | DType::F16 => "float"@,
        DType::BF16 => "bfloat"@,
        DType::U8 => "uint"@,
        _ => "int"@,
    }
}

/// The type has a name in SafeTensors files.
pub open spec fn is_shared(d: DType) -> bool {
    d != DType::I16 && d != DType::Q4 && d != DType::Q8
}

proof fn lemma_names_revealed()
    ensures
        "F32"@ == seq!['F', '3', '2'],
        "F16"@ == seq!['F', '1', '6'],
        "BF16"@ == seq!['B', 'F', '1', '6'],
        "I32"@ == seq!['I', '3', '2'],
        "I64"@ == seq!['I', '6', '4'],
        "I8"@ == seq!['I', '8'],
        "U8"@ == seq!['U', '8'],
        "I16"@ == seq!['I', '1', '6'],
        "Q4"@ == seq!['Q', '4'],
        "Q8"@ == seq!['Q', '8'],
        "half"@ == seq!['h', 'a', 'l', 'f'],
        "float32"@ == seq!['f', 'l', 'o', 'a', 't', '3', '2'],
        "float16"@ == seq!['f', 'l', 'o', 'a', 't', '1', '6'],
        "bfloat16"@ == seq!['b', 'f', 'l', 'o', 'a', 't', '1', '6'],
        "int32"@ == seq!['i', 'n', 't', '3', '2'],
        "int64"@ == seq!['i', 'n', 't', '6', '4'],
        "int8"@ == seq!['i', 'n', 't', '8'],
        "uint8"@ == seq!['u', 'i', 'n', 't', '8'],
        "float"@ == seq!['f', 'l', 'o', 'a', 't'],
        "bfloat"@ == seq!['b', 'f', 'l', 'o', 'a', 't'],
        "int"@ == seq!['i', 'n', 't'],
        "uint"@ == seq!['u', 'i', 'n', 't'],
{
    reveal_strlit("F32");
    reveal_strlit("F16");
    reveal_strlit("BF16");
    reveal_strlit("I32");
    reveal_strlit("I64");
    reveal_strlit("I8");
    reveal_strlit("U8");
    reveal_strlit("I16");
    reveal_strlit("Q4");
    reveal_strlit("Q8");
    reveal_strlit("half");
    reveal_strlit("float32");
    reveal_strlit("float16");
    reveal_strlit("bfloat16");
    reveal_strlit("int32");
    reveal_strlit("int64");
    reveal_strlit("int8");
    reveal_strlit("uint8");
    reveal_strlit("float");
    reveal_strlit("bfloat");
    reveal_strlit("int");
    reveal_strlit("uint");
    assert("F32"@ =~= seq!['F', '3', '2']);
    assert("F16"@ =~= seq!['F', '1', '6']);
    assert("BF16"@ =~= seq!['B', 'F', '1', '6']);
    assert("I32"@ =~= seq!['I', '3', '2']);
    assert("I64"@ =~= seq!['I', '6', '4']);
    assert("I8"@ =~= seq!['I', '8']);
    assert("U8"@ =~= seq!['U', '8']);
    assert("I16"@ =~= seq!['I', '1', '6']);
    assert("Q4"@ =~= seq!['Q', '4']);
    assert("Q8"@ =~= seq!['Q', '8']);
    assert("half"@ =~= seq!['h', 'a', 'l', 'f']);
    assert("float32"@ =~= seq!['f', 'l', 'o', 'a', 't', '3', '2']);
    assert("float16"@ =~= seq!['f', 'l', 'o', 'a', 't', '1', '6']);
    assert("bfloat16"@ =~= seq!['b', 'f', 'l', 'o', 'a', 't', '1', '6']);
    assert("int32"@ =~= seq!['i', 'n', 't', '3', '2']);
    assert("int64"@ =~= seq!['i', 'n', 't', '6', '4']);
    assert("int8"@ =~= seq!['i', 'n', 't', '8']);
    assert("uint8"@ =~= seq!['u', 'i', 'n', 't', '8']);
    assert("float"@ =~= seq!['f', 'l', 'o', 'a', 't']);
    assert("bfloat"@ =~= seq!['b', 'f', 'l', 'o', 'a', 't']);
    assert("int"@ =~= seq!['i', 'n', 't']);
    assert("uint"@ =~= seq!['u', 'i', 'n', 't']);
}

/// A type that the two formats share is imported under its own name, and under its
/// long one: a word and how many bits an element has. Half precision has a third
/// name. No other text names a type.
pub proof fn lemma_types_keep_names(d: DType, s: Seq<char>)
    ensures
        is_shared(d) ==> dtype_named(dtype_name(d)) == Some(d),
        is_shared(d) ==> dtype_named(dtype_word(d) + decimal_text(8 * dtype_size(d))) == Some(d),
        dtype_named("half"@) == Some(DType::F16),
        dtype_named(s) == Some(d) ==> is_shared(d) && (s == dtype_name(d) || s == dtype_word(d)
            + decimal_text(8 * dtype_size(d)) || (d == DType::F16 && s == "half"@)),
{
    lemma_names_revealed();
    reveal_with_fuel(decimal_text, 3);
    let long = dtype_word(d) + decimal_text(8 * dtype_size(d));
    match d {
        DType::F32 => assert(long =~= "float32"@),
        DType::F16 => assert(long =~= "float16"@),
        DType::BF16 => assert(long =~= "bfloat16"@),
        DType::I32 => assert(long =~= "int32"@),
        DType::I64 => assert(long =~= "int64"@),
        DType::I8 => assert(long =~= "int8"@),
        DType::U8 => assert(long =~= "uint8"@),
        _ => {},
    }
}

/// The JSON list of numbers.
pub open spec fn number_list(v: Seq<u64>) -> Json {
    Json::Array(Seq::new(v.len(), |i: int| Json::UInt(v[i])))
}

/// An entry that states a type by its name, dimensions, and where its bytes begin and
/// end behind `base`, makes a tensor with that type, those dimensions and those
/// bytes.
pub proof fn lemma_entry_states_tensor(
    name: Seq<char>,
    entry: Seq<(Seq<char>, Json)>,
    base: int,
    d: DType,
    shape: Seq<u64>,
    begin: u64,
    end: u64,
)
    requires
        is_shared(d),
        object_get(entry, "dtype"@) == Some(Json::Text(dtype_name(d))),
        object_get(entry, "shape"@) == Some(number_list(shape)),
        object_get(entry, "data_offsets"@) == Some(number_list(seq![begin, end])),
        0 <= base,
        begin <= end,
        base + begin <= u64::MAX,
    ensures
        entry_tensor(name, entry, base) matches Ok(t) && t.name == name && t.dtype == d && t.shape
            == shape && t.data_offset == base + begin && t.data_offset + t.data_size == base + end,
{
    lemma_types_keep_names(d, dtype_name(d));
    let t = entry_tensor(name, entry, base)->Ok_0;
    assert(t.shape =~= shape);
}

/// Every entry of a header that states a tensor makes one, under its own name, and
/// nothing else does.
pub proof fn lemma_entries_gathered(entries: Seq<(Seq<char>, Json)>, base: int, t: SafeTensor)
    ensures
        header_in(Json::Object(entries), base).tensors.contains(t) <==> exists|i: int|
            #![trigger entries[i]]
            0 <= i < entries.len() && entries[i].0 != "__metadata__"@ && (
            entries[i].1.entries() matches Some(o) && entry_tensor(entries[i].0, o, base) == Ok::<
                SafeTensor,
                Failure,
            >(t)),
{
    let none = SafeHeader { metadata: Seq::empty(), tensors: Seq::empty() };
    let all = gathered(entries, base, 0, none).tensors;
    lemma_gathered(entries, base, 0, none, t);
    lemma_by_offset(all, all.len() as int);
    assert(all.take(all.len() as int) =~= all);
    broadcast use vstd::seq_lib::group_to_multiset_ensures;

    let sorted = by_offset(all, all.len() as int);
    assert(sorted.contains(t) <==> sorted.to_multiset().count(t) > 0);
    assert(all.contains(t) <==> all.to_multiset().count(t) > 0);
}

proof fn lemma_gathered(
    entries: Seq<(Seq<char>, Json)>,
    base: int,
    k: int,
    done: SafeHeader,
    t: SafeTensor,
)
    requires
        0 <= k,
    ensures
        gathered(entries, base, k, done).tensors.contains(t) <==> done.tensors.contains(t)
            || exists|i: int|
            #![trigger entries[i]]
            k <= i < entries.len() && entries[i].0 != "__metadata__"@ && (
            entries[i].1.entries() matches Some(o) && entry_tensor(entries[i].0, o, base) == Ok::<
                SafeTensor,
                Failure,
            >(t)),
    decreases entries.len() - k,
{
    if k < entries.len() {
        let next = if entries[k].0 == "__metadata__"@ {
            SafeHeader {
                metadata: match entries[k].1.entries() {
                    Some(o) => put_all(done.metadata, o, 0),
                    None => done.metadata,
                },
                ..done
            }
        } else {
            SafeHeader {
                tensors: match entries[k].1.entries() {
                    Some(o) => match entry_tensor(entries[k].0, o, base) {
                        Ok(u) => done.tensors.push(u),
                        Err(_) => done.tensors,
                    },
                    None => done.tensors,
                },
                ..done
            }
        };
        lemma_gathered(entries, base, k + 1, next, t);
        if next.tensors.len() > done.tensors.len() {
            let u = next.tensors.last();
            assert(next.tensors =~= done.tensors.push(u));
            assert(next.tensors.contains(t) <==> done.tensors.contains(t) || t == u) by {
                if done.tensors.contains(t) {
                    let i = done.tensors.index_of(t);
                    assert(next.tensors[i] == t);
                }
                if t == u {
                    assert(next.tensors[next.tensors.len() - 1] == t);
                }
                if next.tensors.contains(t) {
                    let i = next.tensors.index_of(t);
                    if i < done.tensors.len() {
                        assert(done.tensors[i] == t);
                    }
                }
            }
        }
    }
}

/// The tensors stand in the order of their places.
pub open spec fn in_order(s: Seq<SafeTensor>) -> bool {
    forall|i: int, j: int|
        0 <= i <= j < s.len() ==> (#[trigger] s[i]).data_offset <= (#[trigger] s[j]).data_offset
}

proof fn lemma_inserted(s: Seq<SafeTensor>, t: SafeTensor)
    requires
        in_order(s),
    ensures
        in_order(inserted(s, t)),
        inserted(s, t).len() == s.len() + 1,
        inserted(s, t).to_multiset() == s.to_multiset().insert(t),
        inserted(s, t).last().data_offset == t.data_offset || s.len() > 0 && inserted(
            s,
            t,
        ).last() == s.last(),
    decreases s.len(),
{
    broadcast use vstd::seq_lib::group_to_multiset_ensures;

    if s.len() == 0 {
        assert(inserted(s, t) =~= s.push(t));
    } else if s.last().data_offset > t.data_offset {
        let rest = s.drop_last();
        assert forall|i: int, j: int| 0 <= i <= j < rest.len() implies (
        #[trigger] rest[i]).data_offset <= (#[trigger] rest[j]).data_offset by {
            assert(s[i].data_offset <= s[j].data_offset);
        }
        lemma_inserted(rest, t);
        let r = inserted(rest, t);
        assert(s =~= rest.push(s.last()));
        assert(r.push(s.last()).to_multiset() =~= s.to_multiset().insert(t));
        assert forall|i: int| 0 <= i < r.len() implies (#[trigger] r[i]).data_offset
            <= s.last().data_offset by {
            assert(r[i].data_offset <= r[r.len() - 1].data_offset);
            if rest.len() > 0 {
                assert(s[rest.len() - 1].data_offset <= s[s.len() - 1].data_offset);
            }
        }
    }
}

/// The tensors of a header are those that its entries state, in the order of
/// their places.
pub proof fn lemma_by_offset(s: Seq<SafeTensor>, k: int)
    requires
        0 <= k <= s.len(),
    ensures
        in_order(by_offset(s, k)),
        by_offset(s, k).len() == k,
        by_offset(s, k).to_multiset() == s.take(k).to_multiset(),
    decreases k,
{
    broadcast use vstd::seq_lib::group_to_multiset_ensures;

    if k > 0 {
        lemma_by_offset(s, k - 1);
        lemma_inserted(by_offset(s, k - 1), s[k - 1]);
        assert(s.take(k) =~= s.take(k - 1).push(s[k - 1]));
    } else {
        assert(s.take(k) =~= Seq::empty());
    }
}

/// Every tensor that a SafeTensors file states is handed on under its own name,
/// with its type, its shape and its bytes.
pub proof fn lemma_safetensors_kept(d: Seq<u8>, ts: Seq<SafeTensor>, k: int, b: Draft, i: int)
    requires
        safe_draft(d, ts, k, b) is Ok,
        0 <= k <= i < ts.len(),
    ensures
        ({
            let r = safe_draft(d, ts, k, b)->Ok_0.tensors;
            &&& r.len() == b.tensors.len() + ts.len() - k
            &&& r[b.tensors.len() + i - k].name == ts[i].name
            &&& r[b.tensors.len() + i - k].dtype == ts[i].dtype
            &&& r[b.tensors.len() + i - k].shape == ts[i].shape
            &&& ts[i].data_offset + ts[i].data_size <= d.len()
            &&& r[b.tensors.len() + i - k].data == d.subrange(
                ts[i].data_offset as int,
                ts[i].data_offset + ts[i].data_size,
            )
        }),
    decreases ts.len() - k,
{
    let t = ts[k];
    let next = added(
        b,
        t.name,
        d.subrange(t.data_offset as int, t.data_offset + t.data_size),
        t.dtype,
        t.shape,
        true,
    );
    if k < i {
        lemma_safetensors_kept(d, ts, k + 1, next, i);
    } else {
        lemma_safe_stay(d, ts, k + 1, next, b.tensors.len() as int);
    }
}

/// Wherever the file that a SafeTensors file became opens, it has the tensors that
/// the SafeTensors file states and no others: each with its name, its type and its
/// shape, and with its bytes as they were stored.
pub proof fn lemma_safetensors_opened(d: Seq<u8>, h: SafeHeader, f: Seq<u8>, o: Opened, i: int)
    requires
        safetensors_header(d) == Ok::<SafeHeader, Failure>(h),
        safetensors_file(d) == Ok::<Seq<u8>, Failure>(f),
        open_file(f) == Ok::<Opened, Failure>(o),
        0 <= i < h.tensors.len(),
    ensures
        o.descriptors.len() == h.tensors.len(),
        o.descriptors[i].name == h.tensors[i].name,
        o.descriptors[i].dtype == h.tensors[i].dtype,
        o.descriptors[i].shape == h.tensors[i].shape,
        payload_of(f, o.descriptors[i]) == Some(
            d.subrange(
                h.tensors[i].data_offset as int,
                h.tensors[i].data_offset + h.tensors[i].data_size,
            ),
        ),
{
    lemma_safetensors_kept(d, h.tensors, 0, empty_draft(), i);
    lemma_build_keeps(safe_draft(d, h.tensors, 0, empty_draft())->Ok_0);
}

proof fn lemma_safe_stay(d: Seq<u8>, ts: Seq<SafeTensor>, k: int, b: Draft, i: int)
    requires
        safe_draft(d, ts, k, b) is Ok,
        0 <= k <= ts.len(),
        0 <= i < b.tensors.len(),
    ensures
        safe_draft(d, ts, k, b)->Ok_0.tensors.len() == b.tensors.len() + ts.len() - k,
        safe_draft(d, ts, k, b)->Ok_0.tensors[i] == b.tensors[i],
    decreases ts.len() - k,
{
    if k < ts.len() {
        let t = ts[k];
        lemma_safe_stay(
            d,
            ts,
            k + 1,
            added(
                b,
                t.name,
                d.subrange(t.data_offset as int, t.data_offset + t.data_size),
                t.dtype,
                t.shape,
                true,
            ),
            i,
        );
    }
}

// ── Reading ─────────────────────────────────────────────────────────
/// A tensor of a SafeTensors file.
#[derive(Debug)]
pub struct SafeTensorEntry {
    /// The tensor's name.
    pub name: String,
    /// The type of its elements.
    pub dtype: DType,
    /// The dimensions.
    pub shape: Vec<u64>,
    /// Where in the file its bytes begin.
    pub data_offset: u64,
    /// How many bytes it has.
    pub data_size: u64,
}

impl View for SafeTensorEntry {
    type V = SafeTensor;

    open spec fn view(&self) -> SafeTensor {
        SafeTensor {
            name: self.name@,
            dtype: self.dtype,
            shape: self.shape@,
            data_offset: self.data_offset,
            data_size: self.data_size,
        }
    }
}

/// What a row of tensors stands for.
pub open spec fn safe_models(v: Seq<SafeTensorEntry>) -> Seq<SafeTensor> {
    Seq::new(v.len(), |i: int| v[i]@)
}

/// The header of a SafeTensors file.
#[derive(Debug)]
pub struct SafeTensorsHeader {
    /// The metadata, in the order of the keys.
    pub metadata: Vec<(String, JsonValue)>,
    /// The tensors, in the order of their places.
    pub tensors: Vec<SafeTensorEntry>,
}

impl View for SafeTensorsHeader {
    type V = SafeHeader;

    open spec fn view(&self) -> SafeHeader {
        SafeHeader {
            metadata: entry_models(self.metadata@),
            tensors: safe_models(self.tensors@),
        }
    }
}

fn named_dtype(s: &str) -> (r: Option<DType>)
    ensures
        r == dtype_named(s@),
{
    if str_eq(s, "F32") || str_eq(s, "float32") {
        Some(DType::F32)
    } else if str_eq(s, "F16") || str_eq(s, "float16") || str_eq(s, "half") {
        Some(DType::F16)
    } else if str_eq(s, "BF16") || str_eq(s, "bfloat16") {
        Some(DType::BF16)
    } else if str_eq(s, "I32") || str_eq(s, "int32") {
        Some(DType::I32)
    } else if str_eq(s, "I64") || str_eq(s, "int64") {
        Some(DType::I64)
    } else if str_eq(s, "I8") || str_eq(s, "int8") {
        Some(DType::I8)
    } else if str_eq(s, "U8") || str_eq(s, "uint8") {
        Some(DType::U8)
    } else {
        None
    }
}

/// The text under a key.
pub fn find_text<'b>(o: &'b Vec<(String, JsonValue)>, key: &str) -> (r: Option<&'b str>)
    ensures
        match r {
            Some(s) => text_of(object_get(entry_models(o@), key@)) == Some(s@),
            None => text_of(object_get(entry_models(o@), key@)) is None,
        },
{
    match object_find(o, key) {
        Some(v) => v.as_str(),
        None => None,
    }
}

/// The list under a key.
pub fn find_items<'b>(o: &'b Vec<(String, JsonValue)>, key: &str) -> (r: Option<
    &'b Vec<JsonValue>,
>)
    ensures
        match r {
            Some(a) => items_of(object_get(entry_models(o@), key@)) == Some(models(a@)),
            None => items_of(object_get(entry_models(o@), key@)) is None,
        },
{
    match object_find(o, key) {
        Some(v) => v.as_array(),
        None => None,
    }
}

fn item_number(a: &Vec<JsonValue>, i: usize) -> (r: u64)
    ensures
        r == number_at(models(a@), i as int),
{
    if i < a.len() {
        assert(models(a@)[i as int] == a@[i as int]@);
        match a[i].as_u64() {
            Some(n) => n,
            None => 0,
        }
    } else {
        0
    }
}

fn dims_of(a: &Vec<JsonValue>) -> (r: Vec<u64>)
    ensures
        r@ == dimensions(models(a@)),
{
    let mut out: Vec<u64> = Vec::new();
    let mut i: usize = 0;
    while i < a.len()
        invariant
            i <= a@.len(),
            out@ == dimensions(models(a@)).take(i as int),
        decreases a@.len() - i,
    {
        assert(models(a@)[i as int] == a@[i as int]@);
        let n = match a[i].as_u64() {
            Some(n) => n,
            None => 1,
        };
        out.push(n);
        i += 1;
        assert(out@ =~= dimensions(models(a@)).take(i as int));
    }
    assert(dimensions(models(a@)).take(i as int) =~= dimensions(models(a@)));
    out
}

/// The tensor that an entry of the header states, its data behind `base`.
fn convert_safetensor_entry(name: &str, entry: &Vec<(String, JsonValue)>, base: u64) -> (r:
    AxonResult<SafeTensorEntry>)
    ensures
        match r {
            Ok(t) => entry_tensor(name@, entry_models(entry@), base as int) == Ok::<
                SafeTensor,
                Failure,
            >(t@),
            Err(e) => entry_tensor(name@, entry_models(entry@), base as int) == Err::<
                SafeTensor,
                Failure,
            >(e@),
        },
{
    let dtype_name = match find_text(entry, "dtype") {
        Some(s) => s,
        None => return Err(AxonError::InvalidManifest(concat2(name, ": missing dtype"))),
    };
    let shape = match find_items(entry, "shape") {
        Some(a) => dims_of(a),
        None => return Err(AxonError::InvalidManifest(concat2(name, ": missing shape"))),
    };
    let offsets = match find_items(entry, "data_offsets") {
        Some(a) => a,
        None => return Err(AxonError::InvalidManifest(concat2(name, ": missing data_offsets"))),
    };
    let begin = item_number(offsets, 0);
    let end = item_number(offsets, 1);
    let dtype = match named_dtype(dtype_name) {
        Some(d) => d,
        None => return Err(AxonError::InvalidDtype(0)),
    };
    let at = base as u128 + begin as u128;
    if end < begin || at > u64::MAX as u128 {
        return Err(AxonError::InvalidManifest(concat2(name, ": data_offsets out of range")));
    }
    Ok(
        SafeTensorEntry {
            name: name.to_owned(),
            dtype,
            shape,
            data_offset: at as u64,
            data_size: end - begin,
        },
    )
}

/// Puts every entry of `from` into `into`.
fn insert_all(into: &mut Vec<(String, JsonValue)>, from: &Vec<(String, JsonValue)>)
    ensures
        entry_models(final(into)@) == put_all(entry_models(old(into)@), entry_models(from@), 0),
{
    let mut i: usize = 0;
    let ghost f = entry_models(from@);
    while i < from.len()
        invariant
            i <= from@.len(),
            f == entry_models(from@),
            put_all(entry_models(old(into)@), f, 0) == put_all(entry_models(into@), f, i as int),
        decreases from@.len() - i,
    {
        assert(f[i as int] == (from@[i as int].0@, from@[i as int].1@));
        object_insert(into, from[i].0.clone(), from[i].1.copy());
        i += 1;
    }
}

/// Puts a tensor behind every one that does not begin later.
fn insert_tensor(v: &mut Vec<SafeTensorEntry>, t: SafeTensorEntry)
    ensures
        safe_models(final(v)@) == inserted(safe_models(old(v)@), t@),
{
    let ghost all = safe_models(v@);
    let mut i: usize = v.len();
    assert(all.take(i as int) =~= all);
    assert(all.skip(i as int) =~= Seq::empty());
    assert(inserted(all.take(i as int), t@) + all.skip(i as int) =~= inserted(all, t@));
    while i > 0 && v[i - 1].data_offset > t.data_offset
        invariant
            i <= v@.len(),
            v@ == old(v)@,
            all == safe_models(v@),
            inserted(all, t@) == inserted(all.take(i as int), t@) + all.skip(i as int),
        decreases i,
    {
        proof {
            let a = all.take(i as int);
            assert(a.last() == all[i - 1]);
            assert(a.drop_last() =~= all.take(i - 1));
            assert(inserted(all.take(i - 1), t@).push(all[i - 1]) + all.skip(i as int) =~= inserted(
                all.take(i - 1),
                t@,
            ) + all.skip(i - 1));
        }
        i -= 1;
    }
    proof {
        let a = all.take(i as int);
        if i > 0 {
            assert(a.last() == all[i - 1]);
        }
        assert(inserted(a, t@) =~= a.push(t@));
    }
    v.insert(i, t);
    assert(safe_models(v@) =~= all.take(i as int).push(t@) + all.skip(i as int));
}

/// The tensors in the order of their places.
fn sort_tensors(v: Vec<SafeTensorEntry>) -> (r: Vec<SafeTensorEntry>)
    ensures
        safe_models(r@) == by_offset(safe_models(v@), v@.len() as int),
{
    let ghost all = safe_models(v@);
    let mut out: Vec<SafeTensorEntry> = Vec::new();
    let mut i: usize = 0;
    assert(safe_models(out@) =~= Seq::empty());
    while i < v.len()
        invariant
            i <= v@.len(),
            all == safe_models(v@),
            safe_models(out@) == by_offset(all, i as int),
        decreases v@.len() - i,
    {
        let t = SafeTensorEntry {
            name: v[i].name.clone(),
            dtype: v[i].dtype,
            shape: copy_u64(v[i].shape.as_slice()),
            data_offset: v[i].data_offset,
            data_size: v[i].data_size,
        };
        assert(t@ =~= all[i as int]);
        insert_tensor(&mut out, t);
        i += 1;
    }
    out
}

/// What the entries of a header state. Entries that state no tensor are passed
/// over.
fn gather(entries: &Vec<(String, JsonValue)>, base: u64) -> (r: SafeTensorsHeader)
    ensures
        r@ == gathered(
            entry_models(entries@),
            base as int,
            0,
            SafeHeader { metadata: Seq::empty(), tensors: Seq::empty() },
        ),
{
    let ghost all = entry_models(entries@);
    let mut h = SafeTensorsHeader { metadata: Vec::new(), tensors: Vec::new() };
    let mut i: usize = 0;
    assert(h@ =~= SafeHeader { metadata: Seq::empty(), tensors: Seq::empty() });
    while i < entries.len()
        invariant
            i <= entries@.len(),
            all == entry_models(entries@),
            gathered(
                all,
                base as int,
                0,
                SafeHeader { metadata: Seq::empty(), tensors: Seq::empty() },
            ) == gathered(all, base as int, i as int, h@),
        decreases entries@.len() - i,
    {
        let name = entries[i].0.as_str();
        let value = &entries[i].1;
        assert(all[i as int] == (name@, value@));
        if let Some(o) = value.as_object() {
            if str_eq(name, "__metadata__") {
                let ghost before = h@;
                insert_all(&mut h.metadata, o);
                assert(h@ =~= SafeHeader {
                    metadata: put_all(before.metadata, entry_models(o@), 0),
                    ..before
                });
            } else if let Ok(t) = convert_safetensor_entry(name, o, base) {
                let ghost before = h@;
                assert(safe_models(h.tensors@.push(t)) =~= safe_models(h.tensors@).push(t@));
                h.tensors.push(t);
                assert(h@ =~= SafeHeader { tensors: before.tensors.push(t@), ..before });
            }
        }
        i += 1;
    }
    h
}

/// What the document of a header states, where the data of the tensors begin at
/// `base`.
pub fn safetensors_document(j: &JsonValue, base: u64) -> (r: SafeTensorsHeader)
    ensures
        r@ == header_in(j@, base as int),
{
    let h = match j.as_object() {
        Some(o) => gather(o, base),
        None => {
            let none = SafeTensorsHeader { metadata: Vec::new(), tensors: Vec::new() };
            assert(none@ =~= SafeHeader { metadata: Seq::empty(), tensors: Seq::empty() });
            none
        },
    };
    SafeTensorsHeader { metadata: h.metadata, tensors: sort_tensors(h.tensors) }
}

/// Reads the header of a SafeTensors file: a length of eight bytes, then that
/// many bytes of JSON. An entry that states no tensor is passed over.
pub fn parse_safetensors_header(d: &[u8]) -> (r: AxonResult<SafeTensorsHeader>)
    ensures
        match r {
            Ok(h) => safetensors_header(d@) == Ok::<SafeHeader, Failure>(h@),
            Err(e) => safetensors_header(d@) == Err::<SafeHeader, Failure>(e@),
        },
{
    if d.len() < 8 {
        return Err(AxonError::UnexpectedEof { needed: 8, available: d.len() as u64 });
    }
    let len = get_u64(d, 0)?;
    let base = 8 + len as u128;
    if base > d.len() as u128 {
        return Err(AxonError::UnexpectedEof { needed: clamp(base), available: d.len() as u64 });
    }
    let j = match parse_json(slice(d, 8, base as usize)) {
        Ok(j) => j,
        Err(e) => return Err(
            AxonError::InvalidManifest(concat2("SafeTensors header JSON: ", e.as_str())),
        ),
    };
    Ok(safetensors_document(&j, base as u64))
}

/// The `.axon` file that the bytes of a SafeTensors file become.
pub fn safetensors_to_axon(d: &[u8]) -> (r: AxonResult<Vec<u8>>)
    ensures
        outcome(r) == safetensors_file(d@),
        outcome(r) matches Ok(f) ==> (safetensors_header(d@) matches Ok(h) && safe_draft(
            d@,
            h.tensors,
            0,
            empty_draft(),
        ) matches Ok(b) && faithful(f, b)),
{
    let h = parse_safetensors_header(d)?;
    let mut builder = AxonBuilder::new();
    let ghost ts = safe_models(h.tensors@);
    let mut i: usize = 0;
    while i < h.tensors.len()
        invariant
            i <= h.tensors@.len(),
            ts == safe_models(h.tensors@),
            safetensors_header(d@) == Ok::<SafeHeader, Failure>(h@),
            safe_draft(d@, ts, 0, empty_draft()) == safe_draft(d@, ts, i as int, builder@),
        decreases h.tensors@.len() - i,
    {
        let t = &h.tensors[i];
        assert(ts[i as int] == t@);
        let end = t.data_offset as u128 + t.data_size as u128;
        if end > d.len() as u128 {
            return Err(AxonError::UnexpectedEof { needed: clamp(end), available: d.len() as u64 });
        }
        let data = to_vec(slice(d, t.data_offset as usize, end as usize));
        builder = builder.add_tensor(t.name.as_str(), data, t.dtype, t.shape.as_slice());
        i += 1;
    }
    builder.build()
}

/// The dimensions of a tensor are the numbers of its list, in their order. What is no
/// number in it counts one.
pub proof fn lemma_dimensions(a: Seq<Json>, i: int)
    requires
        0 <= i < a.len(),
    ensures
        dimensions(a).len() == a.len(),
        match a[i] {
            Json::UInt(n) => dimensions(a)[i] == n,
            _ => dimensions(a)[i] == 1,
        },
{
}

/// An entry without a type, a shape or places states no tensor, nor does one of a type
/// that is not known or one that ends before it begins. The report names the entry and
/// the first of these.
pub proof fn lemma_entry_refused(name: Seq<char>, entry: Seq<(Seq<char>, Json)>, base: int)
    ensures
        ({
            let r = entry_tensor(name, entry, base);
            let dtype = text_of(object_get(entry, "dtype"@));
            let shape = items_of(object_get(entry, "shape"@));
            let places = items_of(object_get(entry, "data_offsets"@));
            &&& dtype is None ==> r == Err::<SafeTensor, Failure>(
                Failure::InvalidManifest(name + ": missing dtype"@),
            )
            &&& dtype is Some && shape is None ==> r == Err::<SafeTensor, Failure>(
                Failure::InvalidManifest(name + ": missing shape"@),
            )
            &&& dtype is Some && shape is Some && places is None ==> r == Err::<SafeTensor, Failure>(
                Failure::InvalidManifest(name + ": missing data_offsets"@),
            )
            &&& dtype is Some && shape is Some && places is Some ==> {
                let (begin, end) = (number_at(places->0, 0), number_at(places->0, 1));
                &&& dtype_named(dtype->0) is None ==> r == Err::<SafeTensor, Failure>(
                    Failure::InvalidDtype(0),
                )
                &&& dtype_named(dtype->0) is Some && (end < begin || base + begin > u64::MAX) ==> r
                    == Err::<SafeTensor, Failure>(
                    Failure::InvalidManifest(name + ": data_offsets out of range"@),
                )
                &&& dtype_named(dtype->0) is Some && begin <= end && base + begin <= u64::MAX ==> r is Ok
            }
        }),
{
}

/// A file is refused where it ends before the eight bytes that give the length of its
/// header, or before the end of the header.
pub proof fn lemma_header_refused(d: Seq<u8>)
    ensures
        d.len() < 8 ==> safetensors_header(d) == Err::<SafeHeader, Failure>(
            eof(8, d.len() as int),
        ),
        d.len() >= 8 && 8 + le64(d, 0) > d.len() ==> safetensors_header(d) == Err::<
            SafeHeader,
            Failure,
        >(eof(8 + le64(d, 0), d.len() as int)),
{
}

} // verus!
