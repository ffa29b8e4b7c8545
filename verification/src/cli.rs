//! What the commands of the command line compute.
use vstd::prelude::*;
use vstd::utf8::encode_utf8;

use crate::bytes::put_bytes;
use crate::error::{failure_text, AxonError};
use crate::json::{items_of, models, text_of, uint_of, Json, JsonValue};
use crate::json_codec::{json_document, parse_json};
use crate::tensor::{dtype_of, dtype_size, element_count, product, DType};
use crate::text::{
    chars_of, concat2, concat3, concat4, concat5, decimal, decimal_text, join, join_text, number_of,
    parse_number, replace_char, replace_text, split, split_text, strip_suffix, text_width, texts,
    trim, trimmed, width, width_of,
};

verus! {

// ── Messages ────────────────────────────────────────────────────────
/// The message where a file is no container.
pub fn parse_failure(path: &str, error: &AxonError) -> (r: String)
    ensures
        r@ == "error: failed to parse "@ + path@ + ": "@ + failure_text(error@),
{
    concat4("error: failed to parse ", path, ": ", error.message().as_str())
}

/// The message where no tensor has the name.
pub fn missing_tensor(name: &str) -> (r: String)
    ensures
        r@ == "error: tensor '"@ + name@ + "' not found"@,
{
    concat3("error: tensor '", name, "' not found")
}

// ── Names and shapes ────────────────────────────────────────────────
/// The dimensions as texts.
pub open spec fn dimension_texts(shape: Seq<u64>) -> Seq<Seq<char>> {
    Seq::new(shape.len(), |i: int| decimal_text(shape[i] as nat))
}

/// The dimensions, with a separator between them.
pub fn shape_text(shape: &[u64], sep: &str) -> (r: String)
    ensures
        r@ == join_text(dimension_texts(shape@), sep@),
{
    let mut parts: Vec<String> = Vec::new();
    let mut i: usize = 0;
    while i < shape.len()
        invariant
            i <= shape@.len(),
            parts@.len() == i,
            forall|k: int| 0 <= k < i ==> (#[trigger] parts@[k])@ == decimal_text(shape@[k] as nat),
        decreases shape@.len() - i,
    {
        parts.push(decimal(shape[i]));
        i += 1;
    }
    assert(texts(parts@) =~= dimension_texts(shape@));
    join(&parts, sep)
}

/// The first characters of a text that take no more than so many bytes.
pub open spec fn is_cut(s: Seq<char>, t: Seq<char>, bytes: int) -> bool {
    exists|i: int|
        #![trigger s.take(i)]
        0 <= i <= s.len() && t == s.take(i) && text_width(s.take(i)) <= bytes && (i < s.len()
            ==> text_width(s.take(i + 1)) > bytes)
}

/// A name that takes at most `max` bytes: a longer one is cut, and ends in three
/// dots.
pub fn truncate_name(name: &str, max: usize) -> (r: String)
    requires
        max >= 3,
    ensures
        text_width(name@) <= max ==> r@ == name@,
        text_width(name@) > max ==> exists|t: Seq<char>|
            #[trigger] is_cut(name@, t, max - 3) && r@ == t + "..."@,
{
    let c = chars_of(name);
    if width(&c) <= max as u128 {
        return name.to_owned();
    }
    let room = (max - 3) as u128;
    let mut i: usize = 0;
    let mut at: u128 = 0;
    assert(text_width(c@.take(0)) == 0);
    assert(c@.take(c@.len() as int) =~= c@);
    while i < c.len() && at + width_of(c[i]) <= room
        invariant
            i <= c@.len(),
            at == text_width(c@.take(i as int)),
            at <= room <= usize::MAX,
        decreases c@.len() - i,
    {
        assert(c@.take(i + 1).drop_last() =~= c@.take(i as int));
        at = at + width_of(c[i]);
        i += 1;
    }
    if i < c.len() {
        assert(c@.take(i + 1).drop_last() =~= c@.take(i as int));
    }
    let head = name.substring_char(0, i);
    assert(head@ =~= name@.take(i as int));
    assert(is_cut(name@, head@, max - 3));
    concat2(head, "...")
}

/// The name of the file that a tensor is unpacked to: a slash in the tensor's name
/// becomes a dot.
pub fn unpacked_name(name: &str, raw: bool) -> (r: String)
    ensures
        r@ == replace_text(name@, '/', "."@) + (if raw {
            ".bin"@
        } else {
            ".npy"@
        }),
{
    let base = replace_char(name, '/', ".");
    if raw {
        concat2(base.as_str(), ".bin")
    } else {
        concat2(base.as_str(), ".npy")
    }
}

// ── Arrays for NumPy ────────────────────────────────────────────────
/// How NumPy names a type. What it has no name for is given as single precision.
pub open spec fn npy_type(dtype: DType) -> Seq<char> {
    match dtype {
        DType::F32 => "<f4"@,
        DType::F16 => "<f2"@,
        DType::BF16 => "<f2"@,
        DType::I32 => "<i4"@,
        DType::I64 => "<i8"@,
        DType::U8 => "u1"@,
        _ => "<f4"@,
    }
}

/// The description of an array, before it is padded.
pub open spec fn npy_text(dtype: DType, shape: Seq<u64>) -> Seq<char> {
    "{'descr': '"@ + npy_type(dtype) + "', 'fortran_order': False, 'shape': ("@ + join_text(
        dimension_texts(shape),
        ", "@,
    ) + ",) }"@
}

/// A row of spaces.
pub open spec fn blanks(n: nat) -> Seq<u8> {
    Seq::new(n, |i: int| 0x20u8)
}

/// The number of spaces behind a description of so many bytes: with the ten bytes
/// before it, it then takes a multiple of sixty-four.
pub open spec fn npy_padding(len: int) -> int {
    (10 + len + 63) / 64 * 64 - 10 - len
}

/// The bytes before an array in a file for NumPy: a signature, the version, the
/// length of the description, and the padded description.
pub open spec fn npy_bytes(dtype: DType, shape: Seq<u64>) -> Seq<u8> {
    let text = encode_utf8(npy_text(dtype, shape));
    let pad = npy_padding(text.len() as int);
    let len = text.len() + pad;
    seq![
        0x93u8,
        0x4e,
        0x55,
        0x4d,
        0x50,
        0x59,
        1,
        0,
        (len % 256) as u8,
        (len / 256 % 256) as u8,
    ] + text + blanks(pad as nat)
}

/// The bytes before an array in a file for NumPy take a multiple of sixty-four.
pub proof fn lemma_npy_aligned(dtype: DType, shape: Seq<u64>)
    ensures
        npy_bytes(dtype, shape).len() % 64 == 0,
{
    let text = encode_utf8(npy_text(dtype, shape));
    assert(0 <= npy_padding(text.len() as int) < 64);
}

/// The bytes before an array in a file for NumPy.
pub fn npy_header(dtype: DType, shape: &[u64]) -> (r: Vec<u8>)
    ensures
        r@ == npy_bytes(dtype, shape@),
{
    let kind = match dtype {
        DType::F32 => "<f4",
        DType::F16 => "<f2",
        DType::BF16 => "<f2",
        DType::I32 => "<i4",
        DType::I64 => "<i8",
        DType::U8 => "u1",
        _ => "<f4",
    };
    let dims = shape_text(shape, ", ");
    let text = concat5(
        "{'descr': '",
        kind,
        "', 'fortran_order': False, 'shape': (",
        dims.as_str(),
        ",) }",
    );
    let b = text.as_str().as_bytes();
    let len = b.len() as u128;
    let ghost n = b@.len() as int;
    let pad = (10 + len + 63) / 64 * 64 - 10 - len;
    assert(pad == npy_padding(n) && pad < 64);
    let all = len + pad;
    let mut out: Vec<u8> = Vec::new();
    out.push(0x93);
    out.push(0x4e);
    out.push(0x55);
    out.push(0x4d);
    out.push(0x50);
    out.push(0x59);
    out.push(1);
    out.push(0);
    out.push((all % 256) as u8);
    out.push((all / 256 % 256) as u8);
    put_bytes(&mut out, b);
    let ghost start = out@;
    let mut i: u128 = 0;
    assert(out@ =~= start + blanks(0));
    while i < pad
        invariant
            i <= pad,
            out@ == start + blanks(i as nat),
        decreases pad - i,
    {
        out.push(0x20);
        i += 1;
        assert(out@ =~= start + blanks(i as nat));
    }
    assert(out@ =~= npy_bytes(dtype, shape@));
    out
}

// ── Ranges ──────────────────────────────────────────────────────────
/// The text behind the first equals sign, up to the next; the whole text where
/// there is none.
pub open spec fn range_part(s: Seq<char>) -> Seq<char> {
    let parts = split_text(s, '=');
    if parts.len() >= 2 {
        parts[1]
    } else {
        parts[0]
    }
}

/// The number that a text is, where a machine word has room for it, else the
/// default.
pub open spec fn word_or(s: Seq<char>, default: usize) -> usize {
    match number_of(s) {
        Some(n) => if n <= usize::MAX {
            n as usize
        } else {
            default
        },
        None => default,
    }
}

/// The text without an ending that it has, and without space around it.
pub open spec fn without_unit(s: Seq<char>, unit: Seq<char>) -> Seq<char> {
    trimmed(s.subrange(0, s.len() - unit.len()))
}

/// The digits of a size in lower case, and how many bytes its unit has.
pub open spec fn size_of_text(s: Seq<char>) -> (Seq<char>, u64) {
    let t = trimmed(s);
    if "gb"@.is_suffix_of(t) {
        (without_unit(t, "gb"@), 0x4000_0000)
    } else if "mb"@.is_suffix_of(t) {
        (without_unit(t, "mb"@), 0x10_0000)
    } else if "kb"@.is_suffix_of(t) {
        (without_unit(t, "kb"@), 0x400)
    } else {
        (t, 1)
    }
}

/// Parts a size in lower case, such as `1.5gb`: its digits, and how many bytes
/// its unit has. Without a unit it is a number of bytes.
pub fn size_parts(s: &str) -> (r: (&str, u64))
    ensures
        (r.0@, r.1) == size_of_text(s@),
{
    let t = trim(s);
    if let Some(b) = strip_suffix(t, "gb") {
        assert(b@ =~= t@.subrange(0, t@.len() - "gb"@.len()));
        return (trim(b), 0x4000_0000);
    }
    if let Some(b) = strip_suffix(t, "mb") {
        assert(b@ =~= t@.subrange(0, t@.len() - "mb"@.len()));
        return (trim(b), 0x10_0000);
    }
    if let Some(b) = strip_suffix(t, "kb") {
        assert(b@ =~= t@.subrange(0, t@.len() - "kb"@.len()));
        return (trim(b), 0x400);
    }
    (t, 1)
}

/// The number that a text is, else the default.
pub open spec fn number_or_default(s: Seq<char>, default: u64) -> u64 {
    match number_of(s) {
        Some(n) => n,
        None => default,
    }
}

/// Reads a range of rows: two numbers with a comma between them, which may stand
/// behind a name and an equals sign. What is no number counts as zero or one.
pub fn parse_rows(s: &str) -> (r: Option<(usize, usize)>)
    ensures
        ({
            let parts = split_text(range_part(s@), ',');
            if parts.len() == 2 {
                r == Some((word_or(parts[0], 0), word_or(parts[1], 1)))
            } else {
                r is None
            }
        }),
{
    let named = split(s, '=');
    let ghost whole = split_text(s@, '=');
    assert(texts(named@) == whole);
    let range = if named.len() >= 2 {
        assert(whole[1] == named@[1]@);
        &named[1]
    } else {
        assert(whole[0] == named@[0]@);
        &named[0]
    };
    let parts = split(range.as_str(), ',');
    if parts.len() != 2 {
        assert(split_text(range@, ',').len() != 2);
        return None;
    }
    assert(texts(parts@)[0] == parts@[0]@ && texts(parts@)[1] == parts@[1]@);
    Some((parse_word(parts[0].as_str(), 0), parse_word(parts[1].as_str(), 1)))
}

fn parse_word(s: &str, default: usize) -> (r: usize)
    ensures
        r == word_or(s@, default),
{
    match parse_number(s) {
        Some(n) => if n <= usize::MAX as u64 {
            n as usize
        } else {
            default
        },
        None => default,
    }
}

/// Reads an offset and a size, two numbers with a comma between them. What is no
/// number counts as zero or sixty-four.
pub fn parse_byte_range(s: &str) -> (r: Option<(u64, u64)>)
    ensures
        ({
            let parts = split_text(s@, ',');
            if parts.len() == 2 {
                r == Some((number_or_default(parts[0], 0), number_or_default(parts[1], 64)))
            } else {
                r is None
            }
        }),
{
    let parts = split(s, ',');
    if parts.len() != 2 {
        assert(split_text(s@, ',').len() != 2);
        return None;
    }
    assert(texts(parts@)[0] == parts@[0]@ && texts(parts@)[1] == parts@[1]@);
    let offset = match parse_number(parts[0].as_str()) {
        Some(n) => n,
        None => 0,
    };
    let size = match parse_number(parts[1].as_str()) {
        Some(n) => n,
        None => 64,
    };
    Some((offset, size))
}

// ── Packing ─────────────────────────────────────────────────────────
/// A tensor that is to be packed.
#[verifier::ext_equal]
pub struct PackModel {
    pub name: Seq<char>,
    pub dtype: DType,
    pub shape: Seq<u64>,
}

/// The dimensions that a list states, where every item is one.
pub open spec fn dimensions_of(a: Seq<Json>) -> Option<Seq<u64>> {
    if forall|i: int| 0 <= i < a.len() ==> (#[trigger] a[i]).uint() is Some {
        Some(Seq::new(a.len(), |i: int| a[i].uint()->0))
    } else {
        None
    }
}

/// The code of a type: its lower half where it is a number, else that of single
/// precision.
pub open spec fn code_of(v: Option<Json>) -> u32 {
    match uint_of(v) {
        Some(n) => (n % 0x1_0000_0000) as u32,
        None => 0,
    }
}

/// The tensor that an entry of a packing list states, or why it states none.
pub open spec fn pack_entry(j: Json) -> Result<PackModel, Seq<char>> {
    match text_of(j.field("name"@)) {
        None => Err("Tensor must have a name"@),
        Some(name) => match items_of(j.field("shape"@)) {
            None => Err("Tensor must have shape"@),
            Some(a) => match dimensions_of(a) {
                None => Err("Tensor must have shape"@),
                Some(shape) => match dtype_of(code_of(j.field("dtype"@))) {
                    None => Err("Invalid dtype code"@),
                    Some(dtype) => Ok(PackModel { name, dtype, shape }),
                },
            },
        },
    }
}

/// The tensors of the entries from the `k`th on, behind those already there.
pub open spec fn pack_entries(a: Seq<Json>, k: int, done: Seq<PackModel>) -> Result<
    Seq<PackModel>,
    Seq<char>,
>
    decreases a.len() - k,
{
    if k >= a.len() {
        Ok(done)
    } else {
        match pack_entry(a[k]) {
            Err(e) => Err(e),
            Ok(t) => pack_entries(a, k + 1, done.push(t)),
        }
    }
}

/// The tensors that a packing list states, or why it states none.
pub open spec fn pack_list(d: Seq<u8>) -> Result<Seq<PackModel>, Seq<char>> {
    match json_document(d) {
        Err(e) => Err("Invalid JSON manifest: "@ + e),
        Ok(j) => pack_document(j),
    }
}

/// The tensors that a packing list states, or why it states none.
pub open spec fn pack_document(j: Json) -> Result<Seq<PackModel>, Seq<char>> {
    match items_of(j.field("tensors"@)) {
        None => Err("Manifest must have a 'tensors' array"@),
        Some(a) => pack_entries(a, 0, Seq::empty()),
    }
}

/// A tensor that is to be packed.
#[derive(Debug)]
pub struct PackEntry {
    /// Its name.
    pub name: String,
    /// The type of its elements.
    pub dtype: DType,
    /// Its dimensions.
    pub shape: Vec<u64>,
}

impl View for PackEntry {
    type V = PackModel;

    open spec fn view(&self) -> PackModel {
        PackModel { name: self.name@, dtype: self.dtype, shape: self.shape@ }
    }
}

/// What a row of entries stands for.
pub open spec fn pack_models(v: Seq<PackEntry>) -> Seq<PackModel> {
    Seq::new(v.len(), |i: int| v[i]@)
}

fn read_dimensions(a: &Vec<JsonValue>) -> (r: Option<Vec<u64>>)
    ensures
        match r {
            Some(v) => dimensions_of(models(a@)) == Some(v@),
            None => dimensions_of(models(a@)) is None,
        },
{
    let mut out: Vec<u64> = Vec::new();
    let mut i: usize = 0;
    let ghost all = models(a@);
    while i < a.len()
        invariant
            i <= a@.len(),
            all == models(a@),
            out@.len() == i,
            forall|k: int| 0 <= k < i ==> (#[trigger] all[k]).uint() == Some(out@[k]),
        decreases a@.len() - i,
    {
        assert(all[i as int] == a@[i as int]@);
        match a[i].as_u64() {
            Some(n) => out.push(n),
            None => return None,
        }
        i += 1;
    }
    assert(out@ =~= dimensions_of(all)->0);
    Some(out)
}

fn read_entry(j: &JsonValue) -> (r: Result<PackEntry, String>)
    ensures
        match r {
            Ok(t) => pack_entry(j@) == Ok::<PackModel, Seq<char>>(t@),
            Err(e) => pack_entry(j@) == Err::<PackModel, Seq<char>>(e@),
        },
{
    let name = match j.get("name") {
        Some(v) => match v.as_str() {
            Some(s) => s,
            None => return Err("Tensor must have a name".to_owned()),
        },
        None => return Err("Tensor must have a name".to_owned()),
    };
    let list = match j.get("shape") {
        Some(v) => match v.as_array() {
            Some(a) => a,
            None => return Err("Tensor must have shape".to_owned()),
        },
        None => return Err("Tensor must have shape".to_owned()),
    };
    let shape = match read_dimensions(list) {
        Some(v) => v,
        None => return Err("Tensor must have shape".to_owned()),
    };
    let number = match j.get("dtype") {
        Some(v) => v.as_u64(),
        None => None,
    };
    let code = match number {
        Some(n) => (n % 0x1_0000_0000) as u32,
        None => 0,
    };
    match DType::from_code(code) {
        Ok(dtype) => Ok(PackEntry { name: name.to_owned(), dtype, shape }),
        Err(_) => Err("Invalid dtype code".to_owned()),
    }
}

/// The tensors that a packing list states.
pub fn read_pack_document(j: &JsonValue) -> (r: Result<Vec<PackEntry>, String>)
    ensures
        match r {
            Ok(v) => pack_document(j@) == Ok::<Seq<PackModel>, Seq<char>>(pack_models(v@)),
            Err(e) => pack_document(j@) == Err::<Seq<PackModel>, Seq<char>>(e@),
        },
{
    let list = match j.get("tensors") {
        Some(v) => match v.as_array() {
            Some(a) => a,
            None => return Err("Manifest must have a 'tensors' array".to_owned()),
        },
        None => return Err("Manifest must have a 'tensors' array".to_owned()),
    };
    let ghost all = models(list@);
    let mut out: Vec<PackEntry> = Vec::new();
    let mut k: usize = 0;
    assert(pack_models(out@) =~= Seq::empty());
    while k < list.len()
        invariant
            k <= list@.len(),
            all == models(list@),
            pack_document(j@) == pack_entries(all, k as int, pack_models(out@)),
        decreases list@.len() - k,
    {
        assert(all[k as int] == list@[k as int]@);
        let t = read_entry(&list[k])?;
        assert(pack_models(out@.push(t)) =~= pack_models(out@).push(t@));
        out.push(t);
        k += 1;
    }
    Ok(out)
}

/// Reads a packing list: a JSON object with an array of tensors.
pub fn read_pack_list(d: &[u8]) -> (r: Result<Vec<PackEntry>, String>)
    ensures
        match r {
            Ok(v) => pack_list(d@) == Ok::<Seq<PackModel>, Seq<char>>(pack_models(v@)),
            Err(e) => pack_list(d@) == Err::<Seq<PackModel>, Seq<char>>(e@),
        },
{
    match parse_json(d) {
        Err(e) => Err(concat2("Invalid JSON manifest: ", e.as_str())),
        Ok(j) => read_pack_document(&j),
    }
}

/// The byte at a place of synthetic data.
pub open spec fn synthetic_byte(i: int) -> u8 {
    ((i * 1103515245 + 12345) / 0x1_0000 % 0x100) as u8
}

/// Data for a tensor that none was given for.
pub fn synthetic_bytes(n: usize) -> (r: Vec<u8>)
    ensures
        r@ == Seq::new(n as nat, |i: int| synthetic_byte(i)),
{
    let mut out: Vec<u8> = Vec::new();
    let mut i: usize = 0;
    assert(out@ =~= Seq::new(0, |k: int| synthetic_byte(k)));
    while i < n
        invariant
            i <= n,
            out@ == Seq::new(i as nat, |k: int| synthetic_byte(k)),
        decreases n - i,
    {
        let v = i as u128 * 1103515245 + 12345;
        out.push((v / 0x1_0000 % 0x100) as u8);
        i += 1;
        assert(out@ =~= Seq::new(i as nat, |k: int| synthetic_byte(k)));
    }
    out
}

/// How many bytes a tensor has, where a machine word has room for the number.
pub fn synthetic_size(shape: &[u64], dtype: DType) -> (r: Option<usize>)
    ensures
        match r {
            Some(n) => n == product(shape@) * dtype_size(dtype),
            None => product(shape@) * dtype_size(dtype) > usize::MAX,
        },
{
    let n = element_count(shape);
    let size = dtype.size_in_bytes() as u128;
    assert(1 <= size <= 8);
    proof {
        let (a, b, s) = (n as int, product(shape@) as int, size as int);
        assert(0 <= a * s <= 0x4_0000_0000_0000_0000 * 8) by (nonlinear_arith)
            requires
                0 <= a <= 0x4_0000_0000_0000_0000,
                1 <= s <= 8,
        ;
        assert(b * s >= b && a * s >= a) by (nonlinear_arith)
            requires
                0 <= a,
                0 <= b,
                1 <= s,
        ;
    }
    let all = n * size;
    if all <= usize::MAX as u128 {
        Some(all as usize)
    } else {
        None
    }
}

// ── A model to try things on ────────────────────────────────────────
/// The projections of attention of a layer.
pub open spec fn created_attention(layer: nat) -> Seq<PackModel> {
    let prefix = "layer_"@ + decimal_text(layer) + "_"@;
    let shape = seq![4096u64, 4096];
    seq![
        PackModel { name: prefix + "q"@, dtype: DType::Q4, shape },
        PackModel { name: prefix + "k"@, dtype: DType::Q4, shape },
        PackModel { name: prefix + "v"@, dtype: DType::Q4, shape },
        PackModel { name: prefix + "o"@, dtype: DType::Q4, shape },
    ]
}

/// The projections of the feed-forward step of a layer.
pub open spec fn created_feed_forward(layer: nat) -> Seq<PackModel> {
    let prefix = "layer_"@ + decimal_text(layer) + "_mlp_"@;
    let wide = seq![4096u64, 11008];
    seq![
        PackModel { name: prefix + "gate"@, dtype: DType::F16, shape: wide },
        PackModel { name: prefix + "up"@, dtype: DType::F16, shape: wide },
        PackModel { name: prefix + "down"@, dtype: DType::F16, shape: seq![11008u64, 4096] },
    ]
}

/// The tensors of a model with two layers.
pub open spec fn created_list() -> Seq<PackModel> {
    let table = seq![32000u64, 4096];
    seq![PackModel { name: "emb_weight"@, dtype: DType::F16, shape: table }] + created_attention(0)
        + created_attention(1) + created_feed_forward(0) + created_feed_forward(1) + seq![
        PackModel { name: "norm_weight"@, dtype: DType::F16, shape: seq![4096u64] },
        PackModel { name: "lm_head"@, dtype: DType::F16, shape: table },
    ]
}

fn push_entry(out: &mut Vec<PackEntry>, name: String, dtype: DType, rows: u64, cols: u64)
    ensures
        pack_models(final(out)@) == pack_models(old(out)@).push(
            PackModel { name: name@, dtype, shape: seq![rows, cols] },
        ),
{
    let mut shape: Vec<u64> = Vec::new();
    shape.push(rows);
    shape.push(cols);
    assert(shape@ =~= seq![rows, cols]);
    out.push(PackEntry { name, dtype, shape });
    assert(pack_models(out@) =~= pack_models(old(out)@).push(
        PackModel { name: name@, dtype, shape: seq![rows, cols] },
    ));
}

fn push_attention(out: &mut Vec<PackEntry>, layer: u64)
    ensures
        pack_models(final(out)@) == pack_models(old(out)@) + created_attention(layer as nat),
{
    let n = decimal(layer);
    push_entry(out, concat4("layer_", n.as_str(), "_", "q"), DType::Q4, 4096, 4096);
    push_entry(out, concat4("layer_", n.as_str(), "_", "k"), DType::Q4, 4096, 4096);
    push_entry(out, concat4("layer_", n.as_str(), "_", "v"), DType::Q4, 4096, 4096);
    push_entry(out, concat4("layer_", n.as_str(), "_", "o"), DType::Q4, 4096, 4096);
    assert(pack_models(out@) =~= pack_models(old(out)@) + created_attention(layer as nat));
}

fn push_feed_forward(out: &mut Vec<PackEntry>, layer: u64)
    ensures
        pack_models(final(out)@) == pack_models(old(out)@) + created_feed_forward(layer as nat),
{
    let n = decimal(layer);
    push_entry(out, concat4("layer_", n.as_str(), "_mlp_", "gate"), DType::F16, 4096, 11008);
    push_entry(out, concat4("layer_", n.as_str(), "_mlp_", "up"), DType::F16, 4096, 11008);
    push_entry(out, concat4("layer_", n.as_str(), "_mlp_", "down"), DType::F16, 11008, 4096);
    assert(pack_models(out@) =~= pack_models(old(out)@) + created_feed_forward(layer as nat));
}

/// The tensors of a model with two layers, to try things on.
pub fn created_tensors() -> (r: Vec<PackEntry>)
    ensures
        pack_models(r@) == created_list(),
        r@.len() == 17,
{
    let mut out: Vec<PackEntry> = Vec::new();
    assert(pack_models(out@) =~= Seq::empty());
    push_entry(&mut out, "emb_weight".to_owned(), DType::F16, 32000, 4096);
    push_attention(&mut out, 0);
    push_attention(&mut out, 1);
    push_feed_forward(&mut out, 0);
    push_feed_forward(&mut out, 1);
    let mut shape: Vec<u64> = Vec::new();
    shape.push(4096);
    assert(shape@ =~= seq![4096u64]);
    let norm = PackEntry { name: "norm_weight".to_owned(), dtype: DType::F16, shape };
    let ghost before = pack_models(out@);
    out.push(norm);
    assert(pack_models(out@) =~= before.push(norm@));
    push_entry(&mut out, "lm_head".to_owned(), DType::F16, 32000, 4096);
    assert(pack_models(out@) =~= created_list());
    assert(pack_models(out@).len() == out@.len());
    out
}

// ── Laws ────────────────────────────────────────────────────────────
/// Integers of four or eight bytes are given to NumPy as such, and unsigned bytes. Half
/// precision of either kind is given as half, and all else as single precision.
pub proof fn lemma_npy_types(dtype: DType)
    ensures
        dtype_size(dtype) == 8 ==> npy_type(dtype) == "<i8"@,
        dtype == DType::I32 ==> npy_type(dtype) == "<i4"@,
        dtype == DType::U8 ==> npy_type(dtype) == "u1"@,
        dtype == DType::F16 || dtype == DType::BF16 ==> npy_type(dtype) == "<f2"@,
        dtype == DType::F32 || dtype == DType::I8 || dtype == DType::I16 || dtype == DType::Q4
            || dtype == DType::Q8 ==> npy_type(dtype) == "<f4"@,
{
}

/// An entry of a packing list states a tensor by its name, its dimensions and the code of
/// its type, and one without a code is of single precision.
pub proof fn lemma_entry_packed(j: Json, name: Seq<char>, shape: Seq<u64>, code: u32)
    requires
        j.field("name"@) == Some(Json::Text(name)),
        j.field("shape"@) == Some(
            Json::Array(Seq::new(shape.len(), |i: int| Json::UInt(shape[i]))),
        ),
    ensures
        j.field("dtype"@) == Some(Json::UInt(code as u64)) ==> pack_entry(j) == (match dtype_of(
            code,
        ) {
            Some(dtype) => Ok::<PackModel, Seq<char>>(PackModel { name, dtype, shape }),
            None => Err::<PackModel, Seq<char>>("Invalid dtype code"@),
        }),
        j.field("dtype"@) is None ==> pack_entry(j) == Ok::<PackModel, Seq<char>>(
            PackModel { name, dtype: DType::F32, shape },
        ),
{
    let a = Seq::new(shape.len(), |i: int| Json::UInt(shape[i]));
    assert(j.field("shape"@)->0.items() == Some(a));
    assert forall|i: int| 0 <= i < a.len() implies (#[trigger] a[i]).uint() == Some(shape[i]) by {}
    assert(dimensions_of(a)->0 =~= shape);
}

/// A packing list states the tensors of its entries, each once and in their order, and
/// none where one entry states none.
pub proof fn lemma_list_packed(j: Json, a: Seq<Json>)
    requires
        j.field("tensors"@) == Some(Json::Array(a)),
    ensures
        match pack_document(j) {
            Ok(l) => l.len() == a.len() && forall|i: int|
                0 <= i < a.len() ==> pack_entry(#[trigger] a[i]) == Ok::<PackModel, Seq<char>>(
                    l[i],
                ),
            Err(e) => exists|i: int|
                0 <= i < a.len() && pack_entry(#[trigger] a[i]) == Err::<PackModel, Seq<char>>(e),
        },
{
    assert(items_of(j.field("tensors"@)) == Some(a));
    lemma_entries_packed(a, 0, Seq::empty());
}

proof fn lemma_entries_packed(a: Seq<Json>, k: int, done: Seq<PackModel>)
    requires
        0 <= k <= a.len(),
        done.len() == k,
        forall|i: int|
            0 <= i < k ==> pack_entry(#[trigger] a[i]) == Ok::<PackModel, Seq<char>>(done[i]),
    ensures
        match pack_entries(a, k, done) {
            Ok(l) => l.len() == a.len() && forall|i: int|
                0 <= i < a.len() ==> pack_entry(#[trigger] a[i]) == Ok::<PackModel, Seq<char>>(
                    l[i],
                ),
            Err(e) => exists|i: int|
                0 <= i < a.len() && pack_entry(#[trigger] a[i]) == Err::<PackModel, Seq<char>>(e),
        },
    decreases a.len() - k,
{
    if k < a.len() {
        if let Ok(t) = pack_entry(a[k]) {
            lemma_entries_packed(a, k + 1, done.push(t));
        }
    }
}

/// The model to try has a table of embeddings, two layers, a norm and an output of half
/// precision. Of each layer the four projections of attention are of four bits, and the
/// three of the feed-forward step of half precision.
pub proof fn lemma_created(layer: int)
    requires
        layer == 0 || layer == 1,
    ensures
        ({
            let l = created_list();
            let front = "layer_"@ + decimal_text(layer as nat);
            let square = seq![4096u64, 4096u64];
            let a = 1 + 4 * layer;
            let f = 9 + 3 * layer;
            &&& l.len() == 17
            &&& l[0].name == "emb_weight"@ && l[0].shape == seq![32000u64, 4096u64]
            &&& l[a].name == front + "_"@ + "q"@ && l[a + 1].name == front + "_"@ + "k"@
            &&& l[a + 2].name == front + "_"@ + "v"@ && l[a + 3].name == front + "_"@ + "o"@
            &&& forall|i: int|
                a <= i < a + 4 ==> (#[trigger] l[i]).dtype == DType::Q4 && l[i].shape == square
            &&& l[f].name == front + "_mlp_"@ + "gate"@ && l[f + 1].name == front + "_mlp_"@
                + "up"@ && l[f + 2].name == front + "_mlp_"@ + "down"@
            &&& forall|i: int| f <= i < f + 3 ==> (#[trigger] l[i]).dtype == DType::F16
            &&& l[f].shape == seq![4096u64, 11008u64] && l[f + 1].shape == seq![4096u64, 11008u64]
            &&& l[f + 2].shape == seq![11008u64, 4096u64]
            &&& l[15].name == "norm_weight"@ && l[15].shape == seq![4096u64]
            &&& l[16].name == "lm_head"@ && l[16].shape == l[0].shape
            &&& l[0].dtype == DType::F16 && l[15].dtype == DType::F16 && l[16].dtype == DType::F16
        }),
{
}

} // verus!
