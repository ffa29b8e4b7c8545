//! What the functions of the C interface compute.
//!
//! A null handle is `None`, and a null buffer is an empty one. What went wrong
//! last is kept in a [`LastError`], one for each thread.
use vstd::prelude::*;
use vstd::utf8::encode_utf8;

use crate::bytes::slice;
use crate::container::{
    find_descriptor, find_name, lemma_find_name, open_file, payload_of, read_container, AxonHeader,
    Opened, AXON_VERSION,
};
use crate::descriptor::{descriptor_models, Descriptor, TensorDescriptor};
use crate::error::failure_text;
use crate::manifest::{opt_text, Manifest};
use crate::slices::copy_u64;
use crate::tensor::dtype_code;
use crate::text::{
    concat2, concat3, concat4, decimal, decimal_text, replace_char, replace_text, str_eq,
};

verus! {

// ── Strings ─────────────────────────────────────────────────────────
/// The bytes of a text as a C string has them, without the byte that ends it. A
/// text that holds that byte itself becomes the empty string.
pub open spec fn c_bytes(s: Seq<char>) -> Seq<u8> {
    let b = encode_utf8(s);
    if b.contains(0) {
        Seq::empty()
    } else {
        b
    }
}

/// How many bytes of a C string fit into a buffer, without the byte that ends it.
pub open spec fn fitting(b: Seq<u8>, size: nat) -> nat {
    if size == 0 {
        0
    } else if b.len() < size {
        b.len()
    } else {
        (size - 1) as nat
    }
}

/// A buffer behind the copy of a C string: what fits, the byte that ends it, and
/// what was there before. An empty buffer has no room for anything.
pub open spec fn with_c_string(b: Seq<u8>, buf: Seq<u8>) -> Seq<u8> {
    if buf.len() == 0 {
        buf
    } else {
        let n = fitting(b, buf.len()) as int;
        b.take(n) + seq![0u8] + buf.skip(n + 1)
    }
}

/// Copies a text into a buffer as a C string. Where it does not fit it is cut off;
/// the byte that ends it is always written. Returns the number of bytes before
/// that one.
pub fn copy_c_string(value: &str, buf: &mut [u8]) -> (r: u64)
    ensures
        r == fitting(c_bytes(value@), old(buf)@.len()),
        final(buf)@ == with_c_string(c_bytes(value@), old(buf)@),
{
    let all = value.as_bytes();
    let size = buf.len();
    let mut len: usize = 0;
    while len < all.len() && all[len] != 0
        invariant
            len <= all@.len(),
            forall|k: int| 0 <= k < len ==> #[trigger] all@[k] != 0,
        decreases all@.len() - len,
    {
        len += 1;
    }
    let ghost b = c_bytes(value@);
    if len < all.len() {
        assert(all@[len as int] == 0);
        len = 0;
    }
    assert(all@.take(len as int) =~= b);
    if size == 0 {
        return 0;
    }
    let n = if len < size {
        len
    } else {
        size - 1
    };
    let mut i: usize = 0;
    while i < n
        invariant
            i <= n,
            n < size,
            n <= len <= all@.len(),
            buf@.len() == size,
            size == old(buf)@.len(),
            b == all@.take(len as int),
            forall|k: int| 0 <= k < i ==> #[trigger] buf@[k] == b[k],
            forall|k: int| i <= k < size ==> #[trigger] buf@[k] == old(buf)@[k],
        decreases n - i,
    {
        buf[i] = all[i];
        i += 1;
    }
    buf[n] = 0;
    assert(buf@ =~= with_c_string(b, old(buf)@));
    n as u64
}

/// A message as it is kept: the byte that ends a C string is written out.
pub open spec fn kept_message(m: Seq<char>) -> Option<Seq<char>> {
    Some(replace_text(m, '\0', "\\0"@))
}

/// What went wrong last.
#[derive(Debug)]
pub struct LastError {
    message: Option<String>,
}

impl View for LastError {
    type V = Option<Seq<char>>;

    closed spec fn view(&self) -> Option<Seq<char>> {
        opt_text(self.message)
    }
}

impl LastError {
    /// Nothing went wrong yet.
    pub fn new() -> (r: LastError)
        ensures
            r@ is None,
    {
        LastError { message: None }
    }

    /// Keeps a message.
    pub fn set(&mut self, message: &str)
        ensures
            final(self)@ == kept_message(message@),
    {
        self.message = Some(replace_char(message, '\0', "\\0"));
    }

    /// Forgets the message.
    pub fn clear(&mut self)
        ensures
            final(self)@ is None,
    {
        self.message = None;
    }
}

/// Copies what went wrong last into a buffer. Without a message nothing is
/// written.
pub fn axon_last_error(last: &LastError, buf: &mut [u8]) -> (r: u64)
    ensures
        match last@ {
            Some(m) => r == fitting(c_bytes(m), old(buf)@.len()) && final(buf)@ == with_c_string(
                c_bytes(m),
                old(buf)@,
            ),
            None => r == 0 && final(buf)@ == old(buf)@,
        },
{
    match &last.message {
        Some(m) => copy_c_string(m.as_str(), buf),
        None => 0,
    }
}

/// The text of the version.
pub open spec fn version_text() -> Seq<char> {
    "Axon v"@ + decimal_text(AXON_VERSION as nat)
}

/// Copies the version of the format into a buffer.
pub fn axon_version(buf: &mut [u8]) -> (r: u64)
    ensures
        r == fitting(c_bytes(version_text()), old(buf)@.len()),
        final(buf)@ == with_c_string(c_bytes(version_text()), old(buf)@),
{
    let v = decimal(AXON_VERSION as u64);
    copy_c_string(concat2("Axon v", v.as_str()).as_str(), buf)
}

// ── Handles ─────────────────────────────────────────────────────────
/// An open file.
#[derive(Debug)]
pub struct AxonHandle<'a> {
    header: AxonHeader,
    manifest: Manifest,
    descriptors: Vec<TensorDescriptor>,
    data: &'a [u8],
}

/// The path that is to be opened.
#[derive(Clone, Copy, Debug)]
pub enum PathArgument<'a> {
    /// None was given.
    Null,
    /// Its bytes are no text, for this reason.
    NotText(&'a str),
    /// This one.
    Path(&'a str),
}

/// The message where a file cannot be opened.
pub open spec fn open_failure(path: Seq<char>, reason: Seq<char>) -> Seq<char> {
    "failed to open "@ + path + ": "@ + reason
}

/// The message where a function is given no handle.
pub open spec fn null_handle(function: Seq<char>) -> Seq<char> {
    function + " received a null handle"@
}

/// The message where there is no tensor with the index.
pub open spec fn out_of_range(index: u64) -> Seq<char> {
    "tensor index "@ + decimal_text(index as nat) + " is out of range"@
}

impl<'a> AxonHandle<'a> {
    /// The structure of the file.
    pub closed spec fn opened(self) -> Opened {
        Opened {
            header: self.header,
            manifest: self.manifest@,
            descriptors: descriptor_models(self.descriptors@),
        }
    }

    /// The bytes of the file.
    pub closed spec fn bytes(self) -> Seq<u8> {
        self.data@
    }

    /// The descriptor that is meant by an index: the first that has the name of the
    /// tensor at that place.
    pub open spec fn meant(self, index: int) -> Descriptor {
        let x = self.opened().descriptors;
        match find_name(x, x[index].name, 0) {
            Some(i) => x[i],
            None => x[index],
        }
    }

    fn descriptor(&self, index: u64) -> (r: Option<&TensorDescriptor>)
        ensures
            match r {
                Some(x) => index < self.opened().descriptors.len() && x@ == self.meant(
                    index as int,
                ),
                None => index >= self.opened().descriptors.len(),
            },
    {
        if index >= self.descriptors.len() as u64 {
            return None;
        }
        let i = index as usize;
        let ghost x = descriptor_models(self.descriptors@);
        assert(x[i as int] == self.descriptors@[i as int]@);
        proof {
            lemma_find_name(x, x[i as int].name, 0);
        }
        match find_descriptor(&self.descriptors, self.descriptors[i].name.as_str()) {
            Some(x) => Some(x),
            None => Some(&self.descriptors[i]),
        }
    }
}

/// Opens a file whose bytes were read, or could not be.
pub fn axon_open<'a>(
    path: PathArgument,
    file: Result<&'a [u8], &str>,
    last: &mut LastError,
) -> (r: Option<AxonHandle<'a>>)
    ensures
        match path {
            PathArgument::Null => r is None && final(last)@ == kept_message(
                "axon_open received a null path"@,
            ),
            PathArgument::NotText(e) => r is None && final(last)@ == kept_message(
                "path is not valid UTF-8: "@ + e@,
            ),
            PathArgument::Path(p) => match file {
                Err(e) => r is None && final(last)@ == kept_message(open_failure(p@, e@)),
                Ok(d) => match open_file(d@) {
                    Err(f) => r is None && final(last)@ == kept_message(
                        open_failure(p@, failure_text(f)),
                    ),
                    Ok(o) => r matches Some(h) && h.opened() == o && h.bytes() == d@ && final(last)@ is None,
                },
            },
        },
{
    let p = match path {
        PathArgument::Null => {
            last.set("axon_open received a null path");
            return None;
        },
        PathArgument::NotText(e) => {
            last.set(concat2("path is not valid UTF-8: ", e).as_str());
            return None;
        },
        PathArgument::Path(p) => p,
    };
    let data = match file {
        Ok(d) => d,
        Err(e) => {
            last.set(concat4("failed to open ", p, ": ", e).as_str());
            return None;
        },
    };
    match read_container(data) {
        Err(e) => {
            last.set(concat4("failed to open ", p, ": ", e.message().as_str()).as_str());
            None
        },
        Ok((header, manifest, descriptors)) => {
            last.clear();
            Some(AxonHandle { header, manifest, descriptors, data })
        },
    }
}

/// The number of tensors in an open file, or zero without a handle.
pub fn axon_tensor_count(handle: Option<&AxonHandle>, last: &mut LastError) -> (r: u64)
    ensures
        match handle {
            None => r == 0 && final(last)@ == kept_message(null_handle("axon_tensor_count"@)),
            Some(h) => r == h.opened().header.tensor_count && final(last)@ is None,
        },
{
    match handle {
        None => {
            last.set(concat2("axon_tensor_count", " received a null handle").as_str());
            0
        },
        Some(h) => {
            last.clear();
            h.header.tensor_count
        },
    }
}

/// The size of the payload of an open file, or zero without a handle.
pub fn axon_payload_size(handle: Option<&AxonHandle>, last: &mut LastError) -> (r: u64)
    ensures
        match handle {
            None => r == 0 && final(last)@ == kept_message(null_handle("axon_payload_size"@)),
            Some(h) => r == h.opened().header.payload_size && final(last)@ is None,
        },
{
    match handle {
        None => {
            last.set(concat2("axon_payload_size", " received a null handle").as_str());
            0
        },
        Some(h) => {
            last.clear();
            h.header.payload_size
        },
    }
}

/// The name of the model, empty where the manifest has none.
pub open spec fn model_of(o: Opened) -> Seq<char> {
    match o.manifest.model {
        Some(m) => m,
        None => Seq::empty(),
    }
}

/// Copies the name of the model into a buffer.
pub fn axon_model_name(handle: Option<&AxonHandle>, buf: &mut [u8], last: &mut LastError) -> (r: u64)
    ensures
        match handle {
            None => r == 0 && final(buf)@ == old(buf)@ && final(last)@ == kept_message(
                null_handle("axon_model_name"@),
            ),
            Some(h) => r == fitting(c_bytes(model_of(h.opened())), old(buf)@.len()) && final(buf)@ == with_c_string(c_bytes(model_of(h.opened())), old(buf)@) && final(last)@ is None,
        },
{
    match handle {
        None => {
            last.set(concat2("axon_model_name", " received a null handle").as_str());
            0
        },
        Some(h) => {
            last.clear();
            match &h.manifest.model {
                Some(m) => copy_c_string(m.as_str(), buf),
                None => {
                    let none = String::new();
                    copy_c_string(none.as_str(), buf)
                },
            }
        },
    }
}

/// What is told of a tensor.
#[derive(Debug)]
pub struct InfoOut {
    /// The code of its type.
    pub dtype: u32,
    /// Its dimensions.
    pub shape: Vec<u64>,
    /// Where in the file its bytes begin.
    pub data_offset: u64,
    /// How many bytes it has.
    pub data_size: u64,
}

/// What is told of the tensor with an index. Its name is copied into a buffer.
pub fn axon_tensor_info(
    handle: Option<&AxonHandle>,
    index: u64,
    name_buf: &mut [u8],
    last: &mut LastError,
) -> (r: Option<InfoOut>)
    ensures
        match handle {
            None => r is None && final(name_buf)@ == old(name_buf)@ && final(last)@
                == kept_message(null_handle("axon_tensor_info"@)),
            Some(h) => if index >= h.opened().descriptors.len() {
                r is None && final(name_buf)@ == old(name_buf)@ && final(last)@ == kept_message(
                    out_of_range(index),
                )
            } else {
                let x = h.meant(index as int);
                r matches Some(i) && i.dtype == dtype_code(x.dtype) && i.shape@ == x.shape
                    && i.data_offset == x.data_offset && i.data_size == x.data_size && final(name_buf)@ == with_c_string(c_bytes(x.name), old(name_buf)@) && final(last)@ is None
            },
        },
{
    let h = match handle {
        None => {
            last.set(concat2("axon_tensor_info", " received a null handle").as_str());
            return None;
        },
        Some(h) => h,
    };
    match h.descriptor(index) {
        None => {
            let n = decimal(index);
            last.set(concat3("tensor index ", n.as_str(), " is out of range").as_str());
            None
        },
        Some(x) => {
            copy_c_string(x.name.as_str(), name_buf);
            last.clear();
            Some(
                InfoOut {
                    dtype: x.dtype.code(),
                    shape: copy_u64(x.shape.as_slice()),
                    data_offset: x.data_offset,
                    data_size: x.data_size,
                },
            )
        },
    }
}

/// What is given of the bytes of a tensor.
#[derive(Debug)]
pub struct DataOut<'a> {
    /// Their number, where there is such a tensor.
    pub size: Option<u64>,
    /// The bytes, where the file has them.
    pub bytes: Option<&'a [u8]>,
}

/// The message where the bytes of a tensor are not within the file.
pub open spec fn range_failure(x: Descriptor) -> Seq<char> {
    if x.data_offset + x.data_size > usize::MAX {
        "tensor "@ + x.name + " byte range overflows usize"@
    } else {
        "tensor "@ + x.name + " byte range exceeds file size"@
    }
}

/// The bytes of the tensor with an index.
pub fn axon_tensor_data<'a>(handle: Option<&AxonHandle<'a>>, index: u64, last: &mut LastError) -> (r:
    DataOut<'a>)
    ensures
        match handle {
            None => r.size is None && r.bytes is None && final(last)@ == kept_message(
                null_handle("axon_tensor_data"@),
            ),
            Some(h) => if index >= h.opened().descriptors.len() {
                r.size is None && r.bytes is None && final(last)@ == kept_message(
                    out_of_range(index),
                )
            } else {
                let x = h.meant(index as int);
                r.size == Some(x.data_size) && match payload_of(h.bytes(), x) {
                    Some(b) => r.bytes matches Some(v) && v@ == b && final(last)@ is None,
                    None => r.bytes is None && final(last)@ == kept_message(range_failure(x)),
                }
            },
        },
{
    let h = match handle {
        None => {
            last.set(concat2("axon_tensor_data", " received a null handle").as_str());
            return DataOut { size: None, bytes: None };
        },
        Some(h) => h,
    };
    let x = match h.descriptor(index) {
        None => {
            let n = decimal(index);
            last.set(concat3("tensor index ", n.as_str(), " is out of range").as_str());
            return DataOut { size: None, bytes: None };
        },
        Some(x) => x,
    };
    let end = x.data_offset as u128 + x.data_size as u128;
    assert(h.data@.len() == h.data.len());
    if end > usize::MAX as u128 {
        last.set(concat3("tensor ", x.name.as_str(), " byte range overflows usize").as_str());
        return DataOut { size: Some(x.data_size), bytes: None };
    }
    if end > h.data.len() as u128 {
        last.set(concat3("tensor ", x.name.as_str(), " byte range exceeds file size").as_str());
        return DataOut { size: Some(x.data_size), bytes: None };
    }
    last.clear();
    DataOut {
        size: Some(x.data_size),
        bytes: Some(slice(h.data, x.data_offset as usize, end as usize)),
    }
}

// ── Checksums ───────────────────────────────────────────────────────
/// What the checksums of the tensors told.
#[derive(Debug)]
pub struct ChecksumReport {
    /// How many tensors are valid.
    pub valid: u64,
    /// The places of those that are not.
    pub failed: Vec<u64>,
}

/// What checksums told, by the names of the tensors.
pub open spec fn verdicts(v: Seq<(String, bool)>) -> Seq<(Seq<char>, bool)> {
    Seq::new(v.len(), |i: int| (v[i].0@, v[i].1))
}

/// How many of the first `k` verdicts are good.
pub open spec fn good_count(v: Seq<(Seq<char>, bool)>, k: int) -> nat
    decreases k,
{
    if k <= 0 {
        0
    } else {
        good_count(v, k - 1) + (if v[k - 1].1 {
            1nat
        } else {
            0
        })
    }
}

/// The places of the tensors of which the first `k` verdicts are bad. A verdict on
/// a name that no tensor has counts for nothing.
pub open spec fn bad_places(x: Seq<Descriptor>, v: Seq<(Seq<char>, bool)>, k: int) -> Seq<u64>
    decreases k,
{
    if k <= 0 {
        Seq::empty()
    } else {
        let done = bad_places(x, v, k - 1);
        if v[k - 1].1 {
            done
        } else {
            match find_name(x, v[k - 1].0, 0) {
                Some(i) => done.push(i as u64),
                None => done,
            }
        }
    }
}

fn place_of(v: &Vec<TensorDescriptor>, name: &str) -> (r: Option<usize>)
    ensures
        match r {
            Some(i) => find_name(descriptor_models(v@), name@, 0) == Some(i as int),
            None => find_name(descriptor_models(v@), name@, 0) is None,
        },
{
    let mut i: usize = 0;
    while i < v.len()
        invariant
            i <= v@.len(),
            find_name(descriptor_models(v@), name@, 0) == find_name(
                descriptor_models(v@),
                name@,
                i as int,
            ),
        decreases v@.len() - i,
    {
        assert(descriptor_models(v@)[i as int] == v@[i as int]@);
        if str_eq(v[i].name.as_str(), name) {
            return Some(i);
        }
        i += 1;
    }
    None
}

/// Sums up what the checksums of the tensors told.
pub fn axon_verify_checksums(
    handle: Option<&AxonHandle>,
    results: &Vec<(String, bool)>,
    last: &mut LastError,
) -> (r: ChecksumReport)
    ensures
        match handle {
            None => r.valid == 0 && r.failed@.len() == 0 && final(last)@ == kept_message(
                null_handle("axon_verify_checksums"@),
            ),
            Some(h) => {
                let v = verdicts(results@);
                r.valid == good_count(v, v.len() as int) && r.failed@ == bad_places(
                    h.opened().descriptors,
                    v,
                    v.len() as int,
                ) && final(last)@ is None
            },
        },
{
    let h = match handle {
        None => {
            last.set(concat2("axon_verify_checksums", " received a null handle").as_str());
            return ChecksumReport { valid: 0, failed: Vec::new() };
        },
        Some(h) => h,
    };
    let ghost v = verdicts(results@);
    let mut valid: u64 = 0;
    let mut failed: Vec<u64> = Vec::new();
    let mut k: usize = 0;
    assert(failed@ =~= bad_places(h.opened().descriptors, v, 0));
    while k < results.len()
        invariant
            k <= results@.len(),
            v == verdicts(results@),
            valid <= k,
            valid == good_count(v, k as int),
            failed@ == bad_places(h.opened().descriptors, v, k as int),
        decreases results@.len() - k,
    {
        assert(v[k as int] == (results@[k as int].0@, results@[k as int].1));
        if results[k].1 {
            valid = valid + 1;
        } else if let Some(i) = place_of(&h.descriptors, results[k].0.as_str()) {
            failed.push(i as u64);
        }
        k += 1;
    }
    last.clear();
    ChecksumReport { valid, failed }
}

/// Where every verdict is on a tensor of the file, each is either counted as good or
/// gives a place of a bad one.
pub proof fn lemma_all_judged(x: Seq<Descriptor>, v: Seq<(Seq<char>, bool)>, k: int)
    requires
        0 <= k <= v.len(),
        forall|i: int| 0 <= i < k ==> find_name(x, (#[trigger] v[i]).0, 0) is Some,
    ensures
        good_count(v, k) + bad_places(x, v, k).len() == k,
    decreases k,
{
    if k > 0 {
        lemma_all_judged(x, v, k - 1);
        assert(find_name(x, v[k - 1].0, 0) is Some);
    }
}

/// A text is copied up to the room that a buffer has before the byte that ends it. What is
/// behind that byte stays as it was, and so does a buffer without room. A text that holds
/// the byte itself is copied as the empty one.
pub proof fn lemma_c_string(s: Seq<char>, buf: Seq<u8>, i: int)
    requires
        0 <= i < buf.len(),
    ensures
        ({
            let b = encode_utf8(s);
            let n = fitting(c_bytes(s), buf.len());
            let out = with_c_string(c_bytes(s), buf);
            &&& out.len() == buf.len()
            &&& b.contains(0u8) ==> n == 0
            &&& !b.contains(0u8) && b.len() < buf.len() ==> n == b.len()
            &&& !b.contains(0u8) && b.len() >= buf.len() ==> n + 1 == buf.len()
            &&& i < n ==> out[i] == b[i]
            &&& i == n ==> out[i] == 0
            &&& i > n ==> out[i] == buf[i]
        }),
        fitting(c_bytes(s), 0) == 0,
        with_c_string(c_bytes(s), Seq::empty()) == Seq::<u8>::empty(),
{
}

/// A message is kept whole, but for the byte that ends a C string: a backslash and a zero
/// stand for it.
pub proof fn lemma_kept_message(a: Seq<char>, c: char)
    ensures
        kept_message(Seq::empty()) == Some(Seq::<char>::empty()),
        kept_message(a.push(c)) == Some(
            kept_message(a)->0 + (if c as u32 == 0 {
                seq!['\\', '0']
            } else {
                seq![c]
            }),
        ),
{
    reveal_strlit("\\0");
    assert("\\0"@ =~= seq!['\\', '0']);
    assert(a.push(c).drop_last() =~= a);
}

/// An index means the tensor at that place, or one before it that has the same name.
pub proof fn lemma_meant(h: AxonHandle, index: int)
    requires
        0 <= index < h.opened().descriptors.len(),
    ensures
        ({
            let x = h.opened().descriptors;
            &&& exists|i: int| 0 <= i <= index && #[trigger] x[i] == h.meant(index)
            &&& h.meant(index).name == x[index].name
            &&& (forall|i: int| 0 <= i < index ==> (#[trigger] x[i]).name != x[index].name)
                ==> h.meant(index) == x[index]
        }),
{
    let x = h.opened().descriptors;
    lemma_find_name(x, x[index].name, 0);
}

/// The places of bad tensors are those of the tensors that a bad verdict names.
pub proof fn lemma_bad_places(x: Seq<Descriptor>, v: Seq<(Seq<char>, bool)>, k: int)
    requires
        0 <= k <= v.len(),
        x.len() <= u64::MAX,
    ensures
        forall|j: int|
            0 <= j < bad_places(x, v, k).len() ==> {
                let p = #[trigger] bad_places(x, v, k)[j] as int;
                p < x.len() && exists|i: int|
                    0 <= i < k && !(#[trigger] v[i]).1 && v[i].0 == x[p].name
            },
        (forall|i: int| 0 <= i < k ==> (#[trigger] v[i]).1) ==> good_count(v, k) == k,
    decreases k,
{
    if k > 0 {
        lemma_bad_places(x, v, k - 1);
        lemma_find_name(x, v[k - 1].0, 0);
        let (done, all) = (bad_places(x, v, k - 1), bad_places(x, v, k));
        assert forall|j: int| 0 <= j < all.len() implies {
            let p = #[trigger] all[j] as int;
            p < x.len() && exists|i: int| 0 <= i < k && !(#[trigger] v[i]).1 && v[i].0 == x[p].name
        } by {
            if j < done.len() {
                let p = done[j] as int;
                let i = choose|i: int|
                    0 <= i < k - 1 && !(#[trigger] v[i]).1 && v[i].0 == x[p].name;
                assert(all[j] == done[j]);
                assert(!v[i].1 && v[i].0 == x[p].name);
            } else {
                assert(!v[k - 1].1 && v[k - 1].0 == x[all[j] as int].name);
            }
        }
    }
}

} // verus!
