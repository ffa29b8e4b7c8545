//! Adapters that are laid over a model without changing its file.
//!
//! A patched runtime holds a base file and the files of attached adapters. A
//! tensor comes from the adapter that was attached last among those that patch it,
//! and from the base where none does. Once an adapter was chosen, only that one
//! patches tensors.
use vstd::prelude::*;

use crate::builder::{added, built, empty_draft, faithful, AxonBuilder, Draft};
use crate::container::{find_name, lemma_find_name, open_file, Opened};
use crate::descriptor::Descriptor;
use crate::dtype::block_bytes;
use crate::elements::{
    block_at, block_row, common_count, element, element_kind, element_rows, fits_row, integer_sums,
    kind_of, lemma_block_before, lemma_element_before, lemma_packed_blocks, lemma_placed_elements,
    lemma_sum_of_elements, lemma_sum_reaches, packed_blocks, placed, read_row, rest_sums, room,
    row_bytes, row_fits, row_len, row_of, sum_elements, sum_rest, unit_bytes, unit_size, write_row,
    ElementKind, ElementRow, Elements,
};
use crate::error::{invalid, AxonError, AxonResult, Failure};
use crate::model::{names_of, slices};
use crate::runtime::{
    facts_of, lookup, outcome, part_of_tensor, whole_tensor, AxonRuntime, TensorAccess, TensorInfo,
};
use crate::stats::RuntimeStats;
use crate::tensor::{dtype_size, DType};
use crate::text::{concat2, concat3, ends_with, str_eq, strip_prefix, strip_suffix};

verus! {

// ── Names ───────────────────────────────────────────────────────────
/// The first of the two that is there.
pub open spec fn either(a: Option<Seq<char>>, b: Option<Seq<char>>) -> Option<Seq<char>> {
    match a {
        Some(_) => a,
        None => b,
    }
}

/// What stands before the suffix.
pub open spec fn stem(name: Seq<char>, suffix: Seq<char>) -> Option<Seq<char>> {
    if suffix.is_suffix_of(name) {
        Some(name.take(name.len() - suffix.len()))
    } else {
        None
    }
}

/// What stands before the suffix, where it names a weight or a bias.
pub open spec fn typed_stem(name: Seq<char>, suffix: Seq<char>) -> Option<Seq<char>> {
    match stem(name, suffix) {
        Some(b) => if ".weight"@.is_suffix_of(b) || ".bias"@.is_suffix_of(b) {
            Some(b)
        } else {
            None
        },
        None => None,
    }
}

/// The name without the part that marks an adapter's matrix at its end.
pub open spec fn stripped(name: Seq<char>) -> Option<Seq<char>> {
    either(
        typed_stem(name, ".lora_A"@),
        either(
            typed_stem(name, ".lora_B"@),
            either(
                typed_stem(name, ".lora_a"@),
                either(
                    typed_stem(name, ".lora_b"@),
                    either(
                        stem(name, ".lora_A.weight"@),
                        either(
                            stem(name, ".lora_B.weight"@),
                            either(
                                stem(name, ".lora_a.weight"@),
                                either(
                                    stem(name, ".lora_b.weight"@),
                                    either(
                                        stem(name, ".lora_A"@),
                                        either(
                                            stem(name, ".lora_B"@),
                                            either(
                                                stem(name, ".lora_a"@),
                                                stem(name, ".lora_b"@),
                                            ),
                                        ),
                                    ),
                                ),
                            ),
                        ),
                    ),
                ),
            ),
        ),
    )
}

/// The name without the mark of an adapter's tensor, at its end or its front.
pub open spec fn unmarked(name: Seq<char>) -> Option<Seq<char>> {
    either(
        stripped(name),
        if "lora_"@.is_prefix_of(name) {
            Some(name.skip("lora_"@.len() as int))
        } else {
            None
        },
    )
}

/// Some descriptor has the name.
pub open spec fn has(x: Seq<Descriptor>, name: Seq<char>) -> bool {
    find_name(x, name, 0) is Some
}

/// The tensor of the base that an adapter's tensor stands for: the one with the
/// unmarked name, or with `.weight` or `.bias` behind it.
pub open spec fn target(base: Seq<Descriptor>, patch_name: Seq<char>) -> Option<Seq<char>> {
    match unmarked(patch_name) {
        None => None,
        Some(s) => if has(base, s) {
            Some(s)
        } else if has(base, s + ".weight"@) {
            Some(s + ".weight"@)
        } else if has(base, s + ".bias"@) {
            Some(s + ".bias"@)
        } else {
            None
        },
    }
}

/// How a patch tensor is applied to the base tensor.
#[derive(Clone, Copy, Debug, PartialEq, Eq, Structural)]
pub enum PatchStrategy {
    /// It takes the base tensor's place.
    Override,
    /// It is added to the base tensor, element by element.
    Add,
}

impl Default for PatchStrategy {
    fn default() -> (r: PatchStrategy)
        ensures
            r == PatchStrategy::Override,
    {
        PatchStrategy::Override
    }
}

/// Which tensor of an adapter patches which tensor of the base.
#[derive(Debug)]
pub struct PatchEntry {
    /// The tensor of the base.
    pub base_name: String,
    /// The tensor of the adapter.
    pub patch_name: String,
    /// How it is applied.
    pub strategy: PatchStrategy,
}

/// What a [`PatchEntry`] says.
#[verifier::ext_equal]
pub struct Patch {
    pub base_name: Seq<char>,
    pub patch_name: Seq<char>,
    pub strategy: PatchStrategy,
}

impl View for PatchEntry {
    type V = Patch;

    open spec fn view(&self) -> Patch {
        Patch {
            base_name: self.base_name@,
            patch_name: self.patch_name@,
            strategy: self.strategy,
        }
    }
}

/// What a row of entries says.
pub open spec fn patches_of(v: Seq<PatchEntry>) -> Seq<Patch> {
    Seq::new(v.len(), |i: int| v[i]@)
}

/// The entries that an adapter's tensors make, from the `k`th on, behind those
/// already made.
pub open spec fn entries_for(
    base: Seq<Descriptor>,
    adapter: Seq<Descriptor>,
    k: int,
    done: Seq<Patch>,
) -> Seq<Patch>
    decreases adapter.len() - k,
{
    if k >= adapter.len() {
        done
    } else {
        match target(base, adapter[k].name) {
            None => entries_for(base, adapter, k + 1, done),
            Some(n) => entries_for(
                base,
                adapter,
                k + 1,
                done.push(
                    Patch {
                        base_name: n,
                        patch_name: adapter[k].name,
                        strategy: PatchStrategy::Override,
                    },
                ),
            ),
        }
    }
}

/// The first entry from the `k`th on that patches the tensor.
pub open spec fn find_patch(e: Seq<Patch>, name: Seq<char>, k: int) -> Option<int>
    decreases e.len() - k,
{
    if k >= e.len() {
        None
    } else if e[k].base_name == name {
        Some(k)
    } else {
        find_patch(e, name, k + 1)
    }
}

fn typed<'b>(name: &'b str, suffix: &str) -> (r: Option<&'b str>)
    ensures
        match r {
            Some(b) => typed_stem(name@, suffix@) == Some(b@),
            None => typed_stem(name@, suffix@) is None,
        },
{
    match plain(name, suffix) {
        Some(b) => if ends_with(b, ".weight") || ends_with(b, ".bias") {
            Some(b)
        } else {
            None
        },
        None => None,
    }
}

fn plain<'b>(name: &'b str, suffix: &str) -> (r: Option<&'b str>)
    ensures
        match r {
            Some(b) => stem(name@, suffix@) == Some(b@),
            None => stem(name@, suffix@) is None,
        },
{
    match strip_suffix(name, suffix) {
        Some(b) => {
            assert(name@.take(name@.len() - suffix@.len()) =~= b@);
            Some(b)
        },
        None => None,
    }
}

fn unmark<'b>(name: &'b str) -> (r: Option<&'b str>)
    ensures
        match r {
            Some(b) => unmarked(name@) == Some(b@),
            None => unmarked(name@) is None,
        },
{
    if let Some(b) = PatchedRuntime::strip_lora_suffix(name) {
        return Some(b);
    }
    match strip_prefix(name, "lora_") {
        Some(b) => {
            assert(name@.skip("lora_"@.len() as int) =~= b@);
            Some(b)
        },
        None => None,
    }
}

// ── The runtime ─────────────────────────────────────────────────────
/// An attached adapter.
#[derive(Debug)]
struct AttachedPatch<'a> {
    name: String,
    runtime: AxonRuntime<'a>,
    entries: Vec<PatchEntry>,
}

/// What an attached adapter holds.
#[verifier::ext_equal]
pub struct Adapter {
    pub name: Seq<char>,
    pub bytes: Seq<u8>,
    pub descs: Seq<Descriptor>,
    pub entries: Seq<Patch>,
}

impl<'a> AttachedPatch<'a> {
    spec fn adapter(self) -> Adapter {
        Adapter {
            name: self.name@,
            bytes: self.runtime.bytes(),
            descs: self.runtime.descs(),
            entries: patches_of(self.entries@),
        }
    }
}

/// What a patched runtime holds. While no adapter was chosen all of them are asked
/// for a tensor, else only the active one.
#[verifier::ext_equal]
pub struct Layered {
    pub bytes: Seq<u8>,
    pub descs: Seq<Descriptor>,
    pub adapters: Seq<Adapter>,
    pub active: Option<int>,
    pub chosen: bool,
}

/// The adapter has an entry for the tensor.
pub open spec fn patches(a: Adapter, name: Seq<char>) -> bool {
    find_patch(a.entries, name, 0) is Some
}

/// The last of the first `n` adapters that patches a tensor.
pub open spec fn latest(a: Seq<Adapter>, name: Seq<char>, n: int) -> Option<int>
    decreases n,
{
    if n <= 0 {
        None
    } else if patches(a[n - 1], name) {
        Some(n - 1)
    } else {
        latest(a, name, n - 1)
    }
}

/// Which file a tensor is read from: none of the adapters, or one by its place.
pub open spec fn read_from(m: Layered, name: Seq<char>) -> Option<int> {
    if !m.chosen {
        latest(m.adapters, name, m.adapters.len() as int)
    } else {
        match m.active {
            Some(i) => if patches(m.adapters[i], name) {
                Some(i)
            } else {
                None
            },
            None => None,
        }
    }
}

/// The tensor of an adapter that patches a tensor of the base.
pub open spec fn patch_name(a: Adapter, name: Seq<char>) -> Seq<char> {
    a.entries[find_patch(a.entries, name, 0)->0].patch_name
}

/// The bytes of a tensor: an adapter's where it is read from one, else the
/// base's.
pub open spec fn layered_tensor(m: Layered, name: Seq<char>) -> Result<Seq<u8>, Failure> {
    match read_from(m, name) {
        Some(i) => whole_tensor(
            m.adapters[i].bytes,
            m.adapters[i].descs,
            patch_name(m.adapters[i], name),
        ),
        None => whole_tensor(m.bytes, m.descs, name),
    }
}

/// A part of a tensor: an adapter's where it is read from one, else the base's.
pub open spec fn layered_part(m: Layered, name: Seq<char>, offset: int, size: int) -> Result<
    Seq<u8>,
    Failure,
> {
    match read_from(m, name) {
        Some(i) => part_of_tensor(
            m.adapters[i].bytes,
            m.adapters[i].descs,
            patch_name(m.adapters[i], name),
            offset,
            size,
        ),
        None => part_of_tensor(m.bytes, m.descs, name, offset, size),
    }
}

/// What is known of a tensor: of an adapter's where it is read from one, else of
/// the base's.
pub open spec fn layered_info(m: Layered, name: Seq<char>) -> Result<Descriptor, Failure> {
    match read_from(m, name) {
        Some(i) => lookup(m.adapters[i].descs, patch_name(m.adapters[i], name)),
        None => lookup(m.descs, name),
    }
}

/// The names that entries add to those of the base, from the `k`th entry on,
/// behind those already found.
pub open spec fn new_names(
    base: Seq<Descriptor>,
    e: Seq<Patch>,
    k: int,
    done: Seq<Seq<char>>,
) -> Seq<Seq<char>>
    decreases e.len() - k,
{
    if k >= e.len() {
        done
    } else if has(base, e[k].base_name) || done.contains(e[k].base_name) {
        new_names(base, e, k + 1, done)
    } else {
        new_names(base, e, k + 1, done.push(e[k].base_name))
    }
}

/// The names that adapters add to those of the base, from the `k`th adapter on,
/// behind those already found.
pub open spec fn all_new_names(
    base: Seq<Descriptor>,
    a: Seq<Adapter>,
    k: int,
    done: Seq<Seq<char>>,
) -> Seq<Seq<char>>
    decreases a.len() - k,
{
    if k >= a.len() {
        done
    } else {
        all_new_names(base, a, k + 1, new_names(base, a[k].entries, 0, done))
    }
}

/// The names of the base's tensors, and behind them those that only adapters
/// give a tensor.
pub open spec fn layered_names(m: Layered) -> Seq<Seq<char>> {
    names_of(m.descs) + (if !m.chosen {
        all_new_names(m.descs, m.adapters, 0, Seq::empty())
    } else {
        match m.active {
            Some(i) => new_names(m.descs, m.adapters[i].entries, 0, Seq::empty()),
            None => Seq::empty(),
        }
    })
}

/// The adapter with the name, from the `k`th on.
pub open spec fn find_adapter(a: Seq<Adapter>, name: Seq<char>, k: int) -> Option<int>
    decreases a.len() - k,
{
    if k >= a.len() {
        None
    } else if a[k].name == name {
        Some(k)
    } else {
        find_adapter(a, name, k + 1)
    }
}

/// With one more adapter, which becomes active where none is.
pub open spec fn with_adapter(m: Layered, a: Adapter) -> Layered {
    Layered {
        adapters: m.adapters.push(a),
        active: match m.active {
            Some(i) => Some(i),
            None => Some(m.adapters.len() as int),
        },
        ..m
    }
}

// ── Merging ─────────────────────────────────────────────────────────
/// Numbers with a fraction that are to be added, element by element.
#[derive(Debug)]
pub struct Addition {
    /// The tensor of the base.
    pub name: String,
    /// The type of the elements.
    pub dtype: DType,
    /// The elements of the base.
    pub base: Elements,
    /// The elements of the adapter.
    pub patch: Elements,
}

/// What an [`Addition`] says.
#[verifier::ext_equal]
pub struct AdditionModel {
    pub name: Seq<char>,
    pub dtype: DType,
    pub base: ElementRow,
    pub patch: ElementRow,
}

impl View for Addition {
    type V = AdditionModel;

    open spec fn view(&self) -> AdditionModel {
        AdditionModel {
            name: self.name@,
            dtype: self.dtype,
            base: self.base@,
            patch: self.patch@,
        }
    }
}

/// What a row of additions says.
pub open spec fn addition_models(v: Seq<Addition>) -> Seq<AdditionModel> {
    Seq::new(v.len(), |i: int| v[i]@)
}

/// Merging the adapter adds numbers with a fraction to the tensor.
pub open spec fn adds_fractions(a: Adapter, t: Descriptor) -> bool {
    find_patch(a.entries, t.name, 0) matches Some(k) && a.entries[k].strategy == PatchStrategy::Add
        && kind_of(t.dtype) != ElementKind::Integer
}

/// The elements that are to be added, as far as both tensors reach.
pub open spec fn addition_of(t: Descriptor, base: Seq<u8>, patch: Seq<u8>) -> AdditionModel {
    let n = common_count(base, patch, unit_size(t.dtype));
    AdditionModel {
        name: t.name,
        dtype: t.dtype,
        base: row_of(base, t.dtype, n),
        patch: row_of(patch, t.dtype, n),
    }
}

/// What is to be added for the tensors of the base from the `k`th on, behind what
/// was already found, or why it cannot be read.
pub open spec fn additions_from(m: Layered, a: Adapter, k: int, done: Seq<AdditionModel>) -> Result<
    Seq<AdditionModel>,
    Failure,
>
    decreases m.descs.len() - k,
{
    if k >= m.descs.len() {
        Ok(done)
    } else if !adds_fractions(a, m.descs[k]) {
        additions_from(m, a, k + 1, done)
    } else {
        let t = m.descs[k];
        match whole_tensor(m.bytes, m.descs, t.name) {
            Err(e) => Err(e),
            Ok(base) => match whole_tensor(a.bytes, a.descs, patch_name(a, t.name)) {
                Err(e) => Err(e),
                Ok(patch) => additions_from(m, a, k + 1, done.push(addition_of(t, base, patch))),
            },
        }
    }
}

/// How far a merge has come: the tensors of the merged file, how many rows of
/// sums were placed, and what was counted for the base and for the adapter.
#[verifier::ext_equal]
pub struct Merge {
    pub draft: Draft,
    pub used: int,
    pub base: RuntimeStats,
    pub patch: RuntimeStats,
}

/// The report of a tensor whose elements no row of sums fits.
pub open spec fn no_sums(name: Seq<char>) -> Failure {
    Failure::InvalidManifest("tensor "@ + name + ": no sums for its elements"@)
}

/// The bytes of a merged tensor, or why there are none. Integers are added here;
/// the sums of numbers with a fraction are given. Bytes behind the last whole
/// element or block are added one by one.
pub open spec fn applied(
    t: Descriptor,
    base: Seq<u8>,
    patch: Seq<u8>,
    strategy: PatchStrategy,
    sums: Seq<ElementRow>,
    used: int,
) -> Result<Seq<u8>, Failure> {
    let size = unit_size(t.dtype);
    let n = common_count(base, patch, size) as int;
    let rest = rest_sums(base, patch, n * size);
    match strategy {
        PatchStrategy::Override => Ok(patch),
        PatchStrategy::Add => if kind_of(t.dtype) == ElementKind::Integer {
            Ok(integer_sums(base, patch, size, n) + rest)
        } else if used < sums.len() && row_fits(sums[used], t.dtype, n) {
            Ok(row_bytes(sums[used], t.dtype) + rest)
        } else {
            Err(no_sums(t.name))
        },
    }
}

/// Merges one tensor of the base: it is read, the adapter's is read and applied
/// where there is one, and the outcome is added to the merged file.
pub open spec fn merge_one(
    m: Layered,
    a: Adapter,
    t: Descriptor,
    sums: Seq<ElementRow>,
    st: Merge,
) -> (Option<Failure>, Merge) {
    match whole_tensor(m.bytes, m.descs, t.name) {
        Err(e) => (Some(e), st),
        Ok(base) => {
            let read = Merge { base: st.base.after_access(base.len() as u64), ..st };
            match find_patch(a.entries, t.name, 0) {
                None => (
                    None,
                    Merge {
                        draft: added(st.draft, t.name, base, t.dtype, t.shape, true),
                        ..read
                    },
                ),
                Some(k) => match whole_tensor(a.bytes, a.descs, a.entries[k].patch_name) {
                    Err(e) => (Some(e), read),
                    Ok(patch) => {
                        let both = Merge {
                            patch: st.patch.after_access(patch.len() as u64),
                            ..read
                        };
                        match applied(t, base, patch, a.entries[k].strategy, sums, st.used) {
                            Err(e) => (Some(e), both),
                            Ok(data) => (
                                None,
                                Merge {
                                    draft: added(st.draft, t.name, data, t.dtype, t.shape, true),
                                    used: if adds_fractions(a, t) {
                                        st.used + 1
                                    } else {
                                        st.used
                                    },
                                    ..both
                                },
                            ),
                        }
                    },
                },
            }
        },
    }
}

/// Merges the tensors of the base from the `k`th on.
pub open spec fn merge_from(
    m: Layered,
    a: Adapter,
    k: int,
    sums: Seq<ElementRow>,
    st: Merge,
) -> (Option<Failure>, Merge)
    decreases m.descs.len() - k,
{
    if k >= m.descs.len() {
        (None, st)
    } else {
        let (e, next) = merge_one(m, a, m.descs[k], sums, st);
        if e is Some {
            (e, next)
        } else {
            merge_from(m, a, k + 1, sums, next)
        }
    }
}

/// The merged file, or why there is none.
pub open spec fn merged(x: (Option<Failure>, Merge)) -> Result<Seq<u8>, Failure> {
    match x.0 {
        Some(e) => Err(e),
        None => built(x.1.draft),
    }
}

/// The active adapter is one of those attached, and while none was chosen there is
/// one as soon as any is attached.
pub open spec fn active_attached(m: Layered) -> bool {
    &&& m.active matches Some(i) ==> 0 <= i < m.adapters.len()
    &&& !m.chosen && m.adapters.len() > 0 ==> m.active is Some
}

/// A base file and the adapters attached to it.
#[derive(Debug)]
pub struct PatchedRuntime<'a> {
    base: AxonRuntime<'a>,
    patches: Vec<AttachedPatch<'a>>,
    active: Option<usize>,
    chosen: bool,
}

spec fn adapters_of<'a>(v: Seq<AttachedPatch<'a>>) -> Seq<Adapter> {
    Seq::new(v.len(), |i: int| v[i].adapter())
}

spec fn stats_of<'a>(v: Seq<AttachedPatch<'a>>) -> Seq<RuntimeStats> {
    Seq::new(v.len(), |i: int| v[i].runtime.counts())
}

impl<'a> PatchedRuntime<'a> {
    /// What the runtime holds.
    pub closed spec fn model(self) -> Layered {
        Layered {
            bytes: self.base.bytes(),
            descs: self.base.descs(),
            adapters: adapters_of(self.patches@),
            active: match self.active {
                Some(i) => Some(i as int),
                None => None,
            },
            chosen: self.chosen,
        }
    }

    /// What was counted for the base.
    pub closed spec fn base_counts(self) -> RuntimeStats {
        self.base.counts()
    }

    /// What was counted for each adapter.
    pub closed spec fn patch_counts(self) -> Seq<RuntimeStats> {
        stats_of(self.patches@)
    }

    /// The active adapter is one of those attached, and while none was chosen there
    /// is one as soon as any is attached.
    pub open spec fn wf(self) -> bool {
        &&& self.patch_counts().len() == self.model().adapters.len()
        &&& active_attached(self.model())
    }

    /// An access of `bytes` bytes to the file that `from` names was counted, and
    /// nothing else changed.
    pub open spec fn accessed(self, before: PatchedRuntime<'a>, from: Option<int>, bytes: u64) -> bool {
        match from {
            None => self.base_counts() == before.base_counts().after_access(bytes)
                && self.patch_counts() == before.patch_counts(),
            Some(i) => self.base_counts() == before.base_counts() && self.patch_counts()
                == before.patch_counts().update(i, before.patch_counts()[i].after_access(bytes)),
        }
    }

    /// Nothing was counted.
    pub open spec fn untouched(self, before: PatchedRuntime<'a>) -> bool {
        self.base_counts() == before.base_counts() && self.patch_counts() == before.patch_counts()
    }

    /// A base without adapters.
    pub fn new(base: AxonRuntime<'a>) -> (r: PatchedRuntime<'a>)
        ensures
            r.wf(),
            r.model() == (Layered {
                bytes: base.bytes(),
                descs: base.descs(),
                adapters: Seq::empty(),
                active: None,
                chosen: false,
            }),
            r.base_counts() == base.counts(),
            r.patch_counts() == Seq::<RuntimeStats>::empty(),
    {
        let r = PatchedRuntime { base, patches: Vec::new(), active: None, chosen: false };
        assert(r.model().adapters =~= Seq::empty());
        assert(r.patch_counts() =~= Seq::empty());
        r
    }

    /// The name without the part that marks an adapter's matrix at its end.
    pub fn strip_lora_suffix(name: &str) -> (r: Option<&str>)
        ensures
            match r {
                Some(b) => stripped(name@) == Some(b@),
                None => stripped(name@) is None,
            },
    {
        if let Some(b) = typed(name, ".lora_A") {
            return Some(b);
        }
        if let Some(b) = typed(name, ".lora_B") {
            return Some(b);
        }
        if let Some(b) = typed(name, ".lora_a") {
            return Some(b);
        }
        if let Some(b) = typed(name, ".lora_b") {
            return Some(b);
        }
        if let Some(b) = plain(name, ".lora_A.weight") {
            return Some(b);
        }
        if let Some(b) = plain(name, ".lora_B.weight") {
            return Some(b);
        }
        if let Some(b) = plain(name, ".lora_a.weight") {
            return Some(b);
        }
        if let Some(b) = plain(name, ".lora_b.weight") {
            return Some(b);
        }
        if let Some(b) = plain(name, ".lora_A") {
            return Some(b);
        }
        if let Some(b) = plain(name, ".lora_B") {
            return Some(b);
        }
        if let Some(b) = plain(name, ".lora_a") {
            return Some(b);
        }
        plain(name, ".lora_b")
    }

    /// The tensor of the base that an adapter's tensor stands for.
    fn base_name(&self, patch_name: &str) -> (r: Option<String>)
        ensures
            match r {
                Some(n) => target(self.model().descs, patch_name@) == Some(n@),
                None => target(self.model().descs, patch_name@) is None,
            },
    {
        let s = match unmark(patch_name) {
            Some(s) => s,
            None => return None,
        };
        if self.base.tensor_info(s).is_ok() {
            return Some(s.to_owned());
        }
        let with_weight = concat2(s, ".weight");
        if self.base.tensor_info(with_weight.as_str()).is_ok() {
            return Some(with_weight);
        }
        let with_bias = concat2(s, ".bias");
        if self.base.tensor_info(with_bias.as_str()).is_ok() {
            return Some(with_bias);
        }
        None
    }

    fn push(&mut self, name: String, runtime: AxonRuntime<'a>, entries: Vec<PatchEntry>)
        requires
            old(self).wf(),
        ensures
            final(self).wf(),
            final(self).model() == with_adapter(
                old(self).model(),
                Adapter {
                    name: name@,
                    bytes: runtime.bytes(),
                    descs: runtime.descs(),
                    entries: patches_of(entries@),
                },
            ),
            final(self).base_counts() == old(self).base_counts(),
            final(self).patch_counts() == old(self).patch_counts().push(runtime.counts()),
    {
        let p = AttachedPatch { name, runtime, entries };
        proof {
            assert(adapters_of(self.patches@.push(p)) =~= adapters_of(self.patches@).push(
                p.adapter(),
            ));
            assert(stats_of(self.patches@.push(p)) =~= stats_of(self.patches@).push(
                p.runtime.counts(),
            ));
        }
        let at = self.patches.len();
        self.patches.push(p);
        if self.active.is_none() {
            self.active = Some(at);
        }
    }

    /// Attaches the adapter file that the mapped bytes are. Its tensors patch
    /// those of the base that their names stand for; the others are passed over.
    /// The first adapter becomes active. Hands back how many tensors it patches.
    pub fn attach(&mut self, data: &'a [u8]) -> (r: AxonResult<usize>)
        requires
            old(self).wf(),
        ensures
            final(self).wf(),
            final(self).base_counts() == old(self).base_counts(),
            match r {
                Ok(n) => open_file(data@) matches Ok(o) && ({
                    let entries = entries_for(
                        old(self).model().descs,
                        o.descriptors,
                        0,
                        Seq::empty(),
                    );
                    &&& n == entries.len()
                    &&& final(self).model() == with_adapter(
                        old(self).model(),
                        Adapter {
                            name: match o.manifest.model {
                                Some(s) => s,
                                None => ""@,
                            },
                            bytes: data@,
                            descs: o.descriptors,
                            entries,
                        },
                    )
                    &&& final(self).patch_counts() == old(self).patch_counts().push(
                        RuntimeStats::zero(),
                    )
                }),
                Err(e) => open_file(data@) == Err::<Opened, Failure>(e@) && final(self).model()
                    == old(self).model() && final(self).patch_counts() == old(self).patch_counts(),
            },
    {
        let rt = AxonRuntime::open(data)?;
        let name = rt.model_name().to_owned();
        let mut entries: Vec<PatchEntry> = Vec::new();
        let names = rt.tensor_names();
        let ghost base = self.model().descs;
        let ghost adapter = rt.descs();
        let mut i: usize = 0;
        assert(patches_of(entries@) =~= Seq::empty());
        while i < names.len()
            invariant
                i <= names@.len(),
                names@.len() == adapter.len(),
                forall|k: int| 0 <= k < names@.len() ==> (#[trigger] names@[k])@ == adapter[k].name,
                self == old(self),
                base == self.model().descs,
                entries_for(base, adapter, 0, Seq::empty()) == entries_for(
                    base,
                    adapter,
                    i as int,
                    patches_of(entries@),
                ),
            decreases names@.len() - i,
        {
            if let Some(base_name) = self.base_name(names[i]) {
                let e = PatchEntry {
                    base_name,
                    patch_name: names[i].to_owned(),
                    strategy: PatchStrategy::Override,
                };
                assert(patches_of(entries@.push(e)) =~= patches_of(entries@).push(e@));
                entries.push(e);
            }
            i += 1;
        }
        let count = entries.len();
        self.push(name, rt, entries);
        Ok(count)
    }

    /// Attaches the adapter file that the mapped bytes are, under a name and with
    /// entries of the caller's own.
    pub fn attach_raw(&mut self, data: &'a [u8], name: &str, entries: Vec<PatchEntry>) -> (r:
        AxonResult<usize>)
        requires
            old(self).wf(),
        ensures
            final(self).wf(),
            final(self).base_counts() == old(self).base_counts(),
            match r {
                Ok(n) => open_file(data@) matches Ok(o) && n == entries@.len() && final(
                    self).model() == with_adapter(
                    old(self).model(),
                    Adapter {
                        name: name@,
                        bytes: data@,
                        descs: o.descriptors,
                        entries: patches_of(entries@),
                    },
                ) && final(self).patch_counts() == old(self).patch_counts().push(
                    RuntimeStats::zero(),
                ),
                Err(e) => open_file(data@) == Err::<Opened, Failure>(e@) && final(self).model()
                    == old(self).model() && final(self).patch_counts() == old(self).patch_counts(),
            },
    {
        let rt = AxonRuntime::open(data)?;
        let count = entries.len();
        self.push(name.to_owned(), rt, entries);
        Ok(count)
    }

    /// Chooses the first adapter with the name, or none. Only the chosen adapter
    /// patches tensors from then on; where none is, the next one that is attached
    /// takes its place.
    pub fn set_active(&mut self, name: Option<&str>)
        requires
            old(self).wf(),
        ensures
            final(self).wf(),
            final(self).model() == (Layered {
                active: match name {
                    Some(n) => find_adapter(old(self).model().adapters, n@, 0),
                    None => None,
                },
                chosen: true,
                ..old(self).model()
            }),
            final(self).untouched(*old(self)),
    {
        let ghost a = self.model().adapters;
        self.active = None;
        self.chosen = true;
        if let Some(n) = name {
            let mut i: usize = 0;
            while i < self.patches.len()
                invariant
                    i <= self.patches@.len(),
                    a == adapters_of(self.patches@),
                    find_adapter(a, n@, 0) == find_adapter(a, n@, i as int),
                    self.patches@ == old(self).patches@,
                    self.base == old(self).base,
                    self.active is None,
                    self.chosen,
                    name == Some(n),
                    old(self).wf(),
                    a == old(self).model().adapters,
                decreases self.patches@.len() - i,
            {
                if str_eq(self.patches[i].name.as_str(), n) {
                    assert(a[i as int].name == n@);
                    self.active = Some(i);
                    return ;
                }
                i += 1;
            }
        }
    }

    /// The name of the active adapter: the chosen one, or the first where none was
    /// chosen.
    pub fn active_patch_name(&self) -> (r: Option<&str>)
        requires
            self.wf(),
        ensures
            match self.model().active {
                Some(i) => r matches Some(n) && n@ == self.model().adapters[i].name,
                None => r is None,
            },
    {
        match self.active {
            Some(i) => Some(self.patches[i].name.as_str()),
            None => None,
        }
    }

    /// Detaches every adapter. No adapter is chosen any more.
    pub fn detach_all(&mut self)
        ensures
            final(self).wf(),
            final(self).model() == (Layered {
                adapters: Seq::empty(),
                active: None,
                chosen: false,
                ..old(self).model()
            }),
            final(self).base_counts() == old(self).base_counts(),
            final(self).patch_counts() == Seq::<RuntimeStats>::empty(),
    {
        self.patches = Vec::new();
        self.active = None;
        self.chosen = false;
        assert(self.model().adapters =~= Seq::empty());
    }

    /// The adapter that a tensor is read from, and the tensor of the adapter.
    fn entry(&self, name: &str) -> (r: Option<(usize, String)>)
        requires
            self.wf(),
        ensures
            match r {
                Some(x) => read_from(self.model(), name@) == Some(x.0 as int) && x.0
                    < self.patches@.len() && x.1@ == patch_name(
                    self.model().adapters[x.0 as int],
                    name@,
                ),
                None => read_from(self.model(), name@) is None,
            },
    {
        if self.chosen {
            return match self.active {
                Some(i) => match self.patch_of(i, name) {
                    Some(n) => Some((i, n)),
                    None => None,
                },
                None => None,
            };
        }
        let mut i: usize = self.patches.len();
        while i > 0
            invariant
                i <= self.patches@.len(),
                self.wf(),
                !self.chosen,
                read_from(self.model(), name@) == latest(
                    self.model().adapters,
                    name@,
                    i as int,
                ),
            decreases i,
        {
            if let Some(n) = self.patch_of(i - 1, name) {
                return Some((i - 1, n));
            }
            i -= 1;
        }
        None
    }

    /// The tensor of an adapter that patches a tensor.
    fn patch_of(&self, at: usize, name: &str) -> (r: Option<String>)
        requires
            at < self.model().adapters.len(),
        ensures
            match r {
                Some(n) => patches(self.model().adapters[at as int], name@) && n@ == patch_name(
                    self.model().adapters[at as int],
                    name@,
                ),
                None => !patches(self.model().adapters[at as int], name@),
            },
    {
        assert(self.model().adapters[at as int].entries == patches_of(
            self.patches@[at as int].entries@,
        ));
        match position(&self.patches[at].entries, name) {
            Some(k) => Some(self.patches[at].entries[k].patch_name.clone()),
            None => None,
        }
    }

    /// A copy of the bytes of a tensor, an adapter's where one patches it. The
    /// access is counted.
    pub fn tensor(&mut self, name: &str) -> (r: AxonResult<Vec<u8>>)
        requires
            old(self).wf(),
        ensures
            final(self).wf(),
            final(self).model() == old(self).model(),
            outcome(r) == layered_tensor(old(self).model(), name@),
            match r {
                Ok(b) => final(self).accessed(
                    *old(self),
                    read_from(old(self).model(), name@),
                    b@.len() as u64,
                ),
                Err(_) => final(self).untouched(*old(self)),
            },
    {
        if let Some((at, patch_name)) = self.entry(name) {
            let r = self.patches[at].runtime.tensor(patch_name.as_str());
            proof {
                lemma_one_patch(old(self).patches@, self.patches@, at as int);
            }
            return r;
        }
        self.base.tensor(name)
    }

    /// A copy of `size` bytes of a tensor, from `byte_offset` on within it, an
    /// adapter's where one patches it. The access is counted.
    pub fn tensor_byte_range(&mut self, name: &str, byte_offset: u64, size: u64) -> (r: AxonResult<
        Vec<u8>,
    >)
        requires
            old(self).wf(),
        ensures
            final(self).wf(),
            final(self).model() == old(self).model(),
            outcome(r) == layered_part(
                old(self).model(),
                name@,
                byte_offset as int,
                size as int,
            ),
            match r {
                Ok(b) => final(self).accessed(
                    *old(self),
                    read_from(old(self).model(), name@),
                    size,
                ),
                Err(_) => final(self).untouched(*old(self)),
            },
    {
        if let Some((at, patch_name)) = self.entry(name) {
            let r = self.patches[at].runtime.tensor_byte_range(
                patch_name.as_str(),
                byte_offset,
                size,
            );
            proof {
                lemma_one_patch(old(self).patches@, self.patches@, at as int);
            }
            return r;
        }
        self.base.tensor_byte_range(name, byte_offset, size)
    }

    /// What [`PatchedRuntime::merge_lora`] needs the sums of: for every tensor of
    /// the base, in file order, to which the adapter adds numbers with a fraction,
    /// the elements of both. Nothing is counted.
    pub fn merge_additions(&self, patch_index: usize) -> (r: AxonResult<Vec<Addition>>)
        requires
            self.wf(),
        ensures
            match r {
                Ok(v) => patch_index < self.model().adapters.len() && additions_from(
                    self.model(),
                    self.model().adapters[patch_index as int],
                    0,
                    Seq::empty(),
                ) == Ok::<Seq<AdditionModel>, Failure>(addition_models(v@)),
                Err(e) => if patch_index < self.model().adapters.len() {
                    additions_from(
                        self.model(),
                        self.model().adapters[patch_index as int],
                        0,
                        Seq::empty(),
                    ) == Err::<Seq<AdditionModel>, Failure>(e@)
                } else {
                    e@ == Failure::InvalidManifest("Patch index out of range"@)
                },
            },
    {
        if patch_index >= self.patches.len() {
            return Err(invalid("Patch index out of range"));
        }
        let ghost m = self.model();
        let ghost a = m.adapters[patch_index as int];
        assert(a.entries == patches_of(self.patches@[patch_index as int].entries@));
        let entries = &self.patches[patch_index].entries;
        let infos = self.base.tensors();
        let mut out: Vec<Addition> = Vec::new();
        let mut i: usize = 0;
        assert(addition_models(out@) =~= Seq::empty());
        while i < infos.len()
            invariant
                i <= infos@.len(),
                infos@.len() == m.descs.len(),
                forall|k: int|
                    0 <= k < infos@.len() ==> (#[trigger] infos@[k])@ == facts_of(m.descs[k]),
                m == self.model(),
                patch_index < self.patches@.len(),
                a == m.adapters[patch_index as int],
                a.entries == patches_of(entries@),
                additions_from(m, a, 0, Seq::empty()) == additions_from(
                    m,
                    a,
                    i as int,
                    addition_models(out@),
                ),
            decreases infos@.len() - i,
        {
            let info = &infos[i];
            assert(infos@[i as int]@ == facts_of(m.descs[i as int]));
            if element_kind(info.dtype) != ElementKind::Integer {
                if let Some(k) = position(entries, info.name.as_str()) {
                    if entries[k].strategy == PatchStrategy::Add {
                        let base = self.base.tensor_view(info.name.as_str())?;
                        let patch = self.patches[patch_index].runtime.tensor_view(
                            entries[k].patch_name.as_str(),
                        )?;
                        let x = read_addition(info.name.as_str(), info.dtype, base, patch);
                        assert(x@ == addition_of(m.descs[i as int], base@, patch@));
                        assert(addition_models(out@.push(x)) =~= addition_models(out@).push(x@));
                        out.push(x);
                    }
                }
            }
            i += 1;
        }
        Ok(out)
    }

    /// The bytes of a file that holds the base's tensors with an adapter's
    /// applied to them. The sums of numbers with a fraction are handed in, a row
    /// for every one of [`PatchedRuntime::merge_additions`]. Accesses are counted.
    pub fn merge_lora(&mut self, patch_index: usize, sums: &Vec<Elements>) -> (r: AxonResult<
        Vec<u8>,
    >)
        requires
            old(self).wf(),
        ensures
            final(self).wf(),
            final(self).model() == old(self).model(),
            if patch_index < old(self).model().adapters.len() {
                let x = merge_from(
                    old(self).model(),
                    old(self).model().adapters[patch_index as int],
                    0,
                    element_rows(sums@),
                    Merge {
                        draft: empty_draft(),
                        used: 0,
                        base: old(self).base_counts(),
                        patch: old(self).patch_counts()[patch_index as int],
                    },
                );
                &&& outcome(r) == merged(x)
                &&& outcome(r) matches Ok(f) ==> faithful(f, x.1.draft)
                &&& final(self).base_counts() == x.1.base
                &&& final(self).patch_counts() == old(self).patch_counts().update(
                    patch_index as int,
                    x.1.patch,
                )
            } else {
                outcome(r) == Err::<Seq<u8>, Failure>(
                    Failure::InvalidManifest("Patch index out of range"@),
                ) && final(self).untouched(*old(self))
            },
    {
        if patch_index >= self.patches.len() {
            return Err(invalid("Patch index out of range"));
        }
        let ghost m = self.model();
        let ghost a = m.adapters[patch_index as int];
        let ghost start = Merge {
            draft: empty_draft(),
            used: 0,
            base: self.base_counts(),
            patch: self.patch_counts()[patch_index as int],
        };
        let ghost counts = self.patch_counts();
        let infos = self.base.tensors();
        let mut builder = AxonBuilder::new();
        let mut used: usize = 0;
        let mut i: usize = 0;
        assert(counts =~= counts.update(patch_index as int, start.patch));
        while i < infos.len()
            invariant
                i <= infos@.len(),
                infos@.len() == m.descs.len(),
                forall|k: int|
                    0 <= k < infos@.len() ==> (#[trigger] infos@[k])@ == facts_of(m.descs[k]),
                old(self).wf(),
                m == old(self).model(),
                m == self.model(),
                patch_index < self.patches@.len(),
                self.patches@.len() == m.adapters.len(),
                a == m.adapters[patch_index as int],
                counts == old(self).patch_counts(),
                counts.len() == m.adapters.len(),
                self.patch_counts() == counts.update(
                    patch_index as int,
                    self.patch_counts()[patch_index as int],
                ),
                used <= i,
                start == (Merge {
                    draft: empty_draft(),
                    used: 0,
                    base: old(self).base_counts(),
                    patch: counts[patch_index as int],
                }),
                merge_from(m, a, 0, element_rows(sums@), start) == merge_from(
                    m,
                    a,
                    i as int,
                    element_rows(sums@),
                    Merge {
                        draft: builder@,
                        used: used as int,
                        base: self.base_counts(),
                        patch: self.patch_counts()[patch_index as int],
                    },
                ),
            decreases infos@.len() - i,
        {
            let info = &infos[i];
            let (data, more, failed) = self.merge_tensor(
                info.name.as_str(),
                info.dtype,
                patch_index,
                sums,
                used,
            );
            assert(infos@[i as int]@ == facts_of(m.descs[i as int]));
            proof {
                assert(self.patch_counts() =~= counts.update(
                    patch_index as int,
                    self.patch_counts()[patch_index as int],
                ));
            }
            if let Some(e) = failed {
                return Err(e);
            }
            builder = builder.add_tensor(
                info.name.as_str(),
                data,
                info.dtype,
                info.shape.as_slice(),
            );
            if more {
                used += 1;
            }
            i += 1;
        }
        builder.build()
    }

    /// The merged bytes of one tensor of the base, whether a row of sums was
    /// placed, or why there are none.
    fn merge_tensor(
        &mut self,
        name: &str,
        dtype: DType,
        at: usize,
        sums: &Vec<Elements>,
        used: usize,
    ) -> (r: (Vec<u8>, bool, Option<AxonError>))
        requires
            old(self).wf(),
            at < old(self).model().adapters.len(),
        ensures
            final(self).wf(),
            final(self).model() == old(self).model(),
            final(self).patch_counts().len() == old(self).patch_counts().len(),
            forall|k: int|
                0 <= k < old(self).patch_counts().len() && k != at ==> #[trigger] final(
                    self).patch_counts()[k] == old(self).patch_counts()[k],
            forall|t: Descriptor, d: Draft|
                t.name == name@ && t.dtype == dtype ==> #[trigger] merge_one(
                    old(self).model(),
                    old(self).model().adapters[at as int],
                    t,
                    element_rows(sums@),
                    Merge {
                        draft: d,
                        used: used as int,
                        base: old(self).base_counts(),
                        patch: old(self).patch_counts()[at as int],
                    },
                ) == (
                    match r.2 {
                        Some(e) => Some(e@),
                        None => None,
                    },
                    Merge {
                        draft: match r.2 {
                            Some(_) => d,
                            None => added(d, name@, r.0@, t.dtype, t.shape, true),
                        },
                        used: if r.1 {
                            used + 1
                        } else {
                            used as int
                        },
                        base: final(self).base_counts(),
                        patch: final(self).patch_counts()[at as int],
                    },
                ),
    {
        let base = match self.base.tensor(name) {
            Ok(b) => b,
            Err(e) => return (Vec::new(), false, Some(e)),
        };
        let k = match position(&self.patches[at].entries, name) {
            Some(k) => k,
            None => return (base, false, None),
        };
        let strategy = self.patches[at].entries[k].strategy;
        let patch_name = self.patches[at].entries[k].patch_name.clone();
        assert(self.model().adapters[at as int].entries == patches_of(
            self.patches@[at as int].entries@,
        ));
        let patch = self.patches[at].runtime.tensor(patch_name.as_str());
        proof {
            lemma_one_patch(old(self).patches@, self.patches@, at as int);
        }
        let p = match patch {
            Ok(p) => p,
            Err(e) => return (Vec::new(), false, Some(e)),
        };
        if strategy == PatchStrategy::Override {
            return (p, false, None);
        }
        match apply_add(name, dtype, base.as_slice(), p.as_slice(), sums, used) {
            Ok(data) => (data, element_kind(dtype) != ElementKind::Integer, None),
            Err(e) => (Vec::new(), false, Some(e)),
        }
    }

    /// What is known of a tensor, of an adapter's where one patches it.
    pub fn tensor_info(&self, name: &str) -> (r: AxonResult<TensorInfo>)
        requires
            self.wf(),
        ensures
            match r {
                Ok(i) => layered_info(self.model(), name@) matches Ok(t) && i@ == facts_of(t),
                Err(e) => layered_info(self.model(), name@) == Err::<Descriptor, Failure>(e@),
            },
    {
        if let Some((at, patch_name)) = self.entry(name) {
            return self.patches[at].runtime.tensor_info(patch_name.as_str());
        }
        self.base.tensor_info(name)
    }

    /// The names of the base's tensors, in file order, and behind them those that
    /// only adapters give a tensor.
    pub fn tensor_names(&self) -> (r: Vec<&str>)
        requires
            self.wf(),
        ensures
            slices(r@) == layered_names(self.model()),
    {
        let mut out = self.base.tensor_names();
        let ghost m = self.model();
        let ghost base = names_of(m.descs);
        assert(slices(out@) =~= base);
        let known = out.len();
        assert(slices(out@).skip(known as int) =~= Seq::empty());
        assert(slices(out@).take(known as int) =~= base);
        if self.chosen {
            if let Some(i) = self.active {
                self.push_names(&mut out, known, i);
            }
        } else {
            let mut i: usize = 0;
            while i < self.patches.len()
                invariant
                    i <= self.patches@.len(),
                    m == self.model(),
                    known <= out@.len(),
                    slices(out@).take(known as int) == base,
                    all_new_names(m.descs, m.adapters, 0, Seq::empty()) == all_new_names(
                        m.descs,
                        m.adapters,
                        i as int,
                        slices(out@).skip(known as int),
                    ),
                decreases self.patches@.len() - i,
            {
                self.push_names(&mut out, known, i);
                i += 1;
            }
        }
        assert(slices(out@) =~= slices(out@).take(known as int) + slices(out@).skip(known as int));
        out
    }

    /// Appends the names that an adapter adds to those of the base. The names
    /// behind the first `known` ones were added before.
    fn push_names<'b>(&'b self, out: &mut Vec<&'b str>, known: usize, at: usize)
        requires
            at < self.model().adapters.len(),
            known <= old(out)@.len(),
        ensures
            known <= final(out)@.len(),
            slices(final(out)@).take(known as int) == slices(old(out)@).take(known as int),
            slices(final(out)@).skip(known as int) == new_names(
                self.model().descs,
                self.model().adapters[at as int].entries,
                0,
                slices(old(out)@).skip(known as int),
            ),
    {
        let ghost base = self.model().descs;
        let ghost e = self.model().adapters[at as int].entries;
        let ghost first = slices(out@).skip(known as int);
        assert(e == patches_of(self.patches@[at as int].entries@));
        let entries = &self.patches[at].entries;
        let mut k: usize = 0;
        while k < entries.len()
            invariant
                k <= entries@.len(),
                e == patches_of(entries@),
                base == self.model().descs,
                known <= out@.len(),
                slices(out@).take(known as int) == slices(old(out)@).take(known as int),
                new_names(base, e, 0, first) == new_names(
                    base,
                    e,
                    k as int,
                    slices(out@).skip(known as int),
                ),
            decreases entries@.len() - k,
        {
            let name = entries[k].base_name.as_str();
            assert(e[k as int].base_name == name@);
            if self.base.tensor_info(name).is_err() && !contains_from(out, known, name) {
                proof {
                    let next = out@.push(name);
                    assert(slices(next).skip(known as int) =~= slices(out@).skip(known as int).push(
                        name@,
                    ));
                    assert(slices(next).take(known as int) =~= slices(out@).take(known as int));
                }
                out.push(name);
            }
            k += 1;
        }
    }

    /// What is known of the base's tensors, in file order.
    pub fn tensors(&self) -> (r: Vec<TensorInfo>)
        ensures
            r@.len() == self.model().descs.len(),
            forall|i: int|
                0 <= i < r@.len() ==> (#[trigger] r@[i])@ == facts_of(self.model().descs[i]),
    {
        self.base.tensors()
    }

    /// The number of attached adapters.
    pub fn patch_count(&self) -> (r: usize)
        ensures
            r == self.model().adapters.len(),
    {
        self.patches.len()
    }

    /// The names of the attached adapters, in the order of their attachment.
    pub fn patch_names(&self) -> (r: Vec<&str>)
        ensures
            r@.len() == self.model().adapters.len(),
            forall|i: int|
                0 <= i < r@.len() ==> (#[trigger] r@[i])@ == self.model().adapters[i].name,
    {
        let mut out: Vec<&str> = Vec::new();
        let mut i: usize = 0;
        while i < self.patches.len()
            invariant
                i <= self.patches@.len(),
                out@.len() == i,
                forall|k: int| 0 <= k < i ==> (#[trigger] out@[k])@ == self.model().adapters[k].name,
            decreases self.patches@.len() - i,
        {
            out.push(self.patches[i].name.as_str());
            i += 1;
        }
        out
    }

    /// How many tensors the active adapter patches.
    pub fn active_patch_entry_count(&self) -> (r: usize)
        requires
            self.wf(),
        ensures
            r == match self.model().active {
                Some(i) => self.model().adapters[i].entries.len(),
                None => 0,
            },
    {
        match self.active {
            Some(i) => self.patches[i].entries.len(),
            None => 0,
        }
    }
}

/// Whether one of the names from the `from`th on is the name.
fn contains_from(v: &Vec<&str>, from: usize, name: &str) -> (r: bool)
    requires
        from <= v@.len(),
    ensures
        r == slices(v@).skip(from as int).contains(name@),
{
    let ghost rest = slices(v@).skip(from as int);
    let mut i: usize = from;
    while i < v.len()
        invariant
            from <= i <= v@.len(),
            rest == slices(v@).skip(from as int),
            forall|j: int| 0 <= j < i - from ==> #[trigger] rest[j] != name@,
        decreases v@.len() - i,
    {
        assert(rest[i - from] == v@[i as int]@);
        if str_eq(v[i], name) {
            return true;
        }
        i += 1;
    }
    false
}

/// How many elements or blocks both tensors have.
fn common_units(dtype: DType, base: &[u8], patch: &[u8]) -> (n: usize)
    ensures
        n == common_count(base@, patch@, unit_size(dtype)),
        n * unit_size(dtype) <= base@.len(),
        n * unit_size(dtype) <= patch@.len(),
{
    assert(base@.len() == base.len());
    assert(patch@.len() == patch.len());
    let size = unit_bytes(dtype);
    let least = if base.len() < patch.len() {
        base.len()
    } else {
        patch.len()
    };
    let n = least / size;
    assert(n * size <= least) by (nonlinear_arith)
        requires
            size > 0,
            n == least / size,
    ;
    n
}

/// The elements that are to be added.
fn read_addition(name: &str, dtype: DType, base: &[u8], patch: &[u8]) -> (r: Addition)
    requires
        kind_of(dtype) != ElementKind::Integer,
    ensures
        forall|t: Descriptor|
            t.name == name@ && t.dtype == dtype ==> r@ == #[trigger] addition_of(
                t,
                base@,
                patch@,
            ),
{
    let n = common_units(dtype, base, patch);
    Addition {
        name: name.to_owned(),
        dtype,
        base: read_row(base, dtype, n),
        patch: read_row(patch, dtype, n),
    }
}

/// The bytes of a tensor to which an adapter's was added, or why there are none.
fn apply_add(
    name: &str,
    dtype: DType,
    base: &[u8],
    patch: &[u8],
    sums: &Vec<Elements>,
    used: usize,
) -> (r: AxonResult<Vec<u8>>)
    ensures
        forall|t: Descriptor|
            t.name == name@ && t.dtype == dtype ==> outcome(r) == #[trigger] applied(
                t,
                base@,
                patch@,
                PatchStrategy::Add,
                element_rows(sums@),
                used as int,
            ),
{
    assert(base@.len() == base.len());
    let n = common_units(dtype, base, patch);
    let mut rest = sum_rest(base, patch, n * unit_bytes(dtype));
    let mut out = if element_kind(dtype) == ElementKind::Integer {
        sum_elements(base, patch, dtype.size_in_bytes())
    } else {
        assert(used < sums@.len() ==> element_rows(sums@)[used as int] == sums@[used as int]@);
        if used >= sums.len() || !fits_row(&sums[used], dtype, n) {
            return Err(
                AxonError::InvalidManifest(concat3("tensor ", name, ": no sums for its elements")),
            );
        }
        write_row(&sums[used], dtype)
    };
    out.append(&mut rest);
    Ok(out)
}

/// The first entry that patches the tensor.
fn position(v: &Vec<PatchEntry>, name: &str) -> (r: Option<usize>)
    ensures
        match r {
            Some(i) => find_patch(patches_of(v@), name@, 0) == Some(i as int) && i < v@.len(),
            None => find_patch(patches_of(v@), name@, 0) is None,
        },
{
    let mut i: usize = 0;
    while i < v.len()
        invariant
            i <= v@.len(),
            find_patch(patches_of(v@), name@, 0) == find_patch(patches_of(v@), name@, i as int),
        decreases v@.len() - i,
    {
        if str_eq(v[i].base_name.as_str(), name) {
            return Some(i);
        }
        i += 1;
    }
    None
}

proof fn lemma_one_patch<'a>(a: Seq<AttachedPatch<'a>>, b: Seq<AttachedPatch<'a>>, i: int)
    requires
        a.len() == b.len(),
        0 <= i < a.len(),
        forall|k: int| 0 <= k < a.len() && k != i ==> a[k] == b[k],
        a[i].name == b[i].name,
        a[i].entries == b[i].entries,
        a[i].runtime.same_file(b[i].runtime),
    ensures
        adapters_of(a) == adapters_of(b),
        stats_of(b) == stats_of(a).update(i, b[i].runtime.counts()),
        b[i].runtime.counts() == a[i].runtime.counts() ==> stats_of(a) == stats_of(b),
{
    assert(adapters_of(a) =~= adapters_of(b));
    assert(stats_of(b) =~= stats_of(a).update(i, b[i].runtime.counts()));
    if b[i].runtime.counts() == a[i].runtime.counts() {
        assert(stats_of(a) =~= stats_of(b));
    }
}

impl<'a> TensorAccess for PatchedRuntime<'a> {
    open spec fn ready(&self) -> bool {
        self.wf()
    }

    open spec fn whole(&self, name: Seq<char>) -> Result<Seq<u8>, Failure> {
        layered_tensor(self.model(), name)
    }

    open spec fn part_at(&self, name: Seq<char>, offset: int, size: int) -> Result<
        Seq<u8>,
        Failure,
    > {
        layered_part(self.model(), name, offset, size)
    }

    fn tensor_bytes(&mut self, name: &str) -> (r: AxonResult<Vec<u8>>) {
        self.tensor(name)
    }

    fn tensor_byte_range(&mut self, name: &str, byte_offset: u64, size: u64) -> (r: AxonResult<
        Vec<u8>,
    >) {
        PatchedRuntime::tensor_byte_range(self, name, byte_offset, size)
    }
}

// ── Laws ────────────────────────────────────────────────────────────
/// A tensor that no adapter is asked for comes from the base. After a choice of
/// none, that is every tensor.
pub proof fn lemma_base_fallback(m: Layered, name: Seq<char>, offset: int, size: int)
    requires
        read_from(m, name) is None || (m.chosen && m.active is None),
    ensures
        layered_tensor(m, name) == whole_tensor(m.bytes, m.descs, name),
        layered_part(m, name, offset, size) == part_of_tensor(m.bytes, m.descs, name, offset, size),
        layered_info(m, name) == lookup(m.descs, name),
{
}

/// While no adapter was chosen, the one that was attached last among those that
/// patch a tensor gives it, and the base where none patches it.
pub proof fn lemma_latest_wins(m: Layered, name: Seq<char>)
    requires
        !m.chosen,
    ensures
        match read_from(m, name) {
            Some(i) => 0 <= i < m.adapters.len() && patches(m.adapters[i], name) && (forall|j: int|
                i < j < m.adapters.len() ==> !patches(#[trigger] m.adapters[j], name))
                && layered_tensor(m, name) == whole_tensor(
                m.adapters[i].bytes,
                m.adapters[i].descs,
                patch_name(m.adapters[i], name),
            ),
            None => (forall|j: int|
                0 <= j < m.adapters.len() ==> !patches(#[trigger] m.adapters[j], name))
                && layered_tensor(m, name) == whole_tensor(m.bytes, m.descs, name),
        },
{
    lemma_latest(m.adapters, name, m.adapters.len() as int);
}

proof fn lemma_latest(a: Seq<Adapter>, name: Seq<char>, n: int)
    requires
        0 <= n <= a.len(),
    ensures
        match latest(a, name, n) {
            Some(i) => 0 <= i < n && patches(a[i], name) && (forall|j: int|
                i < j < n ==> !patches(#[trigger] a[j], name)),
            None => forall|j: int| 0 <= j < n ==> !patches(#[trigger] a[j], name),
        },
    decreases n,
{
    if n > 0 && !patches(a[n - 1], name) {
        lemma_latest(a, name, n - 1);
    }
}

/// With one adapter at most, chosen or not, a tensor comes from the adapter exactly
/// where the adapter is active and patches the tensor.
pub proof fn lemma_single_adapter(m: Layered, name: Seq<char>, offset: int, size: int)
    requires
        active_attached(m),
        m.adapters.len() <= 1,
    ensures
        match m.active {
            Some(i) => i == 0 && m.adapters.len() == 1 && (if patches(m.adapters[0], name) {
                let a = m.adapters[0];
                let own = patch_name(a, name);
                &&& read_from(m, name) == Some(0int)
                &&& layered_tensor(m, name) == whole_tensor(a.bytes, a.descs, own)
                &&& layered_part(m, name, offset, size) == part_of_tensor(
                    a.bytes,
                    a.descs,
                    own,
                    offset,
                    size,
                )
            } else {
                &&& read_from(m, name) is None
                &&& layered_tensor(m, name) == whole_tensor(m.bytes, m.descs, name)
                &&& layered_part(m, name, offset, size) == part_of_tensor(
                    m.bytes,
                    m.descs,
                    name,
                    offset,
                    size,
                )
            }),
            None => read_from(m, name) is None && layered_tensor(m, name) == whole_tensor(
                m.bytes,
                m.descs,
                name,
            ) && layered_part(m, name, offset, size) == part_of_tensor(
                m.bytes,
                m.descs,
                name,
                offset,
                size,
            ),
        },
{
    lemma_latest(m.adapters, name, m.adapters.len() as int);
}

/// An adapter that is attached while none was chosen gives every tensor that it
/// patches, and changes no other.
pub proof fn lemma_attached_on_top(m: Layered, a: Adapter, name: Seq<char>)
    requires
        !m.chosen,
    ensures
        layered_tensor(with_adapter(m, a), name) == (if patches(a, name) {
            whole_tensor(a.bytes, a.descs, patch_name(a, name))
        } else {
            layered_tensor(m, name)
        }),
{
    let n = m.adapters.len() as int;
    let next = m.adapters.push(a);
    if !patches(a, name) {
        lemma_latest_kept(m.adapters, a, name, n);
        lemma_latest(m.adapters, name, n);
    }
    assert(next[n] == a);
}

proof fn lemma_latest_kept(s: Seq<Adapter>, a: Adapter, name: Seq<char>, n: int)
    requires
        0 <= n <= s.len(),
    ensures
        latest(s.push(a), name, n) == latest(s, name, n),
    decreases n,
{
    if n > 0 {
        assert(s.push(a)[n - 1] == s[n - 1]);
        lemma_latest_kept(s, a, name, n - 1);
    }
}

/// The names that are listed are those of the base's tensors and those for which
/// an adapter is asked.
pub proof fn lemma_listed_names(m: Layered, name: Seq<char>)
    requires
        m.active matches Some(i) ==> 0 <= i < m.adapters.len(),
    ensures
        layered_names(m).contains(name) <==> has(m.descs, name) || read_from(m, name) is Some,
{
    let none = Seq::<Seq<char>>::empty();
    let base = names_of(m.descs);
    lemma_find_name(m.descs, name, 0);
    assert(base.contains(name) <==> has(m.descs, name)) by {
        if let Some(i) = find_name(m.descs, name, 0) {
            assert(base[i] == name);
        }
        if base.contains(name) {
            let i = choose|i: int| 0 <= i < base.len() && base[i] == name;
            assert(m.descs[i].name == name);
        }
    }
    let more = if !m.chosen {
        lemma_all_new_names(m.descs, m.adapters, 0, none, name);
        lemma_latest(m.adapters, name, m.adapters.len() as int);
        all_new_names(m.descs, m.adapters, 0, none)
    } else {
        match m.active {
            Some(i) => {
                lemma_new_names(m.descs, m.adapters[i].entries, 0, none, name);
                new_names(m.descs, m.adapters[i].entries, 0, none)
            },
            None => none,
        }
    };
    assert(layered_names(m) == base + more);
    assert((base + more).contains(name) <==> base.contains(name) || more.contains(name)) by {
        if more.contains(name) {
            let i = choose|i: int| 0 <= i < more.len() && more[i] == name;
            assert((base + more)[base.len() + i] == name);
        }
        if base.contains(name) {
            let i = choose|i: int| 0 <= i < base.len() && base[i] == name;
            assert((base + more)[i] == name);
        }
    }
    if !m.chosen && read_from(m, name) is Some {
        assert(patches(m.adapters[read_from(m, name)->0], name));
    }
}

proof fn lemma_new_names(
    base: Seq<Descriptor>,
    e: Seq<Patch>,
    k: int,
    done: Seq<Seq<char>>,
    name: Seq<char>,
)
    requires
        0 <= k,
    ensures
        new_names(base, e, k, done).contains(name) <==> done.contains(name) || (find_name(
            base,
            name,
            0,
        ) is None && find_patch(e, name, k) is Some),
    decreases e.len() - k,
{
    if k < e.len() {
        let n = e[k].base_name;
        if has(base, n) || done.contains(n) {
            lemma_new_names(base, e, k + 1, done, name);
            if n == name && find_name(base, name, 0) is None {
                assert(done.contains(name));
            }
        } else {
            lemma_new_names(base, e, k + 1, done.push(n), name);
            assert(done.push(n).contains(name) <==> done.contains(name) || n == name) by {
                if done.contains(name) {
                    let i = choose|i: int| 0 <= i < done.len() && done[i] == name;
                    assert(done.push(n)[i] == name);
                }
                assert(done.push(n)[done.len() as int] == n);
            }
        }
    }
}

proof fn lemma_all_new_names(
    base: Seq<Descriptor>,
    a: Seq<Adapter>,
    k: int,
    done: Seq<Seq<char>>,
    name: Seq<char>,
)
    requires
        0 <= k,
    ensures
        all_new_names(base, a, k, done).contains(name) <==> done.contains(name) || (find_name(
            base,
            name,
            0,
        ) is None && exists|i: int| k <= i < a.len() && patches(#[trigger] a[i], name)),
    decreases a.len() - k,
{
    if k < a.len() {
        lemma_new_names(base, a[k].entries, 0, done, name);
        lemma_all_new_names(base, a, k + 1, new_names(base, a[k].entries, 0, done), name);
        assert(patches(a[k], name) <==> find_patch(a[k].entries, name, 0) is Some);
    }
}

/// A tensor to which an adapter's was added reaches as far as both do; one that an
/// adapter replaces is the adapter's.
pub proof fn lemma_applied_length(
    t: Descriptor,
    base: Seq<u8>,
    patch: Seq<u8>,
    strategy: PatchStrategy,
    sums: Seq<ElementRow>,
    used: int,
)
    ensures
        applied(t, base, patch, strategy, sums, used) matches Ok(d) ==> d.len() == (
        if strategy == PatchStrategy::Add && base.len() < patch.len() {
            base.len()
        } else {
            patch.len()
        }),
{
    lemma_sum_reaches(base, patch, t.dtype, sums[used]);
}

/// The tensor can be merged: it and what patches it can be read.
pub open spec fn mergeable(m: Layered, a: Adapter, t: Descriptor) -> bool {
    &&& whole_tensor(m.bytes, m.descs, t.name) is Ok
    &&& find_patch(a.entries, t.name, 0) matches Some(k) ==> whole_tensor(
        a.bytes,
        a.descs,
        a.entries[k].patch_name,
    ) is Ok
}

/// Where every tensor can be merged and every addition has a row of sums that fits
/// it, nothing stops the merge.
pub proof fn lemma_sums_suffice(
    m: Layered,
    a: Adapter,
    k: int,
    done: Seq<AdditionModel>,
    sums: Seq<ElementRow>,
    st: Merge,
)
    requires
        0 <= k,
        st.used == done.len(),
        forall|i: int| k <= i < m.descs.len() ==> mergeable(m, a, #[trigger] m.descs[i]),
        additions_from(m, a, k, done) matches Ok(x) ==> sums.len() == x.len() && forall|i: int|
            0 <= i < x.len() ==> row_fits(
                #[trigger] sums[i],
                x[i].dtype,
                row_len(x[i].base) as int,
            ),
    ensures
        additions_from(m, a, k, done) is Ok,
        merge_from(m, a, k, sums, st).0 is None,
    decreases m.descs.len() - k,
{
    if k < m.descs.len() {
        let t = m.descs[k];
        assert(mergeable(m, a, t));
        let next = merge_one(m, a, t, sums, st).1;
        if adds_fractions(a, t) {
            let base = whole_tensor(m.bytes, m.descs, t.name)->Ok_0;
            let patch = whole_tensor(a.bytes, a.descs, patch_name(a, t.name))->Ok_0;
            let more = done.push(addition_of(t, base, patch));
            lemma_additions_kept(m, a, k + 1, more);
            if let Ok(x) = additions_from(m, a, k, done) {
                assert(x[done.len() as int] == more[done.len() as int]);
                assert(row_fits(sums[done.len() as int], t.dtype, row_len(more.last().base) as int));
            }
            if additions_from(m, a, k + 1, more) is Ok {
                lemma_sums_suffice(m, a, k + 1, more, sums, next);
            } else {
                lemma_additions_ok(m, a, k + 1, more);
            }
        } else {
            lemma_sums_suffice(m, a, k + 1, done, sums, next);
        }
    }
}

proof fn lemma_additions_ok(m: Layered, a: Adapter, k: int, done: Seq<AdditionModel>)
    requires
        0 <= k,
        forall|i: int| k <= i < m.descs.len() ==> mergeable(m, a, #[trigger] m.descs[i]),
    ensures
        additions_from(m, a, k, done) is Ok,
    decreases m.descs.len() - k,
{
    if k < m.descs.len() {
        let t = m.descs[k];
        assert(mergeable(m, a, t));
        if adds_fractions(a, t) {
            let base = whole_tensor(m.bytes, m.descs, t.name)->Ok_0;
            let patch = whole_tensor(a.bytes, a.descs, patch_name(a, t.name))->Ok_0;
            lemma_additions_ok(m, a, k + 1, done.push(addition_of(t, base, patch)));
        } else {
            lemma_additions_ok(m, a, k + 1, done);
        }
    }
}

proof fn lemma_additions_kept(m: Layered, a: Adapter, k: int, done: Seq<AdditionModel>)
    ensures
        additions_from(m, a, k, done) matches Ok(x) ==> x.len() >= done.len() && forall|i: int|
            0 <= i < done.len() ==> #[trigger] x[i] == done[i],
    decreases m.descs.len() - k,
{
    if k < m.descs.len() {
        let t = m.descs[k];
        if adds_fractions(a, t) {
            if let Ok(base) = whole_tensor(m.bytes, m.descs, t.name) {
                if let Ok(patch) = whole_tensor(a.bytes, a.descs, patch_name(a, t.name)) {
                    let more = done.push(addition_of(t, base, patch));
                    lemma_additions_kept(m, a, k + 1, more);
                    if let Ok(x) = additions_from(m, a, k, done) {
                        assert forall|i: int| 0 <= i < done.len() implies #[trigger] x[i]
                            == done[i] by {
                            assert(more[i] == done[i]);
                        }
                    }
                }
            }
        } else {
            lemma_additions_kept(m, a, k + 1, done);
        }
    }
}

/// The marks that an adapter's matrix has at the end of its name.
pub open spec fn is_mark(mark: Seq<char>) -> bool {
    ||| mark == ".lora_A"@
    ||| mark == ".lora_B"@
    ||| mark == ".lora_a"@
    ||| mark == ".lora_b"@
    ||| mark == ".lora_A.weight"@
    ||| mark == ".lora_B.weight"@
    ||| mark == ".lora_a.weight"@
    ||| mark == ".lora_b.weight"@
}

proof fn lemma_marks()
    ensures
        forall|m: Seq<char>, n: Seq<char>|
            #![trigger is_mark(m), is_mark(n)]
            is_mark(m) && is_mark(n) && m != n ==> m.len() != n.len() || m[6] != n[6],
        forall|m: Seq<char>| #[trigger] is_mark(m) ==> m.len() == 7 || m.len() == 14,
        forall|m: Seq<char>| #[trigger] is_mark(m) && m.len() == 7 ==> m[6] != 't',
        forall|m: Seq<char>| #[trigger] is_mark(m) && m.len() == 14 ==> m[13] == 't',
{
    reveal_strlit(".lora_A");
    reveal_strlit(".lora_B");
    reveal_strlit(".lora_a");
    reveal_strlit(".lora_b");
    reveal_strlit(".lora_A.weight");
    reveal_strlit(".lora_B.weight");
    reveal_strlit(".lora_a.weight");
    reveal_strlit(".lora_b.weight");
}

proof fn lemma_stem(s: Seq<char>, mark: Seq<char>, other: Seq<char>)
    requires
        is_mark(mark),
        is_mark(other),
    ensures
        stem(s + mark, other) == (if other == mark {
            Some(s)
        } else {
            None
        }),
{
    lemma_marks();
    let name = s + mark;
    if other == mark {
        assert(name.subrange(name.len() - mark.len(), name.len() as int) =~= mark);
        assert(name.take(name.len() - mark.len()) =~= s);
    } else if other.is_suffix_of(name) {
        let last = name.len() - 1;
        assert(name[last] == mark[mark.len() - 1]);
        let tail = name.subrange(name.len() - other.len(), name.len() as int);
        assert(tail[other.len() - 1] == name[last]);
        if mark.len() == other.len() {
            assert(tail[6] == mark[6]);
        }
    }
}

/// Whatever stands before a mark is what the name stands for.
pub proof fn lemma_mark_stripped(s: Seq<char>, mark: Seq<char>)
    requires
        is_mark(mark),
    ensures
        stripped(s + mark) == Some(s),
        unmarked(s + mark) == Some(s),
{
    lemma_stem(s, mark, ".lora_A"@);
    lemma_stem(s, mark, ".lora_B"@);
    lemma_stem(s, mark, ".lora_a"@);
    lemma_stem(s, mark, ".lora_b"@);
    lemma_stem(s, mark, ".lora_A.weight"@);
    lemma_stem(s, mark, ".lora_B.weight"@);
    lemma_stem(s, mark, ".lora_a.weight"@);
    lemma_stem(s, mark, ".lora_b.weight"@);
}

/// A name that ends with no mark stands for what follows `lora_` at its front, and
/// for nothing without it.
pub proof fn lemma_front_stripped(name: Seq<char>, s: Seq<char>)
    requires
        forall|mark: Seq<char>| #[trigger] is_mark(mark) ==> !mark.is_suffix_of(name),
    ensures
        stripped(name) is None,
        name == "lora_"@ + s ==> unmarked(name) == Some(s),
        !"lora_"@.is_prefix_of(name) ==> unmarked(name) is None,
{
    assert(is_mark(".lora_A"@) && is_mark(".lora_B"@) && is_mark(".lora_a"@) && is_mark(
        ".lora_b"@,
    ));
    assert(is_mark(".lora_A.weight"@) && is_mark(".lora_B.weight"@) && is_mark(".lora_a.weight"@)
        && is_mark(".lora_b.weight"@));
    if name == "lora_"@ + s {
        assert(name.subrange(0, "lora_"@.len() as int) =~= "lora_"@);
        assert(name.skip("lora_"@.len() as int) =~= s);
    }
}

/// The tensor of the base that an adapter's tensor patches. Where the base has the
/// name without the mark, it is that; else the weight of that name where the base
/// has it, whether or not there is a bias too; else the bias; and else none.
pub proof fn lemma_patched_tensor(base: Seq<Descriptor>, s: Seq<char>, mark: Seq<char>)
    requires
        is_mark(mark),
    ensures
        has(base, s) ==> target(base, s + mark) == Some(s),
        !(has(base, s)) && has(base, s + ".weight"@) ==> target(base, s + mark) == Some(
            s + ".weight"@,
        ),
        !(has(base, s)) && !(has(base, s + ".weight"@)) && has(base, s + ".bias"@) ==> target(
            base,
            s + mark,
        ) == Some(s + ".bias"@),
        !(has(base, s)) && !(has(base, s + ".weight"@)) && !(has(base, s + ".bias"@)) ==> target(
            base,
            s + mark,
        ) is None,
{
    lemma_mark_stripped(s, mark);
}

/// A bias is patched only by a tensor that names it, or where the base has no weight
/// of that name.
pub proof fn lemma_bias_patched(base: Seq<Descriptor>, name: Seq<char>, s: Seq<char>)
    requires
        target(base, name) == Some(s + ".bias"@),
        has(base, s + ".weight"@),
    ensures
        unmarked(name) == Some(s + ".bias"@),
{
    reveal_strlit(".weight");
    reveal_strlit(".bias");
    let t = s + ".bias"@;
    let u = unmarked(name)->0;
    if u != t {
        assert(t[t.len() - 1] == 's');
        if t == u + ".weight"@ {
            assert(t[t.len() - 1] == 't');
        }
        assert(t == u + ".bias"@);
        assert(s =~= t.take(t.len() - 5));
        assert(u =~= t.take(t.len() - 5));
    }
}

/// Every tensor of an adapter that stands for one of the base makes an entry that
/// puts it in that one's place.
pub proof fn lemma_tensor_makes_entry(
    base: Seq<Descriptor>,
    adapter: Seq<Descriptor>,
    k: int,
    done: Seq<Patch>,
    n: int,
)
    requires
        0 <= k <= n < adapter.len(),
        target(base, adapter[n].name) is Some,
    ensures
        entries_for(base, adapter, k, done).contains(
            Patch {
                base_name: target(base, adapter[n].name)->0,
                patch_name: adapter[n].name,
                strategy: PatchStrategy::Override,
            },
        ),
    decreases adapter.len() - k,
{
    let next = match target(base, adapter[k].name) {
        None => done,
        Some(t) => done.push(
            Patch {
                base_name: t,
                patch_name: adapter[k].name,
                strategy: PatchStrategy::Override,
            },
        ),
    };
    if k < n {
        lemma_tensor_makes_entry(base, adapter, k + 1, next, n);
    } else {
        lemma_entries_kept(base, adapter, k + 1, next);
        let all = entries_for(base, adapter, k + 1, next);
        assert(all[done.len() as int] == next[done.len() as int]);
    }
}

proof fn lemma_entries_kept(
    base: Seq<Descriptor>,
    adapter: Seq<Descriptor>,
    k: int,
    done: Seq<Patch>,
)
    ensures
        entries_for(base, adapter, k, done).len() >= done.len(),
        forall|i: int|
            0 <= i < done.len() ==> #[trigger] entries_for(base, adapter, k, done)[i] == done[i],
    decreases adapter.len() - k,
{
    if k < adapter.len() {
        match target(base, adapter[k].name) {
            None => {
                lemma_entries_kept(base, adapter, k + 1, done);
            },
            Some(t) => {
                let next = done.push(
                    Patch {
                        base_name: t,
                        patch_name: adapter[k].name,
                        strategy: PatchStrategy::Override,
                    },
                );
                lemma_entries_kept(base, adapter, k + 1, next);
                assert forall|i: int| 0 <= i < done.len() implies #[trigger] entries_for(
                    base,
                    adapter,
                    k,
                    done,
                )[i] == done[i] by {
                    assert(next[i] == done[i]);
                }
            },
        }
    }
}

proof fn lemma_no_entry(
    base: Seq<Descriptor>,
    adapter: Seq<Descriptor>,
    k: int,
    done: Seq<Patch>,
    t: Seq<char>,
)
    requires
        0 <= k,
        forall|j: int| k <= j < adapter.len() ==> target(base, (#[trigger] adapter[j]).name) != Some(t),
        forall|j: int| 0 <= j < done.len() ==> (#[trigger] done[j]).base_name != t,
    ensures
        find_patch(entries_for(base, adapter, k, done), t, 0) is None,
    decreases adapter.len() - k,
{
    if k < adapter.len() {
        assert(target(base, adapter[k].name) != Some(t));
        let next = match target(base, adapter[k].name) {
            None => done,
            Some(b) => done.push(
                Patch {
                    base_name: b,
                    patch_name: adapter[k].name,
                    strategy: PatchStrategy::Override,
                },
            ),
        };
        lemma_no_entry(base, adapter, k + 1, next, t);
    } else {
        lemma_found_patch(done, t, 0);
    }
}

proof fn lemma_first_entry(
    base: Seq<Descriptor>,
    adapter: Seq<Descriptor>,
    k: int,
    done: Seq<Patch>,
    t: Seq<char>,
    n: int,
)
    requires
        0 <= k <= n < adapter.len(),
        target(base, adapter[n].name) == Some(t),
        forall|j: int| k <= j < n ==> target(base, (#[trigger] adapter[j]).name) != Some(t),
        forall|j: int| 0 <= j < done.len() ==> (#[trigger] done[j]).base_name != t,
    ensures
        ({
            let e = entries_for(base, adapter, k, done);
            find_patch(e, t, 0) matches Some(i) && e[i].patch_name == adapter[n].name
        }),
    decreases adapter.len() - k,
{
    let next = match target(base, adapter[k].name) {
        None => done,
        Some(b) => done.push(
            Patch {
                base_name: b,
                patch_name: adapter[k].name,
                strategy: PatchStrategy::Override,
            },
        ),
    };
    if k < n {
        assert(target(base, adapter[k].name) != Some(t));
        lemma_first_entry(base, adapter, k + 1, next, t, n);
    } else {
        let e = entries_for(base, adapter, k + 1, next);
        lemma_entries_kept(base, adapter, k + 1, next);
        assert(e[done.len() as int] == next[done.len() as int]);
        assert forall|j: int| 0 <= j < done.len() implies (#[trigger] e[j]).base_name != t by {
            assert(e[j] == next[j]);
            assert(next[j] == done[j]);
        }
        lemma_first_match(e, t, 0, done.len() as int);
    }
}

proof fn lemma_first_match(e: Seq<Patch>, t: Seq<char>, k: int, i: int)
    requires
        0 <= k <= i < e.len(),
        e[i].base_name == t,
        forall|j: int| k <= j < i ==> (#[trigger] e[j]).base_name != t,
    ensures
        find_patch(e, t, k) == Some(i),
    decreases i - k,
{
    if k < i {
        lemma_first_match(e, t, k + 1, i);
    }
}

/// Once an adapter file was attached, and while no adapter was chosen, a tensor is
/// read from the first of the file's tensors that stands for it, and as before where
/// none does.
pub proof fn lemma_attached_file_is_read(m: Layered, a: Adapter, t: Seq<char>, n: int)
    requires
        !m.chosen,
        a.entries == entries_for(m.descs, a.descs, 0, Seq::empty()),
        0 <= n <= a.descs.len(),
        forall|j: int| 0 <= j < n ==> target(m.descs, (#[trigger] a.descs[j]).name) != Some(t),
        n < a.descs.len() ==> target(m.descs, a.descs[n].name) == Some(t),
    ensures
        layered_tensor(with_adapter(m, a), t) == (if n < a.descs.len() {
            whole_tensor(a.bytes, a.descs, a.descs[n].name)
        } else {
            layered_tensor(m, t)
        }),
{
    lemma_attached_on_top(m, a, t);
    if n < a.descs.len() {
        lemma_first_entry(m.descs, a.descs, 0, Seq::empty(), t, n);
    } else {
        lemma_no_entry(m.descs, a.descs, 0, Seq::empty(), t);
    }
}

/// A tensor that replaces another is taken as it is. Where one is added, every
/// integer is the sum of the two, without what does not fit, and every number with a
/// fraction, or block of them, is the one that was given for it.
pub proof fn lemma_applied_elements(
    t: Descriptor,
    base: Seq<u8>,
    patch: Seq<u8>,
    sums: Seq<ElementRow>,
    used: int,
    i: int,
)
    requires
        0 <= i < common_count(base, patch, unit_size(t.dtype)),
    ensures
        applied(t, base, patch, PatchStrategy::Override, sums, used) == Ok::<Seq<u8>, Failure>(
            patch,
        ),
        applied(t, base, patch, PatchStrategy::Add, sums, used) matches Ok(d) ==> (match kind_of(
            t.dtype,
        ) {
            ElementKind::Integer => element(d, i, dtype_size(t.dtype)) == (element(
                base,
                i,
                dtype_size(t.dtype),
            ) + element(patch, i, dtype_size(t.dtype))) % room(dtype_size(t.dtype)),
            ElementKind::Fraction => element(d, i, dtype_size(t.dtype)) == sums[used]->Bits_0[i] as nat
                % room(dtype_size(t.dtype)),
            ElementKind::Block => block_at(d, block_bytes(t.dtype) * i, t.dtype)
                == sums[used]->Blocks_0[i],
        }),
{
    let n = common_count(base, patch, unit_size(t.dtype)) as int;
    let rest = rest_sums(base, patch, n * unit_size(t.dtype));
    if kind_of(t.dtype) == ElementKind::Integer {
        let all = integer_sums(base, patch, dtype_size(t.dtype), n);
        lemma_sum_of_elements(base, patch, dtype_size(t.dtype), n, i);
        lemma_element_before(all, rest, i, dtype_size(t.dtype), n);
    } else if kind_of(t.dtype) == ElementKind::Fraction {
        if let ElementRow::Bits(b) = sums[used] {
            if b.len() == n {
                let all = placed(b, dtype_size(t.dtype), n);
                lemma_placed_elements(b, dtype_size(t.dtype), n, i);
                lemma_element_before(all, rest, i, dtype_size(t.dtype), n);
            }
        }
    } else if let ElementRow::Blocks(b) = sums[used] {
        if row_fits(sums[used], t.dtype, n) {
            lemma_packed_blocks(b, t.dtype, n);
            let all = packed_blocks(b, t.dtype, n);
            lemma_block_before(all, rest, i, t.dtype, n);
            assert(block_row(all, t.dtype, n as nat)[i] == b.take(n)[i]);
        }
    }
}

/// Every entry that an attached adapter makes patches a tensor that the base
/// has with one that the adapter has, in its place.
pub proof fn lemma_entries_have_targets(
    base: Seq<Descriptor>,
    adapter: Seq<Descriptor>,
    k: int,
    done: Seq<Patch>,
    i: int,
)
    requires
        0 <= k,
        0 <= i < entries_for(base, adapter, k, done).len(),
        forall|j: int|
            0 <= j < done.len() ==> has(base, (#[trigger] done[j]).base_name) && (exists|n: int|
                0 <= n < adapter.len() && (#[trigger] adapter[n]).name == done[j].patch_name)
                && done[j].strategy == PatchStrategy::Override,
    ensures
        ({
            let e = entries_for(base, adapter, k, done)[i];
            &&& has(base, e.base_name)
            &&& exists|n: int|
                0 <= n < adapter.len() && (#[trigger] adapter[n]).name == e.patch_name
            &&& e.strategy == PatchStrategy::Override
        }),
    decreases adapter.len() - k,
{
    if k < adapter.len() {
        match target(base, adapter[k].name) {
            None => {
                lemma_entries_have_targets(base, adapter, k + 1, done, i);
            },
            Some(n) => {
                let p = Patch {
                    base_name: n,
                    patch_name: adapter[k].name,
                    strategy: PatchStrategy::Override,
                };
                let next = done.push(p);
                assert forall|j: int| 0 <= j < next.len() implies has(
                    base,
                    (#[trigger] next[j]).base_name,
                ) && (exists|q: int|
                    0 <= q < adapter.len() && (#[trigger] adapter[q]).name == next[j].patch_name)
                    && next[j].strategy == PatchStrategy::Override by {
                    if j < done.len() {
                        assert(next[j] == done[j]);
                    } else {
                        assert(adapter[k].name == next[j].patch_name);
                    }
                }
                lemma_entries_have_targets(base, adapter, k + 1, next, i);
            },
        }
    }
}

/// Merging an adapter that replaces tensors writes, under every name of the
/// base, the bytes that the runtime gives while the adapter is chosen.
pub proof fn lemma_merge_is_layering(
    m: Layered,
    k: int,
    sums: Seq<ElementRow>,
    st: Merge,
    i: int,
)
    requires
        m.chosen,
        m.active matches Some(at) && 0 <= at < m.adapters.len(),
        forall|j: int|
            0 <= j < m.adapters[m.active->0].entries.len() ==> (
            #[trigger] m.adapters[m.active->0].entries[j]).strategy == PatchStrategy::Override,
        0 <= k <= m.descs.len(),
        st.draft.tensors.len() == k,
        merge_from(m, m.adapters[m.active->0], k, sums, st).0 is None,
        k <= i < m.descs.len(),
    ensures
        ({
            let ts = merge_from(m, m.adapters[m.active->0], k, sums, st).1.draft.tensors;
            &&& ts.len() == m.descs.len()
            &&& ts[i].name == m.descs[i].name
            &&& ts[i].dtype == m.descs[i].dtype
            &&& ts[i].shape == m.descs[i].shape
            &&& layered_tensor(m, m.descs[i].name) == Ok::<Seq<u8>, Failure>(ts[i].data)
        }),
    decreases m.descs.len() - k,
{
    let a = m.adapters[m.active->0];
    let (e, next) = merge_one(m, a, m.descs[k], sums, st);
    lemma_found_patch(a.entries, m.descs[k].name, 0);
    if k < i {
        lemma_merge_is_layering(m, k + 1, sums, next, i);
    } else {
        lemma_merge_keeps(m, a, k + 1, sums, next, k);
    }
}

/// Every tensor of the base is in the merged file, in its place, with its type and
/// its shape. One that the adapter does not patch keeps its bytes, one that it
/// replaces gets the adapter's, and one that numbers with a fraction are added to
/// gets the row of sums that was asked for under its name.
pub proof fn lemma_merged_tensor(
    m: Layered,
    a: Adapter,
    k: int,
    done: Seq<AdditionModel>,
    sums: Seq<ElementRow>,
    st: Merge,
    i: int,
)
    requires
        0 <= k <= i < m.descs.len(),
        st.draft.tensors.len() == k,
        st.used == done.len(),
        merge_from(m, a, k, sums, st).0 is None,
    ensures
        ({
            let ts = merge_from(m, a, k, sums, st).1.draft.tensors;
            let t = m.descs[i];
            let base = whole_tensor(m.bytes, m.descs, t.name);
            let patch = whole_tensor(a.bytes, a.descs, patch_name(a, t.name));
            &&& ts.len() == m.descs.len()
            &&& ts[i].name == t.name
            &&& ts[i].dtype == t.dtype
            &&& ts[i].shape == t.shape
            &&& !patches(a, t.name) ==> base == Ok::<Seq<u8>, Failure>(ts[i].data)
            &&& patches(a, t.name) && a.entries[find_patch(a.entries, t.name, 0)->0].strategy
                == PatchStrategy::Override ==> patch == Ok::<Seq<u8>, Failure>(ts[i].data)
            &&& adds_fractions(a, t) ==> (additions_from(m, a, k, done) matches Ok(x) && exists|
                j: int,
            |
                done.len() <= j < x.len() && (#[trigger] x[j]).name == t.name && applied(
                    t,
                    base->Ok_0,
                    patch->Ok_0,
                    PatchStrategy::Add,
                    sums,
                    j,
                ) == Ok::<Seq<u8>, Failure>(ts[i].data))
        }),
    decreases m.descs.len() - k,
{
    let t = m.descs[k];
    let next = merge_one(m, a, t, sums, st).1;
    let base = whole_tensor(m.bytes, m.descs, t.name);
    let patch = whole_tensor(a.bytes, a.descs, patch_name(a, t.name));
    let more = if adds_fractions(a, t) {
        done.push(addition_of(t, base->Ok_0, patch->Ok_0))
    } else {
        done
    };
    if k < i {
        lemma_merged_tensor(m, a, k + 1, more, sums, next, i);
    } else {
        lemma_merge_keeps(m, a, k + 1, sums, next, k);
        if adds_fractions(a, t) {
            lemma_merge_lists(m, a, k + 1, more, sums, next);
            lemma_additions_kept(m, a, k + 1, more);
            let x = additions_from(m, a, k, done)->Ok_0;
            assert(x[done.len() as int] == more[done.len() as int]);
        }
    }
}

proof fn lemma_merge_lists(
    m: Layered,
    a: Adapter,
    k: int,
    done: Seq<AdditionModel>,
    sums: Seq<ElementRow>,
    st: Merge,
)
    requires
        0 <= k,
        merge_from(m, a, k, sums, st).0 is None,
    ensures
        additions_from(m, a, k, done) is Ok,
    decreases m.descs.len() - k,
{
    if k < m.descs.len() {
        let t = m.descs[k];
        let next = merge_one(m, a, t, sums, st).1;
        let base = whole_tensor(m.bytes, m.descs, t.name);
        let patch = whole_tensor(a.bytes, a.descs, patch_name(a, t.name));
        let more = if adds_fractions(a, t) {
            done.push(addition_of(t, base->Ok_0, patch->Ok_0))
        } else {
            done
        };
        lemma_merge_lists(m, a, k + 1, more, sums, next);
    }
}

proof fn lemma_found_patch(e: Seq<Patch>, name: Seq<char>, k: int)
    requires
        0 <= k,
    ensures
        find_patch(e, name, k) matches Some(i) ==> k <= i < e.len() && e[i].base_name == name,
    decreases e.len() - k,
{
    if k < e.len() && e[k].base_name != name {
        lemma_found_patch(e, name, k + 1);
    }
}

proof fn lemma_merge_keeps(
    m: Layered,
    a: Adapter,
    k: int,
    sums: Seq<ElementRow>,
    st: Merge,
    i: int,
)
    requires
        0 <= i < st.draft.tensors.len() == k <= m.descs.len(),
        merge_from(m, a, k, sums, st).0 is None,
    ensures
        merge_from(m, a, k, sums, st).1.draft.tensors.len() == m.descs.len(),
        merge_from(m, a, k, sums, st).1.draft.tensors[i] == st.draft.tensors[i],
    decreases m.descs.len() - k,
{
    if k < m.descs.len() {
        lemma_merge_keeps(m, a, k + 1, sums, merge_one(m, a, m.descs[k], sums, st).1, i);
    }
}

/// Where numbers with a fraction are to be added and there is no row of sums left, the
/// tensor is reported by its name.
pub proof fn lemma_no_sums(
    t: Descriptor,
    base: Seq<u8>,
    patch: Seq<u8>,
    sums: Seq<ElementRow>,
    used: int,
)
    ensures
        kind_of(t.dtype) != ElementKind::Integer && used >= sums.len() ==> applied(
            t,
            base,
            patch,
            PatchStrategy::Add,
            sums,
            used,
        ) == Err::<Seq<u8>, Failure>(
            Failure::InvalidManifest("tensor "@ + t.name + ": no sums for its elements"@),
        ),
        kind_of(t.dtype) == ElementKind::Integer ==> applied(
            t,
            base,
            patch,
            PatchStrategy::Add,
            sums,
            used,
        ) is Ok,
{
}

} // verus!
