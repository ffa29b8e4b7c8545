//! A cache of tensors with a memory budget.
//!
//! When a tensor is put that would exceed the budget, the least recently used
//! tensors that are not pinned leave until it fits. Pinned tensors stay, and
//! count toward the budget.
use std::sync::Arc;

use vstd::prelude::*;

use crate::stats::wrapped;
use crate::text::{str_eq, texts};

verus! {

// ── The model ───────────────────────────────────────────────────────
/// The tensors of a cache, from the least to the most recently used.
pub type Entries = Seq<(Seq<char>, Seq<u8>)>;

/// The bytes of all tensors.
pub open spec fn usage_of(e: Entries) -> int
    decreases e.len(),
{
    if e.len() == 0 {
        0
    } else {
        usage_of(e.drop_last()) + e.last().1.len()
    }
}

/// The place of the tensor with the name, from the `k`th on.
pub open spec fn find_entry(e: Entries, name: Seq<char>, k: int) -> Option<int>
    decreases e.len() - k,
{
    if k >= e.len() {
        None
    } else if e[k].0 == name {
        Some(k)
    } else {
        find_entry(e, name, k + 1)
    }
}

/// The tensors without the one that has the name.
pub open spec fn without(e: Entries, name: Seq<char>) -> Entries {
    match find_entry(e, name, 0) {
        Some(i) => e.remove(i),
        None => e,
    }
}

/// The least recently used tensor that is not pinned, from the `k`th on.
pub open spec fn first_loose(e: Entries, pinned: Seq<Seq<char>>, k: int) -> Option<int>
    decreases e.len() - k,
{
    if k >= e.len() {
        None
    } else if !pinned.contains(e[k].0) {
        Some(k)
    } else {
        first_loose(e, pinned, k + 1)
    }
}

/// The tensors that are left when those that are not pinned leave, the least
/// recently used first, until `room` bytes are not exceeded.
pub open spec fn shrunk(e: Entries, pinned: Seq<Seq<char>>, room: int) -> Entries
    decreases e.len(),
{
    if usage_of(e) <= room {
        e
    } else {
        match first_loose(e, pinned, 0) {
            Some(i) => if 0 <= i < e.len() {
                shrunk(e.remove(i), pinned, room)
            } else {
                e
            },
            None => e,
        }
    }
}

/// The tensors after one is put. One that is larger than the budget, or for
/// which pinned tensors leave no room, is not kept.
pub open spec fn after_put(
    e: Entries,
    pinned: Seq<Seq<char>>,
    budget: int,
    name: Seq<char>,
    data: Seq<u8>,
) -> Entries {
    let rest = without(e, name);
    if data.len() > budget {
        rest
    } else {
        let kept = shrunk(rest, pinned, budget - data.len());
        if usage_of(kept) + data.len() <= budget {
            kept.push((name, data))
        } else {
            kept
        }
    }
}

/// How many tensors leave to make room when one is put.
pub open spec fn leave_on_put(
    e: Entries,
    pinned: Seq<Seq<char>>,
    budget: int,
    name: Seq<char>,
    data: Seq<u8>,
) -> int {
    let rest = without(e, name);
    if data.len() > budget {
        0
    } else {
        rest.len() - shrunk(rest, pinned, budget - data.len()).len()
    }
}

/// The tensors after one is looked up: it becomes the most recently used.
pub open spec fn after_get(e: Entries, name: Seq<char>) -> Entries {
    match find_entry(e, name, 0) {
        Some(i) => e.remove(i).push(e[i]),
        None => e,
    }
}

/// No two tensors have one name.
pub open spec fn distinct_names(e: Entries) -> bool {
    forall|i: int, j: int| 0 <= i < j < e.len() ==> (#[trigger] e[i]).0 != (#[trigger] e[j]).0
}

// ── Facts about the model ───────────────────────────────────────────
proof fn lemma_find(e: Entries, name: Seq<char>, k: int)
    requires
        0 <= k,
    ensures
        match find_entry(e, name, k) {
            Some(i) => k <= i < e.len() && e[i].0 == name,
            None => forall|j: int| k <= j < e.len() ==> (#[trigger] e[j]).0 != name,
        },
    decreases e.len() - k,
{
    if k < e.len() && e[k].0 != name {
        lemma_find(e, name, k + 1);
    }
}

proof fn lemma_loose(e: Entries, pinned: Seq<Seq<char>>, k: int)
    requires
        0 <= k,
    ensures
        match first_loose(e, pinned, k) {
            Some(i) => k <= i < e.len() && !pinned.contains(e[i].0) && (forall|j: int|
                k <= j < i ==> pinned.contains((#[trigger] e[j]).0)),
            None => forall|j: int| k <= j < e.len() ==> pinned.contains((#[trigger] e[j]).0),
        },
    decreases e.len() - k,
{
    if k < e.len() && pinned.contains(e[k].0) {
        lemma_loose(e, pinned, k + 1);
    }
}

proof fn lemma_usage_remove(e: Entries, i: int)
    requires
        0 <= i < e.len(),
    ensures
        usage_of(e.remove(i)) == usage_of(e) - e[i].1.len(),
        usage_of(e) >= 0,
        usage_of(e) >= e[i].1.len(),
    decreases e.len(),
{
    lemma_usage_positive(e);
    if i == e.len() - 1 {
        assert(e.remove(i) =~= e.drop_last());
        lemma_usage_positive(e.drop_last());
    } else {
        lemma_usage_remove(e.drop_last(), i);
        assert(e.remove(i).drop_last() =~= e.drop_last().remove(i));
        assert(e.remove(i).last() == e.last());
    }
}

proof fn lemma_usage_positive(e: Entries)
    ensures
        usage_of(e) >= 0,
    decreases e.len(),
{
    if e.len() > 0 {
        lemma_usage_positive(e.drop_last());
    }
}

proof fn lemma_remove_distinct(e: Entries, i: int)
    requires
        0 <= i < e.len(),
        distinct_names(e),
    ensures
        distinct_names(e.remove(i)),
        forall|j: int| 0 <= j < e.remove(i).len() ==> (#[trigger] e.remove(i)[j]).0 != e[i].0,
{
    let r = e.remove(i);
    assert forall|a: int, b: int| 0 <= a < b < r.len() implies (#[trigger] r[a]).0 != (
    #[trigger] r[b]).0 by {
        let a2 = if a < i {
            a
        } else {
            a + 1
        };
        let b2 = if b < i {
            b
        } else {
            b + 1
        };
        assert(r[a] == e[a2] && r[b] == e[b2]);
    }
    assert forall|j: int| 0 <= j < r.len() implies (#[trigger] r[j]).0 != e[i].0 by {
        if j < i {
            assert(r[j] == e[j]);
        } else {
            assert(r[j] == e[j + 1]);
        }
    }
}

/// Shrinking keeps names distinct, adds nothing, and stops only within the room
/// or when all that is left is pinned.
proof fn lemma_shrunk(e: Entries, pinned: Seq<Seq<char>>, room: int)
    requires
        distinct_names(e),
    ensures
        distinct_names(shrunk(e, pinned, room)),
        usage_of(shrunk(e, pinned, room)) <= room || (forall|j: int|
            0 <= j < shrunk(e, pinned, room).len() ==> pinned.contains(
                (#[trigger] shrunk(e, pinned, room)[j]).0,
            )),
        usage_of(shrunk(e, pinned, room)) <= usage_of(e),
        forall|x: (Seq<char>, Seq<u8>)| #[trigger]
            shrunk(e, pinned, room).contains(x) ==> e.contains(x),
        forall|x: (Seq<char>, Seq<u8>)|
            e.contains(x) && pinned.contains(x.0) ==> #[trigger] shrunk(e, pinned, room).contains(
                x,
            ),
    decreases e.len(),
{
    lemma_loose(e, pinned, 0);
    if usage_of(e) > room {
        if let Some(i) = first_loose(e, pinned, 0) {
            let r = e.remove(i);
            lemma_usage_remove(e, i);
            lemma_remove_distinct(e, i);
            lemma_shrunk(r, pinned, room);
            assert forall|x: (Seq<char>, Seq<u8>)| #[trigger]
                shrunk(e, pinned, room).contains(x) implies e.contains(x) by {
                let k = choose|k: int| 0 <= k < r.len() && r[k] == x;
                if k < i {
                    assert(e[k] == x);
                } else {
                    assert(e[k + 1] == x);
                }
            }
            assert forall|x: (Seq<char>, Seq<u8>)|
                e.contains(x) && pinned.contains(x.0) implies #[trigger] shrunk(
                e,
                pinned,
                room,
            ).contains(x) by {
                let k = choose|k: int| 0 <= k < e.len() && e[k] == x;
                if k < i {
                    assert(r[k] == x);
                } else {
                    assert(r[k - 1] == x);
                }
            }
        }
    }
}

proof fn lemma_without(e: Entries, name: Seq<char>)
    requires
        distinct_names(e),
    ensures
        distinct_names(without(e, name)),
        usage_of(without(e, name)) <= usage_of(e),
        forall|j: int| 0 <= j < without(e, name).len() ==> (#[trigger] without(e, name)[j]).0
            != name,
        forall|x: (Seq<char>, Seq<u8>)|
            e.contains(x) && x.0 != name ==> #[trigger] without(e, name).contains(x),
{
    lemma_find(e, name, 0);
    if let Some(i) = find_entry(e, name, 0) {
        lemma_usage_remove(e, i);
        lemma_remove_distinct(e, i);
        let r = e.remove(i);
        assert forall|x: (Seq<char>, Seq<u8>)|
            e.contains(x) && x.0 != name implies #[trigger] r.contains(x) by {
            let k = choose|k: int| 0 <= k < e.len() && e[k] == x;
            if k < i {
                assert(r[k] == x);
            } else {
                assert(r[k - 1] == x);
            }
        }
    }
}

/// A tensor that a lookup leaves was there before, and what it finds has the
/// name.
pub proof fn lemma_get_entries(e: Entries, name: Seq<char>)
    ensures
        forall|i: int|
            0 <= i < after_get(e, name).len() ==> e.contains(#[trigger] after_get(e, name)[i]),
        find_entry(e, name, 0) matches Some(i) ==> 0 <= i < e.len() && e[i].0 == name,
{
    lemma_find(e, name, 0);
    let r = after_get(e, name);
    assert forall|i: int| 0 <= i < r.len() implies e.contains(#[trigger] r[i]) by {
        match find_entry(e, name, 0) {
            Some(k) => {
                if i < k {
                    assert(r[i] == e[i]);
                } else if i < e.len() - 1 {
                    assert(r[i] == e[i + 1]);
                } else {
                    assert(r[i] == e[k]);
                }
            },
            None => {
                assert(r[i] == e[i]);
            },
        }
    }
}

/// A tensor that is left when another is taken out was there before.
pub proof fn lemma_without_entries(e: Entries, name: Seq<char>)
    ensures
        forall|i: int|
            0 <= i < without(e, name).len() ==> e.contains(#[trigger] without(e, name)[i]),
{
    lemma_find(e, name, 0);
    let r = without(e, name);
    assert forall|i: int| 0 <= i < r.len() implies e.contains(#[trigger] r[i]) by {
        match find_entry(e, name, 0) {
            Some(k) => {
                if i < k {
                    assert(r[i] == e[i]);
                } else {
                    assert(r[i] == e[i + 1]);
                }
            },
            None => {
                assert(r[i] == e[i]);
            },
        }
    }
}

/// A tensor that is there after another is put was there before, or is that one.
pub proof fn lemma_put_entries(
    e: Entries,
    pinned: Seq<Seq<char>>,
    budget: int,
    name: Seq<char>,
    data: Seq<u8>,
)
    requires
        distinct_names(e),
    ensures
        forall|i: int|
            0 <= i < after_put(e, pinned, budget, name, data).len() ==> ({
                let x = #[trigger] after_put(e, pinned, budget, name, data)[i];
                x == (name, data) || e.contains(x)
            }),
{
    let rest = without(e, name);
    lemma_without(e, name);
    lemma_without_entries(e, name);
    let kept = shrunk(rest, pinned, budget - data.len());
    lemma_shrunk(rest, pinned, budget - data.len());
    let r = after_put(e, pinned, budget, name, data);
    assert forall|i: int| 0 <= i < r.len() implies ({
        let x = #[trigger] r[i];
        x == (name, data) || e.contains(x)
    }) by {
        if data.len() > budget {
            assert(r[i] == rest[i]);
        } else if i < kept.len() {
            assert(kept.contains(kept[i]));
            let k = choose|k: int| 0 <= k < rest.len() && rest[k] == kept[i];
            assert(e.contains(rest[k]));
        }
    }
}

// ── Laws ────────────────────────────────────────────────────────────
/// After a tensor is put the budget holds and names stay distinct, every pinned
/// tensor is still there, and the tensor itself is there wherever it fits
/// beside the pinned ones.
pub proof fn lemma_put(
    e: Entries,
    pinned: Seq<Seq<char>>,
    budget: int,
    name: Seq<char>,
    data: Seq<u8>,
)
    requires
        distinct_names(e),
        0 <= usage_of(e) <= budget,
    ensures
        distinct_names(after_put(e, pinned, budget, name, data)),
        0 <= usage_of(after_put(e, pinned, budget, name, data)) <= budget,
        forall|x: (Seq<char>, Seq<u8>)|
            e.contains(x) && pinned.contains(x.0) && x.0 != name ==> #[trigger] after_put(
                e,
                pinned,
                budget,
                name,
                data,
            ).contains(x),
        !after_put(e, pinned, budget, name, data).contains((name, data)) ==> data.len() > budget
            || (forall|j: int|
            0 <= j < after_put(e, pinned, budget, name, data).len() ==> pinned.contains(
                (#[trigger] after_put(e, pinned, budget, name, data)[j]).0,
            )),
{
    let rest = without(e, name);
    lemma_without(e, name);
    lemma_usage_positive(rest);
    let r = after_put(e, pinned, budget, name, data);
    lemma_usage_positive(r);
    if data.len() <= budget {
        let kept = shrunk(rest, pinned, budget - data.len());
        lemma_shrunk(rest, pinned, budget - data.len());
        if usage_of(kept) + data.len() <= budget {
            assert(r.drop_last() =~= kept);
            assert forall|a: int, b: int| 0 <= a < b < r.len() implies (#[trigger] r[a]).0 != (
            #[trigger] r[b]).0 by {
                if b == kept.len() {
                    assert(kept.contains(kept[a]));
                    let k = choose|k: int| 0 <= k < rest.len() && rest[k] == kept[a];
                    assert(rest[k].0 != name);
                } else {
                    assert(kept[a].0 != kept[b].0);
                }
            }
            assert(r[kept.len() as int] == (name, data));
            assert forall|x: (Seq<char>, Seq<u8>)|
                e.contains(x) && pinned.contains(x.0) && x.0 != name implies #[trigger] r.contains(
                x,
            ) by {
                assert(rest.contains(x));
                assert(kept.contains(x));
                let k = choose|k: int| 0 <= k < kept.len() && kept[k] == x;
                assert(r[k] == x);
            }
        } else {
            assert forall|x: (Seq<char>, Seq<u8>)|
                e.contains(x) && pinned.contains(x.0) && x.0 != name implies #[trigger] r.contains(
                x,
            ) by {
                assert(rest.contains(x));
            }
        }
    }
}

/// Eviction goes by recency: a tensor that is not pinned and stays is never
/// older than one that is not pinned and leaves.
pub proof fn lemma_least_recent_leaves(
    e: Entries,
    pinned: Seq<Seq<char>>,
    room: int,
    i: int,
    j: int,
)
    requires
        distinct_names(e),
        0 <= i < j < e.len(),
        !pinned.contains(e[i].0),
        shrunk(e, pinned, room).contains(e[i]),
    ensures
        shrunk(e, pinned, room).contains(e[j]),
    decreases e.len(),
{
    if usage_of(e) <= room {
        assert(e.contains(e[j]));
    } else {
        lemma_loose(e, pinned, 0);
        if let Some(k) = first_loose(e, pinned, 0) {
            let r = e.remove(k);
            lemma_remove_distinct(e, k);
            lemma_shrunk(r, pinned, room);
            if k == i {
                assert(r.contains(e[i]));
                let a = choose|a: int| 0 <= a < r.len() && r[a] == e[i];
                assert(r[a].0 != e[k].0);
            } else {
                assert(k < i);
                assert(r[i - 1] == e[i] && r[j - 1] == e[j]);
                lemma_least_recent_leaves(r, pinned, room, i - 1, j - 1);
            }
        } else {
            assert(pinned.contains(e[i].0));
        }
    }
}

// ── The cache ───────────────────────────────────────────────────────
/// How a cache did. A counter that runs over starts again at zero.
#[derive(Clone, Copy, Debug, PartialEq, Eq, Structural)]
pub struct CacheStats {
    /// Lookups that found their tensor.
    pub hits: u64,
    /// Lookups that did not.
    pub misses: u64,
    /// Tensors that left to make room.
    pub evictions: u64,
}

/// `Arc::clone`: another handle on the same value.
#[verifier::external_body]
fn share(a: &Arc<Vec<u8>>) -> (r: Arc<Vec<u8>>)
    ensures
        r == *a,
{
    Arc::clone(a)
}

/// A cache of tensors with a memory budget.
#[derive(Debug)]
pub struct TensorCache {
    /// The tensors, from the least to the most recently used.
    entries: Vec<(String, Arc<Vec<u8>>)>,
    /// The names that never leave to make room.
    pinned: Vec<String>,
    /// The bytes that the tensors may have together.
    budget: usize,
    /// The bytes that they have.
    usage: usize,
    /// How the cache did.
    stats: CacheStats,
}

spec fn entries_of(v: Seq<(String, Arc<Vec<u8>>)>) -> Entries {
    Seq::new(v.len(), |i: int| (v[i].0@, v[i].1@))
}

impl TensorCache {
    /// The tensors, from the least to the most recently used.
    pub closed spec fn contents(self) -> Entries {
        entries_of(self.entries@)
    }

    /// The names that never leave to make room.
    pub closed spec fn pins(self) -> Seq<Seq<char>> {
        texts(self.pinned@)
    }

    /// The bytes that the tensors may have together.
    pub closed spec fn limit(self) -> int {
        self.budget as int
    }

    /// How the cache did.
    pub closed spec fn counts(self) -> CacheStats {
        self.stats
    }

    /// The tensors have distinct names and stay within the budget, and their
    /// bytes are counted.
    pub closed spec fn wf(self) -> bool {
        &&& distinct_names(self.contents())
        &&& self.usage == usage_of(self.contents())
        &&& self.usage <= self.budget
    }

    /// In a well-formed cache the budget holds and no name comes twice.
    pub proof fn lemma_wf(self)
        requires
            self.wf(),
        ensures
            distinct_names(self.contents()),
            0 <= usage_of(self.contents()) <= self.limit(),
    {
    }

    /// A cache without tensors.
    pub fn new(memory_budget: usize) -> (r: TensorCache)
        ensures
            r.wf(),
            r.contents() == Entries::empty(),
            r.pins() == Seq::<Seq<char>>::empty(),
            r.limit() == memory_budget,
            r.counts() == (CacheStats { hits: 0, misses: 0, evictions: 0 }),
    {
        let r = TensorCache {
            entries: Vec::new(),
            pinned: Vec::new(),
            budget: memory_budget,
            usage: 0,
            stats: CacheStats { hits: 0, misses: 0, evictions: 0 },
        };
        assert(r.contents() =~= Entries::empty());
        assert(r.pins() =~= Seq::<Seq<char>>::empty());
        r
    }

    fn find(&self, name: &str) -> (r: Option<usize>)
        ensures
            match r {
                Some(i) => find_entry(self.contents(), name@, 0) == Some(i as int) && i
                    < self.entries@.len(),
                None => find_entry(self.contents(), name@, 0) is None,
            },
    {
        let mut i: usize = 0;
        while i < self.entries.len()
            invariant
                i <= self.entries@.len(),
                find_entry(self.contents(), name@, 0) == find_entry(
                    self.contents(),
                    name@,
                    i as int,
                ),
            decreases self.entries@.len() - i,
        {
            if str_eq(self.entries[i].0.as_str(), name) {
                return Some(i);
            }
            i += 1;
        }
        None
    }

    /// Whether the name is pinned.
    pub fn is_pinned(&self, name: &str) -> (r: bool)
        ensures
            r == self.pins().contains(name@),
    {
        let mut i: usize = 0;
        while i < self.pinned.len()
            invariant
                i <= self.pinned@.len(),
                forall|k: int| 0 <= k < i ==> (#[trigger] self.pins()[k]) != name@,
            decreases self.pinned@.len() - i,
        {
            if str_eq(self.pinned[i].as_str(), name) {
                assert(self.pins()[i as int] == name@);
                return true;
            }
            i += 1;
        }
        false
    }

    /// Takes out the tensor at a place.
    fn take_at(&mut self, i: usize) -> (r: (String, Arc<Vec<u8>>))
        requires
            old(self).wf(),
            i < old(self).entries@.len(),
        ensures
            final(self).wf(),
            final(self).contents() == old(self).contents().remove(i as int),
            final(self).pins() == old(self).pins(),
            final(self).limit() == old(self).limit(),
            final(self).counts() == old(self).counts(),
            (r.0@, r.1@) == old(self).contents()[i as int],
    {
        proof {
            lemma_usage_remove(self.contents(), i as int);
            lemma_remove_distinct(self.contents(), i as int);
        }
        let x = self.entries.remove(i);
        self.usage = self.usage - x.1.len();
        assert(self.contents() =~= old(self).contents().remove(i as int));
        x
    }

    /// The tensor with the name, which becomes the most recently used.
    pub fn get(&mut self, name: &str) -> (r: Option<Arc<Vec<u8>>>)
        requires
            old(self).wf(),
        ensures
            final(self).wf(),
            final(self).contents() == after_get(old(self).contents(), name@),
            final(self).pins() == old(self).pins(),
            final(self).limit() == old(self).limit(),
            match find_entry(old(self).contents(), name@, 0) {
                Some(i) => r matches Some(a) && a@ == old(self).contents()[i].1
                    && final(self).counts() == (CacheStats {
                    hits: wrapped(old(self).counts().hits, 1),
                    ..old(self).counts()
                }),
                None => r is None && final(self).counts() == (CacheStats {
                    misses: wrapped(old(self).counts().misses, 1),
                    ..old(self).counts()
                }),
            },
    {
        match self.find(name) {
            Some(i) => {
                let ghost e = self.contents();
                proof {
                    lemma_find(e, name@, 0);
                    lemma_usage_remove(e, i as int);
                    lemma_remove_distinct(e, i as int);
                }
                let x = self.take_at(i);
                let a = share(&x.1);
                self.usage = self.usage + x.1.len();
                self.entries.push(x);
                self.stats.hits = self.stats.hits.wrapping_add(1);
                assert(self.contents() =~= e.remove(i as int).push(e[i as int]));
                assert(self.contents().drop_last() =~= e.remove(i as int));
                Some(a)
            },
            None => {
                self.stats.misses = self.stats.misses.wrapping_add(1);
                None
            },
        }
    }

    /// Lets tensors that are not pinned leave, the least recently used first,
    /// until `room` bytes are not exceeded.
    fn shrink(&mut self, room: usize)
        requires
            old(self).wf(),
        ensures
            final(self).wf(),
            final(self).contents() == shrunk(old(self).contents(), old(self).pins(), room as int),
            final(self).pins() == old(self).pins(),
            final(self).limit() == old(self).limit(),
            final(self).contents().len() <= old(self).contents().len(),
            final(self).counts() == (CacheStats {
                evictions: wrapped(
                    old(self).counts().evictions,
                    (old(self).contents().len() - final(self).contents().len()) as u64,
                ),
                ..old(self).counts()
            }),
    {
        let ghost pins = self.pins();
        let mut more = true;
        assert(self.contents().len() == self.entries.len());
        while more && self.usage > room
            invariant
                self.wf(),
                self.pins() == pins,
                self.limit() == old(self).limit(),
                self.contents().len() <= old(self).contents().len() <= usize::MAX,
                self.counts() == (CacheStats {
                    evictions: wrapped(
                        old(self).counts().evictions,
                        (old(self).contents().len() - self.contents().len()) as u64,
                    ),
                    ..old(self).counts()
                }),
                shrunk(self.contents(), pins, room as int) == shrunk(
                    old(self).contents(),
                    pins,
                    room as int,
                ),
                !more ==> first_loose(self.contents(), pins, 0) is None,
            decreases self.contents().len(), more as int,
        {
            let mut i: usize = 0;
            while i < self.entries.len() && self.is_pinned(self.entries[i].0.as_str())
                invariant
                    i <= self.entries@.len(),
                    self.pins() == pins,
                    first_loose(self.contents(), pins, 0) == first_loose(
                        self.contents(),
                        pins,
                        i as int,
                    ),
                decreases self.entries@.len() - i,
            {
                i += 1;
            }
            if i < self.entries.len() {
                self.take_at(i);
                self.stats.evictions = self.stats.evictions.wrapping_add(1);
            } else {
                more = false;
            }
        }
    }

    /// Puts a tensor, and hands it back.
    pub fn put(&mut self, name: String, data: Vec<u8>) -> (r: Arc<Vec<u8>>)
        requires
            old(self).wf(),
        ensures
            final(self).wf(),
            r@ == data@,
            final(self).contents() == after_put(
                old(self).contents(),
                old(self).pins(),
                old(self).limit(),
                name@,
                data@,
            ),
            final(self).pins() == old(self).pins(),
            final(self).limit() == old(self).limit(),
            final(self).counts() == (CacheStats {
                evictions: wrapped(
                    old(self).counts().evictions,
                    leave_on_put(
                        old(self).contents(),
                        old(self).pins(),
                        old(self).limit(),
                        name@,
                        data@,
                    ) as u64,
                ),
                ..old(self).counts()
            }),
    {
        proof {
            lemma_put(self.contents(), self.pins(), self.limit(), name@, data@);
        }
        if let Some(i) = self.find(name.as_str()) {
            self.take_at(i);
        }
        assert(self.contents() == without(old(self).contents(), name@));
        let size = data.len();
        let a = Arc::new(data);
        if size <= self.budget {
            self.shrink(self.budget - size);
            if self.usage <= self.budget - size {
                let ghost kept = self.contents();
                let b = share(&a);
                self.usage = self.usage + size;
                self.entries.push((name, b));
                assert(self.contents() =~= kept.push((name@, a@)));
                assert(self.contents().drop_last() =~= kept);
            }
        }
        a
    }

    /// Keeps the tensor with the name from leaving to make room.
    pub fn pin(&mut self, name: &str)
        requires
            old(self).wf(),
        ensures
            final(self).wf(),
            final(self).contents() == old(self).contents(),
            final(self).limit() == old(self).limit(),
            final(self).counts() == old(self).counts(),
            forall|n: Seq<char>| #[trigger]
                final(self).pins().contains(n) <==> n == name@ || old(self).pins().contains(n),
    {
        if !self.is_pinned(name) {
            let ghost before = self.pins();
            self.pinned.push(name.to_owned());
            assert(self.pins() =~= before.push(name@));
            assert forall|n: Seq<char>| #[trigger]
                self.pins().contains(n) <==> n == name@ || before.contains(n) by {
                assert(self.pins()[before.len() as int] == name@);
                if before.contains(n) {
                    let k = choose|k: int| 0 <= k < before.len() && before[k] == n;
                    assert(self.pins()[k] == n);
                }
            }
        }
    }

    /// Lets the tensor with the name leave again to make room.
    pub fn unpin(&mut self, name: &str)
        requires
            old(self).wf(),
        ensures
            final(self).wf(),
            final(self).contents() == old(self).contents(),
            final(self).limit() == old(self).limit(),
            final(self).counts() == old(self).counts(),
            forall|n: Seq<char>| #[trigger]
                final(self).pins().contains(n) <==> n != name@ && old(self).pins().contains(n),
    {
        let mut kept: Vec<String> = Vec::new();
        let mut i: usize = 0;
        let ghost before = self.pins();
        while i < self.pinned.len()
            invariant
                i <= self.pinned@.len(),
                before == self.pins(),
                forall|n: Seq<char>| #[trigger]
                    texts(kept@).contains(n) <==> n != name@ && before.take(i as int).contains(n),
            decreases self.pinned@.len() - i,
        {
            let ghost done = texts(kept@);
            let ghost x = before[i as int];
            assert(before.take(i + 1) =~= before.take(i as int).push(x));
            if !str_eq(self.pinned[i].as_str(), name) {
                kept.push(self.pinned[i].clone());
                assert(texts(kept@) =~= done.push(x));
                assert forall|n: Seq<char>| #[trigger]
                    texts(kept@).contains(n) <==> n != name@ && before.take(i + 1).contains(n) by {
                    lemma_push_contains(done, x, n);
                    lemma_push_contains(before.take(i as int), x, n);
                }
            } else {
                assert forall|n: Seq<char>| #[trigger]
                    texts(kept@).contains(n) <==> n != name@ && before.take(i + 1).contains(n) by {
                    lemma_push_contains(before.take(i as int), x, n);
                }
            }
            i += 1;
        }
        assert(before.take(i as int) =~= before);
        self.pinned = kept;
    }

    /// Takes the tensor with the name out of the cache.
    pub fn evict(&mut self, name: &str)
        requires
            old(self).wf(),
        ensures
            final(self).wf(),
            final(self).contents() == without(old(self).contents(), name@),
            final(self).pins() == old(self).pins(),
            final(self).limit() == old(self).limit(),
            final(self).counts() == old(self).counts(),
    {
        if let Some(i) = self.find(name) {
            self.take_at(i);
        }
    }

    /// Takes every tensor out of the cache.
    pub fn clear(&mut self)
        requires
            old(self).wf(),
        ensures
            final(self).wf(),
            final(self).contents() == Entries::empty(),
            final(self).pins() == old(self).pins(),
            final(self).limit() == old(self).limit(),
            final(self).counts() == old(self).counts(),
    {
        self.entries = Vec::new();
        self.usage = 0;
        assert(self.contents() =~= Entries::empty());
    }

    /// How the cache did.
    pub fn stats(&self) -> (r: &CacheStats)
        ensures
            *r == self.counts(),
    {
        &self.stats
    }

    /// The bytes that the tensors have together.
    pub fn current_usage(&self) -> (r: usize)
        requires
            self.wf(),
        ensures
            r == usage_of(self.contents()),
    {
        self.usage
    }

    /// The bytes that the tensors may have together.
    pub fn budget(&self) -> (r: usize)
        ensures
            r == self.limit(),
    {
        self.budget
    }
}

proof fn lemma_push_contains(s: Seq<Seq<char>>, x: Seq<char>, n: Seq<char>)
    ensures
        s.push(x).contains(n) <==> n == x || s.contains(n),
{
    if s.contains(n) {
        let k = choose|k: int| 0 <= k < s.len() && s[k] == n;
        assert(s.push(x)[k] == n);
    }
    assert(s.push(x)[s.len() as int] == x);
}

/// What is looked up becomes the most recently used, and all else keeps its order.
pub proof fn lemma_recent(e: Entries, name: Seq<char>, i: int, j: int)
    requires
        distinct_names(e),
        0 <= i < e.len(),
        0 <= j < e.len(),
        e[i].0 == name,
    ensures
        after_get(e, name).len() == e.len(),
        after_get(e, name).last() == e[i],
        j < i ==> after_get(e, name)[j] == e[j],
        j > i ==> after_get(e, name)[j - 1] == e[j],
        without(e, name).len() == e.len() - 1,
        j < i ==> without(e, name)[j] == e[j],
        j > i ==> without(e, name)[j - 1] == e[j],
{
    lemma_find(e, name, 0);
    assert(find_entry(e, name, 0) == Some(i));
}

/// A tensor for which there is room is put behind all others, as the most recently used,
/// and nothing leaves but what had its name. One that is larger than the budget is not
/// kept, and for it nothing else leaves either.
pub proof fn lemma_put_fits(
    e: Entries,
    pinned: Seq<Seq<char>>,
    budget: int,
    name: Seq<char>,
    data: Seq<u8>,
)
    ensures
        usage_of(without(e, name)) + data.len() <= budget ==> (data.len() <= budget
            ==> after_put(e, pinned, budget, name, data) == without(e, name).push((name, data))),
        data.len() > budget ==> after_put(e, pinned, budget, name, data) == without(e, name),
        (forall|i: int| 0 <= i < e.len() ==> (#[trigger] e[i]).0 != name) ==> without(e, name) == e,
{
    lemma_find(e, name, 0);
}

} // verus!
