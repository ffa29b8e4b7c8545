//! The cache of keys and values of a generation.
use vstd::prelude::*;


verus! {

/// The row with the numbers of `part` from `at` on.
pub open spec fn overwritten<T>(row: Seq<T>, at: int, part: Seq<T>) -> Seq<T> {
    row.take(at) + part + row.skip(at + part.len())
}

/// The keys and values of every layer. Within a layer they stand by position,
/// then by head.
#[derive(Debug)]
pub struct KVCache<T: Copy> {
    keys: Vec<Vec<T>>,
    values: Vec<Vec<T>>,
    n_kv_heads: usize,
    head_dim: usize,
    seq_len: usize,
    max_seq_len: usize,
}

/// The rows of numbers.
pub open spec fn rows<T>(v: Seq<Vec<T>>) -> Seq<Seq<T>> {
    Seq::new(v.len(), |i: int| v[i]@)
}

impl<T: Copy> KVCache<T> {
    /// The keys of every layer.
    pub closed spec fn keys(self) -> Seq<Seq<T>> {
        rows(self.keys@)
    }

    /// The values of every layer.
    pub closed spec fn values(self) -> Seq<Seq<T>> {
        rows(self.values@)
    }

    /// How many heads there are.
    pub closed spec fn heads(self) -> int {
        self.n_kv_heads as int
    }

    /// How many numbers a head has.
    pub closed spec fn dim(self) -> int {
        self.head_dim as int
    }

    /// How many positions are stored.
    pub closed spec fn len(self) -> int {
        self.seq_len as int
    }

    /// How many positions can be stored.
    pub closed spec fn capacity(self) -> int {
        self.max_seq_len as int
    }

    /// The numbers of one position.
    pub open spec fn width(self) -> int {
        self.heads() * self.dim()
    }

    /// The numbers of a whole layer.
    pub open spec fn layer_size(self) -> int {
        self.heads() * self.capacity() * self.dim()
    }

    /// Every layer has room for all positions.
    pub open spec fn wf(self) -> bool {
        &&& 0 <= self.heads()
        &&& 0 <= self.dim()
        &&& 0 <= self.len()
        &&& 0 <= self.capacity()
        &&& self.heads() * self.capacity() <= usize::MAX
        &&& self.layer_size() <= usize::MAX
        &&& self.keys().len() == self.values().len()
        &&& forall|i: int|
            0 <= i < self.keys().len() ==> (#[trigger] self.keys()[i]).len() == self.layer_size()
        &&& forall|i: int|
            0 <= i < self.values().len() ==> (#[trigger] self.values()[i]).len()
                == self.layer_size()
    }

    /// Both have the same shape and hold as many positions.
    pub open spec fn same_shape(self, other: KVCache<T>) -> bool {
        &&& self.heads() == other.heads()
        &&& self.dim() == other.dim()
        &&& self.capacity() == other.capacity()
        &&& self.keys().len() == other.keys().len()
    }

    /// A cache without positions, filled with `zero`.
    pub fn new(
        n_layers: usize,
        n_kv_heads: usize,
        head_dim: usize,
        max_seq_len: usize,
        zero: T,
    ) -> (r: KVCache<T>)
        requires
            n_kv_heads * max_seq_len <= usize::MAX,
            n_kv_heads * max_seq_len * head_dim <= usize::MAX,
        ensures
            r.wf(),
            r.keys().len() == n_layers,
            r.heads() == n_kv_heads,
            r.dim() == head_dim,
            r.capacity() == max_seq_len,
            r.len() == 0,
            forall|i: int|
                0 <= i < n_layers ==> #[trigger] r.keys()[i] == Seq::new(
                    (n_kv_heads * max_seq_len * head_dim) as nat,
                    |j: int| zero,
                ),
            forall|i: int|
                0 <= i < n_layers ==> #[trigger] r.values()[i] == Seq::new(
                    (n_kv_heads * max_seq_len * head_dim) as nat,
                    |j: int| zero,
                ),
    {
        let layer_size = n_kv_heads * max_seq_len * head_dim;
        let keys = filled_rows(n_layers, layer_size, zero);
        let values = filled_rows(n_layers, layer_size, zero);
        KVCache { keys, values, n_kv_heads, head_dim, seq_len: 0, max_seq_len }
    }

    /// How many positions are stored.
    pub fn seq_len(&self) -> (r: usize)
        ensures
            r == self.len(),
    {
        self.seq_len
    }

    /// Whether no further position can be stored.
    pub fn is_full(&self) -> (r: bool)
        ensures
            r == (self.len() >= self.capacity()),
    {
        self.seq_len >= self.max_seq_len
    }

    /// Stores the key and the value of the next position in a layer.
    pub fn push_layer(&mut self, layer: usize, key: &[T], value: &[T])
        requires
            old(self).wf(),
            layer < old(self).keys().len(),
            key@.len() == old(self).width(),
            value@.len() == old(self).width(),
            old(self).len() < old(self).capacity(),
        ensures
            final(self).wf(),
            final(self).same_shape(*old(self)),
            final(self).len() == old(self).len(),
            final(self).keys() == old(self).keys().update(
                layer as int,
                overwritten(
                    old(self).keys()[layer as int],
                    old(self).len() * old(self).width(),
                    key@,
                ),
            ),
            final(self).values() == old(self).values().update(
                layer as int,
                overwritten(
                    old(self).values()[layer as int],
                    old(self).len() * old(self).width(),
                    value@,
                ),
            ),
    {
        proof {
            lemma_room(self.heads(), self.dim(), self.len(), self.capacity());
        }
        let width = self.n_kv_heads * self.head_dim;
        let at = self.seq_len * width;
        let ghost before = *self;
        assert(self.keys()[layer as int].len() == self.layer_size());
        assert(self.values()[layer as int].len() == self.layer_size());
        put(&mut self.keys[layer], at, key);
        put(&mut self.values[layer], at, value);
        assert(self.keys() =~= before.keys().update(
            layer as int,
            overwritten(before.keys()[layer as int], at as int, key@),
        ));
        assert(self.values() =~= before.values().update(
            layer as int,
            overwritten(before.values()[layer as int], at as int, value@),
        ));
    }

    /// Counts the position that was stored in every layer.
    pub fn advance(&mut self)
        requires
            old(self).wf(),
            old(self).len() < usize::MAX,
        ensures
            final(self).wf(),
            final(self).same_shape(*old(self)),
            final(self).len() == old(self).len() + 1,
            final(self).keys() == old(self).keys(),
            final(self).values() == old(self).values(),
    {
        self.seq_len += 1;
    }

    /// All stored keys of a layer.
    pub fn get_keys(&self, layer: usize) -> (r: &[T])
        requires
            self.wf(),
            layer < self.keys().len(),
            self.len() <= self.capacity(),
        ensures
            r@ == self.keys()[layer as int].take(self.len() * self.width()),
    {
        proof {
            lemma_stored(self.heads(), self.dim(), self.len(), self.capacity());
            assert(self.keys()[layer as int].len() == self.layer_size());
        }
        let n = self.n_kv_heads * self.seq_len * self.head_dim;
        let r = vstd::slice::slice_subrange(self.keys[layer].as_slice(), 0, n);
        assert(r@ =~= self.keys()[layer as int].take(self.len() * self.width()));
        r
    }

    /// All stored values of a layer.
    pub fn get_values(&self, layer: usize) -> (r: &[T])
        requires
            self.wf(),
            layer < self.keys().len(),
            self.len() <= self.capacity(),
        ensures
            r@ == self.values()[layer as int].take(self.len() * self.width()),
    {
        proof {
            lemma_stored(self.heads(), self.dim(), self.len(), self.capacity());
            assert(self.values()[layer as int].len() == self.layer_size());
        }
        let n = self.n_kv_heads * self.seq_len * self.head_dim;
        let r = vstd::slice::slice_subrange(self.values[layer].as_slice(), 0, n);
        assert(r@ =~= self.values()[layer as int].take(self.len() * self.width()));
        r
    }

    /// Where in a layer a head of a position begins.
    pub open spec fn place(self, head: int, pos: int) -> int {
        (pos * self.heads() + head) * self.dim()
    }

    /// The key of one head at one position.
    pub fn get_key_at(&self, layer: usize, head: usize, pos: usize) -> (r: &[T])
        requires
            self.wf(),
            layer < self.keys().len(),
            pos * self.heads() + head <= usize::MAX,
            self.place(head as int, pos as int) + self.dim() <= self.layer_size(),
        ensures
            r@ == self.keys()[layer as int].subrange(
                self.place(head as int, pos as int),
                self.place(head as int, pos as int) + self.dim(),
            ),
    {
        proof {
            lemma_product_fits(pos as int, self.heads(), head as int, self.dim());
        }
        let at = (pos * self.n_kv_heads + head) * self.head_dim;
        assert(self.keys()[layer as int].len() == self.layer_size());
        vstd::slice::slice_subrange(self.keys[layer].as_slice(), at, at + self.head_dim)
    }

    /// The value of one head at one position.
    pub fn get_value_at(&self, layer: usize, head: usize, pos: usize) -> (r: &[T])
        requires
            self.wf(),
            layer < self.keys().len(),
            pos * self.heads() + head <= usize::MAX,
            self.place(head as int, pos as int) + self.dim() <= self.layer_size(),
        ensures
            r@ == self.values()[layer as int].subrange(
                self.place(head as int, pos as int),
                self.place(head as int, pos as int) + self.dim(),
            ),
    {
        proof {
            lemma_product_fits(pos as int, self.heads(), head as int, self.dim());
        }
        let at = (pos * self.n_kv_heads + head) * self.head_dim;
        assert(self.values()[layer as int].len() == self.layer_size());
        vstd::slice::slice_subrange(self.values[layer].as_slice(), at, at + self.head_dim)
    }

    /// Forgets every position.
    pub fn clear(&mut self)
        requires
            old(self).wf(),
        ensures
            final(self).wf(),
            final(self).same_shape(*old(self)),
            final(self).len() == 0,
            final(self).keys() == old(self).keys(),
            final(self).values() == old(self).values(),
    {
        self.seq_len = 0;
    }

    /// The number of layers.
    pub fn n_layers(&self) -> (r: usize)
        ensures
            r == self.keys().len(),
    {
        self.keys.len()
    }

    /// The number of heads.
    pub fn n_kv_heads(&self) -> (r: usize)
        ensures
            r == self.heads(),
    {
        self.n_kv_heads
    }

    /// The numbers of a head.
    pub fn head_dim(&self) -> (r: usize)
        ensures
            r == self.dim(),
    {
        self.head_dim
    }
}

fn filled_rows<T: Copy>(count: usize, size: usize, zero: T) -> (r: Vec<Vec<T>>)
    ensures
        r@.len() == count,
        forall|i: int| 0 <= i < count ==> (#[trigger] r@[i])@ == Seq::new(size as nat, |j: int| zero),
{
    let mut out: Vec<Vec<T>> = Vec::new();
    let mut i: usize = 0;
    while i < count
        invariant
            i <= count,
            out@.len() == i,
            forall|k: int|
                0 <= k < i ==> (#[trigger] out@[k])@ == Seq::new(size as nat, |j: int| zero),
        decreases count - i,
    {
        let mut row: Vec<T> = Vec::new();
        let mut j: usize = 0;
        while j < size
            invariant
                j <= size,
                row@ == Seq::new(j as nat, |k: int| zero),
            decreases size - j,
        {
            row.push(zero);
            j += 1;
            assert(row@ =~= Seq::new(j as nat, |k: int| zero));
        }
        out.push(row);
        i += 1;
    }
    out
}

/// Puts the numbers of `part` into the row, from `at` on.
fn put<T: Copy>(row: &mut Vec<T>, at: usize, part: &[T])
    requires
        at + part@.len() <= old(row)@.len(),
    ensures
        final(row)@ == overwritten(old(row)@, at as int, part@),
{
    let ghost before = row@;
    let n = row.len();
    let mut i: usize = 0;
    assert(before =~= before.take(at as int) + part@.take(0) + before.skip(at as int));
    while i < part.len()
        invariant
            i <= part@.len(),
            at + part@.len() <= before.len(),
            n == before.len(),
            row@ == before.take(at as int) + part@.take(i as int) + before.skip(at + i),
        decreases part@.len() - i,
    {
        row.set(at + i, part[i]);
        i += 1;
        assert(row@ =~= before.take(at as int) + part@.take(i as int) + before.skip(at + i));
    }
    assert(part@.take(i as int) =~= part@);
}

proof fn lemma_room(heads: int, dim: int, len: int, capacity: int)
    requires
        0 <= heads,
        0 <= dim,
        0 <= len < capacity,
        heads * capacity * dim <= usize::MAX,
    ensures
        0 <= heads * dim <= usize::MAX,
        0 <= len * (heads * dim),
        len * (heads * dim) + heads * dim <= heads * capacity * dim,
{
    assert(heads * capacity * dim == capacity * (heads * dim)) by (nonlinear_arith);
    assert(0 <= heads * dim) by (nonlinear_arith)
        requires
            0 <= heads,
            0 <= dim,
    ;
    let w = heads * dim;
    assert(len * w + w <= capacity * w && 0 <= len * w && w <= capacity * w) by (nonlinear_arith)
        requires
            0 <= len < capacity,
            0 <= w,
    ;
}

proof fn lemma_stored(heads: int, dim: int, len: int, capacity: int)
    requires
        0 <= heads,
        0 <= dim,
        0 <= len <= capacity,
        heads * capacity <= usize::MAX,
        heads * capacity * dim <= usize::MAX,
    ensures
        0 <= heads * len <= usize::MAX,
        heads * len * dim == len * (heads * dim),
        0 <= heads * len * dim <= heads * capacity * dim,
{
    assert(heads * len * dim == len * (heads * dim)) by (nonlinear_arith);
    assert(heads * capacity * dim == capacity * (heads * dim)) by (nonlinear_arith);
    assert(0 <= heads * dim) by (nonlinear_arith)
        requires
            0 <= heads,
            0 <= dim,
    ;
    let w = heads * dim;
    assert(0 <= len * w <= capacity * w) by (nonlinear_arith)
        requires
            0 <= len <= capacity,
            0 <= w,
    ;
    assert(0 <= heads * len <= heads * capacity) by (nonlinear_arith)
        requires
            0 <= len <= capacity,
            0 <= heads,
    ;
}

proof fn lemma_product_fits(pos: int, heads: int, head: int, dim: int)
    requires
        0 <= pos,
        0 <= heads,
        0 <= head,
        0 <= dim,
        pos * heads + head <= usize::MAX,
        (pos * heads + head) * dim + dim <= usize::MAX,
    ensures
        0 <= pos * heads <= usize::MAX,
        0 <= (pos * heads + head) * dim <= usize::MAX,
{
    assert(0 <= pos * heads) by (nonlinear_arith)
        requires
            0 <= pos,
            0 <= heads,
    ;
    let a = pos * heads + head;
    assert(0 <= a * dim) by (nonlinear_arith)
        requires
            0 <= a,
            0 <= dim,
    ;
}

// ── Laws ────────────────────────────────────────────────────────────
/// What is stored at a position is what is read there, head by head, and what
/// stands at every other position stays.
pub proof fn lemma_push_get<T>(
    row: Seq<T>,
    part: Seq<T>,
    heads: int,
    dim: int,
    len: int,
    head: int,
    pos: int,
)
    requires
        0 <= dim,
        0 <= head < heads,
        0 <= pos,
        0 <= len,
        part.len() == heads * dim,
        pos * (heads * dim) + heads * dim <= row.len(),
        len * (heads * dim) + heads * dim <= row.len(),
    ensures
        ({
            let new_row = overwritten(row, len * (heads * dim), part);
            let at = (pos * heads + head) * dim;
            &&& new_row.len() == row.len()
            &&& 0 <= at
            &&& at + dim <= row.len()
            &&& pos == len ==> new_row.subrange(at, at + dim) == part.subrange(
                head * dim,
                head * dim + dim,
            )
            &&& pos != len ==> new_row.subrange(at, at + dim) == row.subrange(at, at + dim)
        }),
{
    let w = heads * dim;
    let at = (pos * heads + head) * dim;
    let start = len * w;
    assert(at == pos * w + head * dim) by (nonlinear_arith)
        requires
            at == (pos * heads + head) * dim,
            w == heads * dim,
    ;
    assert(0 <= head * dim && head * dim + dim <= w) by (nonlinear_arith)
        requires
            0 <= head < heads,
            0 <= dim,
            w == heads * dim,
    ;
    assert(0 <= w) by (nonlinear_arith)
        requires
            0 <= heads,
            0 <= dim,
            w == heads * dim,
    ;
    assert(0 <= pos * w && 0 <= len * w && (pos < len ==> pos * w + w <= len * w) && (len < pos
        ==> len * w + w <= pos * w)) by (nonlinear_arith)
        requires
            0 <= pos,
            0 <= len,
            0 <= w,
    ;
    let new_row = overwritten(row, start, part);
    assert(new_row.len() == row.len());
    if pos == len {
        assert(new_row.subrange(at, at + dim) =~= part.subrange(head * dim, head * dim + dim));
    } else {
        assert(new_row.subrange(at, at + dim) =~= row.subrange(at, at + dim));
    }
}

} // verus!
