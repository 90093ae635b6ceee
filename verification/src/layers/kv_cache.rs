//! Key and value projections of the positions seen so far.
//!
//! Each layer of a model has a cache. Keys and values are stored position
//! after position, and within a position head after head, in storage that is
//! allocated once for the longest sequence.

use crate::numeric::{Real, zeros};
use crate::rows::{lemma_add_rows, lemma_row_bounds, row_of};
use crate::text::{concatenated, decimal, one_decimal, with_number, with_tenths};
use vstd::prelude::*;
use vstd::string::*;

verus! {

/// The cache of one layer.
pub struct KvCache<T: Real> {
    k_cache: Vec<T>,
    v_cache: Vec<T>,
    n_kv_heads: usize,
    head_dim: usize,
    max_seq_len: usize,
    len: usize,
}

impl<T: Real> KvCache<T> {
    pub closed spec fn spec_n_kv_heads(&self) -> usize {
        self.n_kv_heads
    }

    pub closed spec fn spec_head_dim(&self) -> usize {
        self.head_dim
    }

    pub closed spec fn spec_max_seq_len(&self) -> usize {
        self.max_seq_len
    }

    /// How many positions are cached.
    pub closed spec fn spec_len(&self) -> usize {
        self.len
    }

    /// Elements per position.
    pub open spec fn spec_kv_dim(&self) -> int {
        self.spec_n_kv_heads() * self.spec_head_dim()
    }

    /// The cached keys.
    pub closed spec fn spec_keys(&self) -> Seq<T> {
        self.k_cache@.take(self.len * (self.n_kv_heads * self.head_dim))
    }

    /// The cached values.
    pub closed spec fn spec_values(&self) -> Seq<T> {
        self.v_cache@.take(self.len * (self.n_kv_heads * self.head_dim))
    }

    /// The storage has room for every position.
    pub closed spec fn wf(&self) -> bool {
        let kv_dim = self.n_kv_heads * self.head_dim;
        &&& self.len <= self.max_seq_len
        &&& kv_dim <= usize::MAX
        &&& 8 * (self.max_seq_len * kv_dim) <= usize::MAX
        &&& self.k_cache@.len() == self.max_seq_len * kv_dim
        &&& self.v_cache@.len() == self.max_seq_len * kv_dim
    }

    /// The cache has the shape that it was created with.
    pub open spec fn same_shape(&self, other: &KvCache<T>) -> bool {
        &&& self.spec_n_kv_heads() == other.spec_n_kv_heads()
        &&& self.spec_head_dim() == other.spec_head_dim()
        &&& self.spec_max_seq_len() == other.spec_max_seq_len()
    }

    /// What every cache satisfies.
    pub proof fn cache_facts(&self)
        requires
            self.wf(),
        ensures
            self.spec_len() <= self.spec_max_seq_len(),
            self.spec_kv_dim() <= usize::MAX,
            self.spec_keys().len() == self.spec_len() * self.spec_kv_dim(),
            self.spec_values().len() == self.spec_len() * self.spec_kv_dim(),
            self.spec_len() * self.spec_kv_dim() <= self.spec_max_seq_len() * self.spec_kv_dim(),
            8 * (self.spec_max_seq_len() * self.spec_kv_dim()) <= usize::MAX,
    {
        self.lemma_used();
    }

    proof fn lemma_used(&self)
        requires
            self.wf(),
        ensures
            0 <= self.len * (self.n_kv_heads * self.head_dim) <= self.max_seq_len * (self.n_kv_heads
                * self.head_dim),
            0 <= self.n_kv_heads * self.head_dim,
    {
        let kv_dim = self.n_kv_heads * self.head_dim;
        assert(0 <= kv_dim) by (nonlinear_arith)
            requires
                kv_dim == self.n_kv_heads * self.head_dim,
        ;
        assert(0 <= self.len * kv_dim <= self.max_seq_len * kv_dim) by (nonlinear_arith)
            requires
                0 <= kv_dim,
                0 <= self.len <= self.max_seq_len,
        ;
    }

    /// A cache with room for `max_seq_len` positions. The storage of both
    /// halves together must be addressable in bytes, at four bytes an element.
    pub fn new(n_kv_heads: usize, head_dim: usize, max_seq_len: usize) -> (c: Self)
        requires
            n_kv_heads * head_dim <= usize::MAX,
            8 * (max_seq_len * (n_kv_heads * head_dim)) <= usize::MAX,
        ensures
            c.wf(),
            c.spec_n_kv_heads() == n_kv_heads,
            c.spec_head_dim() == head_dim,
            c.spec_max_seq_len() == max_seq_len,
            c.spec_len() == 0,
            c.spec_keys() == Seq::<T>::empty(),
            c.spec_values() == Seq::<T>::empty(),
    {
        proof {
            assert(0 <= n_kv_heads * head_dim) by (nonlinear_arith);
            assert(0 <= max_seq_len * (n_kv_heads * head_dim)) by (nonlinear_arith)
                requires
                    0 <= n_kv_heads * head_dim,
            ;
            assert(0 * (n_kv_heads * head_dim) == 0) by (nonlinear_arith);
        }
        let size: usize = max_seq_len * (n_kv_heads * head_dim);
        let c = KvCache {
            k_cache: zeros(size),
            v_cache: zeros(size),
            n_kv_heads,
            head_dim,
            max_seq_len,
            len: 0,
        };
        assert(c.spec_keys() =~= Seq::<T>::empty());
        assert(c.spec_values() =~= Seq::<T>::empty());
        c
    }

    /// Number of positions currently cached.
    pub fn len(&self) -> (n: usize)
        ensures
            n == self.spec_len(),
    {
        self.len
    }

    /// Whether nothing is cached.
    pub fn is_empty(&self) -> (r: bool)
        ensures
            r == (self.spec_len() == 0),
    {
        self.len == 0
    }

    /// How many positions there is room for.
    pub fn max_seq_len(&self) -> (n: usize)
        ensures
            n == self.spec_max_seq_len(),
    {
        self.max_seq_len
    }

    /// Elements per position.
    pub fn kv_dim(&self) -> (n: usize)
        requires
            self.wf(),
        ensures
            n == self.spec_kv_dim(),
    {
        proof {
            self.lemma_used();
        }
        self.n_kv_heads * self.head_dim
    }

    /// Number of heads.
    pub fn n_kv_heads(&self) -> (n: usize)
        ensures
            n == self.spec_n_kv_heads(),
    {
        self.n_kv_heads
    }

    /// Elements per head.
    pub fn head_dim(&self) -> (n: usize)
        ensures
            n == self.spec_head_dim(),
    {
        self.head_dim
    }

    /// Append the keys and values of one or more positions.
    pub fn append(&mut self, keys: &[T], values: &[T])
        requires
            old(self).wf(),
            old(self).spec_kv_dim() > 0,
            keys@.len() % (old(self).spec_kv_dim() as nat) == 0,
            keys@.len() == values@.len(),
            old(self).spec_len() + keys@.len() / (old(self).spec_kv_dim() as nat) <= old(
                self,
            ).spec_max_seq_len(),
        ensures
            final(self).wf(),
            final(self).same_shape(old(self)),
            final(self).spec_len() == old(self).spec_len() + keys@.len() / (old(
                self,
            ).spec_kv_dim() as nat),
            final(self).spec_keys() == old(self).spec_keys() + keys@,
            final(self).spec_values() == old(self).spec_values() + values@,
    {
        let ghost before = *self;
        let kv_dim: usize = self.kv_dim();
        let n_new: usize = keys.len() / kv_dim;
        proof {
            self.lemma_used();
            let d = kv_dim as int;
            assert(n_new * d == keys@.len()) by (nonlinear_arith)
                requires
                    d > 0,
                    n_new == keys@.len() as int / d,
                    keys@.len() as int % d == 0,
            ;
            assert((self.len + n_new) * d == self.len * d + n_new * d) by (nonlinear_arith);
            assert((self.len + n_new) * d <= self.max_seq_len * d) by (nonlinear_arith)
                requires
                    self.len + n_new <= self.max_seq_len,
                    d > 0,
            ;
        }
        let start: usize = self.len * kv_dim;
        let mut i: usize = 0;
        while i < keys.len()
            invariant
                i <= keys@.len() == values@.len(),
                before.wf(),
                self.same_shape(&before),
                self.len == before.len,
                start == before.len * (before.n_kv_heads * before.head_dim),
                start + keys@.len() <= before.k_cache@.len(),
                self.k_cache@.len() == before.k_cache@.len(),
                self.v_cache@.len() == before.v_cache@.len(),
                before.k_cache@.len() == before.v_cache@.len(),
                self.k_cache@.take(start + i) == before.k_cache@.take(start as int) + keys@.take(
                    i as int,
                ),
                self.v_cache@.take(start + i) == before.v_cache@.take(start as int) + values@.take(
                    i as int,
                ),
            decreases keys@.len() - i,
        {
            let ghost k0 = self.k_cache@;
            let ghost v0 = self.v_cache@;
            self.k_cache[start + i] = keys[i];
            self.v_cache[start + i] = values[i];
            proof {
                assert(self.k_cache@.take(start + i + 1) =~= k0.take(start + i).push(keys@[i as int]));
                assert(self.v_cache@.take(start + i + 1) =~= v0.take(start + i).push(
                    values@[i as int],
                ));
                assert(before.k_cache@.take(start as int) + keys@.take(i + 1) =~= (
                before.k_cache@.take(start as int) + keys@.take(i as int)).push(keys@[i as int]));
                assert(before.v_cache@.take(start as int) + values@.take(i + 1) =~= (
                before.v_cache@.take(start as int) + values@.take(i as int)).push(
                    values@[i as int],
                ));
            }
            i += 1;
        }
        self.len = self.len + n_new;
        proof {
            assert(keys@.take(keys@.len() as int) =~= keys@);
            assert(values@.take(values@.len() as int) =~= values@);
        }
    }

    /// The cached key of one head at one position.
    pub fn key_at(&self, pos: usize, kv_head: usize) -> (key: &[T])
        requires
            self.wf(),
            pos < self.spec_len(),
            kv_head < self.spec_n_kv_heads(),
        ensures
            key@ == row_of(
                row_of(self.spec_keys(), self.spec_kv_dim(), pos as int),
                self.spec_head_dim() as int,
                kv_head as int,
            ),
    {
        proof {
            self.lemma_offset(pos as int, kv_head as int);
        }
        let offset: usize = pos * self.kv_dim() + kv_head * self.head_dim;
        let key = vstd::slice::slice_subrange(
            self.k_cache.as_slice(),
            offset,
            offset + self.head_dim,
        );
        assert(key@ =~= row_of(
            row_of(self.spec_keys(), self.spec_kv_dim(), pos as int),
            self.spec_head_dim() as int,
            kv_head as int,
        ));
        key
    }

    /// The cached value of one head at one position.
    pub fn value_at(&self, pos: usize, kv_head: usize) -> (value: &[T])
        requires
            self.wf(),
            pos < self.spec_len(),
            kv_head < self.spec_n_kv_heads(),
        ensures
            value@ == row_of(
                row_of(self.spec_values(), self.spec_kv_dim(), pos as int),
                self.spec_head_dim() as int,
                kv_head as int,
            ),
    {
        proof {
            self.lemma_offset(pos as int, kv_head as int);
        }
        let offset: usize = pos * self.kv_dim() + kv_head * self.head_dim;
        let value = vstd::slice::slice_subrange(
            self.v_cache.as_slice(),
            offset,
            offset + self.head_dim,
        );
        assert(value@ =~= row_of(
            row_of(self.spec_values(), self.spec_kv_dim(), pos as int),
            self.spec_head_dim() as int,
            kv_head as int,
        ));
        value
    }

    proof fn lemma_offset(&self, pos: int, kv_head: int)
        requires
            self.wf(),
            0 <= pos < self.len,
            0 <= kv_head < self.n_kv_heads,
        ensures
            0 <= pos * self.spec_kv_dim(),
            0 <= kv_head * self.head_dim,
            kv_head * self.head_dim + self.head_dim <= self.spec_kv_dim(),
            pos * self.spec_kv_dim() + self.spec_kv_dim() <= self.len * self.spec_kv_dim(),
            self.len * self.spec_kv_dim() <= self.max_seq_len * self.spec_kv_dim(),
    {
        self.lemma_used();
        lemma_row_bounds(pos, self.len as int, self.spec_kv_dim());
        lemma_row_bounds(kv_head, self.n_kv_heads as int, self.head_dim as int);
    }

    /// All cached keys.
    pub fn keys(&self) -> (keys: &[T])
        requires
            self.wf(),
        ensures
            keys@ == self.spec_keys(),
    {
        proof {
            self.lemma_used();
        }
        let end: usize = self.len * self.kv_dim();
        vstd::slice::slice_subrange(self.k_cache.as_slice(), 0, end)
    }

    /// All cached values.
    pub fn values(&self) -> (values: &[T])
        requires
            self.wf(),
        ensures
            values@ == self.spec_values(),
    {
        proof {
            self.lemma_used();
        }
        let end: usize = self.len * self.kv_dim();
        vstd::slice::slice_subrange(self.v_cache.as_slice(), 0, end)
    }

    /// Forget all positions; the storage stays.
    pub fn clear(&mut self)
        requires
            old(self).wf(),
        ensures
            final(self).wf(),
            final(self).same_shape(old(self)),
            final(self).spec_len() == 0,
            final(self).spec_keys() == Seq::<T>::empty(),
            final(self).spec_values() == Seq::<T>::empty(),
    {
        self.len = 0;
        proof {
            assert(0 * (self.n_kv_heads * self.head_dim) == 0) by (nonlinear_arith);
            assert(self.spec_keys() =~= Seq::<T>::empty());
            assert(self.spec_values() =~= Seq::<T>::empty());
        }
    }

    /// Size of the storage in bytes, at four bytes an element.
    pub fn memory_bytes(&self) -> (n: usize)
        requires
            self.wf(),
        ensures
            n == 8 * (self.spec_max_seq_len() * self.spec_kv_dim()),
    {
        self.k_cache.len() * 4 + self.v_cache.len() * 4
    }

    /// One line about a cache.
    pub open spec fn description(&self) -> Seq<char> {
        "KvCache"@ + "(kv_heads="@ + decimal(self.spec_n_kv_heads() as nat) + ", head_dim="@
            + decimal(self.spec_head_dim() as nat) + ", len="@ + decimal(self.spec_len() as nat)
            + "/"@ + decimal(self.spec_max_seq_len() as nat) + ", "@ + one_decimal(
            (8 * (self.spec_max_seq_len() * self.spec_kv_dim())) as nat,
            1024,
        ) + "KB)"@
    }

    /// One line about a cache.
    pub fn describe(&self) -> (s: String)
        requires
            self.wf(),
        ensures
            s@ == self.description(),
    {
        let s: String = with_number(String::from_str("KvCache"), "(kv_heads=", self.n_kv_heads);
        let s: String = with_number(s, ", head_dim=", self.head_dim);
        let s: String = with_number(s, ", len=", self.len);
        let s: String = with_number(s, "/", self.max_seq_len);
        let s: String = with_tenths(s, ", ", self.memory_bytes(), 1024);
        concatenated(s.as_str(), "KB)")
    }
}

/// What was appended reads back, position by position, and what was cached
/// before stays.
pub proof fn append_then_read<T: Real>(
    before: KvCache<T>,
    after: KvCache<T>,
    keys: Seq<T>,
    values: Seq<T>,
    pos: int,
)
    requires
        before.wf(),
        after.wf(),
        after.same_shape(&before),
        before.spec_len() <= after.spec_len(),
        keys.len() == (after.spec_len() - before.spec_len()) * before.spec_kv_dim(),
        values.len() == keys.len(),
        after.spec_keys() == before.spec_keys() + keys,
        after.spec_values() == before.spec_values() + values,
        0 <= pos < after.spec_len(),
    ensures
        row_of(after.spec_keys(), after.spec_kv_dim(), pos) == if pos < before.spec_len() {
            row_of(before.spec_keys(), before.spec_kv_dim(), pos)
        } else {
            row_of(keys, before.spec_kv_dim(), pos - before.spec_len())
        },
        row_of(after.spec_values(), after.spec_kv_dim(), pos) == if pos < before.spec_len() {
            row_of(before.spec_values(), before.spec_kv_dim(), pos)
        } else {
            row_of(values, before.spec_kv_dim(), pos - before.spec_len())
        },
{
    before.cache_facts();
    let d = before.spec_kv_dim();
    let n = before.spec_len() as int;
    let m = after.spec_len() - n;
    assert(0 <= d) by (nonlinear_arith)
        requires
            d == before.spec_n_kv_heads() * before.spec_head_dim(),
    ;
    lemma_add_rows(before.spec_keys(), keys, d, n, m, pos);
    lemma_add_rows(before.spec_values(), values, d, n, m, pos);
}

/// The caches of all layers of a model.
pub struct ModelKvCache<T: Real> {
    layers: Vec<KvCache<T>>,
}

/// The storage of `n` layers of one cache, in bytes.
pub open spec fn total_bytes<T: Real>(layers: Seq<KvCache<T>>) -> int
    decreases layers.len(),
{
    if layers.len() == 0 {
        0
    } else {
        total_bytes(layers.drop_last()) + 8 * (layers.last().spec_max_seq_len()
            * layers.last().spec_kv_dim())
    }
}

impl<T: Real> ModelKvCache<T> {
    /// The caches, layer by layer.
    pub closed spec fn view(&self) -> Seq<KvCache<T>> {
        self.layers@
    }

    /// Every layer is well-formed.
    pub open spec fn wf(&self) -> bool {
        forall|i: int| 0 <= i < self@.len() ==> (#[trigger] self@[i]).wf()
    }

    /// Every layer is well-formed, has the given shape and holds the same
    /// number of positions.
    pub open spec fn is_uniform(
        &self,
        n_kv_heads: usize,
        head_dim: usize,
        max_seq_len: usize,
        len: usize,
    ) -> bool {
        forall|i: int|
            0 <= i < self@.len() ==> {
                &&& (#[trigger] self@[i]).wf()
                &&& self@[i].spec_n_kv_heads() == n_kv_heads
                &&& self@[i].spec_head_dim() == head_dim
                &&& self@[i].spec_max_seq_len() == max_seq_len
                &&& self@[i].spec_len() == len
            }
    }

    /// Empty caches for all layers.
    pub fn new(n_layers: usize, n_kv_heads: usize, head_dim: usize, max_seq_len: usize) -> (c: Self)
        requires
            n_kv_heads * head_dim <= usize::MAX,
            8 * (max_seq_len * (n_kv_heads * head_dim)) <= usize::MAX,
        ensures
            c@.len() == n_layers,
            c.is_uniform(n_kv_heads, head_dim, max_seq_len, 0),
    {
        let mut layers: Vec<KvCache<T>> = Vec::new();
        let mut i: usize = 0;
        while i < n_layers
            invariant
                n_kv_heads * head_dim <= usize::MAX,
                8 * (max_seq_len * (n_kv_heads * head_dim)) <= usize::MAX,
                i <= n_layers,
                layers@.len() == i,
                forall|j: int|
                    0 <= j < i ==> {
                        &&& (#[trigger] layers@[j]).wf()
                        &&& layers@[j].spec_n_kv_heads() == n_kv_heads
                        &&& layers@[j].spec_head_dim() == head_dim
                        &&& layers@[j].spec_max_seq_len() == max_seq_len
                        &&& layers@[j].spec_len() == 0
                    },
            decreases n_layers - i,
        {
            layers.push(KvCache::new(n_kv_heads, head_dim, max_seq_len));
            i += 1;
        }
        ModelKvCache { layers }
    }

    /// The cache of one layer.
    pub fn layer(&self, idx: usize) -> (c: &KvCache<T>)
        requires
            idx < self@.len(),
        ensures
            *c == self@[idx as int],
    {
        &self.layers[idx]
    }

    /// The cache of one layer, to be changed.
    pub fn layer_mut(&mut self, idx: usize) -> (c: &mut KvCache<T>)
        requires
            idx < old(self)@.len(),
        ensures
            *c == old(self)@[idx as int],
            final(self)@ == old(self)@.update(idx as int, *final(c)),
    {
        &mut self.layers[idx]
    }

    /// Number of layers.
    pub fn n_layers(&self) -> (n: usize)
        ensures
            n == self@.len(),
    {
        self.layers.len()
    }

    /// Number of positions cached, as the first layer has it; zero without
    /// layers.
    pub fn seq_len(&self) -> (n: usize)
        ensures
            n == if self@.len() == 0 {
                0
            } else {
                self@[0].spec_len()
            },
    {
        if self.layers.len() == 0 {
            0
        } else {
            self.layers[0].len()
        }
    }

    /// Forget all positions in all layers.
    pub fn clear(&mut self)
        requires
            old(self).wf(),
        ensures
            final(self).wf(),
            final(self)@.len() == old(self)@.len(),
            forall|i: int|
                0 <= i < final(self)@.len() ==> {
                    &&& (#[trigger] final(self)@[i]).same_shape(&old(self)@[i])
                    &&& final(self)@[i].spec_len() == 0
                },
    {
        let ghost before = self.layers@;
        assert forall|j: int| 0 <= j < before.len() implies (#[trigger] before[j]).wf() by {
            assert(self@[j].wf());
        }
        let mut i: usize = 0;
        while i < self.layers.len()
            invariant
                self.layers@.len() == before.len(),
                i <= before.len(),
                forall|j: int| 0 <= j < before.len() ==> (#[trigger] self.layers@[j]).wf(),
                forall|j: int|
                    0 <= j < before.len() ==> (#[trigger] self.layers@[j]).same_shape(&before[j]),
                forall|j: int| 0 <= j < i ==> (#[trigger] self.layers@[j]).spec_len() == 0,
            decreases before.len() - i,
        {
            self.layers[i].clear();
            i += 1;
        }
    }

    /// Whether the size of the storage of all layers can be counted in bytes.
    pub fn is_addressable(&self) -> (r: bool)
        requires
            self.wf(),
        ensures
            r == (total_bytes(self@) <= usize::MAX),
    {
        let mut total: usize = 0;
        let mut i: usize = 0;
        assert(self@.take(0) =~= Seq::<KvCache<T>>::empty());
        while i < self.layers.len()
            invariant
                self.wf(),
                i <= self@.len(),
                total == total_bytes(self@.take(i as int)),
            decreases self@.len() - i,
        {
            proof {
                assert(self@.take(i + 1).drop_last() =~= self@.take(i as int));
                assert(self@.take(i + 1).last() == self@[i as int]);
                lemma_total_bytes_grows(self@, i + 1);
            }
            match total.checked_add(self.layers[i].memory_bytes()) {
                Some(sum) => {
                    total = sum;
                },
                None => {
                    return false;
                },
            }
            i += 1;
        }
        assert(self@.take(self@.len() as int) =~= self@);
        true
    }

    /// Size of the storage of all layers in bytes.
    pub fn memory_bytes(&self) -> (n: usize)
        requires
            self.wf(),
            total_bytes(self@) <= usize::MAX,
        ensures
            n == total_bytes(self@),
    {
        let mut total: usize = 0;
        let mut i: usize = 0;
        assert(self@.take(0) =~= Seq::<KvCache<T>>::empty());
        while i < self.layers.len()
            invariant
                self.wf(),
                total_bytes(self@) <= usize::MAX,
                i <= self@.len(),
                total == total_bytes(self@.take(i as int)),
            decreases self@.len() - i,
        {
            proof {
                assert(self@.take(i + 1).drop_last() =~= self@.take(i as int));
                assert(self@.take(i + 1).last() == self@[i as int]);
                lemma_total_bytes_grows(self@, i + 1);
            }
            total = total + self.layers[i].memory_bytes();
            i += 1;
        }
        assert(self@.take(self@.len() as int) =~= self@);
        total
    }

    /// One line about the caches of a model.
    pub open spec fn description(&self) -> Seq<char> {
        let (len, room) = if self@.len() == 0 {
            (0, 0)
        } else {
            (self@[0].spec_len(), self@[0].spec_max_seq_len())
        };
        "ModelKvCache"@ + "(layers="@ + decimal(self@.len()) + ", seq="@ + decimal(len as nat)
            + "/"@ + decimal(room as nat) + ", "@ + one_decimal(
            total_bytes(self@) as nat,
            1048576,
        ) + "MB)"@
    }

    /// One line about the caches of a model.
    pub fn describe(&self) -> (s: String)
        requires
            self.wf(),
            total_bytes(self@) <= usize::MAX,
        ensures
            s@ == self.description(),
    {
        let room: usize = if self.layers.len() == 0 {
            0
        } else {
            self.layers[0].max_seq_len()
        };
        let s: String = with_number(
            String::from_str("ModelKvCache"),
            "(layers=",
            self.layers.len(),
        );
        let s: String = with_number(s, ", seq=", self.seq_len());
        let s: String = with_number(s, "/", room);
        let s: String = with_tenths(s, ", ", self.memory_bytes(), 1048576);
        concatenated(s.as_str(), "MB)")
    }
}

proof fn lemma_total_bytes_grows<T: Real>(layers: Seq<KvCache<T>>, k: int)
    requires
        0 <= k <= layers.len(),
    ensures
        total_bytes(layers.take(k)) <= total_bytes(layers),
    decreases layers.len() - k,
{
    if k < layers.len() {
        lemma_total_bytes_grows(layers, k + 1);
        assert(layers.take(k + 1).drop_last() =~= layers.take(k));
        let last = layers.take(k + 1).last();
        assert(0 <= last.spec_max_seq_len() * last.spec_kv_dim()) by (nonlinear_arith)
            requires
                last.spec_kv_dim() == last.spec_n_kv_heads() * last.spec_head_dim(),
        ;
    } else {
        assert(layers.take(k) =~= layers);
    }
}

} // verus!
