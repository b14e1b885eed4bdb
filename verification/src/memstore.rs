//! The chunk cache (`Memstore`) over a pluggable positional byte store.
//!
//! A `LoadStore` is a random-access byte store addressed by byte offset: the
//! backing file in practice, an in-memory store (`MemLoadStore`) for tests.
//! The `Memstore` owns a sparse mapping from chunk index to chunk state,
//! loads chunks lazily on first access, tracks a dirty flag per chunk, and
//! writes dirty chunks back on demand.

use vstd::prelude::*;

verus! {

/// Error raised by the buffer layers. Load and store failures carry the
/// chunk index at which the backing store failed (the failing byte offset is
/// `chunk_index * chunk_size`).
#[derive(Clone, Copy, PartialEq, Eq, Structural, Debug)]
pub enum BufferError {
    Load { chunk_index: u64 },
    Store { chunk_index: u64 },
    OutOfRange { index: usize },
}

/// Failure token returned by a backing store operation.
pub struct IoFailure;

/// Increment a call counter, saturating at `u64::MAX`.
pub open spec fn sat_inc(c: u64) -> u64 {
    if c == u64::MAX {
        c
    } else {
        (c + 1) as u64
    }
}

/// `n` saturating increments of `c`.
pub open spec fn sat_add(c: u64, n: nat) -> u64
    decreases n,
{
    if n == 0 {
        c
    } else {
        sat_inc(sat_add(c, (n - 1) as nat))
    }
}

/// Below the saturation point, `sat_add` is ordinary addition.
pub proof fn lemma_sat_add_exact(c: u64, n: nat)
    requires
        c + n <= u64::MAX,
    ensures
        sat_add(c, n) == c + n,
    decreases n,
{
    if n > 0 {
        lemma_sat_add_exact(c, (n - 1) as nat);
    }
}

/// The bytes of a store after writing `d` at offset `off`: the store is
/// extended if the write runs past its end, and a gap between the old end
/// and `off` reads as zero bytes.
pub open spec fn overwrite(s: Seq<u8>, off: nat, d: Seq<u8>) -> Seq<u8> {
    Seq::new(
        if s.len() >= off + d.len() {
            s.len()
        } else {
            off + d.len()
        },
        |p: int|
            if off <= p < off + d.len() {
                d[p - off]
            } else if p < s.len() {
                s[p]
            } else {
                0u8
            },
    )
}

/// A pluggable, positional byte store: `load` reads the chunk beginning at a
/// byte offset, `store` persists bytes at a byte offset. Both are fallible;
/// nothing is promised of a failed call beyond what the `ensures` state of
/// every outcome.
pub trait LoadStore: Sized {
    /// Size of the chunks this store serves.
    spec fn chunk_size_spec(&self) -> u64;

    /// The bytes currently persisted.
    spec fn contents(&self) -> Seq<u8>;

    /// The persisted extent is addressable: it fits in a `u64` offset.
    proof fn contents_bounded(&self)
        ensures
            self.contents().len() <= u64::MAX,
    ;

    /// Number of load calls issued so far, saturating at `u64::MAX`.
    spec fn load_count(&self) -> u64;

    /// Number of store calls issued so far, saturating at `u64::MAX`.
    spec fn store_count(&self) -> u64;

    /// Read the bytes persisted at `offset`: one chunk, or fewer bytes when
    /// the persisted extent ends inside the chunk, or `None` when `offset`
    /// lies at or beyond the end of the persisted extent.
    fn load(&mut self, offset: u64) -> (r: Result<Option<Vec<u8>>, IoFailure>)
        ensures
            final(self).chunk_size_spec() == old(self).chunk_size_spec(),
            final(self).contents() == old(self).contents(),
            final(self).store_count() == old(self).store_count(),
            final(self).load_count() == sat_inc(old(self).load_count()),
            match r {
                Ok(Some(data)) => {
                    &&& (offset as int) < old(self).contents().len()
                    &&& data@ == old(self).contents().subrange(
                        offset as int,
                        if offset + old(self).chunk_size_spec() <= old(self).contents().len() {
                            offset as int + old(self).chunk_size_spec() as int
                        } else {
                            old(self).contents().len() as int
                        },
                    )
                },
                Ok(None) => offset as int >= old(self).contents().len(),
                Err(_) => true,
            },
    ;

    /// Persist exactly `data.len()` bytes at `offset`, extending the store
    /// if necessary. On failure the persisted bytes are unchanged.
    fn store(&mut self, offset: u64, data: &Vec<u8>) -> (r: Result<(), IoFailure>)
        ensures
            final(self).chunk_size_spec() == old(self).chunk_size_spec(),
            final(self).load_count() == old(self).load_count(),
            final(self).store_count() == sat_inc(old(self).store_count()),
            match r {
                Ok(_) => final(self).contents() == overwrite(
                    old(self).contents(),
                    offset as nat,
                    data@,
                ),
                Err(_) => final(self).contents() == old(self).contents(),
            },
    ;
}

/// An in-memory backing store, for tests and for files small enough to hold
/// in memory. It counts the load and store calls it receives and can be
/// directed to fail its next store calls, so that callers' persistence
/// behaviour (no spurious writes, retry after failure) can be observed.
pub struct MemLoadStore {
    chunk_size: u64,
    data: Vec<u8>,
    n_loads: u64,
    n_stores: u64,
    fail_stores: u64,
}

impl MemLoadStore {
    /// How many of the next store calls this store is directed to fail.
    pub closed spec fn fail_directive(&self) -> u64 {
        self.fail_stores
    }

    /// A fresh store holding `initial` as its persisted bytes.
    pub fn new(chunk_size: u64, initial: Vec<u8>) -> (r: MemLoadStore)
        requires
            chunk_size > 0,
        ensures
            r.chunk_size_spec() == chunk_size,
            r.contents() == initial@,
            r.load_count() == 0,
            r.store_count() == 0,
            r.fail_directive() == 0,
    {
        MemLoadStore {
            chunk_size,
            data: initial,
            n_loads: 0,
            n_stores: 0,
            fail_stores: 0,
        }
    }

    /// Direct the store to fail its next `n` store calls.
    pub fn set_fail_stores(&mut self, n: u64)
        ensures
            final(self).chunk_size_spec() == old(self).chunk_size_spec(),
            final(self).contents() == old(self).contents(),
            final(self).load_count() == old(self).load_count(),
            final(self).store_count() == old(self).store_count(),
            final(self).fail_directive() == n,
    {
        self.fail_stores = n;
    }

    /// The persisted bytes.
    pub fn bytes(&self) -> (r: &Vec<u8>)
        ensures
            r@ == self.contents(),
    {
        &self.data
    }

    /// How many load calls were issued, saturating at `u64::MAX`.
    pub fn load_calls(&self) -> (r: u64)
        ensures
            r == self.load_count(),
    {
        self.n_loads
    }

    /// How many store calls were issued, saturating at `u64::MAX`.
    pub fn store_calls(&self) -> (r: u64)
        ensures
            r == self.store_count(),
    {
        self.n_stores
    }
}

impl LoadStore for MemLoadStore {
    closed spec fn chunk_size_spec(&self) -> u64 {
        self.chunk_size
    }

    closed spec fn contents(&self) -> Seq<u8> {
        self.data@
    }

    proof fn contents_bounded(&self) {
        assert(self.data.len() <= usize::MAX);
        assert(self.data@.len() == self.data.len());
    }

    closed spec fn load_count(&self) -> u64 {
        self.n_loads
    }

    closed spec fn store_count(&self) -> u64 {
        self.n_stores
    }

    fn load(&mut self, offset: u64) -> (r: Result<Option<Vec<u8>>, IoFailure>)
        ensures
            r is Ok,
            final(self).fail_directive() == old(self).fail_directive(),
    {
        if self.n_loads < u64::MAX {
            self.n_loads = self.n_loads + 1;
        }
        let ghost snap = *self;
        if offset >= self.data.len() as u64 {
            return Ok(None);
        }
        let off = offset as usize;
        let rem = self.data.len() - off;
        let take: usize = if self.chunk_size <= rem as u64 {
            self.chunk_size as usize
        } else {
            rem
        };
        let mut out: Vec<u8> = Vec::new();
        let mut i: usize = 0;
        while i < take
            invariant
                *self == snap,
                i <= take,
                off + take <= self.data.len(),
                out@ == self.data@.subrange(off as int, off as int + i as int),
            decreases take - i,
        {
            out.push(self.data[off + i]);
            assert(out@ =~= self.data@.subrange(off as int, off as int + i as int + 1));
            i = i + 1;
        }
        assert(out@ == self.data@.subrange(
            offset as int,
            if offset + self.chunk_size <= self.data@.len() {
                offset as int + self.chunk_size as int
            } else {
                self.data@.len() as int
            },
        ));
        Ok(Some(out))
    }

    fn store(&mut self, offset: u64, data: &Vec<u8>) -> (r: Result<(), IoFailure>)
        ensures
            r is Err <==> (old(self).fail_directive() > 0 || offset as int + data@.len()
                > usize::MAX),
            final(self).fail_directive() == (if old(self).fail_directive() > 0 {
                (old(self).fail_directive() - 1) as u64
            } else {
                0u64
            }),
    {
        if self.n_stores < u64::MAX {
            self.n_stores = self.n_stores + 1;
        }
        if self.fail_stores > 0 {
            self.fail_stores = self.fail_stores - 1;
            return Err(IoFailure);
        }
        if offset > usize::MAX as u64 {
            return Err(IoFailure);
        }
        let off = offset as usize;
        if data.len() > usize::MAX - off {
            return Err(IoFailure);
        }
        let ghost d0 = self.data@;
        let ghost snap = *self;
        while self.data.len() < off
            invariant
                self.chunk_size == snap.chunk_size,
                self.n_loads == snap.n_loads,
                self.n_stores == snap.n_stores,
                self.fail_stores == snap.fail_stores,
                d0.len() <= self.data@.len() <= (if d0.len() >= off as nat {
                    d0.len()
                } else {
                    off as nat
                }),
                forall|p: int|
                    0 <= p < self.data@.len() ==> #[trigger] self.data@[p] == (if p < d0.len() {
                        d0[p]
                    } else {
                        0u8
                    }),
            decreases off - self.data.len(),
        {
            self.data.push(0u8);
        }
        let mut i: usize = 0;
        while i < data.len()
            invariant
                self.chunk_size == snap.chunk_size,
                self.n_loads == snap.n_loads,
                self.n_stores == snap.n_stores,
                self.fail_stores == snap.fail_stores,
                i <= data.len(),
                off + data.len() <= usize::MAX,
                self.data@.len() == (if d0.len() >= off + i {
                    d0.len() as int
                } else {
                    off + i
                }),
                self.data@.len() >= off,
                forall|p: int|
                    0 <= p < self.data@.len() ==> #[trigger] self.data@[p] == (if off <= p < off
                        + i {
                        data@[p - off]
                    } else if p < d0.len() {
                        d0[p]
                    } else {
                        0u8
                    }),
            decreases data.len() - i,
        {
            let pos = off + i;
            let b = data[i];
            if pos < self.data.len() {
                self.data[pos] = b;
            } else {
                self.data.push(b);
            }
            i = i + 1;
        }
        assert(self.data@ =~= overwrite(d0, offset as nat, data@));
        Ok(())
    }
}

} // verus!

use vstd::arithmetic::div_mod::lemma_fundamental_div_mod_converse;

verus! {

/// The smaller of two integers.
pub open spec fn imin(a: int, b: int) -> int {
    if a <= b {
        a
    } else {
        b
    }
}

/// The larger of two integers.
pub open spec fn imax(a: int, b: int) -> int {
    if a >= b {
        a
    } else {
        b
    }
}

/// A cached chunk: either loaded bytes with a dirty flag (`need_store`), or
/// `Empty`, recording that the chunk's offset lay beyond the persisted
/// extent when it was first accessed.
pub enum Chunk {
    Loaded { data: Vec<u8>, need_store: bool },
    Empty,
}

impl Chunk {
    /// Whether this chunk holds an unflushed mutation.
    pub open spec fn is_dirty(&self) -> bool {
        match self {
            Chunk::Loaded { need_store, .. } => *need_store,
            Chunk::Empty => false,
        }
    }

    /// The bytes this chunk holds (none for `Empty`).
    pub open spec fn spec_data(&self) -> Seq<u8> {
        match self {
            Chunk::Loaded { data, .. } => data@,
            Chunk::Empty => Seq::<u8>::empty(),
        }
    }

    /// Equal content and kind, the dirty flag left free.
    pub open spec fn like(self, other: Chunk) -> bool {
        match (self, other) {
            (Chunk::Loaded { data: d1, .. }, Chunk::Loaded { data: d2, .. }) => d1@ == d2@,
            (Chunk::Empty, Chunk::Empty) => true,
            _ => false,
        }
    }
}

/// Entry keys appear at most once: the cache-coherence invariant of the map.
pub open spec fn sk_unique(s: Seq<(u64, Chunk)>) -> bool {
    forall|i: int, j: int| 0 <= i < j < s.len() ==> (#[trigger] s[i]).0 != (#[trigger] s[j]).0
}

/// Some entry carries key `k`.
pub open spec fn sk_has(s: Seq<(u64, Chunk)>, k: u64) -> bool {
    exists|i: int| 0 <= i < s.len() && (#[trigger] s[i]).0 == k
}

/// The position of the entry carrying key `k`.
pub open spec fn sk_idx(s: Seq<(u64, Chunk)>, k: u64) -> int {
    choose|i: int| 0 <= i < s.len() && (#[trigger] s[i]).0 == k
}

/// The chunk stored under key `k`.
pub open spec fn sk_at(s: Seq<(u64, Chunk)>, k: u64) -> Chunk {
    s[sk_idx(s, k)].1
}

/// Number of dirty entries.
pub open spec fn dirty_count(s: Seq<(u64, Chunk)>) -> nat
    decreases s.len(),
{
    if s.len() == 0 {
        0
    } else {
        dirty_count(s.drop_last()) + if s.last().1.is_dirty() {
            1nat
        } else {
            0nat
        }
    }
}

/// The end offset of the byte range an entry's data occupies.
pub open spec fn entry_end(e: (u64, Chunk), cs: int) -> int {
    match e.1 {
        Chunk::Loaded { data, .. } => e.0 as int * cs + data@.len(),
        Chunk::Empty => 0,
    }
}

/// The largest end offset over all cached entries.
pub open spec fn cache_extent(s: Seq<(u64, Chunk)>, cs: int) -> int
    decreases s.len(),
{
    if s.len() == 0 {
        0
    } else {
        imax(cache_extent(s.drop_last(), cs), entry_end(s.last(), cs))
    }
}

pub proof fn lemma_sk_at_index(s: Seq<(u64, Chunk)>, i: int, k: u64)
    requires
        sk_unique(s),
        0 <= i < s.len(),
        s[i].0 == k,
    ensures
        sk_has(s, k),
        sk_idx(s, k) == i,
        sk_at(s, k) == s[i].1,
{
    assert(sk_has(s, k));
    let j = sk_idx(s, k);
    assert(0 <= j < s.len() && s[j].0 == k);
    if i < j {
        assert(s[i].0 != s[j].0);
    } else if j < i {
        assert(s[j].0 != s[i].0);
    }
}

pub proof fn lemma_sk_update(s: Seq<(u64, Chunk)>, i: int, e: (u64, Chunk))
    requires
        sk_unique(s),
        0 <= i < s.len(),
        s[i].0 == e.0,
    ensures
        sk_unique(s.update(i, e)),
        forall|k: u64| #![trigger sk_has(s.update(i, e), k)]
            sk_has(s.update(i, e), k) == sk_has(s, k),
        sk_at(s.update(i, e), e.0) == e.1,
        forall|k: u64| #![trigger sk_at(s.update(i, e), k)]
            k != e.0 && sk_has(s, k) ==> sk_at(s.update(i, e), k) == sk_at(s, k),
{
    let s2 = s.update(i, e);
    assert forall|a: int, b: int| 0 <= a < b < s2.len() implies (#[trigger] s2[a]).0 != (
    #[trigger] s2[b]).0 by {
        assert(s[a].0 == s2[a].0 && s[b].0 == s2[b].0);
    }
    assert forall|k: u64| #![trigger sk_has(s2, k)] sk_has(s2, k) == sk_has(s, k) by {
        if sk_has(s2, k) {
            let t = sk_idx(s2, k);
            assert(s[t].0 == s2[t].0);
        }
        if sk_has(s, k) {
            let t = sk_idx(s, k);
            assert(s2[t].0 == s[t].0);
        }
    }
    lemma_sk_at_index(s2, i, e.0);
    assert forall|k: u64| #![trigger sk_at(s2, k)] k != e.0 && sk_has(s, k) implies sk_at(s2, k)
        == sk_at(s, k) by {
        let t = sk_idx(s, k);
        assert(0 <= t < s.len() && s[t].0 == k);
        assert(t != i);
        assert(s2[t] == s[t]);
        lemma_sk_at_index(s2, t, k);
        lemma_sk_at_index(s, t, k);
    }
}

pub proof fn lemma_sk_remove(s: Seq<(u64, Chunk)>, j: int)
    requires
        sk_unique(s),
        0 <= j < s.len(),
    ensures
        sk_unique(s.remove(j)),
        forall|k: u64| #![trigger sk_has(s.remove(j), k)]
            sk_has(s.remove(j), k) == (sk_has(s, k) && k != s[j].0),
        forall|k: u64| #![trigger sk_at(s.remove(j), k)]
            k != s[j].0 && sk_has(s, k) ==> sk_at(s.remove(j), k) == sk_at(s, k),
{
    let s2 = s.remove(j);
    assert forall|a: int, b: int| 0 <= a < b < s2.len() implies (#[trigger] s2[a]).0 != (
    #[trigger] s2[b]).0 by {
        let a0 = if a < j {
            a
        } else {
            a + 1
        };
        let b0 = if b < j {
            b
        } else {
            b + 1
        };
        assert(s2[a] == s[a0] && s2[b] == s[b0]);
    }
    assert forall|k: u64| #![trigger sk_has(s2, k)]
        sk_has(s2, k) == (sk_has(s, k) && k != s[j].0) by {
        if sk_has(s2, k) {
            let i = sk_idx(s2, k);
            let i0 = if i < j {
                i
            } else {
                i + 1
            };
            assert(s[i0].0 == k);
            assert(sk_has(s, k));
            if k == s[j].0 {
                lemma_sk_at_index(s, j, k);
                lemma_sk_at_index(s, i0, k);
                assert(false);
            }
        }
        if sk_has(s, k) && k != s[j].0 {
            let i = sk_idx(s, k);
            assert(0 <= i < s.len() && s[i].0 == k);
            assert(i != j);
            let i2 = if i < j {
                i
            } else {
                i - 1
            };
            assert(s2[i2].0 == k);
            assert(sk_has(s2, k));
        }
    }
    assert forall|k: u64| #![trigger sk_at(s2, k)]
        k != s[j].0 && sk_has(s, k) implies sk_at(s2, k) == sk_at(s, k) by {
        let i = sk_idx(s, k);
        assert(0 <= i < s.len() && s[i].0 == k);
        lemma_sk_at_index(s, i, k);
        assert(i != j);
        let i2 = if i < j {
            i
        } else {
            i - 1
        };
        assert(s2[i2] == s[i]);
        lemma_sk_at_index(s2, i2, k);
    }
}

pub proof fn lemma_extent_remove(s: Seq<(u64, Chunk)>, cs: int, j: int)
    requires
        cs >= 0,
        0 <= j < s.len(),
    ensures
        cache_extent(s.remove(j), cs) <= cache_extent(s, cs),
    decreases s.len(),
{
    let s2 = s.remove(j);
    if j + 1 == s.len() {
        assert(s2 =~= s.drop_last());
        lemma_extent_nonneg(s.drop_last(), cs);
    } else {
        assert(s2.drop_last() =~= s.drop_last().remove(j));
        assert(s2.last() == s.last());
        lemma_extent_remove(s.drop_last(), cs, j);
    }
}

pub proof fn lemma_extent_nonneg(s: Seq<(u64, Chunk)>, cs: int)
    requires
        cs >= 0,
    ensures
        cache_extent(s, cs) >= 0,
    decreases s.len(),
{
    if s.len() > 0 {
        lemma_extent_nonneg(s.drop_last(), cs);
    }
}

pub proof fn lemma_extent_bound(s: Seq<(u64, Chunk)>, cs: int, i: int)
    requires
        0 <= i < s.len(),
    ensures
        entry_end(s[i], cs) <= cache_extent(s, cs),
    decreases s.len(),
{
    if i + 1 == s.len() {
    } else {
        assert(s.drop_last()[i] == s[i]);
        lemma_extent_bound(s.drop_last(), cs, i);
    }
}

pub proof fn lemma_extent_push(s: Seq<(u64, Chunk)>, cs: int, e: (u64, Chunk))
    ensures
        cache_extent(s.push(e), cs) == imax(cache_extent(s, cs), entry_end(e, cs)),
{
    assert(s.push(e).drop_last() =~= s);
    assert(s.push(e).last() == e);
}

pub proof fn lemma_extent_update(s: Seq<(u64, Chunk)>, cs: int, i: int, e: (u64, Chunk))
    requires
        0 <= i < s.len(),
    ensures
        cache_extent(s.update(i, e), cs) <= imax(cache_extent(s, cs), entry_end(e, cs)),
        cache_extent(s.update(i, e), cs) >= entry_end(e, cs),
    decreases s.len(),
{
    let s2 = s.update(i, e);
    if i + 1 == s.len() {
        assert(s2.drop_last() =~= s.drop_last());
        assert(s2.last() == e);
    } else {
        assert(s2.drop_last() =~= s.drop_last().update(i, e));
        assert(s2.last() == s.last());
        lemma_extent_update(s.drop_last(), cs, i, e);
    }
}

/// Dirty flags only cleared: the count does not grow, and clearing one
/// dirty flag lowers it by one.
pub proof fn lemma_dirty_count_zero(s: Seq<(u64, Chunk)>)
    requires
        dirty_count(s) == 0,
    ensures
        forall|i: int| 0 <= i < s.len() ==> !(#[trigger] s[i]).1.is_dirty(),
    decreases s.len(),
{
    if s.len() > 0 {
        lemma_dirty_count_zero(s.drop_last());
        assert forall|i: int| 0 <= i < s.len() implies !(#[trigger] s[i]).1.is_dirty() by {
            if i + 1 < s.len() {
                assert(s.drop_last()[i] == s[i]);
            }
        }
    }
}

pub proof fn lemma_dirty_count_take(s: Seq<(u64, Chunk)>, i: int)
    requires
        0 <= i < s.len(),
    ensures
        dirty_count(s.take(i + 1)) == dirty_count(s.take(i)) + if s[i].1.is_dirty() {
            1nat
        } else {
            0nat
        },
{
    assert(s.take(i + 1).drop_last() =~= s.take(i));
    assert(s.take(i + 1).last() == s[i]);
}

/// Entry-wise preservation of keys and contents carries over to the
/// keyed lookups.
pub proof fn lemma_lookup_like(a: Seq<(u64, Chunk)>, b: Seq<(u64, Chunk)>)
    requires
        sk_unique(a),
        sk_unique(b),
        a.len() == b.len(),
        forall|t: int|
            0 <= t < a.len() ==> (#[trigger] b[t]).0 == a[t].0 && b[t].1.like(a[t].1) && (
            b[t].1.is_dirty() ==> a[t].1.is_dirty()),
    ensures
        forall|kk: u64| #[trigger] sk_has(b, kk) == sk_has(a, kk),
        forall|kk: u64| #![trigger sk_at(b, kk)]
            sk_has(a, kk) ==> sk_at(b, kk).like(sk_at(a, kk)) && (sk_at(b, kk).is_dirty()
                ==> sk_at(a, kk).is_dirty()),
{
    assert forall|kk: u64| #[trigger] sk_has(b, kk) == sk_has(a, kk) by {
        if sk_has(b, kk) {
            let i = sk_idx(b, kk);
            assert(a[i].0 == kk);
        }
        if sk_has(a, kk) {
            let i = sk_idx(a, kk);
            assert(b[i].0 == kk);
        }
    }
    assert forall|kk: u64| #![trigger sk_at(b, kk)] sk_has(a, kk) implies sk_at(b, kk).like(
        sk_at(a, kk),
    ) && (sk_at(b, kk).is_dirty() ==> sk_at(a, kk).is_dirty()) by {
        let i = sk_idx(a, kk);
        assert(0 <= i < a.len() && a[i].0 == kk);
        lemma_sk_at_index(a, i, kk);
        assert(b[i].0 == kk);
        lemma_sk_at_index(b, i, kk);
    }
}

pub proof fn lemma_dirty_count_all(s: Seq<(u64, Chunk)>)
    ensures
        dirty_count(s.take(s.len() as int)) == dirty_count(s),
{
    assert(s.take(s.len() as int) =~= s);
}

} // verus!

verus! {

/// The extent is reached by some entry (or is zero).
pub proof fn lemma_extent_witness(s: Seq<(u64, Chunk)>, cs: int)
    ensures
        cache_extent(s, cs) == 0 || exists|i: int|
            0 <= i < s.len() && entry_end(#[trigger] s[i], cs) == cache_extent(s, cs),
    decreases s.len(),
{
    if s.len() > 0 {
        lemma_extent_witness(s.drop_last(), cs);
        if cache_extent(s, cs) == entry_end(s.last(), cs) {
            assert(entry_end(s[s.len() - 1], cs) == cache_extent(s, cs));
        } else if cache_extent(s, cs) != 0 {
            let i = choose|i: int|
                0 <= i < s.drop_last().len() && entry_end(#[trigger] s.drop_last()[i], cs)
                    == cache_extent(s.drop_last(), cs);
            assert(s[i] == s.drop_last()[i]);
            assert(entry_end(s[i], cs) == cache_extent(s, cs));
        }
    }
}

/// Which chunk a byte position falls in, and where within it.
pub proof fn lemma_chunk_of(p: int, cs: int)
    requires
        0 <= p <= u64::MAX,
        0 < cs,
    ensures
        0 <= p / cs <= u64::MAX,
        ((p / cs) as u64) as int * cs <= p < ((p / cs) as u64) as int * cs + cs,
{
    vstd::arithmetic::div_mod::lemma_fundamental_div_mod(p, cs);
    vstd::arithmetic::div_mod::lemma_mod_bound(p, cs);
    let q = p / cs;
    let r = p % cs;
    assert(q >= 0) by {
        vstd::arithmetic::div_mod::lemma_div_pos_is_pos(p, cs);
    }
    assert(q <= cs * q) by (nonlinear_arith)
        requires
            cs >= 1,
            q >= 0,
    ;
    assert(p == cs * q + r);
    assert(cs * q <= p);
    assert(q <= p);
    assert((q as u64) as int == q);
    assert((q as u64) as int * cs == cs * q) by (nonlinear_arith)
        requires
            (q as u64) as int == q,
    ;
}

/// A position inside chunk `k`'s range divides down to `k`.
pub proof fn lemma_chunk_of_eq(p: int, cs: int, k: u64)
    requires
        0 < cs,
        k as int * cs <= p < k as int * cs + cs,
    ensures
        p / cs == k as int,
        ((p / cs) as u64) == k,
        p % cs == p - k as int * cs,
{
    lemma_fundamental_div_mod_converse(p, cs, k as int, p - k as int * cs);
}

/// The chunk cache: a sparse mapping from chunk index to chunk state over a
/// backing `LoadStore`. Chunks are loaded lazily on first access, never
/// duplicated (one entry per index), and written back on demand.
pub struct Memstore<L: LoadStore> {
    pub chunks: Vec<(u64, Chunk)>,
    pub chunk_size: u64,
    pub load_store: L,
}

impl<L: LoadStore> Memstore<L> {
    /// The backing store's persisted bytes.
    pub open spec fn bs(&self) -> Seq<u8> {
        self.load_store.contents()
    }

    pub open spec fn cs(&self) -> int {
        self.chunk_size as int
    }

    /// Whether chunk `k` is cached.
    pub open spec fn cached(&self, k: u64) -> bool {
        sk_has(self.chunks@, k)
    }

    /// The cached chunk under index `k`.
    pub open spec fn chunk_at(&self, k: u64) -> Chunk {
        sk_at(self.chunks@, k)
    }

    /// One past the last byte of the store's logical content: the persisted
    /// extent, or further where dirty cached chunks extend past it.
    pub open spec fn content_len(&self) -> int {
        imax(self.bs().len() as int, cache_extent(self.chunks@, self.cs()))
    }

    /// Byte `p` of the logical content: the cached byte where a loaded chunk
    /// covers `p`, else the persisted byte, else zero (a gap that a later
    /// write would leave as zero bytes).
    pub open spec fn content_at(&self, p: int) -> u8 {
        let k = (p / self.cs()) as u64;
        if self.cached(k) && p - k as int * self.cs() < self.chunk_at(k).spec_data().len()
            && self.chunk_at(k) is Loaded {
            self.chunk_at(k).spec_data()[p - k as int * self.cs()]
        } else if p < self.bs().len() {
            self.bs()[p]
        } else {
            0u8
        }
    }

    /// A dirty cached chunk covers byte `p`.
    pub open spec fn dirty_covers(&self, p: int) -> bool {
        let k = (p / self.cs()) as u64;
        &&& self.cached(k)
        &&& self.chunk_at(k) is Loaded
        &&& self.chunk_at(k).is_dirty()
        &&& p - k as int * self.cs() < self.chunk_at(k).spec_data().len()
    }

    /// Well-formedness of one cache entry.
    pub open spec fn entry_wf(&self, e: (u64, Chunk)) -> bool {
        match e.1 {
            Chunk::Loaded { data, need_store } => {
                &&& 1 <= data@.len() <= self.cs()
                &&& e.0 as int * self.cs() + data@.len() <= u64::MAX
                &&& (!need_store ==> e.0 as int * self.cs() <= self.bs().len() && data@
                    == self.bs().subrange(
                    e.0 as int * self.cs(),
                    imin(e.0 as int * self.cs() + self.cs(), self.bs().len() as int),
                ))
                &&& (data@.len() < self.cs() ==> e.0 as int * self.cs() + data@.len()
                    >= self.content_len())
            },
            Chunk::Empty => true,
        }
    }

    /// The cache-coherence invariant: unique keys; every loaded chunk holds
    /// at most one chunk of bytes at a representable offset; a clean chunk
    /// agrees with the persisted bytes at its offset; a chunk shorter than
    /// the chunk size ends exactly at the content end; and every byte of
    /// content beyond the persisted extent is held by a dirty cached chunk.
    pub open spec fn wf(&self) -> bool {
        &&& self.chunk_size > 0
        &&& self.load_store.chunk_size_spec() == self.chunk_size
        &&& sk_unique(self.chunks@)
        &&& forall|i: int|
            0 <= i < self.chunks@.len() ==> self.entry_wf(#[trigger] self.chunks@[i])
        &&& forall|p: int|
            self.bs().len() <= p < self.content_len() ==> #[trigger] self.dirty_covers(p)
    }

    /// Content positions stay within addressable range.
    pub proof fn lemma_content_len_bound(&self)
        requires
            self.wf(),
        ensures
            self.content_len() <= u64::MAX,
            self.bs().len() <= u64::MAX,
    {
        self.load_store.contents_bounded();
        lemma_extent_witness(self.chunks@, self.cs());
        lemma_extent_nonneg(self.chunks@, self.cs());
        if cache_extent(self.chunks@, self.cs()) != 0 {
            let i = choose|i: int|
                0 <= i < self.chunks@.len() && entry_end(#[trigger] self.chunks@[i], self.cs())
                    == cache_extent(self.chunks@, self.cs());
            assert(self.entry_wf(self.chunks@[i]));
        }
    }

    /// A fresh cache over the given backing store.
    pub fn new(chunk_size: u64, load_store: L) -> (r: Memstore<L>)
        requires
            chunk_size > 0,
            load_store.chunk_size_spec() == chunk_size,
        ensures
            r.wf(),
            r.chunk_size == chunk_size,
            r.load_store == load_store,
            r.chunks@.len() == 0,
            r.content_len() == load_store.contents().len(),
            forall|k: u64| !r.cached(k),
    {
        let r = Memstore { chunks: Vec::new(), chunk_size, load_store };
        proof {
            assert(cache_extent(r.chunks@, r.cs()) == 0);
            assert forall|k: u64| !r.cached(k) by {
                assert(r.chunks@.len() == 0);
            }
        }
        r
    }

    /// The cached chunk for `chunk_index`, loading it through the backing
    /// store on first access: loaded bytes where the offset lies within the
    /// persisted extent, `Empty` where it lies beyond it. Repeated access
    /// with no intervening mutation returns the same chunk without touching
    /// the backing store.
    pub fn get(&mut self, chunk_index: u64) -> (r: Result<&Chunk, BufferError>)
        requires
            old(self).wf(),
        ensures
            final(self).wf(),
            final(self).chunk_size == old(self).chunk_size,
            final(self).bs() == old(self).bs(),
            final(self).content_len() == old(self).content_len(),
            forall|p: int| #![trigger final(self).content_at(p)]
                0 <= p < old(self).content_len() ==> final(self).content_at(p) == old(
                    self,
                ).content_at(p),
            final(self).load_store.store_count() == old(self).load_store.store_count(),
            old(self).cached(chunk_index) ==> *final(self) == *old(self) && r is Ok,
            !old(self).cached(chunk_index) && chunk_index as int * old(self).cs() <= u64::MAX
                ==> final(self).load_store.load_count() == sat_inc(
                old(self).load_store.load_count(),
            ),
            !old(self).cached(chunk_index) && chunk_index as int * old(self).cs() > u64::MAX
                ==> *final(self) == *old(self) && r is Err,
            forall|k: u64|
                #[trigger] final(self).cached(k) == (old(self).cached(k) || (k == chunk_index
                    && r is Ok)),
            forall|k: u64| #![trigger final(self).chunk_at(k)]
                old(self).cached(k) ==> final(self).chunk_at(k) == old(self).chunk_at(k),
            match r {
                Ok(c) => {
                    &&& final(self).cached(chunk_index)
                    &&& *c == final(self).chunk_at(chunk_index)
                    &&& (!old(self).cached(chunk_index) ==> final(self).chunks@ == old(
                        self,
                    ).chunks@.push((chunk_index, *c)) && !c.is_dirty())
                    &&& (!old(self).cached(chunk_index) && *c is Loaded ==> {
                        &&& chunk_index as int * old(self).cs() < old(self).bs().len()
                        &&& c.spec_data() == old(self).bs().subrange(
                            chunk_index as int * old(self).cs(),
                            imin(
                                chunk_index as int * old(self).cs() + old(self).cs(),
                                old(self).bs().len() as int,
                            ),
                        )
                    })
                    &&& (!old(self).cached(chunk_index) && *c is Empty ==> chunk_index as int
                        * old(self).cs() >= old(self).bs().len())
                },
                Err(e) => {
                    &&& final(self).chunks@ == old(self).chunks@
                    &&& e is Load
                },
            },
    {
        let n = self.chunks.len();
        let mut j: usize = 0;
        while j < n
            invariant
                *self == *old(self),
                old(self).wf(),
                n == self.chunks@.len(),
                j <= n,
                forall|t: int| 0 <= t < j ==> (#[trigger] self.chunks@[t]).0 != chunk_index,
            decreases n - j,
        {
            if self.chunks[j].0 == chunk_index {
                proof {
                    lemma_sk_at_index(self.chunks@, j as int, chunk_index);
                }
                return Ok(&self.chunks[j].1);
            }
            j += 1;
        }
        proof {
            assert(!sk_has(self.chunks@, chunk_index));
        }
        let offset = match chunk_index.checked_mul(self.chunk_size) {
            Some(o) => o,
            None => {
                return Err(BufferError::Load { chunk_index });
            },
        };
        let ghost pre = *self;
        let loaded = self.load_store.load(offset);
        proof {
            assert(self.chunks@ == pre.chunks@);
            assert(self.bs() == pre.bs());
            assert(self.content_len() == pre.content_len());
            assert forall|p: int| 0 <= p < pre.content_len() implies #[trigger] self.content_at(p)
                == pre.content_at(p) by {}
            assert forall|i: int|
                0 <= i < self.chunks@.len() implies self.entry_wf(#[trigger] self.chunks@[i]) by {
                assert(pre.entry_wf(pre.chunks@[i]));
            }
            assert forall|p: int|
                self.bs().len() <= p < self.content_len() implies #[trigger] self.dirty_covers(
                p,
            ) by {
                assert(pre.dirty_covers(p));
            }
            assert(self.wf());
        }
        let chunk = match loaded {
            Err(_) => {
                return Err(BufferError::Load { chunk_index });
            },
            Ok(Some(data)) => Chunk::Loaded { data, need_store: false },
            Ok(None) => Chunk::Empty,
        };
        let ghost mid = *self;
        self.chunks.push((chunk_index, chunk));
        proof {
            let s2 = self.chunks@;
            let e = (chunk_index, sk_at(s2, chunk_index));
            assert(s2 == mid.chunks@.push(s2.last()));
            assert(sk_unique(s2)) by {
                assert forall|a: int, b: int| 0 <= a < b < s2.len() implies (#[trigger] s2[a]).0
                    != (#[trigger] s2[b]).0 by {
                    if b + 1 < s2.len() {
                        assert(s2[a] == mid.chunks@[a] && s2[b] == mid.chunks@[b]);
                    } else {
                        assert(s2[a] == mid.chunks@[a]);
                        assert(s2[b].0 == chunk_index);
                    }
                }
            }
            lemma_sk_at_index(s2, s2.len() - 1, chunk_index);
            assert forall|k: u64| #![trigger sk_at(s2, k)] old(self).cached(k) implies sk_has(
                s2,
                k,
            ) && sk_at(s2, k) == sk_at(mid.chunks@, k) by {
                let i = sk_idx(mid.chunks@, k);
                assert(0 <= i < mid.chunks@.len() && mid.chunks@[i].0 == k);
                assert(s2[i].0 == k);
                lemma_sk_at_index(s2, i, k);
                lemma_sk_at_index(mid.chunks@, i, k);
            }
            assert forall|k: u64| #![trigger sk_has(s2, k)]
                sk_has(s2, k) == (sk_has(mid.chunks@, k) || k == chunk_index) by {
                if sk_has(s2, k) {
                    let i = sk_idx(s2, k);
                    assert(0 <= i < s2.len() && s2[i].0 == k);
                    if i + 1 < s2.len() {
                        assert(mid.chunks@[i].0 == k);
                        assert(sk_has(mid.chunks@, k));
                    }
                }
                if sk_has(mid.chunks@, k) {
                    let i = sk_idx(mid.chunks@, k);
                    assert(0 <= i < mid.chunks@.len() && mid.chunks@[i].0 == k);
                    assert(s2[i].0 == k);
                    assert(sk_has(s2, k));
                }
            }
            lemma_extent_push(mid.chunks@, mid.cs(), s2.last());
            lemma_extent_nonneg(mid.chunks@, mid.cs());
            // The new entry does not extend the content: a loaded chunk ends
            // within the persisted extent, an empty chunk holds nothing.
            match s2.last().1 {
                Chunk::Loaded { data, .. } => {
                    assert(entry_end(s2.last(), self.cs()) <= self.bs().len());
                },
                Chunk::Empty => {
                    assert(entry_end(s2.last(), self.cs()) == 0);
                },
            }
            assert(self.content_len() == mid.content_len());
            // A short loaded chunk ends exactly at the persisted extent, and
            // nothing dirty extends past a position inside an uncached
            // chunk, so the short chunk ends at the content end.
            if s2.last().1 is Loaded && s2.last().1.spec_data().len() < self.cs() {
                let blen = mid.bs().len() as int;
                assert(offset + s2.last().1.spec_data().len() == blen);
                if mid.content_len() > blen {
                    assert(mid.dirty_covers(blen));
                    assert(offset == chunk_index as int * mid.cs());
                    assert(offset <= blen < offset + mid.cs());
                    lemma_chunk_of_eq(blen, mid.cs(), chunk_index);
                    assert(false);
                }
                assert(mid.content_len() <= blen);
            }
            assert forall|i: int|
                0 <= i < s2.len() implies self.entry_wf(#[trigger] self.chunks@[i]) by {
                if i + 1 < s2.len() {
                    assert(mid.entry_wf(mid.chunks@[i]));
                    assert(s2[i] == mid.chunks@[i]);
                } else {
                    assert(s2[i] == s2.last());
                    self.load_store.contents_bounded();
                    match s2.last().1 {
                        Chunk::Loaded { data, .. } => {
                            assert(data@.len() <= self.cs());
                            assert(chunk_index as int * self.cs() + data@.len()
                                <= self.bs().len());
                        },
                        Chunk::Empty => {},
                    }
                }
            }
            assert forall|p: int|
                self.bs().len() <= p < self.content_len() implies #[trigger] self.dirty_covers(
                p,
            ) by {
                assert(mid.dirty_covers(p));
                let kd = (p / mid.cs()) as u64;
                lemma_sk_at_index(s2, sk_idx(mid.chunks@, kd), kd);
            }
            assert(self.wf());
            assert forall|p: int| 0 <= p < mid.content_len() implies #[trigger] self.content_at(p)
                == mid.content_at(p) by {
                mid.lemma_content_len_bound();
                lemma_chunk_of(p, mid.cs());
                let kd = (p / mid.cs()) as u64;
                if mid.cached(kd) {
                    lemma_sk_at_index(s2, sk_idx(mid.chunks@, kd), kd);
                } else if kd == chunk_index {
                    // the fresh chunk holds exactly the persisted bytes there
                    assert(kd as int * mid.cs() <= p < kd as int * mid.cs() + mid.cs());
                    if s2.last().1 is Loaded && p - kd as int * mid.cs() < s2.last(
                    ).1.spec_data().len() {
                        assert(s2.last().1.spec_data()[p - chunk_index as int * mid.cs()]
                            == mid.bs()[p]);
                    }
                }
            }
        }
        let m = self.chunks.len();
        Ok(&self.chunks[m - 1].1)
    }
}

} // verus!

verus! {

impl<L: LoadStore> Memstore<L> {
    /// Replace the bytes of chunk `chunk_index` and mark it dirty: the
    /// exclusive-access mutation path of the cache. A write must stay
    /// contiguous with the existing content: it may not start past the
    /// content end, and a write shorter than the chunk size must reach at
    /// least to the content end (it becomes the final chunk).
    pub fn set_chunk(&mut self, chunk_index: u64, data: Vec<u8>)
        requires
            old(self).wf(),
            1 <= data@.len() <= old(self).cs(),
            chunk_index as int * old(self).cs() <= old(self).content_len(),
            data@.len() == old(self).cs() || chunk_index as int * old(self).cs() + data@.len()
                >= old(self).content_len(),
            chunk_index as int * old(self).cs() + data@.len() <= u64::MAX,
        ensures
            final(self).wf(),
            final(self).chunk_size == old(self).chunk_size,
            final(self).load_store == old(self).load_store,
            final(self).bs() == old(self).bs(),
            forall|k: u64|
                #[trigger] final(self).cached(k) == (old(self).cached(k) || k == chunk_index),
            final(self).chunk_at(chunk_index) == (Chunk::Loaded { data, need_store: true }),
            forall|k: u64| #![trigger final(self).chunk_at(k)]
                k != chunk_index && old(self).cached(k) ==> final(self).chunk_at(k) == old(
                    self,
                ).chunk_at(k),
            final(self).content_len() == imax(
                old(self).content_len(),
                chunk_index as int * old(self).cs() + data@.len(),
            ),
            forall|p: int| #![trigger final(self).content_at(p)]
                0 <= p < final(self).content_len() ==> final(self).content_at(p) == (
                if chunk_index as int * old(self).cs() <= p < chunk_index as int * old(self).cs()
                    + data@.len() {
                    data@[p - chunk_index as int * old(self).cs()]
                } else {
                    old(self).content_at(p)
                }),
    {
        let ghost ms0 = *old(self);
        let ghost cs = old(self).cs();
        let ghost koff = chunk_index as int * cs;
        let ghost e = (chunk_index, Chunk::Loaded { data: data, need_store: true });
        let n = self.chunks.len();
        let mut j: usize = 0;
        let mut at: Option<usize> = None;
        while j < n
            invariant
                *self == ms0,
                ms0.wf(),
                n == self.chunks@.len(),
                j <= n,
                match at {
                    Some(t) => t < j && self.chunks@[t as int].0 == chunk_index,
                    None => forall|t: int|
                        0 <= t < j ==> (#[trigger] self.chunks@[t]).0 != chunk_index,
                },
            decreases n - j,
        {
            if self.chunks[j].0 == chunk_index {
                at = Some(j);
                j = n;
            } else {
                j += 1;
            }
        }
        let ghost end_new = koff + data@.len() as int;
        match at {
            Some(t) => {
                let slot = &mut self.chunks[t];
                *slot = (chunk_index, Chunk::Loaded { data, need_store: true });
                proof {
                    lemma_sk_at_index(ms0.chunks@, t as int, chunk_index);
                    lemma_sk_update(ms0.chunks@, t as int, e);
                    assert(self.chunks@ == ms0.chunks@.update(t as int, e));
                    lemma_extent_update(ms0.chunks@, cs, t as int, e);
                    lemma_extent_bound(ms0.chunks@, cs, t as int);
                }
            },
            None => {
                self.chunks.push((chunk_index, data_to_entry(data)));
                proof {
                    assert(self.chunks@ == ms0.chunks@.push(e));
                    lemma_extent_push(ms0.chunks@, cs, e);
                    assert(sk_unique(self.chunks@)) by {
                        assert forall|a: int, b: int|
                            0 <= a < b < self.chunks@.len() implies (
                        #[trigger] self.chunks@[a]).0 != (#[trigger] self.chunks@[b]).0 by {
                            if b + 1 < self.chunks@.len() {
                                assert(self.chunks@[a] == ms0.chunks@[a]);
                                assert(self.chunks@[b] == ms0.chunks@[b]);
                            } else {
                                assert(self.chunks@[a] == ms0.chunks@[a]);
                            }
                        }
                    }
                    lemma_sk_at_index(self.chunks@, self.chunks@.len() - 1, chunk_index);
                    assert forall|k: u64| #![trigger sk_has(self.chunks@, k)]
                        sk_has(self.chunks@, k) == (sk_has(ms0.chunks@, k) || k
                            == chunk_index) by {
                        if sk_has(self.chunks@, k) {
                            let i = sk_idx(self.chunks@, k);
                            if i + 1 < self.chunks@.len() {
                                assert(ms0.chunks@[i].0 == k);
                            }
                        }
                        if sk_has(ms0.chunks@, k) {
                            let i = sk_idx(ms0.chunks@, k);
                            assert(self.chunks@[i].0 == k);
                        }
                    }
                    assert forall|k: u64| #![trigger sk_at(self.chunks@, k)]
                        k != chunk_index && sk_has(ms0.chunks@, k) implies sk_at(self.chunks@, k)
                            == sk_at(ms0.chunks@, k) by {
                        let i = sk_idx(ms0.chunks@, k);
                        assert(self.chunks@[i] == ms0.chunks@[i]);
                        lemma_sk_at_index(self.chunks@, i, k);
                        lemma_sk_at_index(ms0.chunks@, i, k);
                    }
                }
            },
        }
        proof {
            self.lemma_set_chunk_wf(ms0, chunk_index, e);
        }
    }

    /// Proof work shared by both arms of `set_chunk`: the new state is well
    /// formed and its content is the old content overlaid with the write.
    proof fn lemma_set_chunk_wf(&self, ms0: Memstore<L>, chunk_index: u64, e: (u64, Chunk))
        requires
            ms0.wf(),
            self.chunk_size == ms0.chunk_size,
            self.load_store == ms0.load_store,
            e.0 == chunk_index,
            e.1 is Loaded,
            e.1.is_dirty(),
            1 <= e.1.spec_data().len() <= ms0.cs(),
            chunk_index as int * ms0.cs() <= ms0.content_len(),
            e.1.spec_data().len() == ms0.cs() || chunk_index as int * ms0.cs()
                + e.1.spec_data().len() >= ms0.content_len(),
            chunk_index as int * ms0.cs() + e.1.spec_data().len() <= u64::MAX,
            sk_unique(self.chunks@),
            forall|k: u64|
                #[trigger] sk_has(self.chunks@, k) == (sk_has(ms0.chunks@, k) || k == chunk_index),
            sk_at(self.chunks@, chunk_index) == e.1,
            forall|k: u64| #![trigger sk_at(self.chunks@, k)]
                k != chunk_index && sk_has(ms0.chunks@, k) ==> sk_at(self.chunks@, k) == sk_at(
                    ms0.chunks@,
                    k,
                ),
            cache_extent(self.chunks@, ms0.cs()) <= imax(
                cache_extent(ms0.chunks@, ms0.cs()),
                entry_end(e, ms0.cs()),
            ),
            cache_extent(self.chunks@, ms0.cs()) >= entry_end(e, ms0.cs()),
            forall|i: int|
                0 <= i < self.chunks@.len() ==> ((#[trigger] self.chunks@[i]) == e || (exists|
                t: int|
                    0 <= t < ms0.chunks@.len() && ms0.chunks@[t] == self.chunks@[i])),
        ensures
            self.wf(),
            self.content_len() == imax(
                ms0.content_len(),
                chunk_index as int * ms0.cs() + e.1.spec_data().len(),
            ),
            forall|p: int| #![trigger self.content_at(p)]
                0 <= p < self.content_len() ==> self.content_at(p) == (
                if chunk_index as int * ms0.cs() <= p < chunk_index as int * ms0.cs()
                    + e.1.spec_data().len() {
                    e.1.spec_data()[p - chunk_index as int * ms0.cs()]
                } else {
                    ms0.content_at(p)
                }),
    {
        let cs = ms0.cs();
        let koff = chunk_index as int * cs;
        let end_new = koff + e.1.spec_data().len() as int;
        let clen0 = ms0.content_len();
        // content length
        lemma_extent_nonneg(ms0.chunks@, cs);
        assert(self.content_len() == imax(clen0, end_new)) by {
            assert(self.content_len() <= imax(clen0, end_new));
            assert(self.content_len() >= end_new);
            if clen0 > end_new {
                // some old entry or the backing extent reaches clen0, and
                // only the replaced entry could have shrunk; the replaced
                // entry could not reach past end_new
                if clen0 > ms0.bs().len() {
                    lemma_extent_witness(ms0.chunks@, cs);
                    let i = choose|i: int|
                        0 <= i < ms0.chunks@.len() && entry_end(#[trigger] ms0.chunks@[i], cs)
                            == cache_extent(ms0.chunks@, cs);
                    assert(ms0.entry_wf(ms0.chunks@[i]));
                    let ki = ms0.chunks@[i].0;
                    if ki == chunk_index {
                        // old entry at the same index: it ends within
                        // (chunk_index+1)*cs, and so does the new one; a
                        // short new entry must reach the content end
                        assert(entry_end(ms0.chunks@[i], cs) <= koff + cs);
                        if e.1.spec_data().len() < cs {
                            assert(end_new >= clen0);
                            assert(false);
                        } else {
                            assert(end_new == koff + cs);
                            assert(false);
                        }
                    } else {
                        lemma_sk_at_index(ms0.chunks@, i, ki);
                        assert(sk_has(ms0.chunks@, ki));
                        assert(sk_has(self.chunks@, ki));
                        assert(sk_at(self.chunks@, ki) == ms0.chunks@[i].1);
                        let t = sk_idx(self.chunks@, ki);
                        assert(0 <= t < self.chunks@.len() && self.chunks@[t].0 == ki);
                        lemma_sk_at_index(self.chunks@, t, ki);
                        assert(self.chunks@[t].1 == ms0.chunks@[i].1);
                        assert(entry_end(self.chunks@[t], cs) == entry_end(ms0.chunks@[i], cs));
                        lemma_extent_bound(self.chunks@, cs, t);
                    }
                }
            }
        }
        let clen2 = self.content_len();
        // every entry satisfies entry_wf in the new state
        assert forall|i: int|
            0 <= i < self.chunks@.len() implies self.entry_wf(#[trigger] self.chunks@[i]) by {
            let kj = self.chunks@[i].0;
            lemma_sk_at_index(self.chunks@, i, kj);
            if kj == chunk_index {
                // the written entry itself
                assert(self.chunks@[i].1 == e.1);
                if e.1.spec_data().len() < cs {
                    assert(end_new >= clen0);
                    assert(clen2 == end_new);
                }
            } else {
                assert(sk_has(self.chunks@, kj));
                assert(sk_has(ms0.chunks@, kj));
                let t = sk_idx(ms0.chunks@, kj);
                assert(0 <= t < ms0.chunks@.len() && ms0.chunks@[t].0 == kj);
                lemma_sk_at_index(ms0.chunks@, t, kj);
                assert(self.chunks@[i].1 == sk_at(self.chunks@, kj));
                assert(self.chunks@[i].1 == ms0.chunks@[t].1);
                assert(ms0.entry_wf(ms0.chunks@[t]));
                match self.chunks@[i].1 {
                    Chunk::Loaded { data, need_store } => {
                        if data@.len() < cs {
                            // a short untouched entry ends at the old
                            // content end; the write cannot extend past it
                            let endj = kj as int * cs + data@.len() as int;
                            assert(endj >= clen0);
                            lemma_extent_bound(ms0.chunks@, cs, t);
                            assert(endj <= clen0);
                            if end_new > clen0 {
                                if (kj as int) < chunk_index as int {
                                    assert(kj as int * cs + cs <= chunk_index as int * cs) by (
                                    nonlinear_arith)
                                        requires
                                            kj as int + 1 <= chunk_index as int,
                                            cs > 0,
                                    ;
                                    assert(endj < kj as int * cs + cs);
                                    assert(endj < koff <= clen0);
                                    assert(false);
                                } else {
                                    assert(chunk_index as int * cs + cs <= kj as int * cs) by (
                                    nonlinear_arith)
                                        requires
                                            chunk_index as int + 1 <= kj as int,
                                            cs > 0,
                                    ;
                                    assert(end_new <= koff + cs <= kj as int * cs <= endj);
                                    assert(false);
                                }
                            }
                        }
                    },
                    Chunk::Empty => {},
                }
            }
        }
        // dirty coverage of content beyond the persisted extent
        assert forall|p: int|
            self.bs().len() <= p < clen2 implies #[trigger] self.dirty_covers(p) by {
            self.load_store.contents_bounded();
            ms0.lemma_content_len_bound();
            lemma_chunk_of(p, cs);
            let kd = (p / cs) as u64;
            if koff <= p < end_new {
                lemma_chunk_of_eq(p, cs, chunk_index);
                assert(kd == chunk_index);
            } else {
                assert(p < clen0 || (clen0 <= p < end_new)) by {
                    if p >= clen0 {
                        assert(clen2 == imax(clen0, end_new));
                        assert(p < end_new);
                        assert(koff <= clen0 <= p);
                    }
                }
                assert(p < clen0);
                assert(ms0.dirty_covers(p));
                assert(kd != chunk_index) by {
                    if kd == chunk_index {
                        assert(kd as int * cs <= p < kd as int * cs + cs);
                        assert(sk_at(ms0.chunks@, chunk_index) is Loaded);
                        assert(p - koff < sk_at(ms0.chunks@, chunk_index).spec_data().len());
                        // the old entry here was dirty; the write replaces
                        // it and must cover at least as far
                        if e.1.spec_data().len() < cs {
                            assert(end_new >= clen0 > p);
                            assert(false);
                        } else {
                            assert(end_new == koff + cs > p);
                            assert(false);
                        }
                    }
                }
            }
        }
        assert(self.wf());
        // pointwise content
        assert forall|p: int| #![trigger self.content_at(p)]
            0 <= p < clen2 implies self.content_at(p) == (
        if koff <= p < end_new {
            e.1.spec_data()[p - koff]
        } else {
            ms0.content_at(p)
        }) by {
            self.load_store.contents_bounded();
            ms0.lemma_content_len_bound();
            lemma_chunk_of(p, cs);
            let kd = (p / cs) as u64;
            if koff <= p < end_new {
                lemma_chunk_of_eq(p, cs, chunk_index);
            } else if kd == chunk_index {
                // inside the written chunk's range but past the write: the
                // old entry could not reach here either
                assert(p >= end_new || p < koff);
                assert(kd as int * cs <= p);
                assert(p >= end_new);
                if sk_has(ms0.chunks@, chunk_index) && sk_at(ms0.chunks@, chunk_index) is Loaded
                    && p - koff < sk_at(ms0.chunks@, chunk_index).spec_data().len() {
                    let i = sk_idx(ms0.chunks@, chunk_index);
                    assert(ms0.entry_wf(ms0.chunks@[i]));
                    let dold = sk_at(ms0.chunks@, chunk_index).spec_data();
                    assert(koff + dold.len() > p >= end_new);
                    if dold.len() < cs {
                        lemma_extent_bound(ms0.chunks@, cs, i);
                        assert(koff + dold.len() >= clen0);
                        assert(koff + dold.len() <= clen0);
                        if e.1.spec_data().len() < cs {
                            assert(end_new >= clen0);
                            assert(false);
                        } else {
                            assert(end_new == koff + cs >= koff + dold.len());
                            assert(false);
                        }
                    } else {
                        assert(end_new <= koff + cs == koff + dold.len());
                        if e.1.spec_data().len() < cs {
                            assert(end_new >= clen0);
                            lemma_extent_bound(ms0.chunks@, cs, i);
                            assert(koff + dold.len() <= clen0);
                            assert(false);
                        } else {
                            assert(false);
                        }
                    }
                }
            }
        }
    }
}

/// Wrap chunk bytes as a fresh dirty cache entry.
fn data_to_entry(data: Vec<u8>) -> (r: Chunk)
    ensures
        r == (Chunk::Loaded { data, need_store: true }),
{
    Chunk::Loaded { data, need_store: true }
}

} // verus!

verus! {

/// Distinct chunks occupy disjoint byte ranges.
proof fn lemma_chunk_disjoint(a: u64, b: u64, cs: int)
    requires
        a != b,
        cs > 0,
    ensures
        a as int * cs + cs <= b as int * cs || b as int * cs + cs <= a as int * cs,
{
    if a < b {
        assert(a as int * cs + cs <= b as int * cs) by (nonlinear_arith)
            requires
                a as int + 1 <= b as int,
                cs > 0,
        ;
    } else {
        assert(b as int * cs + cs <= a as int * cs) by (nonlinear_arith)
            requires
                b as int + 1 <= a as int,
                cs > 0,
        ;
    }
}

/// Replacing an entry by one with the same end leaves the extent unchanged.
proof fn lemma_extent_update_same_end(s: Seq<(u64, Chunk)>, cs: int, i: int, e: (u64, Chunk))
    requires
        0 <= i < s.len(),
        entry_end(s[i], cs) == entry_end(e, cs),
    ensures
        cache_extent(s.update(i, e), cs) == cache_extent(s, cs),
    decreases s.len(),
{
    let s2 = s.update(i, e);
    if i + 1 == s.len() {
        assert(s2.drop_last() =~= s.drop_last());
        assert(s2.last() == e);
    } else {
        assert(s2.drop_last() =~= s.drop_last().update(i, e));
        assert(s2.last() == s.last());
        lemma_extent_update_same_end(s.drop_last(), cs, i, e);
    }
}

impl<L: LoadStore> Memstore<L> {
    /// Flush the entry at position `j`: if it is dirty, write its bytes at
    /// its chunk offset through the backing store, and clear the dirty flag
    /// only when that write succeeded.
    fn flush_at(&mut self, j: usize) -> (r: Result<(), BufferError>)
        requires
            old(self).wf(),
            j < old(self).chunks@.len(),
        ensures
            final(self).wf(),
            final(self).chunk_size == old(self).chunk_size,
            final(self).chunks@.len() == old(self).chunks@.len(),
            forall|t: int|
                0 <= t < old(self).chunks@.len() && t != j ==> final(self).chunks@[t] == old(
                    self,
                ).chunks@[t],
            final(self).chunks@[j as int].0 == old(self).chunks@[j as int].0,
            final(self).chunks@[j as int].1.like(old(self).chunks@[j as int].1),
            final(self).load_store.load_count() == old(self).load_store.load_count(),
            final(self).content_len() == old(self).content_len(),
            forall|p: int| #![trigger final(self).content_at(p)]
                0 <= p < old(self).content_len() ==> final(self).content_at(p) == old(
                    self,
                ).content_at(p),
            !old(self).chunks@[j as int].1.is_dirty() ==> *final(self) == *old(self) && r is Ok,
            old(self).chunks@[j as int].1.is_dirty() ==> final(self).load_store.store_count()
                == sat_inc(old(self).load_store.store_count()),
            final(self).bs().len() >= old(self).bs().len(),
            final(self).bs().len() <= old(self).content_len(),
            forall|p: int| #![trigger final(self).bs()[p]]
                0 <= p < old(self).bs().len() && !old(self).dirty_covers(p) ==> final(self).bs()[p]
                    == old(self).bs()[p],
            match r {
                Ok(_) => {
                    &&& !final(self).chunks@[j as int].1.is_dirty()
                    &&& final(self).bs().len() >= entry_end(
                        old(self).chunks@[j as int],
                        old(self).cs(),
                    )
                },
                Err(e) => {
                    &&& e == (BufferError::Store { chunk_index: old(self).chunks@[j as int].0 })
                    &&& final(self).chunks@ == old(self).chunks@
                    &&& final(self).bs() == old(self).bs()
                },
            },
    {
        let ghost ms0 = *old(self);
        let ghost cs = ms0.cs();
        let idx = self.chunks[j].0;
        proof {
            assert(ms0.entry_wf(ms0.chunks@[j as int]));
        }
        match &self.chunks[j].1 {
            Chunk::Loaded { data: _, need_store } => {
                if !*need_store {
                    return Ok(());
                }
            },
            Chunk::Empty => {
                return Ok(());
            },
        }
        let offset = idx * self.chunk_size;
        let ghost koff = idx as int * cs;
        let sres = match &self.chunks[j].1 {
            Chunk::Loaded { data, .. } => self.load_store.store(offset, data),
            Chunk::Empty => unreached(),
        };
        let ghost d = ms0.chunks@[j as int].1.spec_data();
        let ghost endj = koff + d.len() as int;
        proof {
            assert(self.chunks@ == ms0.chunks@);
            assert(endj <= ms0.content_len()) by {
                lemma_extent_bound(ms0.chunks@, cs, j as int);
            }
        }
        match sres {
            Err(_) => {
                proof {
                    assert(self.bs() == ms0.bs());
                    assert forall|i: int|
                        0 <= i < self.chunks@.len() implies self.entry_wf(
                        #[trigger] self.chunks@[i]) by {
                        assert(ms0.entry_wf(ms0.chunks@[i]));
                    }
                    assert forall|p: int|
                        self.bs().len() <= p < self.content_len() implies
                        #[trigger] self.dirty_covers(p) by {
                        assert(ms0.dirty_covers(p));
                    }
                    assert forall|p: int| #![trigger self.content_at(p)]
                        0 <= p < ms0.content_len() implies self.content_at(p) == ms0.content_at(
                        p,
                    ) by {}
                }
                Err(BufferError::Store { chunk_index: idx })
            },
            Ok(_) => {
                let slot = &mut self.chunks[j];
                match &mut slot.1 {
                    Chunk::Loaded { data: _, need_store } => {
                        *need_store = false;
                    },
                    Chunk::Empty => {
                        proof {
                            assert(false);
                        }
                    },
                }
                proof {
                    self.lemma_flushed_wf(ms0, j as int);
                    assert forall|p: int| #![trigger self.bs()[p]]
                        0 <= p < ms0.bs().len() && !ms0.dirty_covers(p) implies self.bs()[p]
                        == ms0.bs()[p] by {
                        if koff <= p < koff + d.len() {
                            lemma_chunk_of_eq(p, cs, idx);
                            lemma_sk_at_index(ms0.chunks@, j as int, idx);
                            assert(ms0.dirty_covers(p));
                            assert(false);
                        }
                    }
                }
                Ok(())
            },
        }
    }

    /// After a successful write of dirty entry `j` and the clearing of its
    /// flag, the cache is well formed again and the content is unchanged.
    proof fn lemma_flushed_wf(&self, ms0: Memstore<L>, j: int)
        requires
            ms0.wf(),
            0 <= j < ms0.chunks@.len(),
            ms0.chunks@[j].1 is Loaded,
            ms0.chunks@[j].1.is_dirty(),
            self.chunk_size == ms0.chunk_size,
            self.load_store.chunk_size_spec() == ms0.load_store.chunk_size_spec(),
            self.chunks@ == ms0.chunks@.update(
                j,
                (
                    ms0.chunks@[j].0,
                    Chunk::Loaded {
                        data: ms0.chunks@[j].1.arrow_Loaded_data(),
                        need_store: false,
                    },
                ),
            ),
            self.bs() == overwrite(
                ms0.bs(),
                (ms0.chunks@[j].0 as int * ms0.cs()) as nat,
                ms0.chunks@[j].1.spec_data(),
            ),
        ensures
            self.wf(),
            self.content_len() == ms0.content_len(),
            forall|p: int| #![trigger self.content_at(p)]
                0 <= p < ms0.content_len() ==> self.content_at(p) == ms0.content_at(p),
            self.bs().len() >= ms0.bs().len(),
            self.bs().len() >= entry_end(ms0.chunks@[j], ms0.cs()),
        decreases 0int,
    {
        let cs = ms0.cs();
        let kj = ms0.chunks@[j].0;
        let koff = kj as int * cs;
        let d = ms0.chunks@[j].1.spec_data();
        let endj = koff + d.len() as int;
        let e = self.chunks@[j];
        assert(ms0.entry_wf(ms0.chunks@[j]));
        assert(endj <= u64::MAX);
        lemma_extent_bound(ms0.chunks@, cs, j);
        assert(endj <= ms0.content_len());
        ms0.lemma_content_len_bound();
        ms0.load_store.contents_bounded();
        assert(entry_end(e, cs) == entry_end(ms0.chunks@[j], cs));
        lemma_extent_update_same_end(ms0.chunks@, cs, j, e);
        assert(self.bs().len() == imax(ms0.bs().len() as int, endj));
        assert(self.content_len() == ms0.content_len());
        lemma_sk_at_index(ms0.chunks@, j, kj);
        lemma_sk_update(ms0.chunks@, j, e);
        // the flushed entry now agrees with the persisted bytes
        assert(self.entry_wf(e)) by {
            assert(d.len() <= cs);
            if d.len() < cs {
                assert(endj >= ms0.content_len() >= ms0.bs().len());
                assert(self.bs().len() == endj);
                assert(d =~= self.bs().subrange(koff, imin(koff + cs, self.bs().len() as int)));
            } else {
                assert(self.bs().len() >= koff + cs);
                assert(d =~= self.bs().subrange(koff, imin(koff + cs, self.bs().len() as int)));
            }
        }
        // untouched entries keep their well-formedness
        assert forall|i: int|
            0 <= i < self.chunks@.len() implies self.entry_wf(#[trigger] self.chunks@[i]) by {
            if i == j {
            } else {
                assert(self.chunks@[i] == ms0.chunks@[i]);
                assert(ms0.entry_wf(ms0.chunks@[i]));
                match ms0.chunks@[i].1 {
                    Chunk::Loaded { data, need_store } => {
                        let km = ms0.chunks@[i].0;
                        let moff = km as int * cs;
                        lemma_chunk_disjoint(km, kj, cs);
                        if !need_store {
                            // its persisted range is untouched by the write
                            let hi0 = imin(moff + cs, ms0.bs().len() as int);
                            let hi2 = imin(moff + cs, self.bs().len() as int);
                            if data@.len() < cs {
                                // a short clean chunk ends at both the
                                // persisted and the content end, so the
                                // flushed chunk could not grow the store
                                assert(moff + data@.len() == hi0);
                                assert(moff + data@.len() >= ms0.content_len());
                                assert(hi0 == ms0.bs().len());
                                assert(ms0.content_len() == ms0.bs().len());
                                assert(endj <= ms0.bs().len());
                                assert(self.bs().len() == ms0.bs().len());
                                assert(hi2 == hi0);
                                assert forall|t: int| moff <= t < hi2 implies self.bs()[t]
                                    == ms0.bs()[t] by {
                                    assert(t < koff || t >= endj);
                                }
                                assert(data@ =~= self.bs().subrange(moff, hi2));
                            } else {
                                assert(hi0 == moff + cs);
                                assert(hi2 == moff + cs);
                                assert forall|t: int| moff <= t < hi2 implies self.bs()[t]
                                    == ms0.bs()[t] by {
                                    assert(t < koff || t >= endj);
                                }
                                assert(data@ =~= self.bs().subrange(moff, hi2));
                            }
                        }
                    },
                    Chunk::Empty => {},
                }
            }
        }
        // content beyond the persisted extent is still covered dirty
        assert forall|p: int|
            self.bs().len() <= p < self.content_len() implies #[trigger] self.dirty_covers(p) by {
            assert(p >= ms0.bs().len());
            assert(ms0.dirty_covers(p));
            lemma_chunk_of(p, cs);
            let kd = (p / cs) as u64;
            if kd == kj {
                assert(p - koff < d.len());
                assert(p < endj <= self.bs().len());
                assert(false);
            }
        }
        assert(self.wf());
        // pointwise content is unchanged
        assert forall|p: int| #![trigger self.content_at(p)]
            0 <= p < ms0.content_len() implies self.content_at(p) == ms0.content_at(p) by {
            lemma_chunk_of(p, cs);
            let kd = (p / cs) as u64;
            if kd == kj {
                lemma_chunk_of_eq(p, cs, kj);
                if p - koff < d.len() {
                    assert(self.content_at(p) == d[p - koff]);
                    assert(ms0.content_at(p) == d[p - koff]);
                } else {
                    // past the entry's data: both read the store or zero;
                    // the write only touched [koff, endj)
                    if p < ms0.bs().len() {
                        assert(self.bs()[p] == ms0.bs()[p]);
                    } else {
                        assert(p >= endj);
                        if p < self.bs().len() {
                            assert(self.bs().len() == imax(ms0.bs().len() as int, endj));
                            assert(false);
                        }
                    }
                }
            } else {
                lemma_chunk_disjoint(kd, kj, cs);
                if ms0.cached(kd) && ms0.chunk_at(kd) is Loaded && p - kd as int * cs
                    < ms0.chunk_at(kd).spec_data().len() {
                } else {
                    if p < ms0.bs().len() {
                        assert(p < koff || p >= endj);
                        assert(self.bs()[p] == ms0.bs()[p]);
                    } else {
                        // beyond the old extent and in another chunk: the
                        // old state covers it dirty, contradiction
                        if p < ms0.content_len() {
                            assert(ms0.dirty_covers(p));
                            assert(false);
                        }
                    }
                }
            }
        }
    }
}

} // verus!

verus! {

impl<L: LoadStore> Memstore<L> {
    /// Flush every dirty chunk: one store call per dirty chunk, none for
    /// clean ones. On success every chunk is clean and the persisted bytes
    /// equal the logical content; on failure the chunk whose write failed
    /// stays dirty so that a later call retries it.
    pub fn store_all(&mut self) -> (r: Result<(), BufferError>)
        requires
            old(self).wf(),
        ensures
            final(self).wf(),
            final(self).chunk_size == old(self).chunk_size,
            final(self).chunks@.len() == old(self).chunks@.len(),
            forall|t: int|
                0 <= t < old(self).chunks@.len() ==> (#[trigger] final(self).chunks@[t]).0 == old(
                    self,
                ).chunks@[t].0 && final(self).chunks@[t].1.like(old(self).chunks@[t].1),
            forall|t: int|
                0 <= t < old(self).chunks@.len() && (
                #[trigger] final(self).chunks@[t]).1.is_dirty() ==> old(
                    self,
                ).chunks@[t].1.is_dirty(),
            final(self).load_store.load_count() == old(self).load_store.load_count(),
            final(self).content_len() == old(self).content_len(),
            forall|p: int| #![trigger final(self).content_at(p)]
                0 <= p < old(self).content_len() ==> final(self).content_at(p) == old(
                    self,
                ).content_at(p),
            final(self).bs().len() >= old(self).bs().len(),
            final(self).bs().len() <= old(self).content_len(),
            forall|p: int| #![trigger final(self).bs()[p]]
                0 <= p < old(self).bs().len() && !old(self).dirty_covers(p) ==> final(self).bs()[p]
                    == old(self).bs()[p],
            forall|kk: u64| #[trigger] final(self).cached(kk) == old(self).cached(kk),
            forall|kk: u64| #![trigger final(self).chunk_at(kk)]
                old(self).cached(kk) ==> final(self).chunk_at(kk).like(old(self).chunk_at(kk))
                    && (final(self).chunk_at(kk).is_dirty() ==> old(self).chunk_at(
                    kk,
                ).is_dirty()),
            dirty_count(old(self).chunks@) == 0 ==> r is Ok && *final(self) == *old(self),
            match r {
                Ok(_) => {
                    &&& forall|t: int|
                        0 <= t < final(self).chunks@.len() ==> !(
                        #[trigger] final(self).chunks@[t]).1.is_dirty()
                    &&& final(self).load_store.store_count() == sat_add(
                        old(self).load_store.store_count(),
                        dirty_count(old(self).chunks@),
                    )
                    &&& final(self).bs().len() == old(self).content_len()
                    &&& forall|p: int|
                        0 <= p < old(self).content_len() ==> #[trigger] final(self).bs()[p] == old(
                            self,
                        ).content_at(p)
                },
                Err(e) => {
                    &&& e is Store
                    &&& match e {
                        BufferError::Store { chunk_index } => final(self).cached(chunk_index)
                            && final(self).chunk_at(chunk_index).is_dirty(),
                        _ => false,
                    }
                },
            },
    {
        let ghost ms0 = *old(self);
        let ghost c0 = old(self).load_store.store_count();
        let n = self.chunks.len();
        let mut i: usize = 0;
        while i < n
            invariant
                ms0 == *old(self),
                c0 == old(self).load_store.store_count(),
                self.wf(),
                ms0.wf(),
                n == self.chunks@.len(),
                n == ms0.chunks@.len(),
                i <= n,
                self.chunk_size == ms0.chunk_size,
                forall|t: int| i <= t < n ==> #[trigger] self.chunks@[t] == ms0.chunks@[t],
                forall|t: int| 0 <= t < i ==> !(#[trigger] self.chunks@[t]).1.is_dirty(),
                forall|t: int|
                    0 <= t < n ==> (#[trigger] self.chunks@[t]).0 == ms0.chunks@[t].0
                        && self.chunks@[t].1.like(ms0.chunks@[t].1),
                forall|t: int|
                    0 <= t < n && (#[trigger] self.chunks@[t]).1.is_dirty()
                        ==> ms0.chunks@[t].1.is_dirty(),
                self.load_store.load_count() == ms0.load_store.load_count(),
                self.load_store.store_count() == sat_add(
                    c0,
                    dirty_count(ms0.chunks@.take(i as int)),
                ),
                self.content_len() == ms0.content_len(),
                forall|p: int| #![trigger self.content_at(p)]
                    0 <= p < ms0.content_len() ==> self.content_at(p) == ms0.content_at(p),
                self.bs().len() >= ms0.bs().len(),
                self.bs().len() <= ms0.content_len(),
                forall|p: int| #![trigger self.bs()[p]]
                    0 <= p < ms0.bs().len() && !ms0.dirty_covers(p) ==> self.bs()[p]
                        == ms0.bs()[p],
                forall|t: int|
                    0 <= t < i && (#[trigger] ms0.chunks@[t]).1.is_dirty() ==> self.bs().len()
                        >= entry_end(ms0.chunks@[t], ms0.cs()),
                dirty_count(ms0.chunks@) == 0 ==> *self == ms0,
            decreases n - i,
        {
            let ghost pre = *self;
            let fres = self.flush_at(i);
            match fres {
                Ok(_) => {},
                Err(e) => {
                    proof {
                        assert(pre.chunks@[i as int].1.is_dirty());
                        assert(ms0.chunks@[i as int].1.is_dirty());
                        if dirty_count(ms0.chunks@) == 0 {
                            lemma_dirty_count_zero(ms0.chunks@);
                            assert(false);
                        }
                        assert(self.chunks@ == pre.chunks@);
                        let ci = pre.chunks@[i as int].0;
                        lemma_sk_at_index(self.chunks@, i as int, ci);
                        assert(self.cached(ci) && self.chunk_at(ci).is_dirty());
                        assert forall|p: int| #![trigger self.content_at(p)]
                            0 <= p < ms0.content_len() implies self.content_at(p)
                            == ms0.content_at(p) by {
                            assert(pre.content_at(p) == ms0.content_at(p));
                        }
                        lemma_lookup_like(ms0.chunks@, self.chunks@);
                    }
                    return Err(e);
                },
            }
            proof {
                lemma_dirty_count_take(ms0.chunks@, i as int);
                if pre.chunks@[i as int].1.is_dirty() {
                    assert(self.load_store.store_count() == sat_inc(
                        sat_add(c0, dirty_count(ms0.chunks@.take(i as int))),
                    ));
                } else {
                    assert(!ms0.chunks@[i as int].1.is_dirty()) by {
                        assert(pre.chunks@[i as int] == ms0.chunks@[i as int]);
                    }
                }
                assert forall|p: int| #![trigger self.content_at(p)]
                    0 <= p < ms0.content_len() implies self.content_at(p) == ms0.content_at(
                    p,
                ) by {
                    assert(pre.content_at(p) == ms0.content_at(p));
                }
                if dirty_count(ms0.chunks@) == 0 {
                    lemma_dirty_count_zero(ms0.chunks@);
                    assert(pre == ms0);
                    assert(!pre.chunks@[i as int].1.is_dirty());
                    assert(*self == ms0);
                }
            }
            i += 1;
        }
        proof {
            lemma_dirty_count_all(ms0.chunks@);
            lemma_lookup_like(ms0.chunks@, self.chunks@);
            // the persisted extent now equals the content end
            assert(self.bs().len() <= self.content_len());
            assert(self.bs().len() >= ms0.content_len()) by {
                lemma_extent_witness(ms0.chunks@, ms0.cs());
                lemma_extent_nonneg(ms0.chunks@, ms0.cs());
                if ms0.content_len() > ms0.bs().len() {
                    let t = choose|t: int|
                        0 <= t < ms0.chunks@.len() && entry_end(#[trigger] ms0.chunks@[t], ms0.cs())
                            == cache_extent(ms0.chunks@, ms0.cs());
                    assert(ms0.entry_wf(ms0.chunks@[t]));
                    if ms0.chunks@[t].1.is_dirty() {
                        assert(self.bs().len() >= entry_end(ms0.chunks@[t], ms0.cs()));
                    } else {
                        match ms0.chunks@[t].1 {
                            Chunk::Loaded { data, .. } => {
                                assert(entry_end(ms0.chunks@[t], ms0.cs()) <= ms0.bs().len());
                            },
                            Chunk::Empty => {},
                        }
                    }
                }
            }
            assert(self.bs().len() == ms0.content_len());
            // and the persisted bytes equal the content
            assert forall|p: int|
                0 <= p < ms0.content_len() implies #[trigger] self.bs()[p] == ms0.content_at(
                p,
            ) by {
                assert(self.content_at(p) == ms0.content_at(p));
                self.lemma_content_len_bound();
                lemma_chunk_of(p, self.cs());
                let kd = (p / self.cs()) as u64;
                if self.cached(kd) && self.chunk_at(kd) is Loaded && p - kd as int * self.cs()
                    < self.chunk_at(kd).spec_data().len() {
                    let t = sk_idx(self.chunks@, kd);
                    assert(0 <= t < self.chunks@.len() && self.chunks@[t].0 == kd);
                    assert(self.entry_wf(self.chunks@[t]));
                    assert(!self.chunks@[t].1.is_dirty());
                    assert(self.chunks@[t].1 == self.chunk_at(kd)) by {
                        lemma_sk_at_index(self.chunks@, t, kd);
                    }
                    match self.chunks@[t].1 {
                        Chunk::Loaded { data, .. } => {
                            assert(data@ == self.bs().subrange(
                                kd as int * self.cs(),
                                imin(
                                    kd as int * self.cs() + self.cs(),
                                    self.bs().len() as int,
                                ),
                            ));
                            assert(data@[p - kd as int * self.cs()] == self.bs()[p]);
                        },
                        Chunk::Empty => {},
                    }
                }
            }
        }
        Ok(())
    }

    /// Flush one chunk by index: if it is cached and dirty, write it back
    /// and clear its dirty flag only on success; otherwise do nothing.
    pub fn flush(&mut self, chunk_index: u64) -> (r: Result<(), BufferError>)
        requires
            old(self).wf(),
        ensures
            final(self).wf(),
            final(self).chunk_size == old(self).chunk_size,
            forall|k: u64| #[trigger] final(self).cached(k) == old(self).cached(k),
            forall|k: u64| #![trigger final(self).chunk_at(k)]
                k != chunk_index && old(self).cached(k) ==> final(self).chunk_at(k) == old(
                    self,
                ).chunk_at(k),
            old(self).cached(chunk_index) ==> final(self).chunk_at(chunk_index).like(
                old(self).chunk_at(chunk_index),
            ),
            final(self).load_store.load_count() == old(self).load_store.load_count(),
            final(self).content_len() == old(self).content_len(),
            forall|p: int| #![trigger final(self).content_at(p)]
                0 <= p < old(self).content_len() ==> final(self).content_at(p) == old(
                    self,
                ).content_at(p),
            (!old(self).cached(chunk_index) || !old(self).chunk_at(chunk_index).is_dirty())
                ==> *final(self) == *old(self) && r is Ok,
            old(self).cached(chunk_index) && old(self).chunk_at(chunk_index).is_dirty()
                ==> final(self).load_store.store_count() == sat_inc(
                old(self).load_store.store_count(),
            ),
            match r {
                Ok(_) => old(self).cached(chunk_index) ==> !final(self).chunk_at(
                    chunk_index,
                ).is_dirty(),
                Err(e) => {
                    &&& e == (BufferError::Store { chunk_index })
                    &&& final(self).chunks@ == old(self).chunks@
                    &&& final(self).bs() == old(self).bs()
                    &&& final(self).chunk_at(chunk_index).is_dirty()
                },
            },
    {
        let ghost ms0 = *old(self);
        let n = self.chunks.len();
        let mut j: usize = 0;
        while j < n
            invariant
                ms0 == *old(self),
                *self == ms0,
                ms0.wf(),
                n == self.chunks@.len(),
                j <= n,
                forall|t: int| 0 <= t < j ==> (#[trigger] self.chunks@[t]).0 != chunk_index,
            decreases n - j,
        {
            if self.chunks[j].0 == chunk_index {
                proof {
                    lemma_sk_at_index(self.chunks@, j as int, chunk_index);
                }
                let fres = self.flush_at(j);
                proof {
                    assert(self.chunks@ =~= ms0.chunks@.update(
                        j as int,
                        self.chunks@[j as int],
                    ));
                    lemma_sk_update(ms0.chunks@, j as int, self.chunks@[j as int]);
                    lemma_sk_at_index(self.chunks@, j as int, chunk_index);
                }
                match fres {
                    Ok(_) => {
                        return Ok(());
                    },
                    Err(e) => {
                        proof {
                            assert(self.chunks@ == ms0.chunks@);
                        }
                        return Err(e);
                    },
                }
            }
            j += 1;
        }
        proof {
            assert(!ms0.cached(chunk_index));
        }
        Ok(())
    }

    /// With no dirty chunk the content is exactly the persisted bytes.
    pub proof fn lemma_clean_content_len(&self)
        requires
            self.wf(),
            forall|t: int|
                0 <= t < self.chunks@.len() ==> !(#[trigger] self.chunks@[t]).1.is_dirty(),
        ensures
            self.content_len() == self.bs().len(),
    {
        lemma_extent_witness(self.chunks@, self.cs());
        lemma_extent_nonneg(self.chunks@, self.cs());
        if cache_extent(self.chunks@, self.cs()) != 0 {
            let i = choose|i: int|
                0 <= i < self.chunks@.len() && entry_end(#[trigger] self.chunks@[i], self.cs())
                    == cache_extent(self.chunks@, self.cs());
            assert(self.entry_wf(self.chunks@[i]));
            match self.chunks@[i].1 {
                Chunk::Loaded { data, .. } => {
                    assert(entry_end(self.chunks@[i], self.cs()) <= self.bs().len());
                },
                Chunk::Empty => {},
            }
        }
    }

    /// With every dirty chunk at or below index `h`, the content ends
    /// within chunk `h`.
    pub proof fn lemma_dirty_extent_bound(&self, h: u64)
        requires
            self.wf(),
            forall|t: int|
                0 <= t < self.chunks@.len() && (#[trigger] self.chunks@[t]).1.is_dirty()
                    ==> self.chunks@[t].0 <= h,
        ensures
            self.content_len() <= imax(self.bs().len() as int, (h as int + 1) * self.cs()),
    {
        lemma_extent_witness(self.chunks@, self.cs());
        lemma_extent_nonneg(self.chunks@, self.cs());
        if cache_extent(self.chunks@, self.cs()) != 0 {
            let i = choose|i: int|
                0 <= i < self.chunks@.len() && entry_end(#[trigger] self.chunks@[i], self.cs())
                    == cache_extent(self.chunks@, self.cs());
            assert(self.entry_wf(self.chunks@[i]));
            match self.chunks@[i].1 {
                Chunk::Loaded { data, need_store } => {
                    if need_store {
                        assert(self.chunks@[i].0 <= h);
                        assert(data@.len() <= self.cs());
                        assert(entry_end(self.chunks@[i], self.cs()) <= (self.chunks@[i].0 as int
                            + 1) * self.cs()) by (nonlinear_arith)
                            requires
                                entry_end(self.chunks@[i], self.cs()) == self.chunks@[i].0 as int
                                    * self.cs() + data@.len(),
                                data@.len() <= self.cs(),
                        ;
                        assert((self.chunks@[i].0 as int + 1) * self.cs() <= (h as int + 1)
                            * self.cs()) by (nonlinear_arith)
                            requires
                                self.chunks@[i].0 as int + 1 <= h as int + 1,
                                self.cs() > 0,
                        ;
                    } else {
                        assert(entry_end(self.chunks@[i], self.cs()) <= self.bs().len());
                    }
                },
                Chunk::Empty => {},
            }
        }
    }

    /// Outside every dirty chunk's bytes, the content is the persisted
    /// byte.
    pub proof fn lemma_content_at_clean(&self, p: int)
        requires
            self.wf(),
            0 <= p < self.bs().len(),
            !self.dirty_covers(p),
        ensures
            self.content_at(p) == self.bs()[p],
    {
        self.load_store.contents_bounded();
        lemma_chunk_of(p, self.cs());
        let k = (p / self.cs()) as u64;
        if self.cached(k) && self.chunk_at(k) is Loaded && p - k as int * self.cs()
            < self.chunk_at(k).spec_data().len() {
            let t = sk_idx(self.chunks@, k);
            assert(0 <= t < self.chunks@.len() && self.chunks@[t].0 == k);
            lemma_sk_at_index(self.chunks@, t, k);
            assert(self.entry_wf(self.chunks@[t]));
            assert(!self.chunks@[t].1.is_dirty());
            match self.chunks@[t].1 {
                Chunk::Loaded { data, .. } => {
                    assert(data@ == self.bs().subrange(
                        k as int * self.cs(),
                        imin(k as int * self.cs() + self.cs(), self.bs().len() as int),
                    ));
                    assert(data@[p - k as int * self.cs()] == self.bs()[p]);
                },
                Chunk::Empty => {},
            }
        }
    }

    /// The cached chunk for `chunk_index`, without loading: `None` when it
    /// is not cached.
    pub fn peek(&self, chunk_index: u64) -> (r: Option<&Chunk>)
        requires
            self.wf(),
        ensures
            match r {
                Some(c) => self.cached(chunk_index) && *c == self.chunk_at(chunk_index),
                None => !self.cached(chunk_index),
            },
    {
        let n = self.chunks.len();
        let mut j: usize = 0;
        while j < n
            invariant
                self.wf(),
                n == self.chunks@.len(),
                j <= n,
                forall|t: int| 0 <= t < j ==> (#[trigger] self.chunks@[t]).0 != chunk_index,
            decreases n - j,
        {
            if self.chunks[j].0 == chunk_index {
                proof {
                    lemma_sk_at_index(self.chunks@, j as int, chunk_index);
                }
                return Some(&self.chunks[j].1);
            }
            j += 1;
        }
        None
    }

    /// Evict one chunk from the cache, flushing it first when it is dirty
    /// so that no mutated data is ever silently discarded. On a store
    /// failure the chunk stays cached and dirty.
    pub fn evict(&mut self, chunk_index: u64) -> (r: Result<(), BufferError>)
        requires
            old(self).wf(),
        ensures
            final(self).wf(),
            final(self).chunk_size == old(self).chunk_size,
            final(self).content_len() == old(self).content_len(),
            forall|p: int| #![trigger final(self).content_at(p)]
                0 <= p < old(self).content_len() ==> final(self).content_at(p) == old(
                    self,
                ).content_at(p),
            final(self).load_store.load_count() == old(self).load_store.load_count(),
            !old(self).cached(chunk_index) ==> *final(self) == *old(self) && r is Ok,
            (!old(self).cached(chunk_index) || !old(self).chunk_at(chunk_index).is_dirty())
                ==> final(self).load_store.store_count() == old(self).load_store.store_count()
                && final(self).bs() == old(self).bs() && r is Ok,
            old(self).cached(chunk_index) && old(self).chunk_at(chunk_index).is_dirty() ==> final(self).load_store.store_count() == sat_inc(old(self).load_store.store_count()),
            r is Ok ==> !final(self).cached(chunk_index),
            forall|k: u64| #![trigger final(self).cached(k)]
                k != chunk_index ==> final(self).cached(k) == old(self).cached(k),
            forall|k: u64| #![trigger final(self).chunk_at(k)]
                k != chunk_index && old(self).cached(k) ==> final(self).chunk_at(k) == old(
                    self,
                ).chunk_at(k),
            r is Err ==> final(self).chunks@ == old(self).chunks@ && final(self).bs() == old(
                self,
            ).bs() && final(self).chunk_at(chunk_index).is_dirty(),
    {
        let ghost ms0 = *old(self);
        match self.flush(chunk_index) {
            Ok(_) => {},
            Err(e) => {
                return Err(e);
            },
        }
        let ghost mid = *self;
        let n = self.chunks.len();
        let mut j: usize = 0;
        let mut at: Option<usize> = None;
        while j < n
            invariant
                mid == *self,
                n == self.chunks@.len(),
                j <= n,
                match at {
                    Some(t) => t < n && self.chunks@[t as int].0 == chunk_index,
                    None => forall|t: int|
                        0 <= t < j ==> (#[trigger] self.chunks@[t]).0 != chunk_index,
                },
            decreases n - j,
        {
            if self.chunks[j].0 == chunk_index {
                at = Some(j);
                j = n;
            } else {
                j += 1;
            }
        }
        match at {
            None => {
                proof {
                    assert(!mid.cached(chunk_index));
                }
                Ok(())
            },
            Some(j) => {
                proof {
                    lemma_sk_at_index(mid.chunks@, j as int, chunk_index);
                    assert(mid.cached(chunk_index));
                    assert(ms0.cached(chunk_index));
                    assert(!mid.chunks@[j as int].1.is_dirty());
                }
                let ghost jj = j as int;
                self.chunks.remove(j);
                proof {
                    let s = mid.chunks@;
                    let s2 = self.chunks@;
                    assert(s2 == s.remove(jj));
                    lemma_sk_remove(s, jj);
                    lemma_extent_remove(s, mid.cs(), jj);
                    lemma_extent_nonneg(s2, mid.cs());
                    mid.load_store.contents_bounded();
                    // the removed chunk was clean, so the content keeps
                    // both its length and its bytes
                    assert(mid.entry_wf(s[jj]));
                    assert(self.content_len() == mid.content_len()) by {
                        if cache_extent(s, mid.cs()) > mid.bs().len() {
                            lemma_extent_witness(s, mid.cs());
                            let i = choose|i: int|
                                0 <= i < s.len() && entry_end(#[trigger] s[i], mid.cs())
                                    == cache_extent(s, mid.cs());
                            assert(mid.entry_wf(s[i]));
                            assert(i != jj) by {
                                match s[jj].1 {
                                    Chunk::Loaded { data, need_store } => {
                                        assert(entry_end(s[jj], mid.cs()) <= mid.bs().len());
                                    },
                                    Chunk::Empty => {},
                                }
                            }
                            let i2 = if i < jj {
                                i
                            } else {
                                i - 1
                            };
                            assert(s2[i2] == s[i]);
                            lemma_extent_bound(s2, mid.cs(), i2);
                        }
                    }
                    assert forall|i: int|
                        0 <= i < s2.len() implies self.entry_wf(#[trigger] s2[i]) by {
                        let i0 = if i < jj {
                            i
                        } else {
                            i + 1
                        };
                        assert(s2[i] == s[i0]);
                        assert(mid.entry_wf(s[i0]));
                    }
                    assert forall|p: int|
                        self.bs().len() <= p < self.content_len() implies
                        #[trigger] self.dirty_covers(p) by {
                        assert(mid.dirty_covers(p));
                        mid.lemma_content_len_bound();
                        lemma_chunk_of(p, mid.cs());
                        let kd = (p / mid.cs()) as u64;
                        assert(kd != chunk_index);
                    }
                    assert(self.wf());
                    assert forall|k: u64| #![trigger self.cached(k)]
                        k != chunk_index implies self.cached(k) == ms0.cached(k) by {
                        assert(sk_has(s2, k) == (sk_has(s, k) && k != s[jj].0));
                        assert(mid.cached(k) == ms0.cached(k));
                    }
                    assert forall|k: u64| #![trigger self.chunk_at(k)]
                        k != chunk_index && ms0.cached(k) implies self.chunk_at(k)
                        == ms0.chunk_at(k) by {
                        assert(mid.cached(k) == ms0.cached(k));
                        assert(sk_has(s, k) && k != s[jj].0);
                        assert(sk_at(s2, k) == sk_at(s, k));
                        assert(mid.chunk_at(k) == ms0.chunk_at(k));
                    }
                    assert forall|p: int| #![trigger self.content_at(p)]
                        0 <= p < mid.content_len() implies self.content_at(p) == mid.content_at(
                        p,
                    ) by {
                        mid.lemma_content_len_bound();
                        lemma_chunk_of(p, mid.cs());
                        let kd = (p / mid.cs()) as u64;
                        if kd == chunk_index {
                            assert(!sk_has(s2, kd));
                            if mid.cached(kd) && mid.chunk_at(kd) is Loaded && p - kd as int
                                * mid.cs() < mid.chunk_at(kd).spec_data().len() {
                                assert(!mid.chunk_at(kd).is_dirty());
                                mid.lemma_content_at_clean(p);
                                assert(p < mid.bs().len()) by {
                                    match mid.chunk_at(kd) {
                                        Chunk::Loaded { data, need_store } => {
                                            assert(data@.len() == imin(
                                                kd as int * mid.cs() + mid.cs(),
                                                mid.bs().len() as int,
                                            ) - kd as int * mid.cs());
                                        },
                                        Chunk::Empty => {},
                                    }
                                }
                            }
                        } else {
                            assert(sk_has(s2, kd) == sk_has(s, kd));
                            if sk_has(s, kd) {
                                assert(sk_at(s2, kd) == sk_at(s, kd));
                            }
                        }
                    }
                }
                Ok(())
            },
        }
    }

    /// Tear the cache down, handing the backing store back to the caller.
    pub fn into_load_store(self) -> (r: L)
        ensures
            r == self.load_store,
    {
        let Memstore { chunks: _, chunk_size: _, load_store } = self;
        load_store
    }
}

} // verus!
