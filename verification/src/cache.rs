//! The shared chunk cache: a bounded LRU from chunk position to chunk.
//!
//! The cache itself comes from the `lru` crate; the contracts below
//! state what its operations do to the mapping it holds, and the
//! [`ChunkCache`] wrapper keeps the invariant that every stored grid
//! has a chunk's shape.

use vstd::prelude::*;
use crate::chunk::{Chunk, CHUNK_VOLUME};
use crate::pos::ChunkPos;

verus! {

#[verifier::external_type_specification]
#[verifier::external_body]
#[verifier::reject_recursive_types(K)]
#[verifier::reject_recursive_types(V)]
#[verifier::reject_recursive_types(S)]
pub struct ExLruCache<K, V, S>(lru::LruCache<K, V, S>);

/// What the cache holds: chunk grids by position.
pub uninterp spec fn lru_contents(c: lru::LruCache<(i32, i32), Chunk>) -> Map<
    (int, int),
    Seq<u16>,
>;

/// The bound the cache was created with.
pub uninterp spec fn lru_bound(c: lru::LruCache<(i32, i32), Chunk>) -> nat;

/// The map key of a cache key.
pub open spec fn key_of(k: (i32, i32)) -> (int, int) {
    (k.0 as int, k.1 as int)
}

/// Relies on lru::LruCache::new: a fresh cache with the given bound
/// holds nothing.
#[verifier::external_body]
fn lru_new(cap: usize) -> (c: lru::LruCache<(i32, i32), Chunk>)
    requires
        cap >= 1,
    ensures
        forall|k: (int, int)| !lru_contents(c).contains_key(k),
        lru_bound(c) == cap,
{
    lru::LruCache::new(std::num::NonZeroUsize::new(cap).unwrap())
}

/// Relies on lru::LruCache::get: a hit hands back the stored value and
/// changes only the recency order, never the contents.
#[verifier::external_body]
fn lru_get(c: &mut lru::LruCache<(i32, i32), Chunk>, k: (i32, i32)) -> (r: Option<Chunk>)
    ensures
        lru_contents(*final(c)) == lru_contents(*old(c)),
        lru_bound(*final(c)) == lru_bound(*old(c)),
        match r {
            Some(ch) => lru_contents(*old(c)).contains_key(key_of(k)) && ch@ == lru_contents(
                *old(c))[key_of(k)],
            None => !lru_contents(*old(c)).contains_key(key_of(k)),
        },
{
    c.get(&k).cloned()
}

/// Relies on lru::LruCache::push: the value replaces the entry at its
/// key, or joins the cache; the least-recently-used entry leaves only
/// when the cache is full and the key is new, and comes back out.
#[verifier::external_body]
fn lru_push(c: &mut lru::LruCache<(i32, i32), Chunk>, k: (i32, i32), v: &Chunk) -> (r: Option<
    ((i32, i32), Chunk),
>)
    ensures
        lru_bound(*final(c)) == lru_bound(*old(c)),
        match r {
            None => {
                &&& !lru_contents(*old(c)).contains_key(key_of(k))
                &&& lru_contents(*old(c)).len() < lru_bound(*old(c))
                &&& lru_contents(*final(c)) == lru_contents(*old(c)).insert(key_of(k), v@)
            },
            Some((ek, ev)) => {
                ||| {
                    &&& key_of(ek) == key_of(k)
                    &&& lru_contents(*old(c)).contains_key(key_of(k))
                    &&& ev@ == lru_contents(*old(c))[key_of(k)]
                    &&& lru_contents(*final(c)) == lru_contents(*old(c)).insert(key_of(k), v@)
                }
                ||| {
                    &&& key_of(ek) != key_of(k)
                    &&& !lru_contents(*old(c)).contains_key(key_of(k))
                    &&& lru_contents(*old(c)).contains_key(key_of(ek))
                    &&& lru_contents(*old(c)).len() == lru_bound(*old(c))
                    &&& ev@ == lru_contents(*old(c))[key_of(ek)]
                    &&& lru_contents(*final(c)) == lru_contents(*old(c)).remove(
                        key_of(ek)).insert(key_of(k), v@)
                }
            },
        },
{
    c.push(k, v.clone())
}

/// Relies on lru::LruCache::clear: pops entries until none is left.
#[verifier::external_body]
fn lru_clear(c: &mut lru::LruCache<(i32, i32), Chunk>)
    ensures
        forall|k: (int, int)| !lru_contents(*final(c)).contains_key(k),
        lru_bound(*final(c)) == lru_bound(*old(c)),
{
    c.clear()
}

/// Relies on lru::LruCache::len: the number of entries held.
#[verifier::external_body]
fn lru_len(c: &lru::LruCache<(i32, i32), Chunk>) -> (r: usize)
    ensures
        r == lru_contents(*c).len(),
{
    c.len()
}

/// The chunk cache shared by the worker pool: chunk position to chunk,
/// least-recently-used entry evicted at the bound.
pub struct ChunkCache {
    inner: lru::LruCache<(i32, i32), Chunk>,
}

impl View for ChunkCache {
    type V = Map<(int, int), Seq<u16>>;

    closed spec fn view(&self) -> Map<(int, int), Seq<u16>> {
        lru_contents(self.inner)
    }
}

impl ChunkCache {
    /// The capacity the cache was created with.
    pub closed spec fn bound(self) -> nat {
        lru_bound(self.inner)
    }

    /// Every cached grid has a chunk's shape, and the mapping is a
    /// finite one.
    pub open spec fn wf(self) -> bool {
        &&& self@.dom().finite()
        &&& forall|k: (int, int)| self@.contains_key(k) ==> (#[trigger] self@[k]).len()
            == CHUNK_VOLUME
        &&& self.bound() >= 1
    }

    pub fn new(capacity: usize) -> (r: ChunkCache)
        requires
            capacity >= 1,
        ensures
            r.wf(),
            r@ == Map::<(int, int), Seq<u16>>::empty(),
            r.bound() == capacity,
    {
        let inner = lru_new(capacity);
        proof {
            assert(lru_contents(inner).dom() =~= Set::<(int, int)>::empty());
            assert(lru_contents(inner) =~= Map::<(int, int), Seq<u16>>::empty());
        }
        ChunkCache { inner }
    }

    /// The cached chunk at `pos`, promoted to most recently used, or
    /// nothing.  The contents do not change.
    pub fn get(&mut self, pos: &ChunkPos) -> (r: Option<Chunk>)
        requires
            old(self).wf(),
        ensures
            final(self).wf(),
            final(self)@ == old(self)@,
            final(self).bound() == old(self).bound(),
            match r {
                Some(ch) => {
                    &&& old(self)@.contains_key(pos.key())
                    &&& ch@ == old(self)@[pos.key()]
                    &&& ch.wf()
                },
                None => !old(self)@.contains_key(pos.key()),
            },
    {
        lru_get(&mut self.inner, (pos.x, pos.z))
    }

    /// Stores a chunk at `pos`.  When the cache is below its bound, or
    /// the position is already cached, nothing is evicted; otherwise
    /// the least-recently-used entry makes room.
    pub fn insert(&mut self, pos: &ChunkPos, chunk: &Chunk)
        requires
            old(self).wf(),
            chunk.wf(),
        ensures
            final(self).wf(),
            final(self).bound() == old(self).bound(),
            final(self)@.contains_key(pos.key()),
            final(self)@[pos.key()] == chunk@,
            old(self)@.len() < old(self).bound() || old(self)@.contains_key(pos.key())
                ==> final(self)@ == old(self)@.insert(pos.key(), chunk@),
            final(self)@ == old(self)@.insert(pos.key(), chunk@) || exists|ek: (int, int)|
                {
                    &&& old(self)@.contains_key(ek)
                    &&& ek != pos.key()
                    &&& #[trigger] final(self)@ == old(self)@.remove(ek).insert(
                        pos.key(), chunk@)
                },
    {
        let r = lru_push(&mut self.inner, (pos.x, pos.z), chunk);
        proof {
            let key = pos.key();
            match r {
                None => {},
                Some((ek, ev)) => {
                    if key_of(ek) != key {
                        assert(self@ == old(self)@.remove(key_of(ek)).insert(key, chunk@));
                    }
                },
            }
        }
    }

    /// Drops every cached chunk.
    pub fn clear(&mut self)
        requires
            old(self).wf(),
        ensures
            final(self).wf(),
            final(self)@ == Map::<(int, int), Seq<u16>>::empty(),
            final(self).bound() == old(self).bound(),
    {
        lru_clear(&mut self.inner);
        proof {
            assert(self@.dom() =~= Set::<(int, int)>::empty());
            assert(self@ =~= Map::<(int, int), Seq<u16>>::empty());
        }
    }

    /// The number of cached chunks.
    pub fn len(&self) -> (r: usize)
        requires
            self.wf(),
        ensures
            r == self@.len(),
    {
        lru_len(&self.inner)
    }
}

} // verus!
