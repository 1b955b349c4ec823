//! Gossip suppression: envelopes that a node sent itself, or has already
//! seen, are dropped; relayed envelopes lose one hop.
use lru::LruCache;
use std::num::NonZeroUsize;
use vstd::prelude::*;

verus! {

#[verifier::external_type_specification]
#[verifier::external_body]
#[verifier::reject_recursive_types(K)]
#[verifier::reject_recursive_types(V)]
#[verifier::reject_recursive_types(S)]
pub struct ExLruCache<K, V, S>(lru::LruCache<K, V, S>);

#[verifier::external_type_specification]
#[verifier::external_body]
pub struct ExDefaultHasher(lru::DefaultHasher);

/// The envelope identifiers a cache of recently seen ones holds.
pub uninterp spec fn seen_ids(c: LruCache<u128, ()>) -> Set<u128>;

/// How many identifiers the cache was made to hold.
pub uninterp spec fn seen_capacity(c: LruCache<u128, ()>) -> nat;

/// How many recently seen identifiers a node remembers.
pub const SEEN_CAPACITY: usize = 4096;

/// How many hops a fresh envelope may travel.
pub const DEFAULT_TTL: u8 = 8;

/// Relies on `lru::LruCache::new`: an empty cache of the given capacity.
#[verifier::external_body]
fn seen_cache(cap: usize) -> (r: LruCache<u128, ()>)
    requires
        cap > 0,
    ensures
        seen_ids(r) == Set::<u128>::empty(),
        seen_capacity(r) == cap,
{
    LruCache::new(NonZeroUsize::new(cap).unwrap())
}

/// Relies on `lru::LruCache::contains`.
#[verifier::external_body]
fn seen_contains_id(c: &LruCache<u128, ()>, id: u128) -> (r: bool)
    ensures
        r == seen_ids(*c).contains(id),
{
    c.contains(&id)
}

/// Relies on `lru::LruCache::put`: a key already held keeps the key set as
/// it is; a new key joins it, and only when the cache is full is one held
/// key (the least recently used) evicted to make room.
#[verifier::external_body]
fn seen_put(c: &mut LruCache<u128, ()>, id: u128)
    ensures
        seen_capacity(*final(c)) == seen_capacity(*old(c)),
        seen_ids(*old(c)).finite() ==> seen_ids(*final(c)).finite(),
        seen_ids(*old(c)).contains(id) ==> seen_ids(*final(c)) == seen_ids(*old(c)),
        !seen_ids(*old(c)).contains(id) && seen_ids(*old(c)).len() < seen_capacity(*old(c))
            ==> seen_ids(*final(c)) == seen_ids(*old(c)).insert(id),
        !seen_ids(*old(c)).contains(id) && seen_ids(*old(c)).len() >= seen_capacity(*old(c))
            ==> exists|e: u128| #[trigger] seen_ids(*old(c)).contains(e) && seen_ids(*final(c)) == seen_ids(
            *old(c),
        ).remove(e).insert(id),
{
    c.put(id, ());
}

/// What a node needs to drop repeated gossip.
pub struct GossipFilter {
    self_id: String,
    seen: LruCache<u128, ()>,
}

impl GossipFilter {
    /// The node's own identifier.
    pub closed spec fn owner(&self) -> Seq<char> {
        self.self_id@
    }

    /// The identifiers it remembers.
    pub closed spec fn remembered(&self) -> Set<u128> {
        seen_ids(self.seen)
    }

    /// It remembers finitely many identifiers, at most `SEEN_CAPACITY`.
    pub closed spec fn wf(&self) -> bool {
        &&& seen_capacity(self.seen) == SEEN_CAPACITY
        &&& seen_ids(self.seen).finite()
        &&& seen_ids(self.seen).len() <= SEEN_CAPACITY
    }

    /// A filter for the node `self_id` that has seen nothing yet.
    pub fn new(self_id: String) -> (r: GossipFilter)
        ensures
            r.wf(),
            r.owner() == self_id@,
            r.remembered() == Set::<u128>::empty(),
    {
        GossipFilter { self_id, seen: seen_cache(SEEN_CAPACITY) }
    }

    /// Records `id` and says whether it is new.
    pub fn track_if_new(&mut self, id: u128) -> (r: bool)
        requires
            old(self).wf(),
        ensures
            final(self).wf(),
            r == !old(self).remembered().contains(id),
            final(self).remembered().contains(id),
            !r ==> final(self).remembered() == old(self).remembered(),
            r && old(self).remembered().len() < SEEN_CAPACITY ==> final(self).remembered()
                == old(self).remembered().insert(id),
            r && old(self).remembered().len() >= SEEN_CAPACITY ==> exists|e: u128|
                #[trigger] old(self).remembered().contains(e) && final(self).remembered()
                    == old(self).remembered().remove(e).insert(id),
            r ==> final(self).remembered().len() == if old(self).remembered().len() < SEEN_CAPACITY {
                old(self).remembered().len() + 1
            } else {
                SEEN_CAPACITY as nat
            },
            final(self).owner() == old(self).owner(),
    {
        if seen_contains_id(&self.seen, id) {
            false
        } else {
            let ghost before = seen_ids(self.seen);
            seen_put(&mut self.seen, id);
            proof {
                if before.len() >= SEEN_CAPACITY {
                    let e = choose|e: u128| #[trigger] before.contains(e) && seen_ids(self.seen)
                        == before.remove(e).insert(id);
                    assert(before.remove(e).len() == before.len() - 1);
                    assert(!before.remove(e).contains(id));
                }
            }
            true
        }
    }

    /// Whether an envelope from `origin` with identifier `id` is to be
    /// handled: not one of the node's own, and not seen before. The
    /// identifier of another node's envelope is remembered.
    pub fn accept_envelope(&mut self, origin: &String, id: u128) -> (r: bool)
        requires
            old(self).wf(),
        ensures
            final(self).wf(),
            !r ==> final(self).remembered() == old(self).remembered(),
            r == (origin@ != old(self).owner() && !old(self).remembered().contains(id)),
            origin@ != old(self).owner() ==> final(self).remembered().contains(id),
            final(self).owner() == old(self).owner(),
    {
        if *origin == self.self_id {
            return false;
        }
        self.track_if_new(id)
    }
}

/// The hop count an accepted envelope is passed on with, if any hops remain.
pub fn relay_ttl(ttl: u8) -> (r: Option<u8>)
    ensures
        ttl > 1 ==> r == Some((ttl - 1) as u8),
        ttl <= 1 ==> r.is_none(),
{
    if ttl > 1 {
        Some(ttl - 1)
    } else {
        None
    }
}

} // verus!
