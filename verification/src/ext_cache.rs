//! The least-recently-used cache (the `lru` crate) that keeps the extended
//! data matrix of recently queried blocks, behind trusted items whose
//! contracts state what the crate's source shows.
use vstd::prelude::*;
use lru::LruCache;
use crate::kate::crypto::scalars_view;

verus! {

#[verifier::external_type_specification]
#[verifier::external_body]
#[verifier::reject_recursive_types(K)]
#[verifier::reject_recursive_types(V)]
#[verifier::reject_recursive_types(S)]
pub struct ExLruCache<K, V, S>(LruCache<K, V, S>);

#[verifier::external_type_specification]
#[verifier::external_body]
pub struct ExLruDefaultHasher(lru::DefaultHasher);

/// A cached block: its extended data matrix and the rows, columns and
/// chunk size it was built with.
pub type CachedExt = (Vec<[u8; 32]>, usize, usize, usize);

/// The plain values of a cached block.
pub open spec fn cached_view(v: CachedExt) -> (Seq<Seq<u8>>, usize, usize, usize) {
    (scalars_view(v.0@), v.1, v.2, v.3)
}

/// What the cache holds: block hash to cached block.
pub uninterp spec fn ext_cache_contents(c: LruCache<[u8; 32], CachedExt>) -> Map<Seq<u8>, (Seq<Seq<u8>>, usize, usize, usize)>;

/// How many blocks the cache holds at most.
pub uninterp spec fn ext_cache_capacity(c: LruCache<[u8; 32], CachedExt>) -> nat;

/// The keys the cache holds, from the most to the least recently used.
pub uninterp spec fn ext_cache_order(c: LruCache<[u8; 32], CachedExt>) -> Seq<Seq<u8>>;

/// Whether `order` lists each key of `keys` once, and nothing else.
pub open spec fn order_lists(order: Seq<Seq<u8>>, keys: Set<Seq<u8>>) -> bool {
    &&& order.no_duplicates()
    &&& forall|k: Seq<u8>| keys.contains(k) <==> order.contains(k)
}

/// `order` with `key` moved to its front.
pub open spec fn move_to_front(order: Seq<Seq<u8>>, key: Seq<u8>) -> Seq<Seq<u8>> {
    seq![key] + order.filter(|x: Seq<u8>| x != key)
}

/// `LruCache::new` (lru): an empty cache that holds at most `cap` entries.
#[verifier::external_body]
pub(crate) fn new_ext_cache(cap: usize) -> (res: LruCache<[u8; 32], CachedExt>)
    requires
        cap > 0,
    ensures
        ext_cache_contents(res).dom().is_empty(),
        ext_cache_capacity(res) == cap,
        ext_cache_order(res) == Seq::<Seq<u8>>::empty(),
{
    LruCache::new(std::num::NonZeroUsize::new(cap).unwrap())
}

/// `LruCache::contains` (lru): whether the cache holds `key`; the cache is
/// left as it was.
#[verifier::external_body]
pub(crate) fn ext_cache_contains(c: &LruCache<[u8; 32], CachedExt>, key: &[u8; 32]) -> (res: bool)
    ensures
        res == ext_cache_contents(*c).dom().contains(key@),
{
    c.contains(key)
}

/// `LruCache::put` (lru): the cache then holds `value` under `key`, the
/// most recently used. The source replaces the value of a key it holds and
/// moves the key to the front; otherwise, when full, it evicts the least
/// recently used entry (the last in the order) before inserting at the
/// front. Every other entry stays as it was, and the order and the map keep
/// holding the same keys.
#[verifier::external_body]
pub(crate) fn ext_cache_put(c: &mut LruCache<[u8; 32], CachedExt>, key: [u8; 32], value: CachedExt)
    requires
        ext_cache_contents(*old(c)).dom().finite(),
        ext_cache_contents(*old(c)).dom().len() <= ext_cache_capacity(*old(c)),
        order_lists(ext_cache_order(*old(c)), ext_cache_contents(*old(c)).dom()),
    ensures
        ext_cache_capacity(*final(c)) == ext_cache_capacity(*old(c)),
        order_lists(ext_cache_order(*final(c)), ext_cache_contents(*final(c)).dom()),
        ({
            let before = ext_cache_contents(*old(c));
            let after = ext_cache_contents(*final(c));
            let o = ext_cache_order(*old(c));
            let o2 = ext_cache_order(*final(c));
            if before.dom().contains(key@) {
                after == before.insert(key@, cached_view(value)) && o2 == move_to_front(o, key@)
            } else if before.dom().len() < ext_cache_capacity(*old(c)) {
                after == before.insert(key@, cached_view(value)) && o2 == seq![key@] + o
            } else {
                after == before.remove(o.last()).insert(key@, cached_view(value)) && o2 == seq![key@]
                    + o.drop_last()
            }
        }),
{
    c.put(key, value);
}

/// `LruCache::get` (lru), with the value cloned: the value held under
/// `key`, if any. The source moves a key it holds to the front of the order
/// and changes nothing else.
#[verifier::external_body]
pub(crate) fn ext_cache_get(c: &mut LruCache<[u8; 32], CachedExt>, key: &[u8; 32]) -> (res: Option<CachedExt>)
    ensures
        ext_cache_contents(*final(c)) == ext_cache_contents(*old(c)),
        ext_cache_order(*final(c)) == (if ext_cache_contents(*old(c)).dom().contains(key@) {
            move_to_front(ext_cache_order(*old(c)), key@)
        } else {
            ext_cache_order(*old(c))
        }),
        order_lists(ext_cache_order(*old(c)), ext_cache_contents(*old(c)).dom()) ==> order_lists(
            ext_cache_order(*final(c)),
            ext_cache_contents(*final(c)).dom(),
        ),
        ext_cache_capacity(*final(c)) == ext_cache_capacity(*old(c)),
        res.is_some() == ext_cache_contents(*old(c)).dom().contains(key@),
        res matches Some(v) ==> cached_view(v) == ext_cache_contents(*old(c))[key@],
{
    c.get(key).cloned()
}

} // verus!
