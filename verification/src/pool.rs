//! The list storage of `cranelift_entity`, as seen by the verified code.
//!
//! `ListPool` and `EntityList` are opaque to Verus. What a list holds in a pool is named by
//! `list_words`, whether the list belongs to the pool by `list_in_pool`, and the length of the
//! pool's memory by `pool_len`. The wrappers
//! below are the only places where the outside crate is called; each states what the crate's
//! source shows about the call.
use cranelift_entity::packed_option::ReservedValue;
use cranelift_entity::EntityList;
use cranelift_entity::EntityRef;
use cranelift_entity::ListPool;
use vstd::prelude::*;

verus! {

/// One word of a pooled bitmap, as stored in the pool. The pool also stores list lengths and
/// free-list links in this type, through `EntityRef::new` and `EntityRef::index`.
#[derive(Debug, Copy, Clone, PartialEq, Eq)]
pub struct PooledSetValue(pub u64);

impl ReservedValue for PooledSetValue {
    /// The word with every bit set, which no bitmap word and no list length takes.
    fn reserved_value() -> (v: Self)
        ensures
            v == PooledSetValue(u64::MAX),
    {
        PooledSetValue(u64::MAX)
    }

    fn is_reserved_value(&self) -> (reserved: bool)
        ensures
            reserved == (self.0 == u64::MAX),
    {
        self.0 == u64::MAX
    }
}

impl EntityRef for PooledSetValue {
    /// The word read as a list length or free-list link.
    fn index(self) -> (i: usize)
        ensures
            i == self.0 as usize,
    {
        self.0 as usize
    }

    /// A list length or free-list link stored as a word.
    fn new(n: usize) -> (v: Self)
        ensures
            v == PooledSetValue(n as u64),
    {
        PooledSetValue(n as u64)
    }
}

/// The memory of a pool: a `cranelift_entity::ListPool` of words. Its contents are seen only
/// through `list_words` and `list_in_pool`.
#[verifier::external_body]
#[derive(Debug)]
pub struct WordPool {
    pool: ListPool<PooledSetValue>,
}

impl Clone for WordPool {
    /// Calls `ListPool::clone`, which copies the pool's memory and free lists, so every list
    /// reads in the copy as it reads in the original.
    #[verifier::external_body]
    fn clone(&self) -> (copy: Self)
        ensures
            forall|list: WordList| #[trigger] list_words(list, copy) == list_words(list, *self),
            forall|list: WordList| #[trigger] list_in_pool(list, copy) == list_in_pool(list, *self),
            pool_len(copy) == pool_len(*self),
    {
        WordPool { pool: self.pool.clone() }
    }
}

/// A handle to a list of words in a `WordPool`: a `cranelift_entity::EntityList`, which is an
/// index into the pool's memory. Copying the handle makes an alias of the same list.
#[verifier::external_body]
#[derive(Debug, Copy)]
pub struct WordList {
    list: EntityList<PooledSetValue>,
}

impl Clone for WordList {
    fn clone(&self) -> (copy: Self)
        ensures
            copy == *self,
    {
        *self
    }
}

/// The words that `list` holds in `pool`, each taken by its `u64` payload
/// (what `list.as_slice(pool)` shows).
pub uninterp spec fn list_words(list: WordList, pool: WordPool) -> Seq<u64>;

/// `list` belongs to `pool`: it is the empty list (index 0), or its index points just past the
/// length field of a block that the pool's memory holds as allocated, that is a list built by
/// `push` on this pool (or on a pool it was cloned from) and not freed since. Such a list's
/// length field and elements lie in the pool's memory, so reading it does not go out of bounds,
/// and `push` and `clear` find the block they expect.
pub uninterp spec fn list_in_pool(list: WordList, pool: WordPool) -> bool;

/// The number of words in the pool's memory (the length of the `ListPool`'s data vector, which
/// holds every block, allocated or free).
pub uninterp spec fn pool_len(pool: WordPool) -> nat;

/// `n` is a power of two.
pub open spec fn is_pow2(n: nat) -> bool
    decreases n,
{
    if n <= 1 {
        n == 1
    } else {
        n % 2 == 0 && is_pow2(n / 2)
    }
}

/// The most that one `push` onto a list of `len` words adds to the pool's memory. The empty
/// list gets a block of the smallest size class, 4 words. A list moves up a size class when
/// its new length `len + 1` is a power of two of at least 4; the new block then holds
/// `2 * (len + 1)` words. Otherwise the element goes into the list's own block. A block taken
/// from a free list adds nothing.
pub open spec fn push_growth(len: nat) -> nat {
    if len == 0 {
        4
    } else if len + 1 >= 4 && is_pow2(len + 1) {
        2 * (len + 1)
    } else {
        0
    }
}

/// The most that pushes growing a list from `from` to `to` words add to the pool's memory.
pub open spec fn growth_from_to(from: nat, to: nat) -> nat
    decreases to,
{
    if to <= from {
        0
    } else {
        growth_from_to(from, (to - 1) as nat) + push_growth((to - 1) as nat)
    }
}

/// Every list other than `changed` that belonged to `before` still belongs to `after` and holds
/// the same words there: a list's block is written only through that list.
pub open spec fn others_unchanged(changed: WordList, before: WordPool, after: WordPool) -> bool {
    forall|m: WordList|
        m != changed && #[trigger] list_in_pool(m, before) ==> list_in_pool(m, after)
            && list_words(m, after) == list_words(m, before)
}

/// Calls `ListPool::new`. The new pool has built no list yet, so the only list that belongs to
/// it is the empty one.
#[verifier::external_body]
pub(crate) fn pool_new() -> (pool: WordPool)
    ensures
        forall|list: WordList| #[trigger] list_in_pool(list, pool) ==> list_words(list, pool) == Seq::<u64>::empty(),
        pool_len(pool) == 0,
{
    WordPool { pool: ListPool::new() }
}

/// Calls `EntityList::new`. The new list has index 0, which `len_of` reads as no list at all
/// in any pool: it is the empty list of every pool.
#[verifier::external_body]
pub(crate) fn list_new() -> (list: WordList)
    ensures
        forall|pool: WordPool| #[trigger] list_words(list, pool) == Seq::<u64>::empty(),
        forall|pool: WordPool| #[trigger] list_in_pool(list, pool),
{
    WordList { list: EntityList::new() }
}

/// Calls `EntityList::len`: the number of words the list holds in the pool. A list that belongs
/// to the pool lies in its memory, so it holds no more words than the memory.
#[verifier::external_body]
pub(crate) fn list_len(list: &WordList, pool: &WordPool) -> (n: usize)
    ensures
        n == list_words(*list, *pool).len(),
        list_in_pool(*list, *pool) ==> n <= pool_len(*pool),
{
    list.list.len(&pool.pool)
}

/// Calls `EntityList::get`: the word at `index`, or `None` past the end. `get` slices the pool's
/// memory with the list's length field, hence the `requires`.
#[verifier::external_body]
pub(crate) fn list_get(list: &WordList, index: usize, pool: &WordPool) -> (w: Option<u64>)
    requires
        list_in_pool(*list, *pool),
    ensures
        w == (if index < list_words(*list, *pool).len() {
            Some(list_words(*list, *pool)[index as int])
        } else {
            None
        }),
{
    list.list.get(index, &pool.pool).map(|v| v.0)
}

/// Calls `EntityList::as_slice` and copies the words out. `as_slice` slices the pool's memory
/// with the list's length field, hence the `requires`.
#[verifier::external_body]
pub(crate) fn list_to_vec(list: &WordList, pool: &WordPool) -> (ws: Vec<u64>)
    requires
        list_in_pool(*list, *pool),
    ensures
        ws@ == list_words(*list, *pool),
{
    list.list.as_slice(&pool.pool).iter().map(|v| v.0).collect()
}

/// Calls `EntityList::get_mut` and writes `value` through the reference. `get_mut` leaves the
/// list handle as it was, and writing an element moves no block, so the list still belongs to
/// the pool; the element lies in the list's own block, so no other list changes and the pool's
/// memory keeps its length.
#[verifier::external_body]
pub(crate) fn list_set(list: &mut WordList, index: usize, value: u64, pool: &mut WordPool)
    requires
        list_in_pool(*old(list), *old(pool)),
        index < list_words(*old(list), *old(pool)).len(),
    ensures
        *final(list) == *old(list),
        list_words(*final(list), *final(pool)) == list_words(*old(list), *old(pool)).update(index as int, value),
        list_in_pool(*final(list), *final(pool)),
        others_unchanged(*old(list), *old(pool), *final(pool)),
        pool_len(*final(pool)) == pool_len(*old(pool)),
    no_unwind
{
    *list.list.get_mut(index, &mut pool.pool).unwrap() = PooledSetValue(value);
}

/// Calls `EntityList::push`, which returns the index the word was placed at. `push` finds the
/// list's block through its length field (and asserts, in debug builds, that a list with no
/// length field is the empty list), hence the first `requires`. When the list needs a new
/// block, `alloc` takes one from a free list or appends it at the end of the pool's memory,
/// so it starts at most at `pool_len`; the list's new handle is that start plus one, cut to
/// `u32`, hence the second `requires`. The pool's memory grows by at most `push_growth`, and
/// holds the list's length field and its words. A push
/// writes only into the list's block, or moves the list to a block that was free or new and
/// frees the old one; so no other list that belongs to the pool changes, and the list's new
/// handle is none of theirs.
#[verifier::external_body]
pub(crate) fn list_push(list: &mut WordList, value: u64, pool: &mut WordPool) -> (at: usize)
    requires
        list_in_pool(*old(list), *old(pool)),
        pool_len(*old(pool)) < u32::MAX,
    ensures
        at == list_words(*old(list), *old(pool)).len(),
        pool_len(*old(pool)) <= pool_len(*final(pool)) <= pool_len(*old(pool)) + push_growth(
            list_words(*old(list), *old(pool)).len(),
        ),
        list_words(*final(list), *final(pool)) == list_words(*old(list), *old(pool)).push(value),
        list_in_pool(*final(list), *final(pool)),
        list_words(*final(list), *final(pool)).len() < pool_len(*final(pool)),
        others_unchanged(*old(list), *old(pool), *final(pool)),
        forall|m: WordList|
            m != *old(list) && #[trigger] list_in_pool(m, *old(pool)) ==> m != *final(list),
    no_unwind
{
    list.list.push(PooledSetValue(value), &mut pool.pool)
}

/// Calls `EntityList::clear`, which frees the list's block and resets the handle to index 0,
/// the empty list of every pool. It frees the block that the list's length field describes
/// (and asserts, in debug builds, that a list with no length field is the empty list), hence
/// the `requires`. Freeing writes only into the freed block, so no other list that belongs to
/// the pool changes, and the pool's memory keeps its length.
#[verifier::external_body]
pub(crate) fn list_clear(list: &mut WordList, pool: &mut WordPool)
    requires
        list_in_pool(*old(list), *old(pool)),
    ensures
        forall|p: WordPool| #[trigger] list_words(*final(list), p) == Seq::<u64>::empty(),
        forall|p: WordPool| #[trigger] list_in_pool(*final(list), p),
        others_unchanged(*old(list), *old(pool), *final(pool)),
        pool_len(*final(pool)) == pool_len(*old(pool)),
    no_unwind
{
    list.list.clear(&mut pool.pool)
}

} // verus!
