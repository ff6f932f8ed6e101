//! Sets of entity indices, each a bitmap held as a list of words in a shared pool.
use crate::bits::count_ones;
use crate::bits::count_words;
use crate::bits::lemma_bit_and_not;
use crate::bits::lemma_bit_clear;
use crate::bits::lemma_bit_or;
use crate::bits::lemma_bit_set;
use crate::bits::lemma_bit_test;
use crate::bits::lemma_count_prefix;
use crate::bits::lemma_count_step;
use crate::bits::lemma_masked_diff_witness;
use crate::bits::lemma_masked_eq_bits;
use crate::bits::lemma_masked_nonzero_witness;
use crate::bits::lemma_masked_zero_bits;
use crate::bits::lemma_ones_below_mask;
use crate::bits::lemma_view_len;
use crate::bits::lemma_view_zero_extend;
use crate::bits::words_contain;
use crate::bits::words_view;
use crate::bits::words_clean;
use crate::bits::lemma_clean_set_bit;
use crate::bits::lemma_clean_clear_bit;
use crate::bits::lemma_clean_or;
use crate::bits::lemma_clean_and_not;
use crate::bits::WORD_BITS;
use crate::bits::WORD_MASK;
use crate::pool::list_clear;
use crate::pool::list_get;
use crate::pool::list_in_pool;
use crate::pool::list_len;
use crate::pool::list_new;
use crate::pool::list_push;
use crate::pool::list_set;
use crate::pool::list_to_vec;
use crate::pool::list_words;
use crate::pool::others_unchanged;
use crate::pool::pool_new;
use crate::pool::growth_from_to;
use crate::pool::pool_len;
use crate::room::lemma_growth_monotone;
use crate::room::push_growth_of;
use crate::room::bound_has_room;
use crate::room::has_room;
use crate::laws::law_bound_room_within_handle_range;
use crate::pool::push_growth;
use crate::pool::WordList;
use crate::pool::WordPool;
use vstd::prelude::*;

verus! {

/// The memory that the sets of a family share, with a bound on how many words it holds that
/// grows by `push_growth` with every push the sets make.
#[derive(Debug)]
pub struct EntitySetPool {
    pub(crate) pool: WordPool,
    words_bound: u64,
}

impl Clone for EntitySetPool {
    /// A copy of the pool's memory, in which every set reads as it reads in the original.
    fn clone(&self) -> (copy: Self)
        ensures
            forall|set: EntitySet| #[trigger] set.view_in(copy) == set.view_in(*self),
            forall|set: EntitySet| #[trigger] set.belongs_to(copy) == set.belongs_to(*self),
            copy.used_words() == self.used_words(),
            copy.words_bound() == self.words_bound(),
    {
        proof {
            use_type_invariant(self);
        }
        let copy = EntitySetPool { pool: self.pool.clone(), words_bound: self.words_bound };
        assert forall|set: EntitySet| #[trigger] set.view_in(copy) == set.view_in(*self) by {
            assert(set.words_in(copy) == set.words_in(*self));
        }
        assert forall|set: EntitySet| #[trigger] set.belongs_to(copy) == set.belongs_to(*self) by {
            assert(list_in_pool(set.list, copy.pool) == list_in_pool(set.list, self.pool));
        }
        copy
    }
}

impl EntitySetPool {
    /// The number of words in the pool's memory, allocated or free.
    pub closed spec fn used_words(self) -> nat {
        pool_len(self.pool)
    }

    /// The pool's own bound on `used_words`.
    pub closed spec fn words_bound(self) -> nat {
        self.words_bound as nat
    }

    /// The bound covers the memory.
    #[verifier::type_invariant]
    spec fn bound_covers_memory(self) -> bool {
        pool_len(self.pool) <= self.words_bound
    }

    /// The pool's memory, for the other modules of the crate.
    pub(crate) closed spec fn memory(self) -> WordPool {
        self.pool
    }

    /// The pool's memory, for the other modules of the crate.
    pub(crate) fn word_pool(&self) -> (p: &WordPool)
        ensures
            *p == self.memory(),
    {
        &self.pool
    }

    /// The pool's bound on the number of words in its memory.
    pub fn memory_bound(&self) -> (b: u64)
        ensures
            b == self.words_bound(),
            self.used_words() <= b,
    {
        proof {
            use_type_invariant(self);
        }
        self.words_bound
    }

    /// An empty pool: every set that belongs to it is empty, and its memory holds no word.
    pub fn new() -> (pool: Self)
        ensures
            forall|set: EntitySet| #[trigger] set.belongs_to(pool) ==> set.view_in(pool) == Set::<int>::empty(),
            pool.used_words() == 0,
            pool.words_bound() == 0,
    {
        let pool = EntitySetPool { pool: pool_new(), words_bound: 0 };
        assert forall|set: EntitySet| #[trigger] set.belongs_to(pool) implies set.view_in(pool) == Set::<int>::empty() by {
            assert(list_in_pool(set.list, pool.pool));
            assert(set.words_in(pool) == Seq::<u64>::empty());
            assert(set.view_in(pool) =~= Set::<int>::empty());
        }
        pool
    }
}

/// Every set other than `changed` that belonged to `before` still belongs to `after` and holds
/// the same words, so the same indices, there.
pub open spec fn others_kept(changed: EntitySet, before: EntitySetPool, after: EntitySetPool) -> bool {
    forall|s: EntitySet|
        s != changed && #[trigger] s.belongs_to(before) ==> s.belongs_to(after) && s.words_in(after)
            == s.words_in(before) && s.view_in(after) == s.view_in(before)
}

/// A pool whose memory holds `used` words has room for the pushes that grow a set from `from`
/// to `to` words: before each of them the memory holds fewer than `u32::MAX` words, so each new
/// list handle fits in the 32 bits of an `EntityList`.
pub open spec fn room_to_grow(used: nat, from: nat, to: nat) -> bool {
    to <= from || used + growth_from_to(from, (to - 1) as nat) < u32::MAX
}

/// Every set that belonged to `before` still belongs to `after` and holds the same words, so the
/// same indices, there.
pub open spec fn all_kept(before: EntitySetPool, after: EntitySetPool) -> bool {
    forall|s: EntitySet|
        #[trigger] s.belongs_to(before) ==> s.belongs_to(after) && s.words_in(after) == s.words_in(
            before,
        ) && s.view_in(after) == s.view_in(before)
}

/// No set other than `changed` that belonged to `before` is `now`.
pub open spec fn apart_from_others(changed: EntitySet, now: EntitySet, before: EntitySetPool) -> bool {
    forall|s: EntitySet| s != changed && #[trigger] s.belongs_to(before) ==> s != now
}

/// Chains two steps that each leave the other lists alone.
proof fn lemma_others_unchanged_chain(a: WordList, b: WordList, p0: WordPool, p1: WordPool, p2: WordPool)
    requires
        others_unchanged(a, p0, p1),
        others_unchanged(b, p1, p2),
        forall|m: WordList| m != a && #[trigger] list_in_pool(m, p0) ==> m != b,
    ensures
        others_unchanged(a, p0, p2),
{
    assert forall|m: WordList| m != a && #[trigger] list_in_pool(m, p0) implies list_in_pool(m, p2)
        && list_words(m, p2) == list_words(m, p0) by {
        assert(list_in_pool(m, p1));
    }
}

/// Raises the pool's bound by the most that a push onto a list of `len` words adds to its
/// memory, before that push.
fn reserve_for_push(pool: &mut EntitySetPool, len: usize)
    requires
        len < 0x1_0000_0000,
        old(pool).used_words() < u32::MAX,
    ensures
        final(pool).memory() == old(pool).memory(),
        old(pool).words_bound() <= final(pool).words_bound() <= old(pool).words_bound()
            + push_growth(len as nat),
        old(pool).used_words() + push_growth(len as nat) <= final(pool).words_bound(),
{
    proof {
        use_type_invariant(&*pool);
    }
    let g = push_growth_of(len as u64);
    pool.words_bound = pool.words_bound.saturating_add(g);
}

/// A set of entity indices, stored in an `EntitySetPool`.
///
/// The set only makes sense together with the pool it was built in: every operation takes
/// that pool. Copying the set (with `clone`) makes an alias of the same list in the pool.
#[derive(Debug)]
pub struct EntitySet {
    pub(crate) list: WordList,
}

impl Clone for EntitySet {
    /// An alias of the same list: the copy is the same handle.
    fn clone(&self) -> (copy: Self)
        ensures
            copy == *self,
    {
        EntitySet { list: self.list.clone() }
    }
}

impl Default for EntitySet {
    /// The empty set, as `new` makes it.
    fn default() -> (set: Self)
        ensures
            forall|pool: EntitySetPool| #[trigger] set.view_in(pool) == Set::<int>::empty(),
            forall|pool: EntitySetPool| #[trigger] set.belongs_to(pool),
            forall|pool: EntitySetPool| #[trigger] set.words_in(pool) == Seq::<u64>::empty(),
    {
        EntitySet::new()
    }
}

impl EntitySet {
    /// The words this set holds in `pool`.
    pub closed spec fn words_in(self, pool: EntitySetPool) -> Seq<u64> {
        list_words(self.list, pool.pool)
    }

    /// The indices this set holds in `pool`.
    pub open spec fn view_in(self, pool: EntitySetPool) -> Set<int> {
        words_view(self.words_in(pool))
    }

    /// No word of the set in `pool` has bit 63 set: every set bit stands for an index.
    pub open spec fn is_clean_in(self, pool: EntitySetPool) -> bool {
        words_clean(self.words_in(pool))
    }

    /// The set belongs to `pool`: its list is the empty list, or one that `pool` built for it.
    pub closed spec fn belongs_to(self, pool: EntitySetPool) -> bool {
        list_in_pool(self.list, pool.pool)
    }

    /// What `words_in` and `belongs_to` read, for the other modules of the crate.
    pub(crate) proof fn lemma_reveal(self, pool: EntitySetPool)
        ensures
            self.words_in(pool) == list_words(self.list, pool.memory()),
            self.belongs_to(pool) == list_in_pool(self.list, pool.memory()),
    {
    }

    /// A set holds finitely many indices in any pool.
    pub proof fn lemma_view_finite(self, pool: EntitySetPool)
        ensures
            self.view_in(pool).finite(),
    {
        lemma_view_len(self.words_in(pool));
    }

    /// Lifts the list-level frame to sets.
    proof fn lemma_others_kept(changed: EntitySet, before: EntitySetPool, after: EntitySetPool)
        requires
            others_unchanged(changed.list, before.pool, after.pool),
        ensures
            others_kept(changed, before, after),
    {
        assert forall|s: EntitySet| s != changed && #[trigger] s.belongs_to(before) implies s.belongs_to(
            after,
        ) && s.words_in(after) == s.words_in(before) && s.view_in(after) == s.view_in(before) by {
            assert(s.list != changed.list);
            assert(list_in_pool(s.list, before.pool));
        }
    }

    /// An empty set; it belongs to every pool.
    pub fn new() -> (set: Self)
        ensures
            forall|pool: EntitySetPool| #[trigger] set.view_in(pool) == Set::<int>::empty(),
            forall|pool: EntitySetPool| #[trigger] set.belongs_to(pool),
            forall|pool: EntitySetPool| #[trigger] set.words_in(pool) == Seq::<u64>::empty(),
    {
        let set = EntitySet { list: list_new() };
        assert forall|pool: EntitySetPool| #[trigger] set.view_in(pool) == Set::<int>::empty() by {
            assert(set.words_in(pool) == Seq::<u64>::empty());
            assert(set.view_in(pool) =~= Set::<int>::empty());
        }
        assert forall|pool: EntitySetPool| #[trigger] set.belongs_to(pool) by {
            assert(list_in_pool(set.list, pool.pool));
        }
        set
    }

    /// Whether `index` is in the set.
    pub fn contains(&self, index: usize, pool: &EntitySetPool) -> (found: bool)
        requires
            self.belongs_to(*pool),
        ensures
            found == self.view_in(*pool).contains(index as int),
    {
        let list_len = list_len(&self.list, &pool.pool);
        let page = index / WORD_BITS;
        if page < list_len {
            let word = list_get(&self.list, page, &pool.pool).unwrap();
            let bit = (index % WORD_BITS) as u64;
            proof {
                lemma_bit_test(word, bit);
            }
            word & (1u64 << bit) != 0
        } else {
            false
        }
    }

    /// The number of indices in the set. The count must fit in a `usize`; `checked_size`
    /// reports when it does not.
    pub fn size(&self, pool: &EntitySetPool) -> (n: usize)
        requires
            self.belongs_to(*pool),
            self.view_in(*pool).len() <= usize::MAX,
        ensures
            self.view_in(*pool).finite(),
            n == self.view_in(*pool).len(),
    {
        let words = list_to_vec(&self.list, &pool.pool);
        proof {
            lemma_view_len(words@);
        }
        let mut len: usize = 0;
        let mut i: usize = 0;
        while i < words.len()
            invariant
                i <= words.len(),
                len == count_words(words@.take(i as int)),
                count_words(words@) <= usize::MAX,
            decreases words.len() - i,
        {
            proof {
                lemma_count_step(words@, i as int);
                lemma_count_prefix(words@, i as int + 1);
                lemma_ones_below_mask(words@[i as int], 64);
            }
            len = len + count_ones(words[i] & WORD_MASK) as usize;
            i = i + 1;
        }
        assert(words@.take(i as int) =~= words@);
        len
    }

    /// The number of indices in the set, or `None` when it does not fit in a `usize`.
    pub fn checked_size(&self, pool: &EntitySetPool) -> (n: Option<usize>)
        requires
            self.belongs_to(*pool),
        ensures
            self.view_in(*pool).finite(),
            n == (if self.view_in(*pool).len() <= usize::MAX {
                Some(self.view_in(*pool).len() as usize)
            } else {
                None
            }),
    {
        let words = list_to_vec(&self.list, &pool.pool);
        proof {
            lemma_view_len(words@);
        }
        let mut len: usize = 0;
        let mut i: usize = 0;
        while i < words.len()
            invariant
                i <= words.len(),
                len == count_words(words@.take(i as int)),
                words@ == self.words_in(*pool),
                words_view(words@).finite(),
                words_view(words@).len() == count_words(words@),
            decreases words.len() - i,
        {
            proof {
                lemma_count_step(words@, i as int);
                lemma_count_prefix(words@, i as int + 1);
                lemma_ones_below_mask(words@[i as int], 64);
            }
            match len.checked_add(count_ones(words[i] & WORD_MASK) as usize) {
                Some(next) => {
                    len = next;
                },
                None => {
                    return None;
                },
            }
            i = i + 1;
        }
        assert(words@.take(i as int) =~= words@);
        Some(len)
    }

    /// Removes every index; the set's storage goes back to the pool.
    pub fn clear(&mut self, pool: &mut EntitySetPool)
        requires
            old(self).belongs_to(*old(pool)),
        ensures
            forall|p: EntitySetPool| #[trigger] final(self).view_in(p) == Set::<int>::empty(),
            forall|p: EntitySetPool| #[trigger] final(self).belongs_to(p),
            forall|p: EntitySetPool| #[trigger] final(self).words_in(p) == Seq::<u64>::empty(),
            others_kept(*old(self), *old(pool), *final(pool)),
            final(pool).used_words() == old(pool).used_words(),
            final(pool).words_bound() == old(pool).words_bound(),
    {
        proof {
            use_type_invariant(&*pool);
        }
        list_clear(&mut self.list, &mut pool.pool);
        proof {
            EntitySet::lemma_others_kept(*old(self), *old(pool), *pool);
            assert forall|p: EntitySetPool| #[trigger] self.view_in(p) == Set::<int>::empty() by {
                assert(self.words_in(p) == Seq::<u64>::empty());
                assert(self.view_in(p) =~= Set::<int>::empty());
            }
            assert forall|p: EntitySetPool| #[trigger] self.belongs_to(p) by {
                assert(list_in_pool(self.list, p.pool));
            }
            assert forall|p: EntitySetPool| #[trigger] self.words_in(p) == Seq::<u64>::empty() by {
                assert(list_words(self.list, p.pool) == Seq::<u64>::empty());
            }
        }
    }

    /// Appends zero words until the set has at least `pages` words.
    fn grow_to_pages(&mut self, pages: usize, pool: &mut EntitySetPool)
        requires
            old(self).belongs_to(*old(pool)),
            room_to_grow(old(pool).used_words(), old(self).words_in(*old(pool)).len(), pages as nat),
        ensures
            old(pool).used_words() <= final(pool).used_words() <= old(pool).used_words()
                + growth_from_to(old(self).words_in(*old(pool)).len(), pages as nat),
            old(pool).words_bound() <= final(pool).words_bound() <= old(pool).words_bound()
                + growth_from_to(old(self).words_in(*old(pool)).len(), pages as nat),
            final(self).belongs_to(*final(pool)),
            final(self).words_in(*final(pool)).len() == if old(self).words_in(*old(pool)).len() < pages {
                pages as nat
            } else {
                old(self).words_in(*old(pool)).len()
            },
            forall|j: int|
                0 <= j < old(self).words_in(*old(pool)).len() ==> #[trigger] final(self).words_in(
                    *final(pool),
                )[j] == old(self).words_in(*old(pool))[j],
            forall|j: int|
                old(self).words_in(*old(pool)).len() <= j < final(self).words_in(*final(pool)).len()
                    ==> #[trigger] final(self).words_in(*final(pool))[j] == 0,
            final(self).view_in(*final(pool)) == old(self).view_in(*old(pool)),
            others_unchanged(old(self).list, old(pool).pool, final(pool).pool),
            forall|m: WordList|
                m != old(self).list && #[trigger] list_in_pool(m, old(pool).pool) ==> m
                    != final(self).list,
    {
        let ghost start = self.words_in(*pool);
        let ghost list0 = self.list;
        let ghost pool0 = pool.pool;
        let len = list_len(&self.list, &pool.pool);
        if len < pages {
            let mut i: usize = len;
            while i < pages
                invariant
                    len <= i <= pages,
                    len == start.len(),
                    self.belongs_to(*pool),
                    self.words_in(*pool).len() == i,
                    forall|j: int| 0 <= j < len ==> #[trigger] self.words_in(*pool)[j] == start[j],
                    forall|j: int| len <= j < i ==> #[trigger] self.words_in(*pool)[j] == 0,
                    list0 == old(self).list,
                    pool0 == old(pool).pool,
                    others_unchanged(list0, pool0, pool.pool),
                    forall|m: WordList|
                        m != list0 && #[trigger] list_in_pool(m, pool0) ==> m != self.list,
                    room_to_grow(pool_len(pool0), len as nat, pages as nat),
                    pool_len(pool0) <= pool_len(pool.pool) <= pool_len(pool0) + growth_from_to(
                        len as nat,
                        i as nat,
                    ),
                    i <= pool_len(pool.pool),
                    old(pool).words_bound() <= pool.words_bound() <= old(pool).words_bound()
                        + growth_from_to(len as nat, i as nat),
                decreases pages - i,
            {
                let ghost list1 = self.list;
                let ghost pool1 = pool.pool;
                proof {
                    lemma_growth_monotone(len as nat, i as nat, (pages - 1) as nat);
                }
                reserve_for_push(pool, i);
                list_push(&mut self.list, 0, &mut pool.pool);
                proof {
                    lemma_others_unchanged_chain(list0, list1, pool0, pool1, pool.pool);
                    assert forall|m: WordList|
                        m != list0 && #[trigger] list_in_pool(m, pool0) implies m != self.list by {
                        assert(list_in_pool(m, pool1));
                    }
                }
                i = i + 1;
            }
        }
        proof {
            lemma_view_zero_extend(start, self.words_in(*pool));
        }
    }

    /// Adds `index` to the set; returns whether it was there already. The set grows to the word
    /// that covers `index`, so the pool must have room for that growth.
    pub fn insert(&mut self, index: usize, pool: &mut EntitySetPool) -> (was_present: bool)
        requires
            old(self).belongs_to(*old(pool)),
            room_to_grow(
                old(pool).used_words(),
                old(self).words_in(*old(pool)).len(),
                index as nat / 63 + 1,
            ),
        ensures
            was_present == old(self).view_in(*old(pool)).contains(index as int),
            final(self).view_in(*final(pool)) == old(self).view_in(*old(pool)).insert(index as int),
            final(self).belongs_to(*final(pool)),
            final(self).words_in(*final(pool)).len() == if old(self).words_in(*old(pool)).len()
                < index as nat / 63 + 1 {
                index as nat / 63 + 1
            } else {
                old(self).words_in(*old(pool)).len()
            },
            old(self).is_clean_in(*old(pool)) ==> final(self).is_clean_in(*final(pool)),
            old(pool).used_words() <= final(pool).used_words() <= old(pool).used_words()
                + growth_from_to(old(self).words_in(*old(pool)).len(), index as nat / 63 + 1),
            old(pool).words_bound() <= final(pool).words_bound() <= old(pool).words_bound()
                + growth_from_to(old(self).words_in(*old(pool)).len(), index as nat / 63 + 1),
            others_kept(*old(self), *old(pool), *final(pool)),
            apart_from_others(*old(self), *final(self), *old(pool)),
    {
        let list_len = list_len(&self.list, &pool.pool);
        let needed_list_len = index / WORD_BITS + 1;
        if list_len < needed_list_len {
            self.grow_to_pages(needed_list_len, pool);
        }
        let ghost before = self.words_in(*pool);
        let ghost list1 = self.list;
        let ghost pool1 = pool.pool;
        assert(others_unchanged(old(self).list, old(pool).pool, pool1));
        assert(forall|m: WordList|
            m != old(self).list && #[trigger] list_in_pool(m, old(pool).pool) ==> m != list1);
        let result = self.contains(index, pool);
        let page = index / WORD_BITS;
        let word = list_get(&self.list, page, &pool.pool).unwrap();
        let bit = (index % WORD_BITS) as u64;
        proof {
            use_type_invariant(&*pool);
        }
        list_set(&mut self.list, page, word | (1u64 << bit), &mut pool.pool);
        proof {
            let after = self.words_in(*pool);
            assert forall|i: int|
                words_contain(after, i) <==> words_contain(before, i) || i == index as int by {
                if 0 <= i && i / 63 < after.len() {
                    lemma_bit_set(before[i / 63], bit, (i % 63) as u64);
                }
            }
            assert(self.view_in(*pool) =~= words_view(before).insert(index as int));
            if old(self).is_clean_in(*old(pool)) {
                assert(words_clean(before));
                lemma_clean_set_bit(before[page as int], bit);
                assert(words_clean(after));
            }
            lemma_others_unchanged_chain(old(self).list, list1, old(pool).pool, pool1, pool.pool);
            EntitySet::lemma_others_kept(*old(self), *old(pool), *pool);
            assert forall|s: EntitySet|
                s != *old(self) && #[trigger] s.belongs_to(*old(pool)) implies s != *self by {
                assert(list_in_pool(s.list, old(pool).pool));
            }
        }
        result
    }

    /// Removes `index` from the set; returns whether it was there.
    pub fn remove(&mut self, index: usize, pool: &mut EntitySetPool) -> (was_present: bool)
        requires
            old(self).belongs_to(*old(pool)),
        ensures
            was_present == old(self).view_in(*old(pool)).contains(index as int),
            final(self).view_in(*final(pool)) == old(self).view_in(*old(pool)).remove(index as int),
            final(self).belongs_to(*final(pool)),
            *final(self) == *old(self),
            final(self).words_in(*final(pool)).len() == old(self).words_in(*old(pool)).len(),
            old(self).is_clean_in(*old(pool)) ==> final(self).is_clean_in(*final(pool)),
            final(pool).used_words() == old(pool).used_words(),
            final(pool).words_bound() == old(pool).words_bound(),
            others_kept(*old(self), *old(pool), *final(pool)),
    {
        let ghost before = self.words_in(*pool);
        let list_len = list_len(&self.list, &pool.pool);
        let page = index / WORD_BITS;
        if page < list_len {
            let word = list_get(&self.list, page, &pool.pool).unwrap();
            let bit = (index % WORD_BITS) as u64;
            let bit_idx = 1u64 << bit;
            proof {
                lemma_bit_test(word, bit);
            }
            let ret = word & bit_idx != 0;
            proof {
                use_type_invariant(&*pool);
            }
            list_set(&mut self.list, page, word & !bit_idx, &mut pool.pool);
            proof {
                let after = self.words_in(*pool);
                assert forall|i: int|
                    words_contain(after, i) <==> words_contain(before, i) && i != index as int by {
                    if 0 <= i && i / 63 < after.len() {
                        lemma_bit_clear(before[i / 63], bit, (i % 63) as u64);
                    }
                }
                assert(self.view_in(*pool) =~= words_view(before).remove(index as int));
                if old(self).is_clean_in(*old(pool)) {
                    assert(words_clean(before));
                    lemma_clean_clear_bit(before[page as int], bit);
                    assert(words_clean(after));
                }
                EntitySet::lemma_others_kept(*old(self), *old(pool), *pool);
            }
            ret
        } else {
            assert(self.view_in(*pool) =~= words_view(before).remove(index as int));
            assert(others_kept(*old(self), *old(pool), *pool));
            false
        }
    }

    /// A new set of the same indices, in fresh storage of the same pool; the pool must have
    /// room for the copy's words.
    pub fn make_copy(&self, pool: &mut EntitySetPool) -> (copy: EntitySet)
        requires
            self.belongs_to(*old(pool)),
            room_to_grow(old(pool).used_words(), 0, self.words_in(*old(pool)).len()),
        ensures
            copy.words_in(*final(pool)) == self.words_in(*old(pool)),
            copy.view_in(*final(pool)) == self.view_in(*old(pool)),
            copy.belongs_to(*final(pool)),
            all_kept(*old(pool), *final(pool)),
            self.words_in(*old(pool)).len() > 0 ==> forall|s: EntitySet|
                #[trigger] s.belongs_to(*old(pool)) ==> s != copy,
            self.words_in(*old(pool)).len() == 0 ==> forall|p: EntitySetPool|
                #[trigger] copy.view_in(p) == Set::<int>::empty() && copy.belongs_to(p)
                    && copy.words_in(p) == Seq::<u64>::empty(),
            old(pool).used_words() <= final(pool).used_words() <= old(pool).used_words()
                + growth_from_to(0, self.words_in(*old(pool)).len()),
            old(pool).words_bound() <= final(pool).words_bound() <= old(pool).words_bound()
                + growth_from_to(0, self.words_in(*old(pool)).len()),
    {
        let words = list_to_vec(&self.list, &pool.pool);
        let mut new_list = list_new();
        let ghost empty_list = new_list;
        let ghost pool0 = pool.pool;
        let len = words.len();
        let mut n: usize = 0;
        assert(words@.take(0) =~= Seq::<u64>::empty());
        while n < len
            invariant
                n <= len,
                len == words@.len(),
                list_in_pool(new_list, pool.pool),
                list_words(new_list, pool.pool) == words@.take(n as int),
                pool0 == old(pool).pool,
                forall|p: WordPool|
                    #[trigger] list_in_pool(empty_list, p) && list_words(empty_list, p)
                        == Seq::<u64>::empty(),
                n == 0 ==> new_list == empty_list,
                forall|m: WordList|
                    m != empty_list && #[trigger] list_in_pool(m, pool0) ==> list_in_pool(
                        m,
                        pool.pool,
                    ) && list_words(m, pool.pool) == list_words(m, pool0) && m != new_list,
                n > 0 ==> forall|m: WordList| #[trigger] list_in_pool(m, pool0) ==> m != new_list,
                room_to_grow(pool_len(pool0), 0, len as nat),
                pool_len(pool0) <= pool_len(pool.pool) <= pool_len(pool0) + growth_from_to(
                    0,
                    n as nat,
                ),
                n <= pool_len(pool.pool),
                old(pool).words_bound() <= pool.words_bound() <= old(pool).words_bound()
                    + growth_from_to(0, n as nat),
            decreases len - n,
        {
            let item = words[n];
            let ghost list1 = new_list;
            let ghost pool1 = pool.pool;
            proof {
                lemma_growth_monotone(0, n as nat, (len - 1) as nat);
            }
            reserve_for_push(pool, n);
            list_push(&mut new_list, item, &mut pool.pool);
            proof {
                assert forall|m: WordList|
                    m != empty_list && #[trigger] list_in_pool(m, pool0) implies list_in_pool(
                        m,
                        pool.pool,
                    ) && list_words(m, pool.pool) == list_words(m, pool0) && m != new_list by {
                    assert(list_in_pool(m, pool1));
                }
                assert forall|m: WordList| #[trigger] list_in_pool(m, pool0) implies m != new_list by {
                    if m == empty_list {
                        assert(list_in_pool(empty_list, pool.pool));
                        assert(list_words(empty_list, pool.pool) == Seq::<u64>::empty());
                        assert(list_words(new_list, pool.pool).len() > 0);
                    } else {
                        assert(list_in_pool(m, pool1));
                    }
                }
            }
            assert(words@.take(n as int).push(item) =~= words@.take(n as int + 1));
            n = n + 1;
        }
        assert(words@.take(len as int) =~= words@);
        let copy = EntitySet { list: new_list };
        proof {
            assert forall|s: EntitySet| #[trigger] s.belongs_to(*old(pool)) implies s.belongs_to(*pool)
                && s.words_in(*pool) == s.words_in(*old(pool)) && s.view_in(*pool) == s.view_in(
                *old(pool),
            ) by {
                assert(list_in_pool(s.list, pool0));
                if s.list == empty_list {
                    assert(list_in_pool(empty_list, pool.pool));
                    assert(list_words(empty_list, pool.pool) == list_words(empty_list, pool0));
                }
                assert(s.words_in(*pool) == s.words_in(*old(pool)));
            }
            if self.words_in(*old(pool)).len() > 0 {
                assert forall|s: EntitySet| #[trigger] s.belongs_to(*old(pool)) implies s != copy by {
                    assert(list_in_pool(s.list, pool0));
                }
            } else {
                assert forall|p: EntitySetPool| #[trigger] copy.view_in(p) == Set::<int>::empty()
                    && copy.belongs_to(p) && copy.words_in(p) == Seq::<u64>::empty() by {
                    assert(list_in_pool(empty_list, p.pool));
                    assert(copy.words_in(p) == Seq::<u64>::empty());
                    assert(copy.view_in(p) =~= Set::<int>::empty());
                }
            }
        }
        copy
    }

    /// Adds every index of `other` to this set. The set grows to as many words as `other` holds,
    /// so the pool must have room for that growth.
    pub fn union_into(&mut self, other: &EntitySet, pool: &mut EntitySetPool)
        requires
            old(self).belongs_to(*old(pool)),
            other.belongs_to(*old(pool)),
            room_to_grow(
                old(pool).used_words(),
                old(self).words_in(*old(pool)).len(),
                other.words_in(*old(pool)).len(),
            ),
        ensures
            final(self).view_in(*final(pool)) == old(self).view_in(*old(pool)).union(
                other.view_in(*old(pool)),
            ),
            final(self).belongs_to(*final(pool)),
            final(self).words_in(*final(pool)).len() == if old(self).words_in(*old(pool)).len()
                < other.words_in(*old(pool)).len() {
                other.words_in(*old(pool)).len()
            } else {
                old(self).words_in(*old(pool)).len()
            },
            old(self).is_clean_in(*old(pool)) && other.is_clean_in(*old(pool))
                ==> final(self).is_clean_in(*final(pool)),
            old(pool).used_words() <= final(pool).used_words() <= old(pool).used_words()
                + growth_from_to(old(self).words_in(*old(pool)).len(), other.words_in(*old(pool)).len()),
            old(pool).words_bound() <= final(pool).words_bound() <= old(pool).words_bound()
                + growth_from_to(old(self).words_in(*old(pool)).len(), other.words_in(*old(pool)).len()),
            others_kept(*old(self), *old(pool), *final(pool)),
            apart_from_others(*old(self), *final(self), *old(pool)),
    {
        let other_words = list_to_vec(&other.list, &pool.pool);
        let other_pages_len = other_words.len();
        self.grow_to_pages(other_pages_len, pool);
        let ghost grown = self.words_in(*pool);
        let ghost list0 = old(self).list;
        let ghost pool0 = old(pool).pool;
        let ghost grown_list = self.list;
        let ghost grown_len = pool_len(pool.pool);
        let ghost grown_bound = pool.words_bound();
        let mut n: usize = 0;
        while n < other_pages_len
            invariant
                pool_len(pool.pool) == grown_len,
                pool.words_bound() == grown_bound,
                list0 == old(self).list,
                pool0 == old(pool).pool,
                self.list == grown_list,
                others_unchanged(list0, pool0, pool.pool),
                forall|m: WordList| m != list0 && #[trigger] list_in_pool(m, pool0) ==> m != self.list,
                n <= other_pages_len,
                other_pages_len == other_words@.len(),
                other_pages_len <= grown.len(),
                self.belongs_to(*pool),
                self.words_in(*pool).len() == grown.len(),
                forall|j: int|
                    0 <= j < n ==> #[trigger] self.words_in(*pool)[j] == (grown[j]
                        | other_words@[j]),
                forall|j: int| n <= j < grown.len() ==> #[trigger] self.words_in(*pool)[j] == grown[j],
            decreases other_pages_len - n,
        {
            let other_val = other_words[n];
            let val = list_get(&self.list, n, &pool.pool).unwrap();
            let ghost pool1 = pool.pool;
            proof {
                use_type_invariant(&*pool);
            }
            list_set(&mut self.list, n, val | other_val, &mut pool.pool);
            proof {
                lemma_others_unchanged_chain(list0, grown_list, pool0, pool1, pool.pool);
            }
            n = n + 1;
        }
        proof {
            let after = self.words_in(*pool);
            assert forall|i: int|
                words_contain(after, i) <==> words_contain(grown, i) || words_contain(
                    other_words@,
                    i,
                ) by {
                if 0 <= i && i / 63 < other_pages_len {
                    lemma_bit_or(grown[i / 63], other_words@[i / 63], (i % 63) as u64);
                }
            }
            assert(self.view_in(*pool) =~= words_view(grown).union(words_view(other_words@)));
            if old(self).is_clean_in(*old(pool)) && other.is_clean_in(*old(pool)) {
                assert forall|j: int| 0 <= j < after.len() implies #[trigger] after[j] <= WORD_MASK by {
                    if j < old(self).words_in(*old(pool)).len() {
                        assert(grown[j] == old(self).words_in(*old(pool))[j]);
                    }
                    if j < other_pages_len {
                        assert(other_words@[j] == other.words_in(*old(pool))[j]);
                        lemma_clean_or(grown[j], other_words@[j]);
                    }
                }
            }
            EntitySet::lemma_others_kept(*old(self), *old(pool), *pool);
            assert forall|s: EntitySet|
                s != *old(self) && #[trigger] s.belongs_to(*old(pool)) implies s != *self by {
                assert(list_in_pool(s.list, pool0));
            }
        }
    }

    /// Removes every index of `other` from this set.
    pub fn subtract_from(&mut self, other: &EntitySet, pool: &mut EntitySetPool)
        requires
            old(self).belongs_to(*old(pool)),
            other.belongs_to(*old(pool)),
        ensures
            final(self).view_in(*final(pool)) == old(self).view_in(*old(pool)).difference(
                other.view_in(*old(pool)),
            ),
            final(self).belongs_to(*final(pool)),
            *final(self) == *old(self),
            final(self).words_in(*final(pool)).len() == old(self).words_in(*old(pool)).len(),
            old(self).is_clean_in(*old(pool)) ==> final(self).is_clean_in(*final(pool)),
            final(pool).used_words() == old(pool).used_words(),
            final(pool).words_bound() == old(pool).words_bound(),
            others_kept(*old(self), *old(pool), *final(pool)),
    {
        let ghost start = self.words_in(*pool);
        let ghost list0 = self.list;
        let ghost pool0 = pool.pool;
        let other_words = list_to_vec(&other.list, &pool.pool);
        let self_pages_len = list_len(&self.list, &pool.pool);
        let other_pages_len = other_words.len();
        let pages_to_iter = if self_pages_len < other_pages_len {
            self_pages_len
        } else {
            other_pages_len
        };
        let mut n: usize = 0;
        while n < pages_to_iter
            invariant
                n <= pages_to_iter,
                pages_to_iter <= start.len(),
                pages_to_iter <= other_words@.len(),
                pages_to_iter == start.len() || pages_to_iter == other_words@.len(),
                self.belongs_to(*pool),
                self.words_in(*pool).len() == start.len(),
                forall|j: int|
                    0 <= j < n ==> #[trigger] self.words_in(*pool)[j] == (start[j]
                        & !other_words@[j]),
                forall|j: int| n <= j < start.len() ==> #[trigger] self.words_in(*pool)[j] == start[j],
                list0 == old(self).list,
                pool0 == old(pool).pool,
                self.list == list0,
                others_unchanged(list0, pool0, pool.pool),
                pool_len(pool.pool) == pool_len(pool0),
                pool.words_bound() == old(pool).words_bound(),
            decreases pages_to_iter - n,
        {
            let other_val = other_words[n];
            let val = list_get(&self.list, n, &pool.pool).unwrap();
            let ghost pool1 = pool.pool;
            proof {
                use_type_invariant(&*pool);
            }
            list_set(&mut self.list, n, val & !other_val, &mut pool.pool);
            proof {
                lemma_others_unchanged_chain(list0, list0, pool0, pool1, pool.pool);
            }
            n = n + 1;
        }
        proof {
            let after = self.words_in(*pool);
            assert forall|i: int|
                words_contain(after, i) <==> words_contain(start, i) && !words_contain(
                    other_words@,
                    i,
                ) by {
                if 0 <= i && i / 63 < pages_to_iter {
                    lemma_bit_and_not(start[i / 63], other_words@[i / 63], (i % 63) as u64);
                }
            }
            assert(self.view_in(*pool) =~= words_view(start).difference(words_view(other_words@)));
            if old(self).is_clean_in(*old(pool)) {
                assert forall|j: int| 0 <= j < after.len() implies #[trigger] after[j] <= WORD_MASK by {
                    assert(start[j] <= WORD_MASK);
                    if j < pages_to_iter {
                        lemma_clean_and_not(start[j], other_words@[j]);
                    }
                }
            }
            EntitySet::lemma_others_kept(*old(self), *old(pool), *pool);
        }
    }

    /// Whether this set and `other` hold the same indices, both read in `pool`.
    pub fn eq(&self, other: &EntitySet, pool: &EntitySetPool) -> (same: bool)
        requires
            self.belongs_to(*pool),
            other.belongs_to(*pool),
        ensures
            same == (self.view_in(*pool) == other.view_in(*pool)),
    {
        self.eq_other(other, pool, pool)
    }

    /// Whether this set, read in `pool`, and `other`, read in `other_pool`, hold the same
    /// indices.
    pub fn eq_other(&self, other: &EntitySet, pool: &EntitySetPool, other_pool: &EntitySetPool) -> (same: bool)
        requires
            self.belongs_to(*pool),
            other.belongs_to(*other_pool),
        ensures
            same == (self.view_in(*pool) == other.view_in(*other_pool)),
    {
        let self_list = list_to_vec(&self.list, &pool.pool);
        let other_list = list_to_vec(&other.list, &other_pool.pool);
        let ghost a = self_list@;
        let ghost b = other_list@;
        let common = if self_list.len() < other_list.len() {
            self_list.len()
        } else {
            other_list.len()
        };
        // The common head must agree word by word.
        let mut n: usize = 0;
        while n < common
            invariant
                n <= common,
                common <= a.len(),
                common <= b.len(),
                a == self_list@,
                b == other_list@,
                a == self.words_in(*pool),
                b == other.words_in(*other_pool),
                forall|j: int| 0 <= j < n ==> #[trigger] (a[j] & WORD_MASK) == (b[j] & WORD_MASK),
            decreases common - n,
        {
            if self_list[n] & WORD_MASK != other_list[n] & WORD_MASK {
                proof {
                    let t = lemma_masked_diff_witness(a[n as int], b[n as int]);
                    let i = 63 * n + t;
                    assert(i / 63 == n && i % 63 == t);
                    assert(words_contain(a, i) != words_contain(b, i));
                    assert(words_view(a).contains(i) != words_view(b).contains(i));
                }
                return false;
            }
            n = n + 1;
        }
        // Where the lengths differ, the longer tail must be empty.
        if self_list.len() > other_list.len() {
            let mut m: usize = other_list.len();
            while m < self_list.len()
                invariant
                    b.len() <= m <= a.len(),
                    a == self_list@,
                    b == other_list@,
                    a == self.words_in(*pool),
                    b == other.words_in(*other_pool),
                    forall|j: int| b.len() <= j < m ==> #[trigger] (a[j] & WORD_MASK) == 0,
                decreases self_list.len() - m,
            {
                if self_list[m] & WORD_MASK != 0 {
                    proof {
                        let t = lemma_masked_nonzero_witness(a[m as int]);
                        let i = 63 * m + t;
                        assert(i / 63 == m && i % 63 == t);
                        assert(words_contain(a, i) && !words_contain(b, i));
                        assert(words_view(a).contains(i) && !words_view(b).contains(i));
                    }
                    return false;
                }
                m = m + 1;
            }
        } else if self_list.len() < other_list.len() {
            let mut m: usize = self_list.len();
            while m < other_list.len()
                invariant
                    a.len() <= m <= b.len(),
                    a == self_list@,
                    b == other_list@,
                    a == self.words_in(*pool),
                    b == other.words_in(*other_pool),
                    forall|j: int| a.len() <= j < m ==> #[trigger] (b[j] & WORD_MASK) == 0,
                decreases other_list.len() - m,
            {
                if other_list[m] & WORD_MASK != 0 {
                    proof {
                        let t = lemma_masked_nonzero_witness(b[m as int]);
                        let i = 63 * m + t;
                        assert(i / 63 == m && i % 63 == t);
                        assert(words_contain(b, i) && !words_contain(a, i));
                        assert(words_view(b).contains(i) && !words_view(a).contains(i));
                    }
                    return false;
                }
                m = m + 1;
            }
        }
        proof {
            assert forall|i: int| words_contain(a, i) <==> words_contain(b, i) by {
                if 0 <= i {
                    let p = i / 63;
                    let c = (i % 63) as u64;
                    if p < a.len() && p < b.len() {
                        lemma_masked_eq_bits(a[p], b[p], c);
                    } else if p < a.len() {
                        lemma_masked_zero_bits(a[p], c);
                    } else if p < b.len() {
                        lemma_masked_zero_bits(b[p], c);
                    }
                }
            }
            assert(words_view(a) =~= words_view(b));
        }
        true
    }
}

impl EntitySet {
    /// `insert`, when the pool's bound shows room for the set to grow to the word that covers
    /// `index`; otherwise `None`, with the set and the pool unchanged.
    pub fn checked_insert(&mut self, index: usize, pool: &mut EntitySetPool) -> (r: Option<bool>)
        requires
            old(self).belongs_to(*old(pool)),
        ensures
            r is Some == bound_has_room(
                old(pool).words_bound(),
                old(self).words_in(*old(pool)).len(),
                index as nat / 63 + 1,
            ),
            index as nat / 63 < 0x1_0000_0000 && old(pool).words_bound() + 4 * (index as nat / 63)
                < u32::MAX ==> r is Some,
            r is None ==> *final(self) == *old(self) && *final(pool) == *old(pool),
            r matches Some(was_present) ==> {
                &&& was_present == old(self).view_in(*old(pool)).contains(index as int)
                &&& final(self).view_in(*final(pool)) == old(self).view_in(*old(pool)).insert(
                    index as int,
                )
                &&& final(self).belongs_to(*final(pool))
                &&& old(self).is_clean_in(*old(pool)) ==> final(self).is_clean_in(*final(pool))
                &&& others_kept(*old(self), *old(pool), *final(pool))
                &&& apart_from_others(*old(self), *final(self), *old(pool))
            },
    {
        let bound = pool.memory_bound();
        let from = list_len(&self.list, &pool.pool);
        proof {
            if index as nat / 63 < 0x1_0000_0000 && bound + 4 * (index as nat / 63) < u32::MAX {
                law_bound_room_within_handle_range(bound as nat, from as nat, index as nat / 63 + 1);
            }
        }
        if has_room(bound, from, index / WORD_BITS + 1) {
            Some(self.insert(index, pool))
        } else {
            None
        }
    }

    /// `make_copy`, when the pool's bound shows room for the copy's words; otherwise `None`,
    /// with the pool unchanged.
    pub fn checked_make_copy(&self, pool: &mut EntitySetPool) -> (r: Option<EntitySet>)
        requires
            self.belongs_to(*old(pool)),
        ensures
            r is Some == bound_has_room(old(pool).words_bound(), 0, self.words_in(*old(pool)).len()),
            self.words_in(*old(pool)).len() <= 0x1_0000_0000 && old(pool).words_bound() + 4
                * self.words_in(*old(pool)).len() < u32::MAX ==> r is Some,
            r is None ==> *final(pool) == *old(pool),
            r matches Some(copy) ==> {
                &&& copy.words_in(*final(pool)) == self.words_in(*old(pool))
                &&& copy.view_in(*final(pool)) == self.view_in(*old(pool))
                &&& copy.belongs_to(*final(pool))
                &&& all_kept(*old(pool), *final(pool))
                &&& self.words_in(*old(pool)).len() > 0 ==> forall|s: EntitySet|
                    #[trigger] s.belongs_to(*old(pool)) ==> s != copy
            },
    {
        let bound = pool.memory_bound();
        let len = list_len(&self.list, &pool.pool);
        proof {
            if len as nat <= 0x1_0000_0000 && bound + 4 * (len as nat) < u32::MAX {
                law_bound_room_within_handle_range(bound as nat, 0, len as nat);
            }
        }
        if has_room(bound, 0, len) {
            Some(self.make_copy(pool))
        } else {
            None
        }
    }

    /// `union_into`, when the pool's bound shows room for the set to grow to as many words as
    /// `other`; returns whether it ran. When it did not, the set and the pool are unchanged.
    pub fn checked_union_into(&mut self, other: &EntitySet, pool: &mut EntitySetPool) -> (done: bool)
        requires
            old(self).belongs_to(*old(pool)),
            other.belongs_to(*old(pool)),
        ensures
            done == bound_has_room(
                old(pool).words_bound(),
                old(self).words_in(*old(pool)).len(),
                other.words_in(*old(pool)).len(),
            ),
            other.words_in(*old(pool)).len() <= 0x1_0000_0000 && old(pool).words_bound() + 4
                * other.words_in(*old(pool)).len() < u32::MAX ==> done,
            !done ==> *final(self) == *old(self) && *final(pool) == *old(pool),
            done ==> {
                &&& final(self).view_in(*final(pool)) == old(self).view_in(*old(pool)).union(
                    other.view_in(*old(pool)),
                )
                &&& final(self).belongs_to(*final(pool))
                &&& others_kept(*old(self), *old(pool), *final(pool))
                &&& apart_from_others(*old(self), *final(self), *old(pool))
            },
    {
        let bound = pool.memory_bound();
        let from = list_len(&self.list, &pool.pool);
        let to = list_len(&other.list, &pool.pool);
        proof {
            if to as nat <= 0x1_0000_0000 && bound + 4 * (to as nat) < u32::MAX {
                law_bound_room_within_handle_range(bound as nat, from as nat, to as nat);
            }
        }
        if has_room(bound, from, to) {
            self.union_into(other, pool);
            true
        } else {
            false
        }
    }
}

} // verus!
