//! Walking a set's indices in increasing order, alone or side by side with another set.
use crate::bits::lemma_lowest_bit;
use vstd::std_specs::bits::axiom_u64_trailing_zeros;
use crate::bits::lemma_shift_shift;
use crate::bits::lemma_shifted_word_bit;
use crate::bits::words_contain;
use crate::bits::WORD_BITS;
use crate::bits::WORD_MASK;
use crate::pool::list_get;
use crate::pool::list_in_pool;
use crate::pool::list_words;
use crate::pool::WordList;
use crate::pool::WordPool;
use crate::set::EntitySet;
use crate::set::EntitySetPool;
use vstd::prelude::*;

verus! {

/// The indices of `s` that fit in a `usize`.
pub open spec fn below_usize(s: Set<int>) -> Set<int> {
    Set::new(|i: int| s.contains(i) && i <= usize::MAX)
}

/// `k` is in `s` and no member of `s` is smaller.
pub open spec fn is_least(s: Set<int>, k: int) -> bool {
    s.contains(k) && forall|x: int| #[trigger] s.contains(x) ==> k <= x
}

/// Walks the indices of a set in increasing order.
pub struct EntitySetIter<'a> {
    pool: &'a WordPool,
    list: WordList,
    current_data: u64,
    current: usize,
    finished: bool,
}

impl<'a> EntitySetIter<'a> {
    /// The words being walked.
    pub closed spec fn words(self) -> Seq<u64> {
        list_words(self.list, *self.pool)
    }

    /// The indices not yet handed out.
    pub closed spec fn remaining(self) -> Set<int> {
        if self.finished {
            Set::empty()
        } else {
            Set::new(
                |i: int| self.current <= i <= usize::MAX && words_contain(self.words(), i),
            )
        }
    }

    /// Between words, `current_data` holds the rest of the current word, shifted so that its
    /// bit 0 stands for index `current`.
    pub closed spec fn inv(self) -> bool {
        &&& list_in_pool(self.list, *self.pool)
        &&& !self.finished ==> (self.current % 63 != 0 ==> {
            &&& self.current / 63 < self.words().len()
            &&& self.current_data == (self.words()[(self.current / 63) as int] & WORD_MASK) >> ((
            self.current % 63) as u64)
        })
    }

    /// The next index, in increasing order, or `None` once all have been handed out.
    pub fn next(&mut self) -> (item: Option<usize>)
        requires
            old(self).inv(),
        ensures
            final(self).inv(),
            match item {
                None => old(self).remaining() == Set::<int>::empty() && final(self).remaining()
                    == Set::<int>::empty(),
                Some(k) => is_least(old(self).remaining(), k as int) && final(self).remaining()
                    == old(self).remaining().remove(k as int),
            },
    {
        let ghost ws = self.words();
        let ghost start = self.remaining();
        loop
            invariant
                self.inv(),
                self.words() == ws,
                self.remaining() == start,
                start == old(self).remaining(),
            decreases usize::MAX - self.current,
        {
            if self.finished {
                return None;
            }
            let rem = self.current % WORD_BITS;
            if rem == 0 {
                let curr = list_get(&self.list, self.current / WORD_BITS, self.pool);
                match curr {
                    None => {
                        proof {
                            assert forall|i: int| !#[trigger] start.contains(i) by {
                                if self.current <= i {
                                    assert(i / 63 >= self.current / 63);
                                }
                            }
                            assert(start =~= Set::<int>::empty());
                        }
                        self.finished = true;
                        assert(self.remaining() =~= Set::<int>::empty());
                        return None;
                    },
                    Some(w) => {
                        self.current_data = w & WORD_MASK;
                        proof {
                            assert(((w & WORD_MASK) >> 0u64) == (w & WORD_MASK)) by (bit_vector);
                        }
                    },
                }
            }
            let ghost cur = self.current as int;
            let ghost p = cur / 63;
            let ghost x = ws[p];
            let ghost r = rem as u64;
            assert(p < ws.len());
            assert(self.current_data == (x & WORD_MASK) >> r);
            // Index `cur + j`, for `j < 63 - r`, is bit `j` of `current_data`.
            assert forall|j: u64| j < 63 - r implies words_contain(ws, cur + j) == ((
            self.current_data >> j) & 1 == 1) by {
                lemma_shifted_word_bit(x, r, j, (r + j) as u64);
                assert((cur + j) / 63 == p);
                assert((cur + j) % 63 == r + j);
            }
            let rem_inv = WORD_BITS - rem;
            let trailing = self.current_data.trailing_zeros() as usize;
            if trailing > rem_inv {
                // Nothing is left in this word.
                proof {
                    let d = self.current_data;
                    if d != 0 {
                        let t = lemma_lowest_bit(d);
                        lemma_shifted_word_bit(x, r, t, (r + t) as u64);
                    }
                    assert forall|i: int| cur <= i < cur + rem_inv implies !words_contain(ws, i) by {
                        let j = (i - cur) as u64;
                        assert((d >> j) & 1 == 0) by (bit_vector)
                            requires
                                d == 0,
                        ;
                    }
                }
                match self.current.checked_add(rem_inv) {
                    Some(c) => {
                        self.current = c;
                        assert(self.remaining() =~= start);
                    },
                    None => {
                        // The next word starts past `usize::MAX`: no index is left.
                        assert(start =~= Set::<int>::empty());
                        self.finished = true;
                        assert(self.remaining() =~= Set::<int>::empty());
                        return None;
                    },
                }
            } else {
                let ghost d = self.current_data;
                proof {
                    if d == 0 {
                        assert(trailing == 64) by {
                            axiom_u64_trailing_zeros(d);
                        }
                    }
                }
                let ghost t = lemma_lowest_bit(d);
                proof {
                    lemma_shifted_word_bit(x, r, t, (r + t) as u64);
                    assert(t == trailing);
                    assert forall|i: int| cur <= i < cur + t implies !words_contain(ws, i) by {
                        let j = (i - cur) as u64;
                        assert(((d >> j) & 1) == 0);
                    }
                    assert(words_contain(ws, cur + t));
                }
                match self.current.checked_add(trailing) {
                    None => {
                        // The next set bit stands for an index past `usize::MAX`.
                        assert(start =~= Set::<int>::empty());
                        self.finished = true;
                        assert(self.remaining() =~= Set::<int>::empty());
                        return None;
                    },
                    Some(num) => {
                        self.current_data = self.current_data >> (trailing + 1) as u64;
                        proof {
                            lemma_shift_shift(x & WORD_MASK, r, (t + 1) as u64, (r + t + 1) as u64);
                            assert(is_least(start, num as int));
                        }
                        match num.checked_add(1) {
                            Some(c) => {
                                self.current = c;
                                assert(self.remaining() =~= start.remove(num as int));
                            },
                            None => {
                                self.finished = true;
                                assert(self.remaining() =~= start.remove(num as int));
                            },
                        }
                        return Some(num);
                    },
                }
            }
        }
    }
}

impl EntitySet {
    /// Walks the set's indices, as read in `pool`, in increasing order.
    pub fn iter<'a>(&self, pool: &'a EntitySetPool) -> (it: EntitySetIter<'a>)
        requires
            self.belongs_to(*pool),
        ensures
            it.inv(),
            it.remaining() == below_usize(self.view_in(*pool)),
    {
        let it = EntitySetIter {
            pool: pool.word_pool(),
            list: self.list,
            current_data: 0,
            current: 0,
            finished: false,
        };
        proof {
            self.lemma_reveal(*pool);
        }
        assert(it.words() == self.words_in(*pool));
        assert(it.remaining() =~= below_usize(self.view_in(*pool)));
        it
    }
}

/// The indices of `it` still to come, counting `curr`, the one already taken out of it.
pub open spec fn pending(curr: Option<usize>, it: EntitySetIter) -> Set<int> {
    match curr {
        None => Set::empty(),
        Some(v) => it.remaining().insert(v as int),
    }
}

/// `curr` is the least index of `it` taken out ahead of the rest, or `None` when `it` is done.
pub open spec fn lookahead_ok(curr: Option<usize>, it: EntitySetIter) -> bool {
    &&& it.inv()
    &&& match curr {
        None => it.remaining() == Set::<int>::empty(),
        Some(v) => forall|x: int| #[trigger] it.remaining().contains(x) ==> v < x,
    }
}

/// Walks the indices of two sets together, in increasing order, telling for each index which
/// of the two sets holds it.
pub struct EntitySetJoinIter<'a> {
    left: EntitySetIter<'a>,
    right: EntitySetIter<'a>,
    left_curr: Option<usize>,
    right_curr: Option<usize>,
}

/// Takes the next index out of `it`, as the new lookahead.
fn advance(it: &mut EntitySetIter) -> (curr: Option<usize>)
    requires
        old(it).inv(),
    ensures
        lookahead_ok(curr, *final(it)),
        pending(curr, *final(it)) == old(it).remaining(),
{
    let curr = it.next();
    match curr {
        None => {},
        Some(v) => {
            assert(pending(curr, *it) =~= old(it).remaining());
        },
    }
    curr
}

impl<'a> EntitySetJoinIter<'a> {
    /// The indices of the left set still to come.
    pub closed spec fn left_remaining(self) -> Set<int> {
        pending(self.left_curr, self.left)
    }

    /// The indices of the right set still to come.
    pub closed spec fn right_remaining(self) -> Set<int> {
        pending(self.right_curr, self.right)
    }

    /// Each side holds its least remaining index in its lookahead.
    pub closed spec fn inv(self) -> bool {
        lookahead_ok(self.left_curr, self.left) && lookahead_ok(self.right_curr, self.right)
    }

    /// The next index of either set, in increasing order, with whether the left set and the
    /// right set hold it; `None` once both are exhausted.
    pub fn next(&mut self) -> (item: Option<(usize, bool, bool)>)
        requires
            old(self).inv(),
        ensures
            final(self).inv(),
            match item {
                None => old(self).left_remaining().union(old(self).right_remaining()) == Set::<
                    int,
                >::empty() && final(self).left_remaining() == Set::<int>::empty()
                    && final(self).right_remaining() == Set::<int>::empty(),
                Some((k, in_left, in_right)) => {
                    &&& is_least(
                        old(self).left_remaining().union(old(self).right_remaining()),
                        k as int,
                    )
                    &&& in_left == old(self).left_remaining().contains(k as int)
                    &&& in_right == old(self).right_remaining().contains(k as int)
                    &&& final(self).left_remaining() == old(self).left_remaining().remove(k as int)
                    &&& final(self).right_remaining() == old(self).right_remaining().remove(
                        k as int,
                    )
                },
            },
    {
        let ghost lrem = self.left_remaining();
        let ghost rrem = self.right_remaining();
        match self.left_curr {
            None => match self.right_curr {
                None => {
                    assert(lrem.union(rrem) =~= Set::<int>::empty());
                    None
                },
                Some(r) => {
                    self.right_curr = advance(&mut self.right);
                    assert(lrem.union(rrem) =~= rrem);
                    assert(self.left_remaining() =~= lrem.remove(r as int));
                    Some((r, false, true))
                },
            },
            Some(l) => match self.right_curr {
                None => {
                    self.left_curr = advance(&mut self.left);
                    assert(lrem.union(rrem) =~= lrem);
                    assert(self.right_remaining() =~= rrem.remove(l as int));
                    Some((l, true, false))
                },
                Some(r) => {
                    if l == r {
                        self.left_curr = advance(&mut self.left);
                        self.right_curr = advance(&mut self.right);
                        Some((l, true, true))
                    } else if l < r {
                        self.left_curr = advance(&mut self.left);
                        assert(!rrem.contains(l as int));
                        assert(self.right_remaining() =~= rrem.remove(l as int));
                        Some((l, true, false))
                    } else {
                        self.right_curr = advance(&mut self.right);
                        assert(!lrem.contains(r as int));
                        assert(self.left_remaining() =~= lrem.remove(r as int));
                        Some((r, false, true))
                    }
                },
            },
        }
    }
}

impl EntitySet {
    /// Walks this set and `rhs` together, both read in `pool`.
    pub fn join<'a>(&self, rhs: &EntitySet, pool: &'a EntitySetPool) -> (it: EntitySetJoinIter<'a>)
        requires
            self.belongs_to(*pool),
            rhs.belongs_to(*pool),
        ensures
            it.inv(),
            it.left_remaining() == below_usize(self.view_in(*pool)),
            it.right_remaining() == below_usize(rhs.view_in(*pool)),
    {
        self.join_other(rhs, pool, pool)
    }

    /// Walks this set, read in `pool`, and `rhs`, read in `rhs_pool`, together.
    pub fn join_other<'a>(&self, rhs: &EntitySet, pool: &'a EntitySetPool, rhs_pool: &'a EntitySetPool) -> (it: EntitySetJoinIter<'a>)
        requires
            self.belongs_to(*pool),
            rhs.belongs_to(*rhs_pool),
        ensures
            it.inv(),
            it.left_remaining() == below_usize(self.view_in(*pool)),
            it.right_remaining() == below_usize(rhs.view_in(*rhs_pool)),
    {
        let mut left = self.iter(pool);
        let mut right = rhs.iter(rhs_pool);
        let left_curr = advance(&mut left);
        let right_curr = advance(&mut right);
        EntitySetJoinIter { left, right, left_curr, right_curr }
    }
}

/// `out` lists the members of `s`, each once, in increasing order.
pub open spec fn lists_in_order(out: Seq<usize>, s: Set<int>) -> bool {
    &&& forall|i: int, j: int| 0 <= i < j < out.len() ==> out[i] < out[j]
    &&& forall|k: int|
        s.contains(k) <==> exists|i: int| 0 <= i < out.len() && #[trigger] out[i] as int == k
}

/// Which indices a set operation keeps, from whether the left and the right set hold them.
pub open spec fn selected(in_left: bool, in_right: bool, both: bool, left_only: bool, right_only: bool) -> bool {
    ||| in_left && in_right && both
    ||| in_left && !in_right && left_only
    ||| !in_left && in_right && right_only
}

/// The members of `l` or `r` that a set operation keeps.
pub open spec fn selection(l: Set<int>, r: Set<int>, both: bool, left_only: bool, right_only: bool) -> Set<int> {
    Set::new(|k: int| selected(l.contains(k), r.contains(k), both, left_only, right_only))
}

/// Runs `it` to the end and keeps, in order, the indices whose membership `selected` accepts.
fn collect_selected(it: &mut EntitySetJoinIter, both: bool, left_only: bool, right_only: bool) -> (out: Vec<usize>)
    requires
        old(it).inv(),
    ensures
        lists_in_order(
            out@,
            selection(
                old(it).left_remaining(),
                old(it).right_remaining(),
                both,
                left_only,
                right_only,
            ),
        ),
{
    let ghost l0 = it.left_remaining();
    let ghost r0 = it.right_remaining();
    let ghost target = selection(l0, r0, both, left_only, right_only);
    let ghost mut lo: int = 0;
    let mut out: Vec<usize> = Vec::new();
    assert(it.left_remaining() =~= Set::new(|x: int| l0.contains(x) && x >= lo)) by {
        assert forall|x: int| l0.contains(x) implies x >= 0 by {
            if x < 0 {
                assert(l0.union(r0).contains(x));
            }
        }
    }
    loop
        invariant
            it.inv(),
            l0 == old(it).left_remaining(),
            r0 == old(it).right_remaining(),
            target == selection(l0, r0, both, left_only, right_only),
            0 <= lo <= usize::MAX + 1,
            it.left_remaining() == Set::new(|x: int| l0.contains(x) && x >= lo),
            it.right_remaining() == Set::new(|x: int| r0.contains(x) && x >= lo),
            forall|i: int, j: int| 0 <= i < j < out@.len() ==> out@[i] < out@[j],
            forall|i: int| 0 <= i < out@.len() ==> out@[i] < lo,
            forall|k: int|
                (k < lo && #[trigger] target.contains(k)) <==> exists|i: int|
                    0 <= i < out@.len() && #[trigger] out@[i] as int == k,
        decreases usize::MAX + 1 - lo,
    {
        let ghost lrem = it.left_remaining();
        let ghost rrem = it.right_remaining();
        match it.next() {
            None => {
                assert forall|k: int| target.contains(k) implies k < lo by {
                    if k >= lo {
                        assert(lrem.contains(k) || rrem.contains(k));
                        assert(lrem.union(rrem).contains(k));
                    }
                }
                return out;
            },
            Some((k, in_left, in_right)) => {
                proof {
                    assert(lrem.union(rrem).contains(k as int));
                }
                let ghost old_out = out@;
                if (in_left && in_right && both) || (in_left && !in_right && left_only) || (
                !in_left && in_right && right_only) {
                    out.push(k);
                }
                proof {
                    assert(k >= lo);
                    assert(in_left == l0.contains(k as int));
                    assert(in_right == r0.contains(k as int));
                    assert forall|x: int| lo <= x < k implies !#[trigger] target.contains(x) by {
                        if target.contains(x) {
                            assert(lrem.union(rrem).contains(x));
                        }
                    }
                    assert forall|k2: int|
                        (k2 < k + 1 && #[trigger] target.contains(k2)) implies exists|i: int|
                        0 <= i < out@.len() && #[trigger] out@[i] as int == k2 by {
                        if k2 < lo {
                            let i = choose|i: int| 0 <= i < old_out.len() && old_out[i] as int == k2;
                            assert(out@[i] == old_out[i]);
                        } else {
                            assert(k2 == k);
                            assert(out@[out@.len() - 1] == k);
                        }
                    }
                    assert forall|k2: int|
                        (exists|i: int| 0 <= i < out@.len() && #[trigger] out@[i] as int == k2)
                        implies k2 < k + 1 && #[trigger] target.contains(k2) by {
                        let i = choose|i: int| 0 <= i < out@.len() && out@[i] as int == k2;
                        if i < old_out.len() {
                            assert(old_out[i] == out@[i]);
                        }
                    }
                    let old_lo = lo;
                    lo = k + 1;
                    assert forall|x: int| l0.contains(x) && x >= lo implies lrem.remove(
                        k as int,
                    ).contains(x) by {
                        assert(x >= old_lo);
                    }
                    assert forall|x: int| lrem.remove(k as int).contains(x) implies l0.contains(x)
                        && x >= lo by {
                        assert(lrem.union(rrem).contains(x));
                    }
                    assert forall|x: int| r0.contains(x) && x >= lo implies rrem.remove(
                        k as int,
                    ).contains(x) by {
                        assert(x >= old_lo);
                    }
                    assert forall|x: int| rrem.remove(k as int).contains(x) implies r0.contains(x)
                        && x >= lo by {
                        assert(lrem.union(rrem).contains(x));
                    }
                    assert(it.left_remaining() =~= Set::new(|x: int| l0.contains(x) && x >= lo));
                    assert(it.right_remaining() =~= Set::new(|x: int| r0.contains(x) && x >= lo));
                }
            },
        }
    }
}

impl EntitySet {
    /// The indices in this set or in `rhs`, both read in `pool`, in increasing order.
    pub fn union(&self, rhs: &EntitySet, pool: &EntitySetPool) -> (out: Vec<usize>)
        requires
            self.belongs_to(*pool),
            rhs.belongs_to(*pool),
        ensures
            lists_in_order(out@, below_usize(self.view_in(*pool).union(rhs.view_in(*pool)))),
    {
        self.union_other(rhs, pool, pool)
    }

    /// The indices in this set, read in `pool`, or in `rhs`, read in `rhs_pool`, in increasing
    /// order.
    pub fn union_other(&self, rhs: &EntitySet, pool: &EntitySetPool, rhs_pool: &EntitySetPool) -> (out: Vec<usize>)
        requires
            self.belongs_to(*pool),
            rhs.belongs_to(*rhs_pool),
        ensures
            lists_in_order(out@, below_usize(self.view_in(*pool).union(rhs.view_in(*rhs_pool)))),
    {
        let mut it = self.join_other(rhs, pool, rhs_pool);
        let out = collect_selected(&mut it, true, true, true);
        assert(selection(
            below_usize(self.view_in(*pool)),
            below_usize(rhs.view_in(*rhs_pool)),
            true,
            true,
            true,
        ) =~= below_usize(self.view_in(*pool).union(rhs.view_in(*rhs_pool))));
        out
    }

    /// The indices in both this set and `rhs`, both read in `pool`, in increasing order.
    pub fn intersection(&self, rhs: &EntitySet, pool: &EntitySetPool) -> (out: Vec<usize>)
        requires
            self.belongs_to(*pool),
            rhs.belongs_to(*pool),
        ensures
            lists_in_order(out@, below_usize(self.view_in(*pool).intersect(rhs.view_in(*pool)))),
    {
        self.intersection_other(rhs, pool, pool)
    }

    /// The indices in both this set, read in `pool`, and `rhs`, read in `rhs_pool`, in
    /// increasing order.
    pub fn intersection_other(&self, rhs: &EntitySet, pool: &EntitySetPool, rhs_pool: &EntitySetPool) -> (out: Vec<usize>)
        requires
            self.belongs_to(*pool),
            rhs.belongs_to(*rhs_pool),
        ensures
            lists_in_order(
                out@,
                below_usize(self.view_in(*pool).intersect(rhs.view_in(*rhs_pool))),
            ),
    {
        let mut it = self.join_other(rhs, pool, rhs_pool);
        let out = collect_selected(&mut it, true, false, false);
        assert(selection(
            below_usize(self.view_in(*pool)),
            below_usize(rhs.view_in(*rhs_pool)),
            true,
            false,
            false,
        ) =~= below_usize(self.view_in(*pool).intersect(rhs.view_in(*rhs_pool))));
        out
    }

    /// The indices in this set but not in `rhs`, both read in `pool`, in increasing order.
    pub fn difference(&self, rhs: &EntitySet, pool: &EntitySetPool) -> (out: Vec<usize>)
        requires
            self.belongs_to(*pool),
            rhs.belongs_to(*pool),
        ensures
            lists_in_order(out@, below_usize(self.view_in(*pool).difference(rhs.view_in(*pool)))),
    {
        self.difference_other(rhs, pool, pool)
    }

    /// The indices in this set, read in `pool`, but not in `rhs`, read in `rhs_pool`, in
    /// increasing order.
    pub fn difference_other(&self, rhs: &EntitySet, pool: &EntitySetPool, rhs_pool: &EntitySetPool) -> (out: Vec<usize>)
        requires
            self.belongs_to(*pool),
            rhs.belongs_to(*rhs_pool),
        ensures
            lists_in_order(
                out@,
                below_usize(self.view_in(*pool).difference(rhs.view_in(*rhs_pool))),
            ),
    {
        let mut it = self.join_other(rhs, pool, rhs_pool);
        let out = collect_selected(&mut it, false, true, false);
        assert(selection(
            below_usize(self.view_in(*pool)),
            below_usize(rhs.view_in(*rhs_pool)),
            false,
            true,
            false,
        ) =~= below_usize(self.view_in(*pool).difference(rhs.view_in(*rhs_pool))));
        out
    }

    /// The indices in exactly one of this set and `rhs`, both read in `pool`, in increasing
    /// order.
    pub fn symmetric_difference(&self, rhs: &EntitySet, pool: &EntitySetPool) -> (out: Vec<usize>)
        requires
            self.belongs_to(*pool),
            rhs.belongs_to(*pool),
        ensures
            lists_in_order(
                out@,
                below_usize(
                    self.view_in(*pool).difference(rhs.view_in(*pool)).union(
                        rhs.view_in(*pool).difference(self.view_in(*pool)),
                    ),
                ),
            ),
    {
        self.symmetric_difference_other(rhs, pool, pool)
    }

    /// The indices in exactly one of this set, read in `pool`, and `rhs`, read in `rhs_pool`,
    /// in increasing order.
    pub fn symmetric_difference_other(&self, rhs: &EntitySet, pool: &EntitySetPool, rhs_pool: &EntitySetPool) -> (out: Vec<usize>)
        requires
            self.belongs_to(*pool),
            rhs.belongs_to(*rhs_pool),
        ensures
            lists_in_order(
                out@,
                below_usize(
                    self.view_in(*pool).difference(rhs.view_in(*rhs_pool)).union(
                        rhs.view_in(*rhs_pool).difference(self.view_in(*pool)),
                    ),
                ),
            ),
    {
        let mut it = self.join_other(rhs, pool, rhs_pool);
        let out = collect_selected(&mut it, false, true, true);
        assert(selection(
            below_usize(self.view_in(*pool)),
            below_usize(rhs.view_in(*rhs_pool)),
            false,
            true,
            true,
        ) =~= below_usize(
            self.view_in(*pool).difference(rhs.view_in(*rhs_pool)).union(
                rhs.view_in(*rhs_pool).difference(self.view_in(*pool)),
            ),
        ));
        out
    }
}

} // verus!
