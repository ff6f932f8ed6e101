//! Properties of the library that relate several calls.
use crate::iter::below_usize;
use crate::iter::is_least;
use crate::iter::EntitySetIter;
use crate::iter::lists_in_order;
use crate::pool::growth_from_to;
use crate::room::lemma_growth_from_empty;
use crate::room::lemma_growth_from_le;
use crate::room::bound_has_room;
use crate::set::all_kept;
use crate::set::room_to_grow;
use crate::set::EntitySet;
use crate::set::EntitySetPool;
use vstd::prelude::*;

verus! {

/// `k` appears in the listing `out`.
pub open spec fn listed(out: Seq<usize>, k: int) -> bool {
    exists|i: int| 0 <= i < out.len() && #[trigger] out[i] as int == k
}

/// Inserting an index that was absent adds one member; inserting one that was present adds
/// none (`insert` followed by `size`).
pub proof fn law_insert_size(
    set: EntitySet,
    pool: EntitySetPool,
    after: EntitySet,
    after_pool: EntitySetPool,
    index: int,
)
    requires
        after.view_in(after_pool) == set.view_in(pool).insert(index),
    ensures
        set.view_in(pool).finite(),
        after.view_in(after_pool).len() == set.view_in(pool).len() + (if set.view_in(
            pool,
        ).contains(index) {
            0int
        } else {
            1int
        }),
{
    set.lemma_view_finite(pool);
    if set.view_in(pool).contains(index) {
        assert(set.view_in(pool).insert(index) =~= set.view_in(pool));
    }
}

/// Removing an index that was present takes away one member; removing an absent one takes
/// away none (`remove` followed by `size`).
pub proof fn law_remove_size(
    set: EntitySet,
    pool: EntitySetPool,
    after: EntitySet,
    after_pool: EntitySetPool,
    index: int,
)
    requires
        after.view_in(after_pool) == set.view_in(pool).remove(index),
    ensures
        set.view_in(pool).finite(),
        after.view_in(after_pool).len() + (if set.view_in(pool).contains(index) {
            1int
        } else {
            0int
        }) == set.view_in(pool).len(),
{
    set.lemma_view_finite(pool);
    if !set.view_in(pool).contains(index) {
        assert(set.view_in(pool).remove(index) =~= set.view_in(pool));
    }
}

/// Removing an index that an insert just added gives back the set as it was before the
/// insert, when the index was absent then.
pub proof fn law_remove_undoes_insert(
    set: EntitySet,
    pool: EntitySetPool,
    mid: EntitySet,
    mid_pool: EntitySetPool,
    after: EntitySet,
    after_pool: EntitySetPool,
    index: int,
)
    requires
        !set.view_in(pool).contains(index),
        mid.view_in(mid_pool) == set.view_in(pool).insert(index),
        after.view_in(after_pool) == mid.view_in(mid_pool).remove(index),
    ensures
        after.view_in(after_pool) == set.view_in(pool),
{
    assert(set.view_in(pool).insert(index).remove(index) =~= set.view_in(pool));
}

/// A listing in increasing order is determined by the set it lists: two listings of the same
/// set are the same sequence.
pub proof fn law_listing_unique(a: Seq<usize>, b: Seq<usize>, s: Set<int>)
    requires
        lists_in_order(a, s),
        lists_in_order(b, s),
    ensures
        a == b,
    decreases a.len(),
{
    if a.len() == 0 {
        if b.len() > 0 {
            assert(s.contains(b[0] as int)) by {
                assert(b[0] as int == b[0] as int);
            }
            let i = choose|i: int| 0 <= i < a.len() && a[i] as int == b[0] as int;
        }
        assert(a =~= b);
    } else {
        assert(s.contains(a[0] as int)) by {
            assert(a[0] as int == a[0] as int);
        }
        let j = choose|j: int| 0 <= j < b.len() && b[j] as int == a[0] as int;
        assert(s.contains(b[0] as int)) by {
            assert(b[0] as int == b[0] as int);
        }
        let k = choose|k: int| 0 <= k < a.len() && a[k] as int == b[0] as int;
        // a[0] <= a[k] == b[0] <= b[j] == a[0]
        assert(a[0] <= a[k]);
        assert(b[0] <= b[j]);
        assert(a[0] == b[0]);
        let x = a[0] as int;
        let s2 = s.remove(x);
        let a2 = a.drop_first();
        let b2 = b.drop_first();
        assert forall|k2: int| s2.contains(k2) <==> exists|i: int|
            0 <= i < a2.len() && #[trigger] a2[i] as int == k2 by {
            if s2.contains(k2) {
                let i = choose|i: int| 0 <= i < a.len() && a[i] as int == k2;
                assert(i != 0);
                assert(a2[i - 1] == a[i]);
            }
            if exists|i: int| 0 <= i < a2.len() && #[trigger] a2[i] as int == k2 {
                let i = choose|i: int| 0 <= i < a2.len() && #[trigger] a2[i] as int == k2;
                assert(a[i + 1] == a2[i]);
                assert(a[0] < a[i + 1]);
            }
        }
        assert forall|k2: int| s2.contains(k2) <==> exists|i: int|
            0 <= i < b2.len() && #[trigger] b2[i] as int == k2 by {
            if s2.contains(k2) {
                let i = choose|i: int| 0 <= i < b.len() && b[i] as int == k2;
                assert(i != 0);
                assert(b2[i - 1] == b[i]);
            }
            if exists|i: int| 0 <= i < b2.len() && #[trigger] b2[i] as int == k2 {
                let i = choose|i: int| 0 <= i < b2.len() && #[trigger] b2[i] as int == k2;
                assert(b[i + 1] == b2[i]);
                assert(b[0] < b[i + 1]);
            }
        }
        law_listing_unique(a2, b2, s2);
        assert(a =~= b) by {
            assert forall|i: int| 0 <= i < a.len() implies a[i] == b[i] by {
                if i > 0 {
                    assert(a2[i - 1] == b2[i - 1]);
                }
            }
        }
    }
}

/// A listing in increasing order has one entry per member of the set it lists.
pub proof fn law_listing_len(out: Seq<usize>, s: Set<int>)
    requires
        lists_in_order(out, s),
    ensures
        s.finite(),
        s.len() == out.len(),
{
    broadcast use vstd::seq_lib::seq_to_set_is_finite;

    let m = out.map_values(|x: usize| x as int);
    assert forall|i: int, j: int| 0 <= i < m.len() && 0 <= j < m.len() && i != j implies m[i]
        != m[j] by {
        if i < j {
            assert(out[i] < out[j]);
        } else {
            assert(out[j] < out[i]);
        }
    }
    assert(m.no_duplicates());
    assert forall|k: int| s.contains(k) <==> m.to_set().contains(k) by {
        if s.contains(k) {
            let i = choose|i: int| 0 <= i < out.len() && out[i] as int == k;
            assert(m[i] == k);
        }
        if m.to_set().contains(k) {
            let i = choose|i: int| 0 <= i < m.len() && m[i] == k;
            assert(out[i] as int == k);
        }
    }
    assert(s =~= m.to_set());
    m.unique_seq_to_set();
}

/// `union(a, b)` and `union(b, a)` return the same listing.
pub proof fn law_union_commutes(
    a: EntitySet,
    b: EntitySet,
    pool: EntitySetPool,
    ab: Seq<usize>,
    ba: Seq<usize>,
)
    requires
        lists_in_order(ab, below_usize(a.view_in(pool).union(b.view_in(pool)))),
        lists_in_order(ba, below_usize(b.view_in(pool).union(a.view_in(pool)))),
    ensures
        ab == ba,
{
    assert(below_usize(a.view_in(pool).union(b.view_in(pool))) =~= below_usize(
        b.view_in(pool).union(a.view_in(pool)),
    ));
    law_listing_unique(ab, ba, below_usize(a.view_in(pool).union(b.view_in(pool))));
}

/// `intersection(a, b)` and `intersection(b, a)` return the same listing.
pub proof fn law_intersection_commutes(
    a: EntitySet,
    b: EntitySet,
    pool: EntitySetPool,
    ab: Seq<usize>,
    ba: Seq<usize>,
)
    requires
        lists_in_order(ab, below_usize(a.view_in(pool).intersect(b.view_in(pool)))),
        lists_in_order(ba, below_usize(b.view_in(pool).intersect(a.view_in(pool)))),
    ensures
        ab == ba,
{
    assert(below_usize(a.view_in(pool).intersect(b.view_in(pool))) =~= below_usize(
        b.view_in(pool).intersect(a.view_in(pool)),
    ));
    law_listing_unique(ab, ba, below_usize(a.view_in(pool).intersect(b.view_in(pool))));
}

/// `symmetric_difference(a, b)` and `symmetric_difference(b, a)` return the same listing.
pub proof fn law_symmetric_difference_commutes(
    a: EntitySet,
    b: EntitySet,
    pool: EntitySetPool,
    ab: Seq<usize>,
    ba: Seq<usize>,
)
    requires
        lists_in_order(
            ab,
            below_usize(
                a.view_in(pool).difference(b.view_in(pool)).union(
                    b.view_in(pool).difference(a.view_in(pool)),
                ),
            ),
        ),
        lists_in_order(
            ba,
            below_usize(
                b.view_in(pool).difference(a.view_in(pool)).union(
                    a.view_in(pool).difference(b.view_in(pool)),
                ),
            ),
        ),
    ensures
        ab == ba,
{
    let s = below_usize(
        a.view_in(pool).difference(b.view_in(pool)).union(
            b.view_in(pool).difference(a.view_in(pool)),
        ),
    );
    assert(s =~= below_usize(
        b.view_in(pool).difference(a.view_in(pool)).union(
            a.view_in(pool).difference(b.view_in(pool)),
        ),
    ));
    law_listing_unique(ab, ba, s);
}

/// What `symmetric_difference(a, b)` lists is what `union(a, b)` lists and
/// `intersection(a, b)` does not.
pub proof fn law_symmetric_difference_split(
    a: EntitySet,
    b: EntitySet,
    pool: EntitySetPool,
    sym: Seq<usize>,
    uni: Seq<usize>,
    inter: Seq<usize>,
    k: int,
)
    requires
        lists_in_order(
            sym,
            below_usize(
                a.view_in(pool).difference(b.view_in(pool)).union(
                    b.view_in(pool).difference(a.view_in(pool)),
                ),
            ),
        ),
        lists_in_order(uni, below_usize(a.view_in(pool).union(b.view_in(pool)))),
        lists_in_order(inter, below_usize(a.view_in(pool).intersect(b.view_in(pool)))),
    ensures
        listed(sym, k) == (listed(uni, k) && !listed(inter, k)),
{
    let va = a.view_in(pool);
    let vb = b.view_in(pool);
    assert(listed(sym, k) == below_usize(va.difference(vb).union(vb.difference(va))).contains(k));
    assert(listed(uni, k) == below_usize(va.union(vb)).contains(k));
    assert(listed(inter, k) == below_usize(va.intersect(vb)).contains(k));
}

/// Right after `make_copy`, the copy and the original hold the same indices in the pool, so
/// `eq` between them answers `true`.
pub proof fn law_copy_equals_original(
    set: EntitySet,
    pool: EntitySetPool,
    copy: EntitySet,
    after_pool: EntitySetPool,
)
    requires
        set.belongs_to(pool),
        copy.view_in(after_pool) == set.view_in(pool),
        all_kept(pool, after_pool),
    ensures
        copy.view_in(after_pool) == set.view_in(after_pool),
        set.belongs_to(after_pool),
{
    assert(set.belongs_to(pool));
}

/// After `insert(index)`, `contains(index)` answers `true` and every other index answers as
/// before.
pub proof fn law_insert_then_contains(
    set: EntitySet,
    pool: EntitySetPool,
    after: EntitySet,
    after_pool: EntitySetPool,
    index: int,
    other: int,
)
    requires
        after.view_in(after_pool) == set.view_in(pool).insert(index),
    ensures
        after.view_in(after_pool).contains(index),
        other != index ==> after.view_in(after_pool).contains(other) == set.view_in(pool).contains(
            other,
        ),
{
}

/// After `remove(index)`, `contains(index)` answers `false` and every other index answers as
/// before.
pub proof fn law_remove_then_contains(
    set: EntitySet,
    pool: EntitySetPool,
    after: EntitySet,
    after_pool: EntitySetPool,
    index: int,
    other: int,
)
    requires
        after.view_in(after_pool) == set.view_in(pool).remove(index),
    ensures
        !after.view_in(after_pool).contains(index),
        other != index ==> after.view_in(after_pool).contains(other) == set.view_in(pool).contains(
            other,
        ),
{
}

/// After `clear`, the set has no member and its size is 0.
pub proof fn law_clear_then_size(after: EntitySet, after_pool: EntitySetPool)
    requires
        after.view_in(after_pool) == Set::<int>::empty(),
    ensures
        after.view_in(after_pool).len() == 0,
{
}

/// Each call of `next` on a set's walk returns a larger index than the call before it.
pub proof fn law_next_increasing<'a>(
    before: EntitySetIter<'a>,
    k1: int,
    between: EntitySetIter<'a>,
    k2: int,
)
    requires
        is_least(before.remaining(), k1),
        between.remaining() == before.remaining().remove(k1),
        is_least(between.remaining(), k2),
    ensures
        k1 < k2,
{
    assert(before.remaining().contains(k2));
}

/// Walking a set to the end lists what the walk started with: if each call of `next` returned
/// `ks[i]` as the least of `rems[i]`, the indices still to come, and left `rems[i + 1]`, and
/// the last state has nothing left, then `ks` lists `rems[0]` in increasing order, each once.
/// `iter` starts a walk at the set's indices, and `next` gives each step.
pub proof fn law_walk_lists_members(rems: Seq<Set<int>>, ks: Seq<usize>)
    requires
        rems.len() == ks.len() + 1,
        forall|i: int|
            0 <= i < ks.len() ==> is_least(#[trigger] rems[i], ks[i] as int) && rems[i + 1]
                == rems[i].remove(ks[i] as int),
        rems[rems.len() - 1] == Set::<int>::empty(),
    ensures
        lists_in_order(ks, rems[0]),
    decreases ks.len(),
{
    if ks.len() == 0 {
        assert forall|k: int| rems[0].contains(k) <==> exists|i: int|
            0 <= i < ks.len() && #[trigger] ks[i] as int == k by {}
    } else {
        let rems2 = rems.drop_first();
        let ks2 = ks.drop_first();
        assert forall|i: int|
            0 <= i < ks2.len() implies is_least(#[trigger] rems2[i], ks2[i] as int) && rems2[i + 1]
            == rems2[i].remove(ks2[i] as int) by {
            assert(rems2[i] == rems[i + 1]);
            assert(ks2[i] == ks[i + 1]);
            assert(is_least(rems[i + 1], ks[i + 1] as int));
        }
        law_walk_lists_members(rems2, ks2);
        let k0 = ks[0] as int;
        assert(is_least(rems[0], k0));
        assert(rems[1] == rems[0].remove(k0));
        // Every later index is in `rems[1]`, so above `k0`.
        assert forall|j: int| 0 < j < ks.len() implies k0 < ks[j] by {
            assert(ks2[j - 1] == ks[j]);
            assert(rems2[0].contains(ks2[j - 1] as int));
            assert(rems[0].contains(ks[j] as int));
        }
        assert forall|i: int, j: int| 0 <= i < j < ks.len() implies ks[i] < ks[j] by {
            if i > 0 {
                assert(ks2[i - 1] < ks2[j - 1]);
            }
        }
        assert forall|k: int| rems[0].contains(k) <==> exists|i: int|
            0 <= i < ks.len() && #[trigger] ks[i] as int == k by {
            if rems[0].contains(k) {
                if k == k0 {
                    assert(ks[0] as int == k);
                } else {
                    assert(rems2[0].contains(k));
                    let i = choose|i: int| 0 <= i < ks2.len() && #[trigger] ks2[i] as int == k;
                    assert(ks[i + 1] == ks2[i]);
                }
            }
            if exists|i: int| 0 <= i < ks.len() && #[trigger] ks[i] as int == k {
                let i = choose|i: int| 0 <= i < ks.len() && #[trigger] ks[i] as int == k;
                if i > 0 {
                    assert(ks2[i - 1] == ks[i]);
                    assert(rems2[0].contains(k));
                }
            }
        }
    }
}

/// Walking two sets together to the end lists the union of what the walk started with, each
/// index once in increasing order, and flags each index with whether the left and the right set
/// held it: if each call of the join's `next` returned `items[i]` as `EntitySetJoinIter::next`
/// says, from `ls[i]` and `rs[i]` to `ls[i + 1]` and `rs[i + 1]`, and the last state has nothing
/// left on either side.
pub proof fn law_join_walk_lists(ls: Seq<Set<int>>, rs: Seq<Set<int>>, items: Seq<(usize, bool, bool)>)
    requires
        ls.len() == items.len() + 1,
        rs.len() == items.len() + 1,
        forall|i: int|
            0 <= i < items.len() ==> {
                &&& is_least(#[trigger] ls[i].union(rs[i]), items[i].0 as int)
                &&& items[i].1 == ls[i].contains(items[i].0 as int)
                &&& items[i].2 == rs[i].contains(items[i].0 as int)
                &&& ls[i + 1] == ls[i].remove(items[i].0 as int)
                &&& rs[i + 1] == rs[i].remove(items[i].0 as int)
            },
        ls[ls.len() - 1] == Set::<int>::empty(),
        rs[rs.len() - 1] == Set::<int>::empty(),
    ensures
        lists_in_order(items.map_values(|t: (usize, bool, bool)| t.0), ls[0].union(rs[0])),
        forall|j: int|
            0 <= j < items.len() ==> #[trigger] items[j].1 == ls[0].contains(items[j].0 as int)
                && items[j].2 == rs[0].contains(items[j].0 as int),
    decreases items.len(),
{
    let ks = items.map_values(|t: (usize, bool, bool)| t.0);
    let rems = Seq::new(ls.len(), |i: int| ls[i].union(rs[i]));
    assert forall|i: int|
        0 <= i < ks.len() implies is_least(#[trigger] rems[i], ks[i] as int) && rems[i + 1]
        == rems[i].remove(ks[i] as int) by {
        assert(is_least(ls[i].union(rs[i]), items[i].0 as int));
        assert(rems[i + 1] =~= rems[i].remove(ks[i] as int));
    }
    assert(rems[rems.len() - 1] =~= Set::<int>::empty());
    law_walk_lists_members(rems, ks);
    if items.len() > 0 {
        let ls2 = ls.drop_first();
        let rs2 = rs.drop_first();
        let items2 = items.drop_first();
        assert forall|i: int| 0 <= i < items2.len() implies {
            &&& is_least(#[trigger] ls2[i].union(rs2[i]), items2[i].0 as int)
            &&& items2[i].1 == ls2[i].contains(items2[i].0 as int)
            &&& items2[i].2 == rs2[i].contains(items2[i].0 as int)
            &&& ls2[i + 1] == ls2[i].remove(items2[i].0 as int)
            &&& rs2[i + 1] == rs2[i].remove(items2[i].0 as int)
        } by {
            assert(ls2[i] == ls[i + 1] && rs2[i] == rs[i + 1] && items2[i] == items[i + 1]);
            assert(is_least(ls[i + 1].union(rs[i + 1]), items[i + 1].0 as int));
        }
        law_join_walk_lists(ls2, rs2, items2);
        let k0 = items[0].0 as int;
        assert forall|j: int| 0 <= j < items.len() implies #[trigger] items[j].1 == ls[0].contains(
            items[j].0 as int,
        ) && items[j].2 == rs[0].contains(items[j].0 as int) by {
            if j > 0 {
                assert(items2[j - 1] == items[j]);
                assert(ks[0] < ks[j]);
                assert(ls[1] == ls[0].remove(k0));
                assert(rs[1] == rs[0].remove(k0));
            }
        }
    }
}

/// Growing a set from `from` to `to` words adds at most `4 * to` words to the pool's memory:
/// each move to a larger block at least doubles it.
pub proof fn law_growth_bound(from: nat, to: nat)
    ensures
        growth_from_to(from, to) <= 4 * to,
{
    lemma_growth_from_le(from, to);
    if to >= 1 {
        let p = lemma_growth_from_empty(to);
    }
}

/// A pool holding `used` words has room to grow a set from `from` to `to` words when
/// `used + 4 * (to - 1)` is below `u32::MAX`.
pub proof fn law_room_to_grow(used: nat, from: nat, to: nat)
    requires
        to <= from || used + 4 * (to - 1) < u32::MAX,
    ensures
        room_to_grow(used, from, to),
{
    if to > from {
        law_growth_bound(from, (to - 1) as nat);
    }
}

/// The checked operations refuse only when the 32-bit handle range could run out: whenever the
/// last push starts from fewer than 2^32 words and `bound + 4 * (to - 1)` is below `u32::MAX`,
/// the pool's bound shows room for growing a set from `from` to `to` words.
pub proof fn law_bound_room_within_handle_range(bound: nat, from: nat, to: nat)
    requires
        to <= from || (to - 1 < 0x1_0000_0000 && bound + 4 * (to - 1) < u32::MAX),
    ensures
        bound_has_room(bound, from, to),
{
    if to > from {
        law_growth_bound(from, (to - 1) as nat);
    }
}

/// Room by the pool's bound is room in the pool's memory: a checked operation that goes ahead
/// meets the precondition of the operation it runs.
pub proof fn law_bound_room_is_room(used: nat, bound: nat, from: nat, to: nat)
    requires
        used <= bound,
        bound_has_room(bound, from, to),
    ensures
        room_to_grow(used, from, to),
{
}

} // verus!
