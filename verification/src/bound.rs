//! A set together with the pool it lives in.
use crate::iter::below_usize;
use crate::iter::EntitySetIter;
use crate::set::EntitySet;
use crate::set::EntitySetPool;
use vstd::prelude::*;

verus! {

/// A set bound to the pool it is read in, so that it can be queried and compared on its own.
pub struct BoundEntitySet<'a> {
    set: EntitySet,
    pool: &'a EntitySetPool,
}

impl<'a> BoundEntitySet<'a> {
    /// The set belongs to the pool it is bound to.
    #[verifier::type_invariant]
    spec fn belongs(self) -> bool {
        self.set.belongs_to(*self.pool)
    }
}

impl<'a> View for BoundEntitySet<'a> {
    type V = Set<int>;

    /// The indices of the set, read in its pool.
    closed spec fn view(&self) -> Set<int> {
        self.set.view_in(*self.pool)
    }
}

impl<'a> Clone for BoundEntitySet<'a> {
    fn clone(&self) -> (copy: Self)
        ensures
            copy@ == self@,
    {
        proof {
            use_type_invariant(self);
        }
        BoundEntitySet { set: self.set.clone(), pool: self.pool }
    }
}

impl EntitySet {
    /// This set, bound to `pool`.
    pub fn bind<'a>(&self, pool: &'a EntitySetPool) -> (bound: BoundEntitySet<'a>)
        requires
            self.belongs_to(*pool),
        ensures
            bound@ == self.view_in(*pool),
    {
        BoundEntitySet { set: self.clone(), pool }
    }
}

impl<'a> BoundEntitySet<'a> {
    /// Whether `index` is in the set.
    pub fn contains(&self, index: usize) -> (found: bool)
        ensures
            found == self@.contains(index as int),
    {
        proof {
            use_type_invariant(self);
        }
        self.set.contains(index, self.pool)
    }

    /// The number of indices in the set, which must fit in a `usize`.
    pub fn size(&self) -> (n: usize)
        requires
            self@.len() <= usize::MAX,
        ensures
            self@.finite(),
            n == self@.len(),
    {
        proof {
            use_type_invariant(self);
        }
        self.set.size(self.pool)
    }

    /// The number of indices in the set, or `None` when it does not fit in a `usize`.
    pub fn checked_size(&self) -> (n: Option<usize>)
        ensures
            self@.finite(),
            n == (if self@.len() <= usize::MAX {
                Some(self@.len() as usize)
            } else {
                None
            }),
    {
        proof {
            use_type_invariant(self);
        }
        self.set.checked_size(self.pool)
    }

    /// Walks the set's indices in increasing order.
    pub fn iter(&self) -> (it: EntitySetIter<'a>)
        ensures
            it.inv(),
            it.remaining() == below_usize(self@),
    {
        proof {
            use_type_invariant(self);
        }
        self.set.iter(self.pool)
    }
}

impl<'a> PartialEq for BoundEntitySet<'a> {
    fn eq(&self, rhs: &Self) -> (same: bool) {
        proof {
            use_type_invariant(self);
            use_type_invariant(rhs);
        }
        self.set.eq_other(&rhs.set, self.pool, rhs.pool)
    }
}

impl<'a> vstd::std_specs::cmp::PartialEqSpecImpl for BoundEntitySet<'a> {
    open spec fn obeys_eq_spec() -> bool {
        true
    }

    open spec fn eq_spec(&self, other: &Self) -> bool {
        self@ == other@
    }
}

impl<'a> Eq for BoundEntitySet<'a> {

}

} // verus!
