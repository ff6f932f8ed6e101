//! Sets of entity indices stored as bitmaps in lists allocated from a shared pool.
//!
//! Each set is a list of 63-bit words kept in a `cranelift_entity::ListPool`: index `i` is in
//! the set when bit `i % 63` of word `i / 63` is set. Bit 63 of a word never stands for an
//! index. A set is only ever read or changed together with the pool it belongs to.

mod bits;
mod bound;
mod iter;
pub mod laws;
mod pool;
mod room;
mod set;

pub use bound::BoundEntitySet;
pub use iter::EntitySetIter;
pub use iter::EntitySetJoinIter;
pub use set::EntitySet;
pub use set::EntitySetPool;
