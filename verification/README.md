# entity_set

Sets of entity indices kept as bitmaps in lists of a shared `cranelift_entity::ListPool`,
verified with Verus.

- `src/pool.rs`: the only calls into `cranelift_entity`, each behind a wrapper whose contract
  says what the call does to the words a list holds in the pool.
- `src/bits.rs`: the 63-bit words, the set of indices they stand for, and the bit-level lemmas.
- `src/room.rs`: how much a pool's memory can grow while a set grows, at run time and in
  proofs (the pool's 32-bit list handles limit it to 2^32 words).
- `src/set.rs`: `EntitySetPool` and `EntitySet`: membership, insertion, removal, size, copy,
  in-place union and difference, equality, and the checked forms of the operations that grow a
  set.
- `src/iter.rs`: walking a set in increasing order, walking two sets side by side, and the
  set operations that list their result.
- `src/bound.rs`: a set bound to its pool, with `==`.
- `src/laws.rs`: properties that relate several calls.
- `app/lib.rs`: keys of any `EntityRef` type on top of the index-based library, with the std
  traits (`Iterator`, `Debug`) that the library's types cannot carry.
