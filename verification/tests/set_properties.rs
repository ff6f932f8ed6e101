use entity_set::EntitySet;
use entity_set::EntitySetPool;

fn set_of(items: &[usize], pool: &mut EntitySetPool) -> EntitySet {
    let mut set = EntitySet::new();
    for &i in items {
        set.insert(i, pool);
    }
    set
}

fn collect(set: &EntitySet, pool: &EntitySetPool) -> Vec<usize> {
    let mut out = Vec::new();
    let mut it = set.iter(pool);
    while let Some(i) = it.next() {
        out.push(i);
    }
    out
}

#[test]
fn size_counts_members_across_word_boundaries() {
    let mut pool = EntitySetPool::new();
    let set = set_of(&[0, 62, 63, 125, 126, 1000], &mut pool);
    assert_eq!(set.size(&pool), 6);
    assert_eq!(set.checked_size(&pool), Some(6));
    let empty = EntitySet::new();
    assert_eq!(empty.size(&pool), 0);
    assert_eq!(empty.checked_size(&pool), Some(0));
}

#[test]
fn insert_and_remove_report_presence_and_change_size() {
    let mut pool = EntitySetPool::new();
    let mut set = EntitySet::new();
    assert!(!set.insert(7, &mut pool));
    assert_eq!(set.size(&pool), 1);
    assert!(set.insert(7, &mut pool));
    assert_eq!(set.size(&pool), 1);
    assert!(set.remove(7, &mut pool));
    assert_eq!(set.size(&pool), 0);
    assert!(!set.remove(7, &mut pool));
    assert_eq!(set.size(&pool), 0);
}

#[test]
fn remove_undoes_insert_of_absent_index() {
    let mut pool = EntitySetPool::new();
    let mut set = set_of(&[1, 64, 300], &mut pool);
    let before = collect(&set, &pool);
    set.insert(99, &mut pool);
    set.remove(99, &mut pool);
    assert_eq!(collect(&set, &pool), before);
}

#[test]
fn clear_empties_the_set() {
    let mut pool = EntitySetPool::new();
    let mut set = set_of(&[3, 70, 140], &mut pool);
    set.clear(&mut pool);
    assert_eq!(set.size(&pool), 0);
    assert!(!set.contains(3, &pool));
    assert!(!set.contains(140, &pool));
    assert_eq!(collect(&set, &pool), Vec::<usize>::new());
    set.insert(5, &mut pool);
    assert_eq!(collect(&set, &pool), vec![5]);
}

#[test]
fn default_set_is_empty() {
    let pool = EntitySetPool::new();
    let set = EntitySet::default();
    assert_eq!(set.size(&pool), 0);
    assert!(!set.contains(0, &pool));
}

#[test]
fn make_copy_holds_the_same_indices_independently() {
    let mut pool = EntitySetPool::new();
    let set = set_of(&[2, 63, 200], &mut pool);
    let mut copy = set.make_copy(&mut pool);
    assert!(copy.eq(&set, &pool));
    assert_eq!(collect(&copy, &pool), vec![2, 63, 200]);
    copy.insert(5, &mut pool);
    assert!(copy.contains(5, &pool));
    assert!(!set.contains(5, &pool));
    assert_eq!(collect(&set, &pool), vec![2, 63, 200]);
}

#[test]
fn union_into_adds_the_other_set() {
    let mut pool = EntitySetPool::new();
    let mut a = set_of(&[1, 5], &mut pool);
    let b = set_of(&[5, 70, 400], &mut pool);
    a.union_into(&b, &mut pool);
    assert_eq!(collect(&a, &pool), vec![1, 5, 70, 400]);
    assert_eq!(collect(&b, &pool), vec![5, 70, 400]);
}

#[test]
fn subtract_from_removes_the_other_set() {
    let mut pool = EntitySetPool::new();
    let mut a = set_of(&[1, 5, 70, 400], &mut pool);
    let b = set_of(&[5, 400, 900], &mut pool);
    a.subtract_from(&b, &mut pool);
    assert_eq!(collect(&a, &pool), vec![1, 70]);
    let mut c = set_of(&[2, 900], &mut pool);
    let short = set_of(&[2], &mut pool);
    c.subtract_from(&short, &mut pool);
    assert_eq!(collect(&c, &pool), vec![900]);
}

#[test]
fn set_operations_list_in_increasing_order() {
    let mut pool = EntitySetPool::new();
    let a = set_of(&[5, 10, 11, 15, 100], &mut pool);
    let b = set_of(&[2, 7, 10, 11, 300], &mut pool);
    assert_eq!(a.union(&b, &pool), vec![2, 5, 7, 10, 11, 15, 100, 300]);
    assert_eq!(a.intersection(&b, &pool), vec![10, 11]);
    assert_eq!(a.difference(&b, &pool), vec![5, 15, 100]);
    assert_eq!(b.difference(&a, &pool), vec![2, 7, 300]);
    assert_eq!(a.symmetric_difference(&b, &pool), vec![2, 5, 7, 15, 100, 300]);
    assert_eq!(a.union(&b, &pool), b.union(&a, &pool));
    assert_eq!(a.intersection(&b, &pool), b.intersection(&a, &pool));
    assert_eq!(a.symmetric_difference(&b, &pool), b.symmetric_difference(&a, &pool));
}

#[test]
fn symmetric_difference_is_union_without_intersection() {
    let mut pool = EntitySetPool::new();
    let a = set_of(&[1, 2, 64, 65, 700], &mut pool);
    let b = set_of(&[2, 3, 65, 800], &mut pool);
    let uni = a.union(&b, &pool);
    let inter = a.intersection(&b, &pool);
    let expected: Vec<usize> = uni.iter().copied().filter(|k| !inter.contains(k)).collect();
    assert_eq!(a.symmetric_difference(&b, &pool), expected);
}

#[test]
fn listings_have_one_entry_per_member() {
    let mut pool = EntitySetPool::new();
    let a = set_of(&[0, 62, 63, 64, 126, 127, 1000], &mut pool);
    let b = set_of(&[63, 64, 2000], &mut pool);
    let mut u = a.make_copy(&mut pool);
    u.union_into(&b, &mut pool);
    assert_eq!(a.union(&b, &pool).len(), u.size(&pool));
    assert_eq!(a.union(&b, &pool).len(), 8);
    assert_eq!(collect(&a, &pool).len(), a.size(&pool));
}

#[test]
fn set_operations_across_two_pools() {
    let mut pool1 = EntitySetPool::new();
    let mut pool2 = EntitySetPool::new();
    let a = set_of(&[1, 64, 128], &mut pool1);
    let b = set_of(&[64, 65], &mut pool2);
    assert_eq!(a.union_other(&b, &pool1, &pool2), vec![1, 64, 65, 128]);
    assert_eq!(a.intersection_other(&b, &pool1, &pool2), vec![64]);
    assert_eq!(a.difference_other(&b, &pool1, &pool2), vec![1, 128]);
    assert_eq!(a.symmetric_difference_other(&b, &pool1, &pool2), vec![1, 65, 128]);
    let mut it = a.join_other(&b, &pool1, &pool2);
    assert!(it.next() == Some((1, true, false)));
    assert!(it.next() == Some((64, true, true)));
    assert!(it.next() == Some((65, false, true)));
    assert!(it.next() == Some((128, true, false)));
    assert!(it.next() == None);
}

#[test]
fn eq_ignores_trailing_empty_words() {
    let mut pool = EntitySetPool::new();
    let mut a = set_of(&[3], &mut pool);
    a.insert(500, &mut pool);
    a.remove(500, &mut pool);
    let b = set_of(&[3], &mut pool);
    assert!(a.eq(&b, &pool));
    assert!(b.eq(&a, &pool));
    let mut other_pool = EntitySetPool::new();
    let c = set_of(&[3], &mut other_pool);
    assert!(a.eq_other(&c, &pool, &other_pool));
    let d = set_of(&[4], &mut other_pool);
    assert!(!a.eq_other(&d, &pool, &other_pool));
}

#[test]
fn bound_sets_query_and_compare() {
    let mut pool1 = EntitySetPool::new();
    let mut pool2 = EntitySetPool::new();
    let a = set_of(&[9, 90], &mut pool1);
    let b = set_of(&[9, 90], &mut pool2);
    let c = set_of(&[9], &mut pool2);
    let ba = a.bind(&pool1);
    let bb = b.bind(&pool2);
    let bc = c.bind(&pool2);
    assert!(ba.contains(90));
    assert!(!ba.contains(91));
    assert_eq!(ba.size(), 2);
    assert_eq!(ba.checked_size(), Some(2));
    assert!(ba == bb);
    assert!(ba != bc);
    let copy = ba.clone();
    assert!(copy == ba);
    let mut it = bb.iter();
    assert_eq!(it.next(), Some(9));
    assert_eq!(it.next(), Some(90));
    assert_eq!(it.next(), None);
}

#[test]
fn large_index_is_stored_and_listed() {
    let mut pool = EntitySetPool::new();
    let mut set = EntitySet::new();
    assert!(!set.insert(10_000_000, &mut pool));
    set.insert(0, &mut pool);
    assert!(set.contains(10_000_000, &pool));
    assert!(!set.contains(9_999_999, &pool));
    assert!(!set.contains(usize::MAX, &pool));
    assert_eq!(set.size(&pool), 2);
    assert_eq!(collect(&set, &pool), vec![0, 10_000_000]);
    assert!(set.remove(10_000_000, &mut pool));
    assert!(!set.remove(usize::MAX, &mut pool));
    assert_eq!(collect(&set, &pool), vec![0]);
}

#[test]
fn cloned_pool_reads_the_same() {
    let mut pool = EntitySetPool::new();
    let set = set_of(&[4, 77], &mut pool);
    let copy = pool.clone();
    assert_eq!(collect(&set, &copy), vec![4, 77]);
    assert!(set.contains(77, &copy));
}

#[test]
fn cloned_set_is_an_alias() {
    let mut pool = EntitySetPool::new();
    let set = set_of(&[12], &mut pool);
    let alias = set.clone();
    assert!(alias.eq(&set, &pool));
    assert_eq!(collect(&alias, &pool), vec![12]);
}

#[test]
fn pool_bound_tracks_growth() {
    let mut pool = EntitySetPool::new();
    assert_eq!(pool.memory_bound(), 0);
    let mut set = EntitySet::new();
    assert_eq!(set.checked_insert(62, &mut pool), Some(false));
    assert_eq!(pool.memory_bound(), 4);
    assert_eq!(set.checked_insert(62, &mut pool), Some(true));
    assert_eq!(pool.memory_bound(), 4);
    // Growing from one word to five moves the list to an eight-word block once.
    assert_eq!(set.checked_insert(63 * 4, &mut pool), Some(false));
    assert_eq!(pool.memory_bound(), 12);
    assert!(set.contains(63 * 4, &pool));
    set.remove(62, &mut pool);
    set.clear(&mut pool);
    assert_eq!(pool.memory_bound(), 12);
}

#[test]
fn checked_forms_refuse_growth_past_the_handle_range() {
    let mut pool = EntitySetPool::new();
    let mut set = EntitySet::new();
    set.insert(5, &mut pool);
    assert_eq!(set.checked_insert(usize::MAX, &mut pool), None);
    assert!(!set.contains(usize::MAX, &pool));
    assert_eq!(set.checked_insert(6, &mut pool), Some(false));
    let copy = set.checked_make_copy(&mut pool).unwrap();
    assert!(copy.eq(&set, &pool));
    let mut other = EntitySet::new();
    assert!(other.checked_union_into(&set, &mut pool));
    assert_eq!(other.union(&copy, &pool), vec![5, 6]);
}
