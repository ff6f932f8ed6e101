use entity_set::EntitySet;
use entity_set::EntitySetPool;

#[test]
fn test_pooled_set() {
    let mut pool = EntitySetPool::new();

    let mut set1: EntitySet = EntitySet::new();

    assert!(!set1.contains(0, &pool));
    assert!(!set1.contains(1, &pool));
    assert!(!set1.contains(2, &pool));
    assert!(!set1.contains(9999, &pool));

    set1.insert(2, &mut pool);
    assert!(!set1.contains(0, &pool));
    assert!(!set1.contains(1, &pool));
    assert!(set1.contains(2, &pool));
    assert!(!set1.contains(3, &pool));

    set1.insert(62, &mut pool);
    set1.insert(63, &mut pool);

    set1.insert(200, &mut pool);
    assert!(!set1.contains(0, &pool));
    assert!(set1.contains(2, &pool));
    assert!(!set1.contains(199, &pool));
    assert!(set1.contains(200, &pool));
    assert!(!set1.contains(201, &pool));

    set1.insert(10, &mut pool);
    assert!(set1.contains(200, &pool));

    set1.remove(200, &mut pool);
    assert!(!set1.contains(200, &pool));
    assert!(set1.contains(10, &pool));
    assert!(!set1.contains(9, &pool));
    assert!(set1.contains(2, &pool));
    assert!(!set1.contains(200, &pool));

    set1.remove(2, &mut pool);
    assert!(!set1.contains(2, &pool));
    assert!(set1.contains(10, &pool));

    let mut set2: EntitySet = EntitySet::new();

    for i in 2..200 {
        println!("{}", i);
        assert!(!set2.contains(i - 1, &pool));
        assert!(!set2.contains(i, &pool));
        assert!(!set2.contains(i + 1, &pool));
        set2.insert(i, &mut pool);
        assert!(!set2.contains(i - 1, &pool));
        assert!(set2.contains(i, &pool));
        assert!(!set2.contains(i + 1, &pool));
        set2.remove(i, &mut pool);
        assert!(!set2.contains(i - 1, &pool));
        assert!(!set2.contains(i, &pool));
        assert!(!set2.contains(i + 1, &pool));
    }
}

#[test]
fn test_pooled_set_remove() {
    let mut pool = EntitySetPool::new();

    let mut set1: EntitySet = EntitySet::new();

    assert!(!set1.remove(2, &mut pool));
    assert!(!set1.remove(100, &mut pool));
    set1.insert(2, &mut pool);
    assert!(set1.remove(2, &mut pool));
    assert!(!set1.remove(2, &mut pool));
    set1.insert(100, &mut pool);
    assert!(!set1.remove(2, &mut pool));
    assert!(set1.remove(100, &mut pool));
    assert!(!set1.remove(99, &mut pool));
    assert!(!set1.remove(2, &mut pool));
}

#[test]
fn test_pooled_set_eq() {
    let mut pool = EntitySetPool::new();

    let mut set1: EntitySet = EntitySet::new();
    let mut set2: EntitySet = EntitySet::new();

    assert!(set1.eq(&set2, &pool));

    set1.insert(2, &mut pool);
    assert!(!set1.eq(&set2, &pool));
    assert!(!set2.eq(&set1, &pool));

    set2.insert(2, &mut pool);
    assert!(set1.eq(&set2, &pool));
    assert!(set2.eq(&set1, &pool));

    set2.insert(100, &mut pool);
    assert!(!set1.eq(&set2, &pool));
    assert!(!set2.eq(&set1, &pool));

    set1.insert(100, &mut pool);
    assert!(set1.eq(&set2, &pool));
    assert!(set2.eq(&set1, &pool));
}

#[test]
fn test_iterator() {
    let mut pool = EntitySetPool::new();
    let mut set1: EntitySet = EntitySet::new();

    set1.insert(5, &mut pool);
    set1.insert(62, &mut pool);
    set1.insert(63, &mut pool);
    set1.insert(64, &mut pool);
    set1.insert(500, &mut pool);
    set1.insert(501, &mut pool);
    set1.insert(502, &mut pool);
    set1.insert(503, &mut pool);
    set1.insert(504, &mut pool);
    set1.insert(505, &mut pool);
    set1.insert(506, &mut pool);
    set1.insert(507, &mut pool);
    set1.insert(508, &mut pool);
    set1.insert(509, &mut pool);
    set1.insert(510, &mut pool);
    set1.insert(511, &mut pool);
    set1.insert(512, &mut pool);

    let mut iter = set1.iter(&pool);
    assert!(iter.next() == Some(5));
    assert!(iter.next() == Some(62));
    assert!(iter.next() == Some(63));
    assert!(iter.next() == Some(64));
    assert!(iter.next() == Some(500));
    assert!(iter.next() == Some(501));
    assert!(iter.next() == Some(502));
    assert!(iter.next() == Some(503));
    assert!(iter.next() == Some(504));
    assert!(iter.next() == Some(505));
    assert!(iter.next() == Some(506));
    assert!(iter.next() == Some(507));
    assert!(iter.next() == Some(508));
    assert!(iter.next() == Some(509));
    assert!(iter.next() == Some(510));
    assert!(iter.next() == Some(511));
    assert!(iter.next() == Some(512));
    assert!(iter.next() == None);
    assert!(iter.next() == None);
}

#[test]
fn test_join() {
    let mut pool = EntitySetPool::new();

    let mut set1: EntitySet = EntitySet::new();
    let mut set2: EntitySet = EntitySet::new();

    set1.insert(5, &mut pool);
    set1.insert(10, &mut pool);
    set1.insert(11, &mut pool);
    set1.insert(15, &mut pool);

    set2.insert(2, &mut pool);
    set2.insert(7, &mut pool);
    set2.insert(10, &mut pool);
    set2.insert(11, &mut pool);

    let mut iter = set1.join(&set2, &pool);

    assert!(iter.next() == Some((2, false, true)));
    assert!(iter.next() == Some((5, true, false)));
    assert!(iter.next() == Some((7, false, true)));
    assert!(iter.next() == Some((10, true, true)));
    assert!(iter.next() == Some((11, true, true)));
    assert!(iter.next() == Some((15, true, false)));
    assert!(iter.next() == None);
}
