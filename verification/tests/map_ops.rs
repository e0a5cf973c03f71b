use intmap_rs::IntMap;
use std::sync::Arc;

#[test]
fn empty() {
    let m = IntMap::<i32, u32>::with_capacity(10);
    assert!(m.is_empty());
    assert!(!m.is_full());
    assert_eq!(m.len(), 0);
    // power of two capacity
    assert_eq!(m.capacity(), 16);
}

#[test]
fn insert() {
    let mut m: IntMap<i32, i32> = IntMap::with_capacity(2);
    assert!(m.insert(1, 2).is_none());
    assert!(m.contains(1));
    assert!(!m.contains(0));
    assert_eq!(*m.get(1).unwrap(), 2);
    *m.get_mut(1).unwrap() = 4;
    assert!(m.contains(1));
    assert_eq!(*m.get(1).unwrap(), 4);
}

#[test]
fn insert_overwrite() {
    let mut m = IntMap::with_capacity(2);
    m.insert(1, 2);
    assert_eq!(m.insert(1, 3), Some(2));
    assert!(m.contains(1));
    assert_eq!(m.len(), 1);
    assert_eq!(*m.get(1).unwrap(), 3);
}

#[test]
fn insert_some() {
    const N: u32 = 128;
    let mut m = IntMap::with_capacity(N as u32);
    (0..N).for_each(|i| {
        m.insert(i, i);
    });
    assert_eq!(m.len(), N as usize);
    for i in 0..N {
        assert!(m.contains(i));
        assert_eq!(*m.get(i).unwrap(), i);
    }
}

#[test]
fn insert_sparse_keys() {
    let mut m = IntMap::with_capacity(4);
    m.insert(0, 1);
    m.insert(3, 1);
    assert_eq!(m.keys(), vec![0u32, 3]);
}

#[test]
fn insert_collide() {
    let mut m: IntMap<u32, u32> = IntMap::with_capacity(4);
    m.insert(0, 0);
    m.insert(1, 1);
    /*
    index key distance
    0     0   0
    1     1   0
    */
    m.insert(4, 2);
    /*
    index key distance
    0     0   0
    1     4   1
    2     1   1
    */
    assert_eq!(m.len(), 3);
    m.insert(8, 3);
    /*
    index key distance
    0     0   0
    1     4   1
    2     8   2
    3     1   2
    */
    assert_eq!(m.keys(), vec![0u32, 4, 8, 1]);
}

#[test]
fn insert_collide_inside() {
    let mut m: IntMap<u32, u32> = IntMap::with_capacity(8);
    m.insert(0, 0);
    m.insert(8, 1);
    m.insert(1, 2);
    m.insert(2, 3);
    /*
    index key distance
    0     0   0
    1     8   1
    2     1   1
    3     2   1
    */
    m.insert(16, 4);
    /*
    index key distance
    0     0   0
    1     8   1
    2     16  2
    3     1   2
    4     2   2
    */
    assert_eq!(m.len(), 5);
    assert_eq!(m.keys(), vec![0u32, 8, 16, 1, 2]);
}

#[test]
fn insert_signed_remove() {
    let mut m = IntMap::with_capacity(4);
    m.insert(-10, 1);
    m.insert(-20, 2);
    m.insert(-30, 3);
    m.insert(-40, 4);
    m.insert(-20, 22);
    assert!(m.is_full());
    assert_eq!(m.remove(-40), Some(4));
    assert_eq!(m.remove(-10), Some(1));
    assert_eq!(m.remove(-30), Some(3));
    assert_eq!(m.remove(-20), Some(22));
    assert!(m.is_empty());
}

#[test]
fn remove() {
    let mut m = IntMap::with_capacity(4);
    m.insert(1, 1);
    assert_eq!(m.len(), 1);
    assert_eq!(m.remove(1), Some(1));
    assert!(m.is_empty());
    m.insert(1, 1);
    m.insert(2, 2);
    m.insert(3, 3);
    m.insert(4, 4);
    assert!(m.is_full());
    assert_eq!(m.remove(2), Some(2));
    assert_eq!(m.remove(4), Some(4));
    assert_eq!(m.remove(1), Some(1));
    assert_eq!(m.remove(3), Some(3));
    assert!(m.is_empty());
}

#[test]
fn remove_conflict() {
    let mut m = IntMap::with_capacity(4);
    m.insert(1, 2);
    assert_eq!(*m.get(1).unwrap(), 2);
    m.insert(5, 3);
    assert_eq!(*m.get(1).unwrap(), 2);
    assert_eq!(*m.get(5).unwrap(), 3);
    m.insert(9, 4);
    assert_eq!(*m.get(1).unwrap(), 2);
    assert_eq!(*m.get(5).unwrap(), 3);
    assert_eq!(*m.get(9).unwrap(), 4);
    assert!(m.remove(1).is_some());
    assert_eq!(*m.get(9).unwrap(), 4);
    assert_eq!(*m.get(5).unwrap(), 3);
}

#[test]
fn insert_remove_seq() {
    const N: u32 = 1 << 11;
    let mut m = IntMap::with_capacity(N);

    for _ in 0..10 {
        assert!(m.is_empty());
        for i in 1..1001 {
            m.insert(i, i);

            for j in 1..=i {
                let r = m.get(j);
                assert_eq!(r, Some(&j));
            }

            for j in i + 1..1001 {
                let r = m.get(j);
                assert_eq!(r, None);
            }
        }

        for i in 1001..2001 {
            assert!(!m.contains(i));
        }

        // remove forwards
        for i in 1..1001 {
            assert!(m.remove(i).is_some());

            for j in 1..=i {
                assert!(!m.contains(j));
            }

            for j in i + 1..1001 {
                assert!(m.contains(j));
            }
        }

        for i in 1..1001 {
            assert!(!m.contains(i));
        }

        for i in 1..1001 {
            m.insert(i, i);
        }

        // remove backwards
        for i in (1..1001).rev() {
            assert!(m.remove(i).is_some());

            for j in i..1001 {
                assert!(!m.contains(j));
            }

            for j in 1..i {
                assert!(m.contains(j));
            }
        }
    }
}

#[test]
fn drop_check() {
    let is_dropped = Arc::new(1);
    let mut m = IntMap::<u32, Arc<i32>>::with_capacity(2);
    m.insert(0, Arc::clone(&is_dropped));
    m.insert(1, Arc::clone(&is_dropped));
    drop(m);
    assert_eq!(Arc::strong_count(&is_dropped), 1);
}

#[test]
fn drop_check_replace() {
    let is_dropped = Arc::new(1);
    let mut m = IntMap::<u32, Arc<i32>>::with_capacity(2);
    m.insert(0, Arc::clone(&is_dropped));
    m.insert(0, Arc::clone(&is_dropped));
    drop(m);
    assert_eq!(Arc::strong_count(&is_dropped), 1);
}

#[test]
fn drop_check2() {
    let mut m = IntMap::<u32, String>::with_capacity(5);
    m.insert(0, String::from("should"));
    m.insert(1, String::from("not"));
    m.insert(2, String::from("crash"));
    m.insert(3, String::from("with"));
    m.insert(4, String::from("double-free"));
    drop(m);
}
