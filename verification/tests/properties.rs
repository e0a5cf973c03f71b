use intmap_rs::IntMap;
use std::collections::HashMap;

#[test]
fn capacity_rounding_exact() {
    assert_eq!(IntMap::<u32, u32>::with_capacity(0).capacity(), 1);
    assert_eq!(IntMap::<u32, u32>::with_capacity(1).capacity(), 1);
    assert_eq!(IntMap::<u32, u32>::with_capacity(2).capacity(), 2);
    assert_eq!(IntMap::<u32, u32>::with_capacity(3).capacity(), 4);
    assert_eq!(IntMap::<u32, u32>::with_capacity(5).capacity(), 8);
    assert_eq!(IntMap::<u32, u32>::with_capacity(16).capacity(), 16);
    assert_eq!(IntMap::<u32, u32>::with_capacity(17).capacity(), 32);
}

#[test]
fn probes_track_displacement() {
    let mut m: IntMap<u32, u32> = IntMap::with_capacity(4);
    m.insert(0, 0);
    m.insert(1, 1);
    m.insert(4, 2);
    assert_eq!(m.keys(), vec![0u32, 4, 1]);
    assert_eq!(m.values(), vec![&0u32, &2, &1]);
    assert_eq!(m.probes(), vec![0usize, 1, 1]);
    assert_eq!(m.len(), 3);
    m.insert(8, 3);
    assert_eq!(m.probes(), vec![0usize, 1, 2, 2]);
    assert_eq!(m.len(), 4);
    assert!(m.is_full());
}

#[test]
fn probes_track_inner_displacement() {
    let mut m: IntMap<u32, u32> = IntMap::with_capacity(8);
    m.insert(0, 0);
    m.insert(8, 1);
    m.insert(1, 2);
    m.insert(2, 3);
    m.insert(16, 4);
    assert_eq!(m.probes(), vec![0usize, 1, 2, 2, 2]);
}

#[test]
fn clear_resets() {
    let mut m: IntMap<u32, u32> = IntMap::with_capacity(8);
    for i in 0..6u32 {
        m.insert(i, i * 10);
    }
    assert_eq!(m.len(), 6);
    m.clear();
    assert_eq!(m.len(), 0);
    assert!(m.is_empty());
    assert_eq!(m.capacity(), 8);
    for i in 0..16u32 {
        assert!(!m.contains(i));
        assert_eq!(m.get(i), None);
    }
    assert!(m.insert(3, 33).is_none());
    assert_eq!(*m.get(3).unwrap(), 33);
}

#[test]
fn full_map_still_serves() {
    let mut m: IntMap<u32, u32> = IntMap::with_capacity(4);
    for i in 0..4u32 {
        m.insert(i, i + 100);
    }
    assert!(m.is_full());
    // every key is still reachable at full occupancy
    for i in 0..4u32 {
        assert_eq!(*m.get(i).unwrap(), i + 100);
    }
    // a fifth key displaces into the overflow tail rather than failing
    m.insert(4, 104);
    assert_eq!(m.len(), 5);
    for i in 0..5u32 {
        assert_eq!(*m.get(i).unwrap(), i + 100);
    }
    assert_eq!(m.remove(4), Some(104));
    assert!(m.is_full());
}

#[test]
fn exhaustive_home_collision() {
    // all five keys share home slot 1 under mask 15
    let mut m: IntMap<u32, u32> = IntMap::with_capacity(16);
    let keys = [1u32, 17, 33, 49, 65];
    for (n, k) in keys.iter().enumerate() {
        m.insert(*k, n as u32);
    }
    assert_eq!(m.keys(), vec![1u32, 17, 33, 49, 65]);
    assert_eq!(m.probes(), vec![0usize, 1, 2, 3, 4]);
    for (n, k) in keys.iter().enumerate() {
        assert_eq!(*m.get(*k).unwrap(), n as u32);
    }
    assert_eq!(m.remove(17), Some(1));
    // back-shift keeps the rest reachable, one slot closer to home
    assert_eq!(m.probes(), vec![0usize, 1, 2, 3]);
    for k in [1u32, 33, 49, 65] {
        assert!(m.contains(k));
    }
}

#[test]
fn signed_keys_follow_bit_pattern() {
    let mut signed: IntMap<i32, u32> = IntMap::with_capacity(8);
    let mut unsigned: IntMap<u32, u32> = IntMap::with_capacity(8);
    let keys = [-3i32, -11, 5, -19, 13];
    for (n, k) in keys.iter().enumerate() {
        signed.insert(*k, n as u32);
        unsigned.insert(*k as u32, n as u32);
    }
    // identical slot layout: same probe sequence, bit-identical key order
    assert_eq!(signed.probes(), unsigned.probes());
    let signed_bits: Vec<u32> = signed.keys().iter().map(|k| *k as u32).collect();
    assert_eq!(signed_bits, unsigned.keys());
    for (n, k) in keys.iter().enumerate() {
        assert_eq!(*signed.get(*k).unwrap(), n as u32);
        assert_eq!(*unsigned.get(*k as u32).unwrap(), n as u32);
    }
}

#[test]
fn wide_keys_compare_fully() {
    // distinct 64-bit keys with colliding low bits are kept apart
    let mut m: IntMap<u64, u32> = IntMap::with_capacity(16);
    let a = (1u64 << 40) + 1;
    let b = (1u64 << 41) + 1;
    m.insert(a, 1);
    m.insert(b, 2);
    m.insert(1, 3);
    assert_eq!(*m.get(a).unwrap(), 1);
    assert_eq!(*m.get(b).unwrap(), 2);
    assert_eq!(*m.get(1).unwrap(), 3);
    assert_eq!(m.remove(a), Some(1));
    assert_eq!(m.get(a), None);
    assert_eq!(*m.get(b).unwrap(), 2);

    let mut w: IntMap<i128, u32> = IntMap::with_capacity(4);
    w.insert(-(1i128 << 100) - 2, 7);
    w.insert(2, 8);
    assert_eq!(*w.get(-(1i128 << 100) - 2).unwrap(), 7);
    assert_eq!(*w.get(2).unwrap(), 8);

    let mut s: IntMap<usize, u32> = IntMap::with_capacity(4);
    s.insert(usize::MAX, 9);
    assert_eq!(s.remove(usize::MAX), Some(9));
    assert!(s.is_empty());
}

#[test]
fn get_mut_rebinds() {
    let mut m: IntMap<u32, String> = IntMap::with_capacity(4);
    assert!(m.get_mut(7).is_none());
    m.insert(7, String::from("before"));
    if let Some(v) = m.get_mut(7) {
        *v = String::from("after");
    }
    assert_eq!(m.get(7).map(|s| s.as_str()), Some("after"));
    assert_eq!(m.len(), 1);
}

#[test]
fn fuzz_equivalence_with_reference_map() {
    // a deterministic pseudo-random stream of insert/get/delete/contains,
    // checked operation by operation against the standard library's map
    let mut m: IntMap<i32, u32> = IntMap::with_capacity(256);
    let mut truth: HashMap<i32, u32> = HashMap::new();
    let mut state: u64 = 0x243f_6a88_85a3_08d3;
    for _ in 0..4000 {
        state = state.wrapping_mul(6364136223846793005).wrapping_add(1442695040888963407);
        let op = (state >> 33) % 4;
        let key = (((state >> 35) % 96) as i32) - 48;
        let value = (state >> 40) as u32;
        match op {
            0 => {
                assert_eq!(m.insert(key, value), truth.insert(key, value));
            }
            1 => {
                assert_eq!(m.get(key), truth.get(&key));
            }
            2 => {
                assert_eq!(m.remove(key), truth.remove(&key));
            }
            _ => {
                assert_eq!(m.contains(key), truth.contains_key(&key));
            }
        }
        assert_eq!(m.len(), truth.len());
    }
}

#[test]
fn runtime_precondition_checks() {
    let mut m: IntMap<u32, u32> = IntMap::with_capacity(4);
    assert!(m.can_probe(7));
    assert!(m.can_accept(7));
    m.insert(7, 1);
    assert!(m.can_probe(7));
    assert!(m.can_accept(7));
    for i in 0..4u32 {
        assert!(m.can_accept(i));
        m.insert(i, i);
    }
    // a full map still accepts: displacement may spill into the tail
    assert!(m.can_accept(100));
    assert!(m.can_probe(100));
}

#[test]
fn clone_detaches() {
    let mut m: IntMap<u32, String> = IntMap::with_capacity(4);
    m.insert(1, String::from("one"));
    let c = m.clone();
    m.insert(1, String::from("uno"));
    assert_eq!(c.get(1).map(|s| s.as_str()), Some("one"));
    assert_eq!(m.get(1).map(|s| s.as_str()), Some("uno"));
    assert_eq!(c.len(), 1);
    assert_eq!(c.capacity(), 4);
}
