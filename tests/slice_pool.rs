use triemap::SlicePool;

#[test]
fn pool_hands_out_exact_lengths() {
    let mut pool = SlicePool::new();
    let a = pool.get(3);
    assert_eq!(a.len(), 3);
    assert!(a.iter().all(|n| n.children.is_empty() && n.value_slot.is_none()));
    pool.put(a);
    let b = pool.get(3);
    assert_eq!(b.len(), 3);
    let c = pool.get(0);
    assert!(c.is_empty());
}

#[test]
fn pool_reuses_returned_arrays() {
    let mut pool = SlicePool::new();
    let a = pool.get(5);
    pool.put(a);
    assert_eq!(pool.pools[5].len(), 1);
    let _b = pool.get(5);
    assert_eq!(pool.pools[5].len(), 0);
    let d = pool.get(7);
    pool.put(d);
    pool.clear();
    assert!(pool.pools.iter().all(|l| l.is_empty()));
}

#[test]
fn pool_hands_back_last_filed_array() {
    let mut pool = SlicePool::new();
    let a = pool.get(2);
    let b = pool.get(2);
    pool.put(a);
    pool.put(b);
    assert_eq!(pool.pools[2].len(), 2);
    let c = pool.get(2);
    assert_eq!(c.len(), 2);
    assert_eq!(pool.pools[2].len(), 1);
    assert!(pool.pools[3].is_empty());
}
