use triemap::TrieMap;

fn sample() -> TrieMap<i32> {
    let mut m = TrieMap::new();
    m.insert(b"apple", 1);
    m.insert(b"application", 2);
    m.insert(b"banana", 3);
    m
}

fn keys_of(pairs: &[(Vec<u8>, &i32)]) -> Vec<Vec<u8>> {
    pairs.iter().map(|(k, _)| k.clone()).collect()
}

#[test]
fn new_map_is_empty() {
    let m: TrieMap<i32> = TrieMap::new();
    assert!(m.is_empty());
    assert_eq!(m.len(), 0);
    let w: TrieMap<i32> = TrieMap::with_capacity(10);
    assert!(w.is_empty());
}

#[test]
fn insert_then_get() {
    let mut m = TrieMap::new();
    assert_eq!(m.get(b"a"), None);
    m.insert(b"a", 1);
    assert_eq!(m.get(b"a"), Some(&1));
    assert_eq!(m.len(), 1);
    m.insert(b"b", 2);
    assert_eq!(m.len(), 2);
    assert_eq!(m.get(b"b"), Some(&2));
    assert_eq!(m.get(b"c"), None);
}

#[test]
fn overwrite_keeps_len() {
    let mut m = TrieMap::new();
    m.insert(b"a", 1);
    m.insert(b"a", 2);
    assert_eq!(m.get(b"a"), Some(&2));
    assert_eq!(m.len(), 1);
}

#[test]
fn empty_key_holds_a_value() {
    let mut m = TrieMap::new();
    m.insert(b"", 9);
    m.insert(b"x", 1);
    assert_eq!(m.get(b""), Some(&9));
    assert_eq!(m.len(), 2);
    let pairs = m.iter();
    assert_eq!(keys_of(&pairs), vec![b"".to_vec(), b"x".to_vec()]);
}

#[test]
fn contains_key_reports_presence() {
    let m = sample();
    assert!(m.contains_key(b"apple"));
    assert!(!m.contains_key(b"app"));
    assert!(!m.contains_key(b"grape"));
}

#[test]
fn remove_twice_gives_none() {
    let mut m = TrieMap::new();
    m.insert(b"a", 1);
    assert_eq!(m.remove(b"a"), Some(1));
    assert_eq!(m.remove(b"a"), None);
    assert!(m.is_empty());
}

#[test]
fn remove_keeps_other_keys() {
    let mut m = sample();
    assert_eq!(m.remove(b"apple"), Some(1));
    assert_eq!(m.get(b"application"), Some(&2));
    assert_eq!(m.get(b"banana"), Some(&3));
    assert_eq!(m.len(), 2);
}

#[test]
fn iter_is_ascending() {
    let mut m = TrieMap::new();
    m.insert(b"b", 2);
    m.insert(b"ab", 12);
    m.insert(b"a", 1);
    m.insert(&[255u8, 0u8], 7);
    m.insert(&[0u8], 5);
    let pairs = m.iter();
    let keys = keys_of(&pairs);
    assert_eq!(
        keys,
        vec![vec![0u8], b"a".to_vec(), b"ab".to_vec(), b"b".to_vec(), vec![255u8, 0u8]]
    );
    let values: Vec<i32> = pairs.iter().map(|(_, v)| **v).collect();
    assert_eq!(values, vec![5, 1, 12, 2, 7]);
}

#[test]
fn prefix_iter_scenario() {
    let mut m = sample();
    let pairs = m.prefix_iter(b"app");
    assert_eq!(pairs.len(), 2);
    assert_eq!(pairs[0].0, b"apple".to_vec());
    assert_eq!(*pairs[0].1, 1);
    assert_eq!(pairs[1].0, b"application".to_vec());
    assert_eq!(*pairs[1].1, 2);
    assert!(m.starts_with(b"ban"));
    assert!(!m.starts_with(b"cherry"));
    assert_eq!(m.remove_and_prune(b"apple"), Some(1));
    assert_eq!(m.remove_and_prune(b"application"), Some(2));
    assert!(!m.starts_with(b"app"));
    assert_eq!(m.get(b"banana"), Some(&3));
}

#[test]
fn prefix_iter_missing_prefix_is_empty() {
    let m = sample();
    assert!(m.prefix_iter(b"cherry").is_empty());
    assert!(m.prefix_iter(b"applz").is_empty());
    assert_eq!(m.prefix_iter(b"").len(), 3);
}

#[test]
fn prefix_iter_matches_full_order() {
    let mut m = TrieMap::new();
    for (i, k) in ["ab", "a", "abc", "b", "abd", "ac"].iter().enumerate() {
        m.insert(k.as_bytes(), i as i32);
    }
    let all = keys_of(&m.iter());
    let under: Vec<Vec<u8>> = all.iter().filter(|k| k.starts_with(b"ab")).cloned().collect();
    assert_eq!(keys_of(&m.prefix_iter(b"ab")), under);
    assert_eq!(under, vec![b"ab".to_vec(), b"abc".to_vec(), b"abd".to_vec()]);
}

#[test]
fn starts_with_ignores_tombstones() {
    let mut m = TrieMap::new();
    m.insert(b"apple", 1);
    assert_eq!(m.remove(b"apple"), Some(1));
    assert!(!m.starts_with(b"app"));
    assert!(!m.starts_with(b""));
}

#[test]
fn remove_and_prune_drains_to_bare_root() {
    let mut m = sample();
    assert_eq!(m.remove_and_prune(b"banana"), Some(3));
    assert_eq!(m.remove_and_prune(b"apple"), Some(1));
    assert_eq!(m.remove_and_prune(b"application"), Some(2));
    assert!(m.is_empty());
    assert_eq!(m.prune(), 0);
    assert!(m.iter().is_empty());
}

#[test]
fn remove_and_prune_missing_key() {
    let mut m = sample();
    assert_eq!(m.remove_and_prune(b"app"), None);
    assert_eq!(m.remove_and_prune(b"zzz"), None);
    assert_eq!(m.len(), 3);
}

#[test]
fn prune_removes_dead_paths() {
    let mut m = TrieMap::new();
    m.insert(b"apple", 1);
    m.insert(b"application", 2);
    m.remove(b"apple");
    m.remove(b"application");
    // "appl" is shared; "e" and "ication" hang below it: 4 + 1 + 7 nodes.
    assert_eq!(m.prune(), 12);
    assert_eq!(m.prune(), 0);
    assert!(m.is_empty());
}

#[test]
fn prune_keeps_values() {
    let mut m = sample();
    m.remove(b"application");
    assert_eq!(m.prune(), 7);
    assert_eq!(m.get(b"apple"), Some(&1));
    assert_eq!(m.get(b"banana"), Some(&3));
    assert_eq!(m.len(), 2);
}

#[test]
fn clear_empties_the_map() {
    let mut m = sample();
    m.clear();
    assert!(m.is_empty());
    assert_eq!(m.get(b"apple"), None);
    m.insert(b"x", 4);
    assert_eq!(m.get(b"x"), Some(&4));
}

#[test]
fn get_mut_updates_in_place() {
    let mut m = TrieMap::new();
    m.insert(b"a", 1);
    if let Some(v) = m.get_mut(b"a") {
        *v = 10;
    }
    assert_eq!(m.get(b"a"), Some(&10));
    assert!(m.get_mut(b"b").is_none());
}

#[test]
fn keys_and_values_in_order() {
    let m = sample();
    assert_eq!(
        m.keys(),
        vec![b"apple".to_vec(), b"application".to_vec(), b"banana".to_vec()]
    );
    let values: Vec<i32> = m.values().into_iter().copied().collect();
    assert_eq!(values, vec![1, 2, 3]);
}

#[test]
fn prefix_keys_and_values() {
    let m = sample();
    assert_eq!(m.prefix_keys(b"app"), vec![b"apple".to_vec(), b"application".to_vec()]);
    assert_eq!(m.keys_starting_with(b"b"), vec![b"banana".to_vec()]);
    let values: Vec<i32> = m.prefix_values(b"app").into_iter().copied().collect();
    assert_eq!(values, vec![1, 2]);
    assert_eq!(m.get_prefix_matches(b"ban").len(), 1);
}

#[test]
fn remove_prefix_matches_returns_removed_pairs() {
    let mut m = sample();
    let removed = m.remove_prefix_matches(b"app");
    assert_eq!(removed, vec![(b"apple".to_vec(), 1), (b"application".to_vec(), 2)]);
    assert_eq!(m.len(), 1);
    assert_eq!(m.get(b"banana"), Some(&3));
    assert!(m.remove_prefix_matches(b"zz").is_empty());
}

#[test]
fn drain_takes_everything() {
    let mut m = sample();
    let all = m.drain();
    assert_eq!(all.len(), 3);
    assert_eq!(all[2], (b"banana".to_vec(), 3));
    assert!(m.is_empty());
}

#[test]
fn into_keys_and_values() {
    assert_eq!(sample().into_keys().len(), 3);
    assert_eq!(sample().into_values(), vec![1, 2, 3]);
}

#[test]
fn try_insert_rejects_present_key() {
    let mut m = TrieMap::new();
    assert_eq!(m.try_insert(b"a", 1).ok().copied(), Some(1));
    assert_eq!(m.try_insert(b"a", 2), Err(2));
    assert_eq!(m.get(b"a"), Some(&1));
}

#[test]
fn get_key_value_returns_owned_key() {
    let m = sample();
    assert_eq!(m.get_key_value(b"apple"), Some((b"apple".to_vec(), &1)));
    assert_eq!(m.get_key_value(b"pear"), None);
}

#[test]
fn reserve_keeps_contents() {
    let mut m = sample();
    m.reserve(100);
    assert_eq!(m.len(), 3);
    assert_eq!(m.get(b"banana"), Some(&3));
}

#[test]
fn slot_store_does_not_grow_on_cycles() {
    let mut m = TrieMap::new();
    m.insert(b"other", 0);
    for i in 0..1000 {
        m.insert(b"key", i);
        assert_eq!(m.remove(b"key"), Some(i));
    }
    assert_eq!(m.len(), 1);
    let mut n = TrieMap::new();
    for i in 0..1000 {
        n.insert(b"key", i);
        assert_eq!(n.remove_and_prune(b"key"), Some(i));
    }
    assert!(n.is_empty());
}

#[test]
fn wide_node_with_all_bytes() {
    let mut m = TrieMap::new();
    for b in 0..=255u8 {
        m.insert(&[b], b as u32);
    }
    assert_eq!(m.len(), 256);
    for b in 0..=255u8 {
        assert_eq!(m.get(&[b]), Some(&(b as u32)));
    }
    let keys = keys_of_u32(&m.iter());
    let expected: Vec<Vec<u8>> = (0..=255u8).map(|b| vec![b]).collect();
    assert_eq!(keys, expected);
    for b in (0..=255u8).rev() {
        assert_eq!(m.remove_and_prune(&[b]), Some(b as u32));
    }
    assert!(m.is_empty());
}

fn keys_of_u32(pairs: &[(Vec<u8>, &u32)]) -> Vec<Vec<u8>> {
    pairs.iter().map(|(k, _)| k.clone()).collect()
}

#[test]
fn drained_root_is_bare() {
    let mut m = sample();
    for k in m.keys() {
        assert!(m.remove_and_prune(&k).is_some());
    }
    assert!(m.root().children.is_empty());
    assert_eq!(m.root().presence.words, [0u64; 4]);
}

#[test]
fn prune_leaves_no_dead_nodes() {
    let mut m = TrieMap::new();
    m.insert(b"ab", 1);
    m.insert(b"abcd", 2);
    m.insert(b"x", 3);
    m.remove(b"abcd");
    m.remove(b"x");
    assert_eq!(m.prune(), 3);
    let root = m.root();
    assert_eq!(root.children.len(), 1);
    let a = &root.children[0];
    assert_eq!(a.children.len(), 1);
    let b = &a.children[0];
    assert!(b.value_slot.is_some());
    assert!(b.children.is_empty());
}

#[test]
fn cycles_reuse_one_slot() {
    let mut m = TrieMap::new();
    for i in 0..100 {
        m.insert(b"key", i);
        assert_eq!(m.remove(b"key"), Some(i));
    }
    assert_eq!(m.value_store_len(), 1);
    m.insert(b"key", 1);
    m.insert(b"key", 2);
    assert_eq!(m.value_store_len(), 1);
    assert_eq!(m.len(), 1);
}

#[test]
fn retain_keeps_matching_pairs() {
    let mut m = sample();
    m.retain(|k, v| k.starts_with(b"app") && *v > 1);
    assert_eq!(m.keys(), vec![b"application".to_vec()]);
    assert_eq!(m.len(), 1);
    m.retain(|_, _| false);
    assert!(m.is_empty());
}

#[test]
fn capacity_and_shrink() {
    let mut m = TrieMap::with_capacity(50);
    assert!(m.capacity() >= 50);
    m.insert(b"a", 1);
    m.insert(b"b", 2);
    m.remove(b"b");
    m.shrink_to_fit();
    assert!(m.capacity() >= m.value_store_len());
    assert_eq!(m.value_store_len(), 2);
    assert_eq!(m.get(b"a"), Some(&1));
}

#[test]
fn prefix_copies() {
    let m = sample();
    let only = m.with_prefix_only(b"app");
    assert_eq!(only.keys(), vec![b"apple".to_vec(), b"application".to_vec()]);
    assert_eq!(only.get(b"application"), Some(&2));
    let rest = m.without_prefix(b"app");
    assert_eq!(rest.keys(), vec![b"banana".to_vec()]);
    assert_eq!(m.len(), 3);
}

#[test]
fn inserted_and_removed_leave_original() {
    let m = sample();
    let more = m.inserted(b"cherry", 4);
    assert_eq!(more.len(), 4);
    assert_eq!(more.get(b"cherry"), Some(&4));
    assert_eq!(m.get(b"cherry"), None);
    let less = m.removed(b"apple");
    assert_eq!(less.len(), 2);
    assert_eq!(less.get(b"apple"), None);
    assert_eq!(m.get(b"apple"), Some(&1));
}

#[test]
fn remove_keeps_path_nodes() {
    let mut m = TrieMap::new();
    m.insert(b"abc", 1);
    assert_eq!(m.remove(b"abc"), Some(1));
    let a = &m.root().children[0];
    assert_eq!(a.children.len(), 1);
    assert_eq!(a.children[0].children.len(), 1);
    assert!(a.children[0].children[0].value_slot.is_none());
}

#[test]
fn remove_and_prune_leaves_other_dead_nodes() {
    let mut m = TrieMap::new();
    m.insert(b"ab", 1);
    m.insert(b"x", 2);
    m.remove(b"ab");
    assert_eq!(m.remove_and_prune(b"x"), Some(2));
    // only the path of "x" was compacted; the dead "ab" path stays for prune
    assert_eq!(m.root().children.len(), 1);
    assert_eq!(m.prune(), 2);
    assert!(m.root().children.is_empty());
}

#[test]
fn remove_and_prune_stops_at_live_ancestor() {
    let mut m = TrieMap::new();
    m.insert(b"a", 1);
    m.insert(b"abc", 2);
    assert_eq!(m.remove_and_prune(b"abc"), Some(2));
    let a = &m.root().children[0];
    assert!(a.value_slot.is_some());
    assert!(a.children.is_empty());
    assert_eq!(m.get(b"a"), Some(&1));
}

#[test]
fn overwrite_keeps_slot_and_reuse_takes_last_freed() {
    let mut m = TrieMap::new();
    m.insert(b"a", 1);
    m.insert(b"b", 2);
    m.insert(b"c", 3);
    assert_eq!(m.value_store_len(), 3);
    m.insert(b"b", 20);
    assert_eq!(m.value_store_len(), 3);
    m.remove(b"a");
    m.remove(b"c");
    m.insert(b"d", 4);
    m.insert(b"e", 5);
    assert_eq!(m.value_store_len(), 3);
    m.insert(b"f", 6);
    assert_eq!(m.value_store_len(), 4);
    assert_eq!(m.get(b"b"), Some(&20));
    assert_eq!(m.get(b"d"), Some(&4));
    assert_eq!(m.get(b"e"), Some(&5));
}

#[test]
fn prune_on_trimmed_tree_removes_nothing() {
    let mut m = sample();
    assert_eq!(m.prune(), 0);
    assert_eq!(m.len(), 3);
    assert_eq!(m.keys().len(), 3);
}

#[test]
fn deep_keys_walk_in_order() {
    let mut m = TrieMap::new();
    let long_a = vec![7u8; 2000];
    let mut long_b = vec![7u8; 1500];
    long_b.push(9);
    m.insert(&long_a, 1);
    m.insert(&long_b, 2);
    m.insert(&[7u8, 7u8], 3);
    let keys = m.keys();
    assert_eq!(keys, vec![vec![7u8, 7u8], long_a.clone(), long_b.clone()]);
    assert_eq!(m.prefix_iter(&[7u8; 1500]).len(), 2);
    assert_eq!(m.remove_and_prune(&long_a), Some(1));
    assert_eq!(m.keys(), vec![vec![7u8, 7u8], long_b]);
}
