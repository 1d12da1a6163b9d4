use triemap::bitmap::Bitmap;

#[test]
fn rank_counts_members_below() {
    let mut b = Bitmap::new();
    for x in [3u8, 5, 64, 65, 130, 255] {
        b.set(x);
    }
    assert_eq!(b.rank_of(0), 0);
    assert_eq!(b.rank_of(3), 0);
    assert_eq!(b.rank_of(4), 1);
    assert_eq!(b.rank_of(6), 2);
    assert_eq!(b.rank_of(64), 2);
    assert_eq!(b.rank_of(66), 4);
    assert_eq!(b.rank_of(200), 5);
    assert_eq!(b.rank_of(255), 5);
}

#[test]
fn rank_of_full_words() {
    let mut b = Bitmap::new();
    for x in 0..=255u8 {
        b.set(x);
    }
    assert_eq!(b.rank_of(63), 63);
    assert_eq!(b.rank_of(128), 128);
    assert_eq!(b.rank_of(255), 255);
}

#[test]
fn set_test_clear() {
    let mut b = Bitmap::new();
    assert!(!b.test(7));
    b.set(7);
    assert!(b.test(7));
    assert!(!b.test(8));
    b.clear(7);
    assert!(!b.test(7));
    assert_eq!(b.words, [0u64; 4]);
}
