use fatalloc::allocmap::{AllocMap, Leaf, Root, LEAF_LEN, WORDS_PER_LEAF};

#[test]
fn set_then_get_reads_true() {
    let mut m = AllocMap::new();
    m.set(0);
    assert!(m.get(0));
}

#[test]
fn set_clear_get_round_trip() {
    let mut m = AllocMap::new();
    m.set(5);
    assert!(m.test_and_clear(5));
    assert!(!m.get(5));
}

#[test]
fn clear_on_empty_registry_reports_false() {
    let mut m = AllocMap::new();
    assert!(!m.test_and_clear(42));
    assert!(!m.get(42));
    assert_eq!(m.num_entries(), 0);
    assert_eq!(m.capacity(), 0);
}

#[test]
fn get_before_any_set_reads_false() {
    let m = AllocMap::new();
    assert!(!m.get(0));
    assert!(!m.get(1));
    assert!(!m.get(usize::MAX));
}

#[test]
fn set_is_idempotent() {
    let mut m = AllocMap::new();
    for _ in 0..5 {
        m.set(77);
        assert!(m.get(77));
    }
    assert_eq!(m.num_entries(), 1);
    assert!(m.test_and_clear(77));
    assert!(!m.get(77));
}

#[test]
fn keys_across_three_leaves() {
    let mut m = AllocMap::new();
    let keys = [0, 1, 2, LEAF_LEN, LEAF_LEN + 1, 2 * LEAF_LEN];
    for &k in keys.iter() {
        m.set(k);
    }
    for &k in keys.iter() {
        assert!(m.get(k));
    }
    assert_eq!(m.num_entries(), 3);
    assert_eq!(m.capacity(), 8);
}

#[test]
fn distinct_keys_are_independent() {
    let mut m = AllocMap::new();
    m.set(10);
    m.set(11);
    assert!(m.test_and_clear(10));
    assert!(m.get(11));
    assert!(!m.get(10));
    m.set(10);
    assert!(m.get(10));
    assert!(m.get(11));
}

#[test]
fn neighbouring_bits_stay_clear() {
    let mut m = AllocMap::new();
    m.set(64);
    assert!(!m.get(63));
    assert!(!m.get(65));
    assert!(!m.get(0));
    assert!(!m.get(128));
}

#[test]
fn clear_reports_true_exactly_once() {
    let mut m = AllocMap::new();
    m.set(7);
    let mut trues = 0;
    for _ in 0..8 {
        if m.test_and_clear(7) {
            trues += 1;
        }
    }
    assert_eq!(trues, 1);
}

#[test]
fn sweep_of_keys_sets_and_clears() {
    let mut m = AllocMap::new();
    for i in 0..100_000usize {
        m.set(i);
    }
    for i in 0..100_000usize {
        assert!(m.test_and_clear(i));
    }
    for i in 0..100_000usize {
        assert!(!m.get(i));
        assert!(!m.test_and_clear(i));
    }
}

#[test]
fn directory_capacity_doubles_past_eight_segments() {
    let mut m = AllocMap::new();
    // Insert in descending key order so every insertion lands at the front.
    for k in (0..9usize).rev() {
        m.set(k * LEAF_LEN);
    }
    assert_eq!(m.num_entries(), 9);
    assert_eq!(m.capacity(), 16);
    for k in 0..9usize {
        assert!(m.get(k * LEAF_LEN));
        assert!(!m.get(k * LEAF_LEN + 1));
    }
    for k in 9..16usize {
        assert!(!m.get(k * LEAF_LEN));
    }
}

#[test]
fn directory_capacity_is_minimal_power_of_two() {
    let mut m = AllocMap::new();
    for k in 0..8usize {
        m.set(k * LEAF_LEN);
        assert_eq!(m.capacity(), 8);
    }
    m.set(8 * LEAF_LEN);
    assert_eq!(m.capacity(), 16);
    for k in 9..16usize {
        m.set(k * LEAF_LEN);
    }
    assert_eq!(m.capacity(), 16);
    assert_eq!(m.num_entries(), 16);
    m.set(16 * LEAF_LEN);
    assert_eq!(m.capacity(), 32);
    assert_eq!(m.num_entries(), 17);
}

#[test]
fn largest_key_round_trips() {
    let mut m = AllocMap::new();
    m.set(usize::MAX);
    assert!(m.get(usize::MAX));
    assert!(!m.get(usize::MAX - 1));
    assert!(m.test_and_clear(usize::MAX));
    assert!(!m.get(usize::MAX));
}

#[test]
fn root_lookup_misses_then_hits() {
    let mut r = Root::new();
    assert!(r.get_bitmap(0, 0).is_none());
    let idx = r.get_or_insert_leaf(3);
    assert_eq!(idx, 0);
    assert_eq!(r.get_bitmap(3, 5), Some(&0u64));
    assert!(r.get_bitmap(2, 0).is_none());
    r.set_bit(3, 5, 7);
    assert_eq!(r.get_bitmap(3, 5), Some(&(1u64 << 7)));
    assert!(r.clear_bit(3, 5, 7));
    assert!(!r.clear_bit(3, 5, 7));
    assert_eq!(r.get_bitmap(3, 5), Some(&0u64));
}

#[test]
fn leaf_word_operations() {
    let mut leaf = Leaf::new();
    assert_eq!(leaf.load(0), 0);
    assert_eq!(leaf.load(WORDS_PER_LEAF - 1), 0);
    assert_eq!(leaf.fetch_or(9, 0b110), 0);
    assert_eq!(leaf.load(9), 0b110);
    assert_eq!(leaf.fetch_and_not(9, 0b010), 0b110);
    assert_eq!(leaf.load(9), 0b100);
    assert_eq!(leaf.load(8), 0);
    assert_eq!(leaf.load(10), 0);
}
