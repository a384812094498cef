use nexus_core::tags::TagStore;

#[test]
fn set_get_count_clear() {
    let mut store = TagStore::new(200);
    assert_eq!(store.count(), 0);
    store.set(5, true);
    store.set(130, true);
    store.set(5, true);
    assert!(store.get(5));
    assert!(store.get(130));
    assert!(!store.get(6));
    assert_eq!(store.count(), 2);
    assert_eq!(store.tagged_rows(), vec![5, 130]);

    store.set(5, false);
    assert!(!store.get(5));
    assert_eq!(store.count(), 1);

    store.clear();
    assert_eq!(store.count(), 0);
}

#[test]
fn out_of_range_is_safe() {
    let mut store = TagStore::new(10);
    store.set(999, true);
    assert!(!store.get(999));
    assert_eq!(store.count(), 0);
}

#[test]
fn count_equals_tagged_rows_len() {
    let mut store = TagStore::new(300);
    for r in [0usize, 63, 64, 127, 128, 299] {
        store.set(r, true);
    }
    assert_eq!(store.count(), store.tagged_rows().len());
    assert_eq!(store.tagged_rows(), vec![0, 63, 64, 127, 128, 299]);
}

#[test]
fn empty_store_has_no_rows() {
    let store = TagStore::new(0);
    assert_eq!(store.count(), 0);
    assert!(store.tagged_rows().is_empty());
    assert!(!store.get(0));
}

#[test]
fn tagged_rows_ascending_and_exact() {
    let mut s = TagStore::new(200);
    for r in [150usize, 3, 64, 63, 199, 0, 64] {
        s.set(r, true);
    }
    s.set(3, false);
    let rows = s.tagged_rows();
    assert_eq!(rows, vec![0, 63, 64, 150, 199]);
    assert!(rows.windows(2).all(|w| w[0] < w[1]));
    for r in 0..200usize {
        assert_eq!(rows.contains(&(r as u32)), s.get(r));
    }
}
