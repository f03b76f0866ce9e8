use ttl_cache::cache::{Cache, CacheValue};

#[derive(Default, Debug, PartialEq, Clone)]
struct DataTest {
    value: String,
}

#[test]
fn value_undefined() {
    let cache = Cache::<DataTest>::new(1000);
    let key = "key".to_string();
    assert_eq!(cache.get(&key).is_undefined(), true);
}

#[test]
fn value_empty() {
    let mut cache = Cache::<DataTest>::new(1000);
    let key = "key".to_string();
    cache.create(key.clone());

    assert_eq!(cache.get(&key).is_empty(), true);
}

#[test]
fn value_found() {
    let mut cache = Cache::<DataTest>::new(1000);
    let key = "key".to_string();
    let value = DataTest::default();
    cache.create(key.clone());
    cache.update(&key, value.clone());

    assert_eq!(cache.get(&key).is_value(), true);
}

#[test]
fn value_match() {
    let mut cache = Cache::<DataTest>::new(1000);
    let key = "key".to_string();
    let value = DataTest::default();
    cache.create(key.clone());
    cache.update(&key, value.clone());

    assert_eq!(cache.get(&key).unwrap(), value);
}

#[test]
fn value_expired() {
    let mut cache = Cache::<DataTest>::new(0);
    let key = "key".to_string();
    let value = DataTest::default();
    cache.create(key.clone());
    cache.update_at(&key, value.clone(), 0);

    assert_eq!(cache.get_at(&key, 1).is_expired(), true);
}

#[test]
fn value_unwrap_or() {
    let mut cache = Cache::<DataTest>::new(5);
    let key = "key".to_string();
    let value = DataTest::default();
    cache.create(key.clone());

    assert_eq!(cache.get(&key).unwrap_or(value.clone()), value);
}

#[test]
fn value_remove() {
    let mut cache = Cache::<DataTest>::new(1000);
    let key = "key".to_string();
    let value = DataTest::default();
    cache.create(key.clone());
    cache.update(&key, value.clone());
    cache.remove(&key);

    assert_eq!(cache.get(&key).is_undefined(), true);
}

#[test]
fn value_clean() {
    let mut cache = Cache::<DataTest>::new(1000);
    let key = "key".to_string();
    let value = DataTest::default();
    cache.create(key.clone());
    cache.update(&key, value.clone());
    cache.clean(&key);

    assert_eq!(cache.get(&key).is_empty(), true);
}

#[test]
fn scenario_fresh_write_reads_back() {
    let mut cache = Cache::<String>::new(1000);
    cache.create("k".to_string());
    cache.update(&"k".to_string(), "v".to_string());

    assert_eq!(cache.get(&"k".to_string()).unwrap(), "v".to_string());
}

#[test]
fn read_at_deadline_still_fresh() {
    let mut cache = Cache::<u32>::new(5);
    let key = "key".to_string();
    cache.update_at(&key, 42, 10);

    let at_deadline = cache.get_at(&key, 15);
    assert_eq!(at_deadline.is_value(), true);
    assert_eq!(at_deadline.unwrap(), 42);
    assert_eq!(cache.get_at(&key, 16).is_expired(), true);
}

#[test]
fn write_without_declare_stores_value() {
    let mut cache = Cache::<u32>::new(5);
    let key = "key".to_string();
    cache.update_at(&key, 7, 0);

    assert_eq!(cache.get_at(&key, 3).unwrap(), 7);
}

#[test]
fn declare_twice_reads_empty_both_times() {
    let mut cache = Cache::<u32>::new(1000);
    let key = "key".to_string();
    cache.create(key.clone());
    assert_eq!(cache.get(&key).is_empty(), true);
    cache.create(key.clone());
    assert_eq!(cache.get(&key).is_empty(), true);
}

#[test]
fn declare_resets_written_value() {
    let mut cache = Cache::<u32>::new(1000);
    let key = "key".to_string();
    cache.update_at(&key, 9, 0);
    cache.create(key.clone());

    assert_eq!(cache.get_at(&key, 0).is_empty(), true);
}

#[test]
fn clean_then_write_restores_value() {
    let mut cache = Cache::<u32>::new(1000);
    let key = "key".to_string();
    cache.update_at(&key, 1, 0);
    cache.clean(&key);
    assert_eq!(cache.get_at(&key, 0).is_empty(), true);

    cache.update_at(&key, 2, 0);
    assert_eq!(cache.get_at(&key, 0).unwrap(), 2);
}

#[test]
fn clean_absent_key_stays_undefined() {
    let mut cache = Cache::<u32>::new(1000);
    let key = "key".to_string();
    cache.clean(&key);

    assert_eq!(cache.get(&key).is_undefined(), true);
}

#[test]
fn remove_hands_back_written_slot() {
    let mut cache = Cache::<u32>::new(1000);
    let key = "key".to_string();
    cache.update_at(&key, 3, 10);

    let removed = cache.remove(&key);
    match removed {
        Some(Some(cv)) => {
            assert_eq!(cv.value, 3);
            assert_eq!(cv.expires_at, 1010);
        }
        _ => panic!("a written slot was expected"),
    }
    assert_eq!(cache.remove(&key).is_none(), true);
}

#[test]
fn remove_hands_back_empty_slot() {
    let mut cache = Cache::<u32>::new(1000);
    let key = "key".to_string();
    cache.create(key.clone());

    let removed = cache.remove(&key);
    assert_eq!(removed, Some(None));
}

#[test]
fn unwrap_or_keeps_fresh_value() {
    let mut cache = Cache::<u32>::new(5);
    let key = "key".to_string();
    cache.update_at(&key, 11, 0);

    assert_eq!(cache.get_at(&key, 5).unwrap_or(99), 11);
}

#[test]
fn unwrap_or_defaults_on_undefined_and_expired() {
    let mut cache = Cache::<u32>::new(0);
    let key = "key".to_string();
    assert_eq!(cache.get(&key).unwrap_or(99), 99);

    cache.update_at(&key, 11, 0);
    assert_eq!(cache.get_at(&key, 1).unwrap_or(99), 99);
}

#[test]
fn predicates_each_match_one_outcome() {
    let mut cache = Cache::<u32>::new(0);
    let key = "key".to_string();

    let undefined = cache.get_at(&key, 0);
    assert!(undefined.is_undefined());
    assert!(!undefined.is_value() && !undefined.is_empty() && !undefined.is_expired());

    cache.create(key.clone());
    let empty = cache.get_at(&key, 0);
    assert!(empty.is_empty());
    assert!(!empty.is_value() && !empty.is_undefined() && !empty.is_expired());

    cache.update_at(&key, 8, 4);
    let fresh = cache.get_at(&key, 4);
    assert!(fresh.is_value());
    assert!(!fresh.is_empty() && !fresh.is_undefined() && !fresh.is_expired());

    let stale = cache.get_at(&key, 5);
    assert!(stale.is_expired());
    assert!(!stale.is_value() && !stale.is_empty() && !stale.is_undefined());
}

#[test]
fn deadline_saturates_instead_of_wrapping() {
    let stamped = CacheValue::new_at(1u8, u128::MAX, 5);
    assert_eq!(stamped.expires_at, u128::MAX);

    let plain = CacheValue::new_at(1u8, 3, 5);
    assert_eq!(plain.expires_at, 8);
}
