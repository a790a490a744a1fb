use mock_storage::range::{MockIterator, Order, DUMMY_GAS_COST, GAS_COST_RANGE};
use mock_storage::store::MockStorage;

/// Drains an iterator into the list of (key, value) pairs it yields.
fn elements(iter: &mut MockIterator) -> Vec<(Vec<u8>, Vec<u8>)> {
    let mut out: Vec<(Vec<u8>, Vec<u8>)> = Vec::new();
    loop {
        let (item, _gas) = iter.next();
        match item {
            Some(kv) => out.push(kv),
            None => break,
        }
    }
    out
}

/// A store holding ("ant","hill"), ("foo","bar") and ("ze","bra").
fn three_entry_store() -> MockStorage {
    let mut store = MockStorage::new();
    store.set(b"ze", b"bra");
    store.set(b"ant", b"hill");
    store.set(b"foo", b"bar");
    store
}

#[test]
fn get_of_unset_key_is_absent() {
    let store = MockStorage::new();
    assert_eq!(None, store.get(b"").0);
    assert_eq!(None, store.get(b"anything").0);
}

#[test]
fn set_get_remove_roundtrip() {
    let mut store = MockStorage::new();
    store.set(b"key", b"value");
    assert_eq!(Some(b"value".to_vec()), store.get(b"key").0);
    store.remove(b"key");
    assert_eq!(None, store.get(b"key").0);
}

#[test]
fn set_overwrites() {
    let mut store = MockStorage::new();
    store.set(b"key", b"first");
    store.set(b"key", b"second");
    assert_eq!(Some(b"second".to_vec()), store.get(b"key").0);
}

#[test]
fn remove_of_unset_key_is_noop() {
    let mut store = MockStorage::new();
    store.set(b"keep", b"me");
    let gas = store.remove(b"gone");
    assert_eq!(gas, 4);
    assert_eq!(Some(b"me".to_vec()), store.get(b"keep").0);
    assert_eq!(
        elements(&mut store.range(None, None, Order::Ascending).0),
        vec![(b"keep".to_vec(), b"me".to_vec())]
    );
}

#[test]
fn full_range_sorted_and_reversed() {
    let store = three_entry_store();
    let ascending = elements(&mut store.range(None, None, Order::Ascending).0);
    assert_eq!(
        ascending,
        vec![
            (b"ant".to_vec(), b"hill".to_vec()),
            (b"foo".to_vec(), b"bar".to_vec()),
            (b"ze".to_vec(), b"bra".to_vec()),
        ]
    );
    let mut reversed = ascending.clone();
    reversed.reverse();
    let descending = elements(&mut store.range(None, None, Order::Descending).0);
    assert_eq!(descending, reversed);
}

#[test]
fn equal_bounds_yield_nothing() {
    let store = three_entry_store();
    for key in [&b""[..], b"ant", b"apple", b"zz"] {
        let asc = elements(&mut store.range(Some(key), Some(key), Order::Ascending).0);
        assert_eq!(asc, vec![]);
        let desc = elements(&mut store.range(Some(key), Some(key), Order::Descending).0);
        assert_eq!(desc, vec![]);
    }
}

#[test]
fn inverted_bounds_yield_nothing() {
    let store = three_entry_store();
    let asc = elements(&mut store.range(Some(b"x"), Some(b"b"), Order::Ascending).0);
    assert_eq!(asc, vec![]);
    let desc = elements(&mut store.range(Some(b"x"), Some(b"b"), Order::Descending).0);
    assert_eq!(desc, vec![]);
    // a proper prefix sorts before its extension
    let prefix = elements(&mut store.range(Some(b"food"), Some(b"foo"), Order::Ascending).0);
    assert_eq!(prefix, vec![]);
}

#[test]
fn half_bounded_ranges_exact() {
    let store = three_entry_store();
    // keys at or above "foo", ascending
    let from_foo = elements(&mut store.range(Some(b"foo"), None, Order::Ascending).0);
    assert_eq!(
        from_foo,
        vec![
            (b"foo".to_vec(), b"bar".to_vec()),
            (b"ze".to_vec(), b"bra".to_vec()),
        ]
    );
    // keys strictly below "foo", descending
    let below_foo = elements(&mut store.range(None, Some(b"foo"), Order::Descending).0);
    assert_eq!(below_foo, vec![(b"ant".to_vec(), b"hill".to_vec())]);
}

#[test]
fn range_scenario() {
    let store = three_entry_store();
    let first = elements(&mut store.range(Some(b"f"), Some(b"n"), Order::Ascending).0);
    assert_eq!(first, vec![(b"foo".to_vec(), b"bar".to_vec())]);
    let second = elements(&mut store.range(Some(b"air"), Some(b"loop"), Order::Descending).0);
    assert_eq!(
        second,
        vec![
            (b"foo".to_vec(), b"bar".to_vec()),
            (b"ant".to_vec(), b"hill".to_vec()),
        ]
    );
    let third = elements(&mut store.range(None, Some(b"f"), Order::Ascending).0);
    assert_eq!(third, vec![(b"ant".to_vec(), b"hill".to_vec())]);
}

#[test]
fn gas_costs_are_deterministic() {
    let mut store = MockStorage::new();
    // set charges key length plus value length
    assert_eq!(store.set(b"foo", b"bar"), 6);
    assert_eq!(store.set(b"foo", b"longer"), 9);
    // get charges the key length, present or not
    assert_eq!(store.get(b"foo").1, 3);
    assert_eq!(store.get(b"absent").1, 6);
    // remove charges the key length, present or not
    assert_eq!(store.remove(b"foo"), 3);
    assert_eq!(store.remove(b"foo"), 3);
    // the empty key has length zero
    assert_eq!(store.set(b"", b"x"), 1);
    assert_eq!(store.get(b"").1, 0);
    assert_eq!(store.get(b"").0, Some(b"x".to_vec()));
}

#[test]
fn range_and_step_gas_costs() {
    let mut store = MockStorage::new();
    store.set(b"ant", b"hill");
    store.set(b"foo", b"bar");

    let (mut iter, setup_gas) = store.range(None, None, Order::Ascending);
    assert_eq!(setup_gas, GAS_COST_RANGE);
    assert_eq!(setup_gas, 11);

    let (first, first_gas) = iter.next();
    assert_eq!(first, Some((b"ant".to_vec(), b"hill".to_vec())));
    assert_eq!(first_gas, 7);

    let (second, second_gas) = iter.next();
    assert_eq!(second, Some((b"foo".to_vec(), b"bar".to_vec())));
    assert_eq!(second_gas, 6);

    // exhaustion reports the fixed terminal cost, idempotently
    for _ in 0..3 {
        let (item, gas) = iter.next();
        assert_eq!(item, None);
        assert_eq!(gas, DUMMY_GAS_COST);
        assert_eq!(gas, 37);
    }
}

#[test]
fn empty_iterator_is_exhausted_immediately() {
    let mut iter = MockIterator::empty();
    let (item, gas) = iter.next();
    assert_eq!(item, None);
    assert_eq!(gas, DUMMY_GAS_COST);
}

#[test]
fn prefix_keys_are_distinct_and_ordered() {
    let mut store = MockStorage::new();
    store.set(b"food", b"bank");
    store.set(b"foo", b"bar");
    let all = elements(&mut store.range(None, None, Order::Ascending).0);
    assert_eq!(
        all,
        vec![
            (b"foo".to_vec(), b"bar".to_vec()),
            (b"food".to_vec(), b"bank".to_vec()),
        ]
    );
}
