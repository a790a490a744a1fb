use mock_storage::range::{MockIterator, Order};
use mock_storage::store::MockStorage;

/// Drains an iterator into the list of (key, value) pairs it yields.
fn elements(iter: &mut MockIterator) -> Vec<(Vec<u8>, Vec<u8>)> {
    let mut out: Vec<(Vec<u8>, Vec<u8>)> = Vec::new();
    loop {
        let (item, _gas) = iter.next();
        match item {
            Some(kv) => out.push(kv),
            None => break,
        }
    }
    out
}

// iterator_test_suite takes a storage, adds data and runs iterator tests
// the storage must previously have exactly one key: "foo" = "bar"
fn iterator_test_suite(store: &mut MockStorage) {
    // ensure we had previously set "foo" = "bar"
    assert_eq!(store.get(b"foo").0, Some(b"bar".to_vec()));
    assert_eq!(
        elements(&mut store.range(None, None, Order::Ascending).0).len(),
        1
    );

    // setup - add some data, and delete part of it as well
    store.set(b"ant", b"hill");
    store.set(b"ze", b"bra");

    // noise that should be ignored
    store.set(b"bye", b"bye");
    store.remove(b"bye");

    // unbounded
    {
        let mut iter = store.range(None, None, Order::Ascending).0;
        assert_eq!(
            elements(&mut iter),
            vec![
                (b"ant".to_vec(), b"hill".to_vec()),
                (b"foo".to_vec(), b"bar".to_vec()),
                (b"ze".to_vec(), b"bra".to_vec()),
            ]
        );
    }

    // unbounded (descending)
    {
        let mut iter = store.range(None, None, Order::Descending).0;
        assert_eq!(
            elements(&mut iter),
            vec![
                (b"ze".to_vec(), b"bra".to_vec()),
                (b"foo".to_vec(), b"bar".to_vec()),
                (b"ant".to_vec(), b"hill".to_vec()),
            ]
        );
    }

    // bounded
    {
        let mut iter = store.range(Some(b"f"), Some(b"n"), Order::Ascending).0;
        assert_eq!(elements(&mut iter), vec![(b"foo".to_vec(), b"bar".to_vec())]);
    }

    // bounded (descending)
    {
        let mut iter = store
            .range(Some(b"air"), Some(b"loop"), Order::Descending)
            .0;
        assert_eq!(
            elements(&mut iter),
            vec![
                (b"foo".to_vec(), b"bar".to_vec()),
                (b"ant".to_vec(), b"hill".to_vec()),
            ]
        );
    }

    // bounded empty [a, a)
    {
        let mut iter = store.range(Some(b"foo"), Some(b"foo"), Order::Ascending).0;
        assert_eq!(elements(&mut iter), vec![]);
    }

    // bounded empty [a, a) (descending)
    {
        let mut iter = store
            .range(Some(b"foo"), Some(b"foo"), Order::Descending)
            .0;
        assert_eq!(elements(&mut iter), vec![]);
    }

    // bounded empty [a, b) with b < a
    {
        let mut iter = store.range(Some(b"z"), Some(b"a"), Order::Ascending).0;
        assert_eq!(elements(&mut iter), vec![]);
    }

    // bounded empty [a, b) with b < a (descending)
    {
        let mut iter = store.range(Some(b"z"), Some(b"a"), Order::Descending).0;
        assert_eq!(elements(&mut iter), vec![]);
    }

    // right unbounded
    {
        let mut iter = store.range(Some(b"f"), None, Order::Ascending).0;
        assert_eq!(
            elements(&mut iter),
            vec![
                (b"foo".to_vec(), b"bar".to_vec()),
                (b"ze".to_vec(), b"bra".to_vec()),
            ]
        );
    }

    // right unbounded (descending)
    {
        let mut iter = store.range(Some(b"f"), None, Order::Descending).0;
        assert_eq!(
            elements(&mut iter),
            vec![
                (b"ze".to_vec(), b"bra".to_vec()),
                (b"foo".to_vec(), b"bar".to_vec()),
            ]
        );
    }

    // left unbounded
    {
        let mut iter = store.range(None, Some(b"f"), Order::Ascending).0;
        assert_eq!(elements(&mut iter), vec![(b"ant".to_vec(), b"hill".to_vec()),]);
    }

    // left unbounded (descending)
    {
        let mut iter = store.range(None, Some(b"no"), Order::Descending).0;
        assert_eq!(
            elements(&mut iter),
            vec![
                (b"foo".to_vec(), b"bar".to_vec()),
                (b"ant".to_vec(), b"hill".to_vec()),
            ]
        );
    }
}

#[test]
fn get_and_set() {
    let mut store = MockStorage::new();
    assert_eq!(None, store.get(b"foo").0);
    store.set(b"foo", b"bar");
    assert_eq!(Some(b"bar".to_vec()), store.get(b"foo").0);
    assert_eq!(None, store.get(b"food").0);
}

#[test]
fn delete() {
    let mut store = MockStorage::new();
    store.set(b"foo", b"bar");
    store.set(b"food", b"bank");
    store.remove(b"foo");

    assert_eq!(None, store.get(b"foo").0);
    assert_eq!(Some(b"bank".to_vec()), store.get(b"food").0);
}

#[test]
fn iterator() {
    let mut store = MockStorage::new();
    store.set(b"foo", b"bar");
    iterator_test_suite(&mut store);
}
