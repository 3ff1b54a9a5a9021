use klavier_helper::bag_store::{BagStore, BagStoreEvent};
use klavier_helper::store::KeyBound;

#[test]
fn get_empty() {
    let store: BagStore<i32, String, i32> = BagStore::new(false);
    assert!(store.get(0).is_empty());
}

#[test]
fn add_one() {
    let mut store: BagStore<i32, String, i32> = BagStore::new(false);
    store.add(0, "Hello".to_string(), 0);
    assert!(store.get(1).is_empty());
    let result = store.get(0);
    assert_eq!(result.len(), 1);
    assert_eq!(result[0], "Hello");
}

#[test]
fn add_multiple() {
    let mut store: BagStore<i32, String, i32> = BagStore::new(false);
    store.add(1, "Hello".to_string(), 0);
    store.add(1, "World".to_string(), 0);
    store.add(2, "Foo".to_string(), 0);
    assert!(store.get(0).is_empty());
    let result = store.get(1);
    assert_eq!(result.len(), 2);
    assert!(result.contains(&"Hello".to_string()));
    assert!(result.contains(&"World".to_string()));

    let result = store.get(2);
    assert_eq!(result.len(), 1);
    assert!(result.contains(&"Foo".to_string()));
}

#[test]
fn remove_none() {
    let mut store: BagStore<i32, String, i32> = BagStore::new(false);
    assert_eq!(store.remove(&1, &"Hello".to_string()), None);
}

#[test]
fn remove() {
    let mut store: BagStore<i32, String, i32> = BagStore::new(false);
    store.add(0, "Hello".to_string(), 0);
    store.add(0, "World".to_string(), 0);
    store.add(1, "Foo".to_string(), 0);

    assert_eq!(store.remove(&0, &"Hello".to_string()), Some("Hello".to_string()));
    let vec0 = store.get(0);
    assert_eq!(vec0.len(), 1);
    assert_eq!(vec0[0], "World");
    let vec1 = store.get(1);
    assert_eq!(vec1.len(), 1);
    assert_eq!(vec1[0], "Foo");
    assert_eq!(store.remove(&1, &"Foo".to_string()), Some("Foo".to_string()));
    let mut z = store.as_slice().iter();
    let next = z.next();
    assert_eq!(next.unwrap().0, 0);
    assert_eq!(next.unwrap().1[0], "World");

    let next = z.next();
    assert_eq!(next, None)
}

#[test]
fn pop_first() {
    let mut store: BagStore<i32, String, i32> = BagStore::new(false);
    assert_eq!(store.pop_first(), None);

    store.add(0, "Hello".to_string(), 0);
    assert_eq!(store.pop_first(), Some((0, vec!["Hello".to_string()])));
    assert_eq!(store.pop_first(), None);
}

#[test]
fn range_vec() {
    let mut store: BagStore<i32, String, i32> = BagStore::new(false);
    store.add(0, "Hello".to_string(), 0);
    store.add(0, "World".to_string(), 0);
    store.add(1, "Foo".to_string(), 0);
    store.add(1, "Bar".to_string(), 0);

    let z = store.range_vec(KeyBound::Included(-1), KeyBound::Excluded(0));
    assert_eq!(z.len(), 0);

    let z = store.range_vec(KeyBound::Included(-1), KeyBound::Excluded(1));
    assert_eq!(z.len(), 1);
    let t = &z[0];
    assert_eq!(t.0, 0);
    assert_eq!(t.1.len(), 2);
    assert_eq!(t.1[0], "Hello");
    assert_eq!(t.1[1], "World");

    let z = store.range_vec(KeyBound::Included(0), KeyBound::Excluded(1));
    assert_eq!(z.len(), 1);
    let t = &z[0];
    assert_eq!(t.0, 0);
    assert_eq!(t.1.len(), 2);
    assert_eq!(t.1[0], "Hello");
    assert_eq!(t.1[1], "World");

    let z = store.range_vec(KeyBound::Included(0), KeyBound::Included(1));
    assert_eq!(z.len(), 2);
    let t = &z[0];
    assert_eq!(t.0, 0);
    assert_eq!(t.1.len(), 2);
    assert_eq!(t.1[0], "Hello");
    assert_eq!(t.1[1], "World");
    let t = &z[1];
    assert_eq!(t.0, 1);
    assert_eq!(t.1.len(), 2);
    assert_eq!(t.1[0], "Foo");
    assert_eq!(t.1[1], "Bar");

    let z = store.range_vec(KeyBound::Excluded(0), KeyBound::Included(1));
    assert_eq!(z.len(), 1);
    let t = &z[0];
    assert_eq!(t.0, 1);
    assert_eq!(t.1.len(), 2);
    assert_eq!(t.1[0], "Foo");
    assert_eq!(t.1[1], "Bar");

    let z = store.range_vec(KeyBound::Excluded(1), KeyBound::Excluded(2));
    assert_eq!(z.len(), 0);
}

#[test]
fn observe() {
    let mut store: BagStore<i32, String, i32> = BagStore::new(true);
    store.add(0, "Hello".to_string(), 123);

    {
        let events = store.events();
        assert_eq!(events.len(), 1);
        match &events[0] {
            BagStoreEvent::Added { added, metadata } => {
                assert_eq!(added, "Hello");
                assert_eq!(*metadata, 123);
            }
            _ => {
                panic!("Test failed.");
            }
        }
    }

    assert_eq!(store.remove(&0, &"Hell".to_string()), None); // Not found.
    assert_eq!(store.events().len(), 1);

    assert_eq!(store.remove(&0, &"Hello".to_string()), Some("Hello".to_string()));
    {
        let events = store.events();

        assert_eq!(events.len(), 2);
        let e = &events[1];
        match e {
            BagStoreEvent::Removed(s) => {
                assert_eq!(*s, "Hello");
            }
            _ => {
                panic!("Test failed.");
            }
        }
    }
}

#[test]
fn change() {
    let mut store: BagStore<i32, String, i32> = BagStore::new(true);
    store.add(0, "Hello".to_string(), 0);
    store.add(0, "World".to_string(), 0);

    store.change(vec![((0, "Hello".to_string()), (1, "Foo".to_string()))], 123);

    let vec0 = store.get(0);
    assert_eq!(vec0.len(), 1);
    assert_eq!(vec0[0], "World");

    let vec1 = store.get(1);
    assert_eq!(vec1.len(), 1);
    assert_eq!(vec1[0], "Foo");

    let events = store.events();
    assert_eq!(events.len(), 3);

    match &events[2] {
        BagStoreEvent::Changed { from_to, removed, metadata } => {
            assert_eq!(from_to.len(), 1);
            assert_eq!(removed.len(), 0);
            assert_eq!(from_to[0].0, (0, "Hello".to_string()));
            assert_eq!(from_to[0].1, (1, "Foo".to_string()));
            assert_eq!(*metadata, 123);
        }
        _ => panic!("Logic error."),
    }
}

#[test]
fn iter_test() {
    let mut store: BagStore<i32, String, i32> = BagStore::new(true);
    assert_eq!(store.iter().next(), None);

    store.add(0, "Hello".to_string(), 0);
    store.add(0, "World".to_string(), 0);
    store.add(1, "Foo".to_string(), 0);
    store.add(1, "Bar".to_string(), 0);
    store.add(2, "Hoge".to_string(), 0);

    let mut z = store.iter();
    assert_eq!(z.next(), Some((0, &"Hello".to_string())));
    assert_eq!(z.next(), Some((0, &"World".to_string())));
    assert_eq!(z.next(), Some((1, &"Foo".to_string())));
    assert_eq!(z.next(), Some((1, &"Bar".to_string())));
    assert_eq!(z.next(), Some((2, &"Hoge".to_string())));
    assert_eq!(z.next(), None);
}

#[test]
fn range() {
    let mut store: BagStore<i32, String, i32> = BagStore::new(false);
    let mut z = store.range(KeyBound::Unbounded, KeyBound::Unbounded);
    assert_eq!(z.next(), None);

    store.add(0, "Hello".to_string(), 0);
    store.add(0, "World".to_string(), 0);
    store.add(1, "Foo".to_string(), 0);
    store.add(1, "Bar".to_string(), 0);
    store.add(2, "Hoge".to_string(), 0);

    let mut z = store.range(KeyBound::Included(0), KeyBound::Unbounded);
    assert_eq!(z.next(), Some((0, &"Hello".to_string())));
    assert_eq!(z.next(), Some((0, &"World".to_string())));
    assert_eq!(z.next(), Some((1, &"Foo".to_string())));
    assert_eq!(z.next(), Some((1, &"Bar".to_string())));
    assert_eq!(z.next(), Some((2, &"Hoge".to_string())));
    assert_eq!(z.next(), None);

    let mut z = store.range(KeyBound::Excluded(0), KeyBound::Unbounded);
    assert_eq!(z.next(), Some((1, &"Foo".to_string())));
    assert_eq!(z.next(), Some((1, &"Bar".to_string())));
    assert_eq!(z.next(), Some((2, &"Hoge".to_string())));
    assert_eq!(z.next(), None);

    let mut z = store.range(KeyBound::Included(1), KeyBound::Unbounded);
    assert_eq!(z.next(), Some((1, &"Foo".to_string())));
    assert_eq!(z.next(), Some((1, &"Bar".to_string())));
    assert_eq!(z.next(), Some((2, &"Hoge".to_string())));
    assert_eq!(z.next(), None);

    let mut z = store.range(KeyBound::Included(1), KeyBound::Included(1));
    assert_eq!(z.next(), Some((1, &"Foo".to_string())));
    assert_eq!(z.next(), Some((1, &"Bar".to_string())));
    assert_eq!(z.next(), None);

    let mut z = store.range(KeyBound::Excluded(1), KeyBound::Unbounded);
    assert_eq!(z.next(), Some((2, &"Hoge".to_string())));
    assert_eq!(z.next(), None);

    let mut z = store.range(KeyBound::Included(2), KeyBound::Unbounded);
    assert_eq!(z.next(), Some((2, &"Hoge".to_string())));
    assert_eq!(z.next(), None);

    let mut z = store.range(KeyBound::Excluded(2), KeyBound::Unbounded);
    assert_eq!(z.next(), None);
}

#[test]
fn bag_count_matches_bags() {
    let mut store: BagStore<i32, String, ()> = BagStore::new(false);
    store.add(1, "a".to_string(), ());
    store.add(1, "b".to_string(), ());
    store.add(2, "c".to_string(), ());
    assert_eq!(store.len(), 3);
    assert_eq!(store.get(1).len() + store.get(2).len(), 3);

    // Removing a value that is not there changes nothing.
    assert_eq!(store.remove(&1, &"zz".to_string()), None);
    assert_eq!(store.len(), 3);
    assert_eq!(store.remove(&9, &"a".to_string()), None);
    assert_eq!(store.len(), 3);

    store.remove(&1, &"a".to_string());
    assert_eq!(store.len(), 2);
    store.add_vec(1, vec!["x".to_string(), "y".to_string()], ());
    assert_eq!(store.len(), 4);
    assert_eq!(store.get(1).len() + store.get(2).len(), 4);
}

#[test]
fn bag_no_empty_bags() {
    let mut store: BagStore<i32, String, ()> = BagStore::new(false);
    store.add(5, "only".to_string(), ());
    assert_eq!(store.as_slice().len(), 1);
    store.remove(&5, &"only".to_string());
    // The key leaves the mapping with its last value.
    assert_eq!(store.as_slice().len(), 0);
    assert!(store.get(5).is_empty());

    store.add(6, "a".to_string(), ());
    store.add(6, "b".to_string(), ());
    store.remove_vec(&6, &vec!["a".to_string(), "b".to_string()]);
    assert_eq!(store.as_slice().len(), 0);
    assert_eq!(store.len(), 0);
}

#[test]
fn bag_remove_vec_skips_missing() {
    let mut store: BagStore<i32, String, ()> = BagStore::new(true);
    store.add(1, "a".to_string(), ());
    store.add(1, "b".to_string(), ());
    store.clear_events();
    store.remove_vec(&1, &vec!["zz".to_string(), "b".to_string()]);
    assert_eq!(store.get(1).as_slice(), &["a".to_string()]);
    let events = store.events();
    assert_eq!(events.len(), 1);
    match &events[0] {
        BagStoreEvent::RemovedVec(removed) => {
            assert_eq!(removed, &vec!["b".to_string()]);
        }
        _ => panic!("Logic error."),
    }
}

#[test]
fn bag_bulk_round_trip() {
    let mut store: BagStore<i32, String, ()> = BagStore::new(false);
    store.add(1, "keep".to_string(), ());
    let before = store.len();
    store.bulk_add(
        vec![(10, "x".to_string()), (20, "y".to_string())],
        (),
    );
    assert_eq!(store.len(), before + 2);
    let removed = store.bulk_remove(
        &[(10, "x".to_string()), (20, "y".to_string())],
        (),
    );
    assert_eq!(removed, vec![(10, "x".to_string()), (20, "y".to_string())]);
    assert_eq!(store.len(), before);
    assert_eq!(store.as_slice().len(), 1);
    assert_eq!(store.get(1).as_slice(), &["keep".to_string()]);
}

#[test]
fn bag_peek_last() {
    let mut store: BagStore<i32, String, ()> = BagStore::new(false);
    assert!(store.peek_last().is_none());
    store.add(3, "c".to_string(), ());
    store.add(1, "a".to_string(), ());
    let last = store.peek_last().unwrap();
    assert_eq!(last.0, 3);
    assert_eq!(last.1, vec!["c".to_string()]);
}

#[test]
fn bag_clear_resets_count() {
    let mut store: BagStore<i32, String, ()> = BagStore::new(true);
    store.add(1, "a".to_string(), ());
    store.add(2, "b".to_string(), ());
    store.clear();
    assert_eq!(store.len(), 0);
    assert!(store.is_empty());
    assert!(matches!(store.events().last(), Some(BagStoreEvent::ClearedAll)));
}
