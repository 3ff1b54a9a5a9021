use klavier_helper::store::{KeyBound, Store, StoreEvent};

#[test]
fn inclusive() {
    let mut store: Store<i32, &str, &str> = Store::new(false);
    store.add(10, "10", "");

    let (idx, itr) = store.range(KeyBound::Included(0), KeyBound::Included(i32::MAX));
    assert_eq!(idx, 0);
    assert_eq!(itr.len(), 1);
    assert_eq!(itr[0], (10, "10"));
}

#[test]
fn replace() {
    let mut store: Store<i32, String, &str> = Store::new(false);
    store.add(10, "10".to_owned(), "");

    store.replace(&10, "foo", |v: Option<&String>| format!("{}2", v.unwrap()));

    assert_eq!(store.len(), 1);
    assert_eq!(store.as_slice()[0].0, 10);
    assert_eq!(store.as_slice()[0].1, "102".to_owned());

    store.replace(&20, "foo", |v: Option<&String>| {
        assert!(v.is_none());
        "20".to_owned()
    });
    assert_eq!(store.len(), 2);
    assert_eq!(store.as_slice()[0].0, 10);
    assert_eq!(store.as_slice()[0].1, "102".to_owned());
    assert_eq!(store.as_slice()[1].0, 20);
    assert_eq!(store.as_slice()[1].1, "20".to_owned());
}

#[test]
fn replace_with_event() {
    let mut store: Store<i32, String, &str> = Store::new(true);
    store.add(10, "10".to_owned(), "");
    store.clear_events();

    store.replace(&10, "foo", |v: Option<&String>| format!("{}2", v.unwrap()));
    let events = store.events();
    assert_eq!(events.len(), 1);
    if let StoreEvent::Changed { from_to, removed, metadata } = &events[0] {
        assert_eq!(from_to.len(), 1);
        assert_eq!(removed.len(), 0);
        assert_eq!(*metadata, "foo");

        let (from, to) = &from_to[0];
        assert_eq!(from.0, 10);
        assert_eq!(from.1, "10".to_owned());
        assert_eq!(to.0, 10);
        assert_eq!(to.1, "102".to_owned());
    } else {
        panic!("Unexpected event {:?}", events);
    }

    assert_eq!(store.len(), 1);
    assert_eq!(store.as_slice()[0].0, 10);
    assert_eq!(store.as_slice()[0].1, "102".to_owned());
    store.clear_events();

    store.replace(&20, "bar", |v: Option<&String>| {
        assert!(v.is_none());
        "20".to_owned()
    });
    assert_eq!(store.len(), 2);
    assert_eq!(store.as_slice()[0].0, 10);
    assert_eq!(store.as_slice()[0].1, "102".to_owned());
    assert_eq!(store.as_slice()[1].0, 20);
    assert_eq!(store.as_slice()[1].1, "20".to_owned());

    let events = store.events();
    assert_eq!(events.len(), 1);
    if let StoreEvent::Added { added, metadata } = &events[0] {
        assert_eq!(*added, "20".to_owned());
        assert_eq!(*metadata, "bar");
    } else {
        panic!("Unexpected event {:?}", events);
    }
}

#[test]
fn replace_mut_with_events() {
    let mut store: Store<i32, Vec<i32>, &str> = Store::new(true);
    store.replace_mut(&10, "meta", |opt: Option<&Vec<i32>>| {
        assert_eq!(opt, None);
        None
    });
    assert_eq!(store.len(), 0);
    assert_eq!(store.events().len(), 0);

    store.replace_mut(&10, "meta", |opt: Option<&Vec<i32>>| {
        assert_eq!(opt, None);
        Some(vec![1, 2, 3])
    });
    let events = store.events();
    assert_eq!(events.len(), 1);
    if let StoreEvent::Added { added, metadata } = &events[0] {
        assert_eq!(added, &vec![1, 2, 3]);
        assert_eq!(*metadata, "meta");
    } else {
        panic!("Unexpected event {:?}", events);
    }
    assert_eq!(store.len(), 1);
    assert_eq!(store.as_slice()[0], (10, vec![1, 2, 3]));
    store.clear_events();

    store.replace_mut(&10, "meta", |opt: Option<&Vec<i32>>| {
        if let Some(value) = opt {
            let mut updated = value.clone();
            updated[0] = 100;
            Some(updated)
        } else {
            panic!("Unexpected state.");
        }
    });
    let events = store.events();
    assert_eq!(events.len(), 1);
    if let StoreEvent::Changed { from_to, removed, metadata } = &events[0] {
        assert_eq!(from_to.len(), 1);
        let from_to = &from_to[0];
        assert_eq!(from_to, &((10, vec![1, 2, 3]), (10, vec![100, 2, 3])));
        assert_eq!(removed.len(), 0);
        assert_eq!(*metadata, "meta");
    } else {
        panic!("Unexpected event {:?}", events);
    }
    assert_eq!(store.len(), 1);
    assert_eq!(store.as_slice()[0], (10, vec![100, 2, 3]));
    store.clear_events();

    store.replace_mut(&10, "meta", |opt: Option<&Vec<i32>>| {
        if let Some(_value) = opt {
            Some(vec![2, 3, 4])
        } else {
            panic!("Unexpected state.");
        }
    });
    let events = store.events();
    assert_eq!(events.len(), 1);
    if let StoreEvent::Changed { from_to, removed, metadata } = &events[0] {
        assert_eq!(from_to.len(), 1);
        let from_to = &from_to[0];
        assert_eq!(from_to, &((10, vec![100, 2, 3]), (10, vec![2, 3, 4])));
        assert_eq!(removed.len(), 0);
        assert_eq!(*metadata, "meta");
    } else {
        panic!("Unexpected event {:?}", events);
    }
    assert_eq!(store.len(), 1);
    assert_eq!(store.as_slice()[0], (10, vec![2, 3, 4]));
    store.clear_events();
}

#[test]
fn replace_mut() {
    let mut store: Store<i32, Vec<i32>, ()> = Store::new(false);
    store.replace_mut(&10, (), |opt: Option<&Vec<i32>>| {
        assert_eq!(opt, None);
        None
    });
    assert_eq!(store.len(), 0);

    store.replace_mut(&10, (), |opt: Option<&Vec<i32>>| {
        assert_eq!(opt, None);
        Some(vec![1, 2, 3])
    });
    assert_eq!(store.len(), 1);
    assert_eq!(store.as_slice()[0], (10, vec![1, 2, 3]));

    store.replace_mut(&10, (), |opt: Option<&Vec<i32>>| {
        if let Some(value) = opt {
            let mut updated = value.clone();
            updated[0] = 100;
            Some(updated)
        } else {
            panic!("Unexpected state.");
        }
    });
    assert_eq!(store.len(), 1);
    assert_eq!(store.as_slice()[0], (10, vec![100, 2, 3]));

    store.replace_mut(&10, (), |opt: Option<&Vec<i32>>| {
        if let Some(_value) = opt {
            Some(vec![2, 3, 4])
        } else {
            panic!("Unexpected state.");
        }
    });
    assert_eq!(store.len(), 1);
    assert_eq!(store.as_slice()[0], (10, vec![2, 3, 4]));
}

#[test]
fn borrow() {
    let mut store: Store<i32, String, ()> = Store::new(false);
    {
        let b: &[(i32, String)] = store.as_slice();
        assert_eq!(b.len(), 0);
    }

    store.add(1, "Hello".to_owned(), ());
    {
        let b: &[(i32, String)] = store.as_slice();
        assert_eq!(b.len(), 1);
        assert_eq!(b[0], (1, "Hello".to_owned()));
    }

    store.add(100, "World".to_owned(), ());
    let b: &[(i32, String)] = store.as_slice();
    assert_eq!(b.len(), 2);
    assert_eq!(b[0], (1, "Hello".to_owned()));
    assert_eq!(b[1], (100, "World".to_owned()));
}

#[test]
fn retain() {
    let mut store: Store<i32, &str, i32> = Store::new(true);
    store.add(0, "0", 0);
    store.add(1, "11", 0);
    store.add(2, "22", 0);
    store.add(3, "3", 0);

    store.clear_events();
    let removed = store.retain_values(123, |v: &&str| v.len() == 1);
    assert_eq!(store.len(), 2);
    assert_eq!(store.as_slice().first().unwrap(), &(0, "0"));
    assert_eq!(store.as_slice().get(1).unwrap(), &(3, "3"));
    assert_eq!(removed, vec![(1, "11"), (2, "22")]);

    let events = store.events();
    assert_eq!(events.len(), 1);
    match &events[0] {
        StoreEvent::BulkAddedRemoved { added, removed, metadata } => {
            assert_eq!(added.len(), 0);
            assert_eq!(removed, &vec![(1, "11"), (2, "22")]);
            assert_eq!(metadata, &123);
        }
        _ => panic!("Logic error."),
    }
}

#[test]
fn store_just_before_empty() {
    let store: Store<i32, &str, &str> = Store::new(false);
    let mut iter = store.just_before(10).iter();
    assert_eq!(iter.next(), None);
}

#[test]
fn store_just_before_one() {
    let mut store: Store<i32, &str, &str> = Store::new(false);
    store.add(10, "10", "");

    let mut iter = store.just_before(9).iter();
    assert_eq!(iter.next(), None);

    let mut iter = store.just_before(10).iter();
    assert_eq!(iter.next(), Some(&(10, "10")));
    assert_eq!(iter.next(), None);

    let mut iter = store.just_before(11).iter();
    assert_eq!(iter.next(), Some(&(10, "10")));
    assert_eq!(iter.next(), None);
}

#[test]
fn store_just_before_multiple() {
    let mut store: Store<i32, &str, &str> = Store::new(false);
    store.add(10, "10", "");
    store.add(20, "20", "");
    store.add(30, "30", "");

    let mut iter = store.just_before(5).iter();
    assert_eq!(iter.next(), None);

    let mut iter = store.just_before(10).iter();
    assert_eq!(iter.next(), Some(&(10, "10")));
    assert_eq!(iter.next(), Some(&(20, "20")));
    assert_eq!(iter.next(), Some(&(30, "30")));
    assert_eq!(iter.next(), None);

    let mut iter = store.just_before(15).iter();
    assert_eq!(iter.next(), Some(&(10, "10")));
    assert_eq!(iter.next(), Some(&(20, "20")));
    assert_eq!(iter.next(), Some(&(30, "30")));
    assert_eq!(iter.next(), None);

    let mut iter = store.just_before(25).iter();
    assert_eq!(iter.next(), Some(&(20, "20")));
    assert_eq!(iter.next(), Some(&(30, "30")));
    assert_eq!(iter.next(), None);

    let mut iter = store.just_before(100).iter();
    assert_eq!(iter.next(), Some(&(30, "30")));
    assert_eq!(iter.next(), None);
}

#[test]
fn store_just_after_empty() {
    let store: Store<i32, &str, &str> = Store::new(false);
    let mut iter = store.just_after(10).iter();
    assert_eq!(iter.next(), None);
}

#[test]
fn store_just_after_one() {
    let mut store: Store<i32, &str, &str> = Store::new(false);
    store.add(10, "10", "");

    let mut iter = store.just_after(9).iter();
    assert_eq!(iter.next(), Some(&(10, "10")));
    assert_eq!(iter.next(), None);

    let mut iter = store.just_after(10).iter();
    assert_eq!(iter.next(), Some(&(10, "10")));
    assert_eq!(iter.next(), None);

    let mut iter = store.just_after(11).iter();
    assert_eq!(iter.next(), None);
}

#[test]
fn store_just_after_multiple() {
    let mut store: Store<i32, &str, &str> = Store::new(false);
    store.add(10, "10", "");
    store.add(20, "20", "");
    store.add(30, "30", "");

    let mut iter = store.just_after(5).iter();
    assert_eq!(iter.next(), Some(&(10, "10")));
    assert_eq!(iter.next(), Some(&(20, "20")));
    assert_eq!(iter.next(), Some(&(30, "30")));
    assert_eq!(iter.next(), None);

    let mut iter = store.just_after(10).iter();
    assert_eq!(iter.next(), Some(&(10, "10")));
    assert_eq!(iter.next(), Some(&(20, "20")));
    assert_eq!(iter.next(), Some(&(30, "30")));
    assert_eq!(iter.next(), None);

    let mut iter = store.just_after(15).iter();
    assert_eq!(iter.next(), Some(&(20, "20")));
    assert_eq!(iter.next(), Some(&(30, "30")));
    assert_eq!(iter.next(), None);

    let mut iter = store.just_after(25).iter();
    assert_eq!(iter.next(), Some(&(30, "30")));
    assert_eq!(iter.next(), None);

    let mut iter = store.just_after(30).iter();
    assert_eq!(iter.next(), Some(&(30, "30")));
    assert_eq!(iter.next(), None);

    let mut iter = store.just_after(100).iter();
    assert_eq!(iter.next(), None);
}

#[test]
fn store_add_replaces_value() {
    let mut store: Store<i32, &str, ()> = Store::new(false);
    assert_eq!(store.add(7, "first", ()), None);
    let displaced = store.add(7, "second", ());
    assert_eq!(displaced, Some("first"));
    assert_eq!(store.len(), 1);
    assert_eq!(store.as_slice(), &[(7, "second")]);
}

#[test]
fn store_keys_stay_sorted() {
    let mut store: Store<i32, &str, ()> = Store::new(false);
    store.add(30, "c", ());
    store.add(10, "a", ());
    store.add(20, "b", ());
    store.remove(&20);
    store.add(5, "e", ());
    store.bulk_add(vec![(25, "f"), (15, "g")], ());
    let keys: Vec<i32> = store.as_slice().iter().map(|e| e.0).collect();
    assert_eq!(keys, vec![5, 10, 15, 25, 30]);
}

#[test]
fn store_range_scenarios() {
    let mut store: Store<i32, &str, ()> = Store::new(false);
    store.add(10, "10", ());
    store.add(20, "20", ());
    store.add(30, "30", ());

    let (idx, slice) = store.range(KeyBound::Included(15), KeyBound::Included(25));
    assert_eq!(idx, 1);
    assert_eq!(slice, &[(20, "20")]);

    let (idx, slice) = store.range(KeyBound::Included(10), KeyBound::Included(30));
    assert_eq!(idx, 0);
    assert_eq!(slice, &[(10, "10"), (20, "20"), (30, "30")]);

    let (idx, slice) = store.range(KeyBound::Included(31), KeyBound::Unbounded);
    assert_eq!(idx, 0);
    assert_eq!(slice.len(), 0);
}

#[test]
fn store_remove_missing_is_silent() {
    let mut store: Store<i32, &str, &str> = Store::new(true);
    store.add(1, "one", "m");
    let before = store.events().len();
    assert_eq!(store.remove(&2), None);
    assert_eq!(store.events().len(), before);
    assert_eq!(store.remove(&1), Some((1, "one")));
    assert_eq!(store.events().len(), before + 1);
}

#[test]
fn store_bulk_round_trip() {
    let mut store: Store<i32, &str, ()> = Store::new(false);
    store.add(1, "keep", ());
    let before: Vec<(i32, &str)> = store.as_slice().to_vec();
    let displaced = store.bulk_add(vec![(10, "x"), (20, "y")], ());
    assert_eq!(displaced.len(), 0);
    assert_eq!(store.len(), 3);
    let removed = store.bulk_remove(&[10, 20], ());
    assert_eq!(removed, vec![(10, "x"), (20, "y")]);
    assert_eq!(store.as_slice(), before.as_slice());
    assert_eq!(store.len(), before.len());
}

#[test]
fn store_change_two_phase() {
    let mut store: Store<i32, &str, i32> = Store::new(true);
    store.add(1, "a", 0);
    store.add(2, "b", 0);
    store.clear_events();

    // The source of the second pair is the destination of the first: the
    // removals run first, so both moves succeed.
    let displaced = store.change(vec![(1, (2, "a2")), (2, (3, "b3"))], 9);
    assert_eq!(displaced.len(), 0);
    assert_eq!(store.as_slice(), &[(2, "a2"), (3, "b3")]);

    let events = store.events();
    assert_eq!(events.len(), 1);
    match &events[0] {
        StoreEvent::Changed { from_to, removed, metadata } => {
            assert_eq!(from_to, &vec![((1, "a"), (2, "a2")), ((2, "b"), (3, "b3"))]);
            assert_eq!(removed.len(), 0);
            assert_eq!(*metadata, 9);
        }
        _ => panic!("Logic error."),
    }
}

#[test]
fn store_pop_first_in_order() {
    let mut store: Store<i32, &str, ()> = Store::new(false);
    store.add(2, "b", ());
    store.add(1, "a", ());
    assert_eq!(store.pop_first(), Some((1, "a")));
    assert_eq!(store.pop_first(), Some((2, "b")));
    assert_eq!(store.pop_first(), None);
}

#[test]
fn store_update_at_idx_keeps_key() {
    let mut store: Store<i32, &str, &str> = Store::new(true);
    store.add(10, "old", "");
    store.clear_events();
    store.update_at_idx(0, "new", "meta");
    assert_eq!(store.as_slice(), &[(10, "new")]);
    let events = store.events();
    assert_eq!(events.len(), 1);
    match &events[0] {
        StoreEvent::Changed { from_to, removed, metadata } => {
            assert_eq!(from_to, &vec![((10, "old"), (10, "new"))]);
            assert_eq!(removed.len(), 0);
            assert_eq!(*metadata, "meta");
        }
        _ => panic!("Logic error."),
    }
}

#[test]
fn store_clear_emits_event() {
    let mut store: Store<i32, &str, ()> = Store::new(true);
    store.add(1, "a", ());
    store.clear();
    assert_eq!(store.len(), 0);
    assert!(store.is_empty());
    let events = store.events();
    assert!(matches!(events.last(), Some(StoreEvent::ClearedAll)));
}

#[test]
fn store_events_disabled_stays_silent() {
    let mut store: Store<i32, &str, ()> = Store::new(false);
    store.add(1, "a", ());
    store.remove(&1);
    store.clear();
    // A store built without event recording never allocates an event log;
    // its contents behave identically.
    assert_eq!(store.len(), 0);
}

#[test]
fn store_head_and_peek() {
    let mut store: Store<i32, &str, ()> = Store::new(false);
    assert_eq!(store.head_entry_option(), None);
    assert_eq!(store.peek_last(), None);
    store.add(2, "b", ());
    store.add(1, "a", ());
    assert_eq!(store.head_entry_option(), Some(&(1, "a")));
    assert_eq!(store.peek_last(), Some(&(2, "b")));
}

#[test]
fn store_index_and_find() {
    let mut store: Store<i32, &str, ()> = Store::new(false);
    store.add(10, "a", ());
    store.add(30, "c", ());
    assert_eq!(store.index(10), Ok(0));
    assert_eq!(store.index(30), Ok(1));
    assert_eq!(store.index(20), Err(1));
    assert_eq!(store.find(&0), Err(0));
    assert_eq!(store.find(&40), Err(2));
}

#[test]
fn finder_monotonic_probes() {
    let mut store: Store<i32, &str, ()> = Store::new(false);
    store.add(10, "ten", ());
    store.add(20, "twenty", ());
    store.add(30, "thirty", ());

    let mut finder = store.finder();
    assert_eq!(finder.just_before(5), None);
    assert_eq!(finder.just_before(10), Some(&(10, "ten")));
    assert_eq!(finder.just_before(14), Some(&(10, "ten")));
    assert_eq!(finder.just_before(20), Some(&(20, "twenty")));
    assert_eq!(finder.just_before(25), Some(&(20, "twenty")));
    assert_eq!(finder.just_before(99), Some(&(30, "thirty")));
    // A jump backwards falls back to the search and stays correct.
    assert_eq!(finder.just_before(12), Some(&(10, "ten")));
    assert_eq!(finder.just_before(5), None);
}

#[test]
fn store_with_capacity_starts_empty() {
    let store: Store<i32, &str, ()> = Store::with_capacity(16, false);
    assert!(store.is_empty());
    assert_eq!(store.len(), 0);
}
