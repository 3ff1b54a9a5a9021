use std::cell::RefCell;
use std::rc::Rc;

use klavier_helper::err_log::{Entry, Logs, Observer, Severity};

#[test]
fn err_log_empty() {
    let logs = Logs::new(5);
    assert_eq!(logs.logs().iter().next(), None);
}

#[test]
fn can_iter() {
    let mut logs = Logs::new(5);
    logs.info("Hello".to_string());
    logs.err(format!("World {}", 1));
    let mut iter = logs.logs().iter();
    assert_eq!(iter.next().map(|e| e.text.clone()), Some("Hello".to_owned()));
    assert_eq!(iter.next().map(|e| e.text.clone()), Some("World 1".to_owned()));
    assert_eq!(iter.next(), None);

    let mut riter = logs.logs().iter().rev();
    assert_eq!(riter.next().map(|e| e.text.clone()), Some("World 1".to_owned()));
    assert_eq!(riter.next().map(|e| e.text.clone()), Some("Hello".to_owned()));
    assert_eq!(riter.next(), None);
}

#[test]
fn can_observe() {
    let mut logs = Logs::new(5);
    struct MyObserver {
        e: Vec<Entry>,
    }

    impl Observer for MyObserver {
        fn notify(&mut self, entry: &Entry) {
            self.e.push(entry.clone());
        }
    }

    let obs = Rc::new(RefCell::new(MyObserver { e: vec![] }));
    logs.add_observer(obs.clone());

    logs.info("Hello".to_string());
    logs.err("World".to_string());

    assert_eq!(obs.borrow().e[0].text, "Hello");
    assert_eq!(obs.borrow().e[0].severity, Severity::Info);

    assert_eq!(obs.borrow().e[1].text, "World");
    assert_eq!(obs.borrow().e[1].severity, Severity::Error);
}

#[test]
fn evicts_oldest_when_full() {
    let mut logs = Logs::new(2);
    logs.info("one".to_string());
    logs.warn("two".to_string());
    logs.err("three".to_string());
    let texts: Vec<String> = logs.logs().iter().map(|e| e.text.clone()).collect();
    assert_eq!(texts, vec!["two".to_string(), "three".to_string()]);
    assert_eq!(logs.logs()[0].severity, Severity::Warn);
    assert_eq!(logs.logs()[1].severity, Severity::Error);
}

#[test]
fn dropped_observer_is_pruned() {
    let mut logs = Logs::new(5);
    struct Counting {
        seen: usize,
    }

    impl Observer for Counting {
        fn notify(&mut self, _entry: &Entry) {
            self.seen += 1;
        }
    }

    let kept = Rc::new(RefCell::new(Counting { seen: 0 }));
    logs.add_observer(kept.clone());
    {
        let dropped = Rc::new(RefCell::new(Counting { seen: 0 }));
        logs.add_observer(dropped.clone());
        logs.info("first".to_string());
        assert_eq!(dropped.borrow().seen, 1);
    }
    // The second observer is gone; only the surviving one is notified.
    logs.info("second".to_string());
    assert_eq!(kept.borrow().seen, 2);
}

#[test]
fn entry_constructors_set_severity() {
    let i = Entry::info("i".to_string());
    let w = Entry::warn("w".to_string());
    let e = Entry::err("e".to_string());
    assert_eq!(i.severity, Severity::Info);
    assert_eq!(w.severity, Severity::Warn);
    assert_eq!(e.severity, Severity::Error);
    assert_eq!(i.text, "i");
    assert_eq!(w.text, "w");
    assert_eq!(e.text, "e");
}
