//! Bounded, append-only log with observer fan-out.
//!
//! The log holds at most its capacity of entries, evicting the oldest first.
//! Observers are held weakly: the log notifies every observer that is still
//! alive of each appended entry and prunes the dropped ones as it goes, so
//! it never keeps an observer alive.
use vstd::prelude::*;

verus! {

use std::collections::VecDeque;
use std::rc::Rc;
use core::cell::RefCell;

/// Severity of a log entry.
#[derive(PartialEq, Debug, Clone)]
pub enum Severity {
    /// Informational message, lowest severity.
    Info,
    /// Warning message, medium severity.
    Warn,
    /// Error message, highest severity.
    Error,
}

/// `std::time::SystemTime`, opaque to verification: a timestamp carried
/// through log entries.
#[verifier::external_type_specification]
#[verifier::external_body]
pub struct ExSystemTime(std::time::SystemTime);

/// `core::cell::RefCell`, opaque to verification: observers are shared
/// mutable cells owned by the caller.
#[verifier::external_type_specification]
#[verifier::external_body]
#[verifier::reject_recursive_types(T)]
pub struct ExRefCell<T: ?Sized>(RefCell<T>);

/// Relies on `SystemTime` being `Copy`: its derived `clone` returns the
/// value itself.
pub assume_specification[ <std::time::SystemTime as Clone>::clone ](
    time: &std::time::SystemTime,
) -> (r: std::time::SystemTime)
    ensures
        r == *time,
;

/// Relies on `std::time::SystemTime::now`: the moment of the call; nothing
/// is assumed of the returned value.
#[verifier::external_body]
fn system_time_now() -> std::time::SystemTime {
    std::time::SystemTime::now()
}

/// A log entry: timestamp, severity and message text.
#[derive(PartialEq, Debug, Clone)]
pub struct Entry {
    /// When the entry was created.
    pub time: std::time::SystemTime,
    /// The severity of the entry.
    pub severity: Severity,
    /// The message text.
    pub text: String,
}

impl Entry {
    /// An entry with the given timestamp, severity and text.
    pub fn new(time: std::time::SystemTime, severity: Severity, text: String) -> (r: Self)
        ensures
            r.time == time,
            r.severity == severity,
            r.text == text,
    {
        Entry { time, severity, text }
    }

    /// An info entry stamped with the current time.
    pub fn info(text: String) -> (r: Self)
        ensures
            r.severity == Severity::Info,
            r.text == text,
    {
        Self::new(system_time_now(), Severity::Info, text)
    }

    /// A warning entry stamped with the current time.
    pub fn warn(text: String) -> (r: Self)
        ensures
            r.severity == Severity::Warn,
            r.text == text,
    {
        Self::new(system_time_now(), Severity::Warn, text)
    }

    /// An error entry stamped with the current time.
    pub fn err(text: String) -> (r: Self)
        ensures
            r.severity == Severity::Error,
            r.text == text,
    {
        Self::new(system_time_now(), Severity::Error, text)
    }
}

/// Implement this to be notified of every entry appended to a [`Logs`].
pub trait Observer {
    /// Called with each entry as it is appended.
    fn notify(&mut self, entry: &Entry);
}

/// The registered observers, held weakly. The list is opaque to
/// verification: nothing is stated about whom a notification reaches.
#[verifier::external_body]
struct ObserverList {
    observers: Vec<std::rc::Weak<RefCell<dyn Observer>>>,
}

impl ObserverList {
    /// Relies on `Vec::new`: an empty observer list.
    #[verifier::external_body]
    fn new() -> ObserverList {
        ObserverList { observers: Vec::new() }
    }

    /// Relies on `Rc::downgrade` and `Vec::push`: stores a weak handle to
    /// the observer, so the list never keeps it alive.
    #[verifier::external_body]
    fn push<O: Observer + 'static>(&mut self, observer: Rc<RefCell<O>>) {
        let handle: Rc<RefCell<dyn Observer>> = observer;
        self.observers.push(Rc::downgrade(&handle));
    }

    /// Relies on `Vec::retain`, `std::rc::Weak::upgrade` and
    /// `RefCell::borrow_mut`: calls `notify` on every observer still alive,
    /// in registration order, and prunes the dropped ones.
    #[verifier::external_body]
    fn notify_all(&mut self, entry: &Entry) {
        self.observers.retain(|observer| {
            if let Some(obs) = observer.upgrade() {
                obs.borrow_mut().notify(entry);
                true
            } else {
                false
            }
        });
    }
}

/// A log storage with a fixed maximum size and observer support.
pub struct Logs {
    size: usize,
    logs: VecDeque<Entry>,
    observers: ObserverList,
}

impl Logs {
    /// The stored entries, oldest first.
    pub closed spec fn entries(self) -> Seq<Entry> {
        self.logs@
    }

    /// The capacity the log was built with.
    pub closed spec fn capacity(self) -> int {
        self.size as int
    }

    /// The log never grows beyond its capacity; one entry is always
    /// admitted, so a zero-capacity log holds at most one.
    pub open spec fn wf(self) -> bool {
        self.entries().len() <= if self.capacity() == 0 {
            1int
        } else {
            self.capacity()
        }
    }

    /// How the entries change when `e` is appended: the oldest entry leaves
    /// first whenever the log is full.
    pub open spec fn appended(self, e: Entry) -> Seq<Entry> {
        if self.capacity() <= self.entries().len() && self.entries().len() > 0 {
            self.entries().drop_first().push(e)
        } else {
            self.entries().push(e)
        }
    }

    /// Creates an empty log holding at most `size` entries.
    pub fn new(size: usize) -> (r: Self)
        ensures
            r.wf(),
            r.entries() == Seq::<Entry>::empty(),
            r.capacity() == size,
    {
        Logs { size, logs: VecDeque::with_capacity(size), observers: ObserverList::new() }
    }

    /// Registers an observer, weakly: the log notifies it of every appended
    /// entry for as long as it is alive elsewhere, and never keeps it alive.
    pub fn add_observer<O: Observer + 'static>(&mut self, observer: Rc<RefCell<O>>)
        ensures
            final(self).entries() == old(self).entries(),
            final(self).capacity() == old(self).capacity(),
            final(self).wf() == old(self).wf(),
    {
        self.observers.push(observer);
    }

    /// Evicts the oldest entry when full, notifies the live observers of
    /// `e`, and appends it.
    fn append_log(&mut self, e: Entry)
        requires
            old(self).wf(),
        ensures
            final(self).wf(),
            final(self).capacity() == old(self).capacity(),
            final(self).entries() == old(self).appended(e),
    {
        if self.size <= self.logs.len() {
            let _evicted = self.logs.pop_front();
        }
        self.observers.notify_all(&e);
        self.logs.push_back(e);
    }

    /// Appends an informational entry with the given text, stamped with the
    /// current time, notifying observers.
    pub fn info(&mut self, text: String)
        requires
            old(self).wf(),
        ensures
            final(self).wf(),
            final(self).capacity() == old(self).capacity(),
            exists|e: Entry|
                {
                    &&& e.severity == Severity::Info
                    &&& e.text == text
                    &&& final(self).entries() == old(self).appended(e)
                },
    {
        let e = Entry::info(text);
        let ghost eg = e;
        self.append_log(e);
        proof {
            assert(self.entries() == old(self).appended(eg));
        }
    }

    /// Appends a warning entry with the given text, stamped with the
    /// current time, notifying observers.
    pub fn warn(&mut self, text: String)
        requires
            old(self).wf(),
        ensures
            final(self).wf(),
            final(self).capacity() == old(self).capacity(),
            exists|e: Entry|
                {
                    &&& e.severity == Severity::Warn
                    &&& e.text == text
                    &&& final(self).entries() == old(self).appended(e)
                },
    {
        let e = Entry::warn(text);
        let ghost eg = e;
        self.append_log(e);
        proof {
            assert(self.entries() == old(self).appended(eg));
        }
    }

    /// Appends an error entry with the given text, stamped with the current
    /// time, notifying observers.
    pub fn err(&mut self, text: String)
        requires
            old(self).wf(),
        ensures
            final(self).wf(),
            final(self).capacity() == old(self).capacity(),
            exists|e: Entry|
                {
                    &&& e.severity == Severity::Error
                    &&& e.text == text
                    &&& final(self).entries() == old(self).appended(e)
                },
    {
        let e = Entry::err(text);
        let ghost eg = e;
        self.append_log(e);
        proof {
            assert(self.entries() == old(self).appended(eg));
        }
    }

    /// The entries, oldest first.
    pub fn logs(&self) -> (r: &VecDeque<Entry>)
        ensures
            r@ == self.entries(),
    {
        &self.logs
    }
}

} // verus!
