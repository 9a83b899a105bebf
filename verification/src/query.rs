//! Predicates and partial updates over records, as first-class values.
//!
//! Callers select records by handing a collection a `Matcher` — a predicate
//! object whose executable test is proved to agree with its
//! specification-level reading — and patch records by handing it a
//! `Mutator`.  The ones defined here cover the store's uses: equality on a
//! record's own key and on an entry's list key, and field-wise partial
//! updates; callers may define further ones.

use vstd::prelude::*;
use crate::records::Entry;
use crate::records::EntryV;
use crate::records::List;
use crate::records::ListV;

verus! {

/// A predicate over records of type `T`.
pub trait Matcher<T: View>: Sized {
    /// What the predicate means of a record's view.
    spec fn holds(&self, v: T::V) -> bool;

    /// Tests one record; agrees with `holds`.
    fn test(&self, t: &T) -> (r: bool)
        ensures
            r == self.holds(t@),
    ;
}

/// An in-place partial update of records of type `T`.
pub trait Mutator<T: View>: Sized {
    /// The record's view after the update.
    spec fn updated(&self, v: T::V) -> T::V;

    /// Applies the update to one record; agrees with `updated`.
    fn apply(&self, t: &mut T)
        ensures
            final(t)@ == self.updated(old(t)@),
    ;
}

/// The predicate of a matcher as one specification-level function value,
/// so that every contract speaks of the same term.
pub open spec fn holds_fn<T: View, P: Matcher<T>>(p: P) -> spec_fn(T::V) -> bool {
    |v: T::V| p.holds(v)
}

/// The negation of a matcher's predicate, as one function value.
pub open spec fn not_holds_fn<T: View, P: Matcher<T>>(p: P) -> spec_fn(T::V) -> bool {
    |v: T::V| !p.holds(v)
}

/// Selects the record whose own key equals the held one.
pub struct ById {
    /// The key looked for.
    pub id: String,
}

impl Matcher<List> for ById {
    open spec fn holds(&self, v: ListV) -> bool {
        v.id == self.id@
    }

    fn test(&self, t: &List) -> (r: bool) {
        self.id.eq(&t.id)
    }
}

impl Matcher<Entry> for ById {
    open spec fn holds(&self, v: EntryV) -> bool {
        v.id == self.id@
    }

    fn test(&self, t: &Entry) -> (r: bool) {
        self.id.eq(&t.id)
    }
}

/// Selects the entries that belong to the held list key.
pub struct ByListId {
    /// The list key looked for.
    pub list_id: String,
}

impl Matcher<Entry> for ByListId {
    open spec fn holds(&self, v: EntryV) -> bool {
        v.list_id == self.list_id@
    }

    fn test(&self, t: &Entry) -> (r: bool) {
        self.list_id.eq(&t.list_id)
    }
}

/// A partial update of a list: each held field replaces the record's.
pub struct ListPatch {
    /// The new name, if one is given.
    pub name: Option<String>,
}

impl Mutator<List> for ListPatch {
    open spec fn updated(&self, v: ListV) -> ListV {
        ListV {
            id: v.id,
            name: match self.name {
                Some(n) => n@,
                None => v.name,
            },
        }
    }

    fn apply(&self, t: &mut List) {
        match &self.name {
            Some(n) => {
                t.name = n.clone();
            },
            None => {},
        }
    }
}

/// A partial update of an entry: each held field replaces the record's.
pub struct EntryPatch {
    /// The new list key, if one is given.
    pub list_id: Option<String>,
    /// The new name, if one is given.
    pub name: Option<String>,
    /// The new done mark, if one is given.
    pub done: Option<bool>,
}

impl Mutator<Entry> for EntryPatch {
    open spec fn updated(&self, v: EntryV) -> EntryV {
        EntryV {
            id: v.id,
            list_id: match self.list_id {
                Some(l) => l@,
                None => v.list_id,
            },
            name: match self.name {
                Some(n) => n@,
                None => v.name,
            },
            done: match self.done {
                Some(d) => d,
                None => v.done,
            },
        }
    }

    fn apply(&self, t: &mut Entry) {
        match &self.list_id {
            Some(l) => {
                t.list_id = l.clone();
            },
            None => {},
        }
        match &self.name {
            Some(n) => {
                t.name = n.clone();
            },
            None => {},
        }
        match &self.done {
            Some(d) => {
                t.done = *d;
            },
            None => {},
        }
    }
}

} // verus!
