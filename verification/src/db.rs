//! The database: one guarded collection per entity kind, built once at
//! startup and shared by reference across all callers.
//!
//! Each collection sits behind its own exclusive lock; every operation —
//! read or write — goes through a handle acquired from that lock, so all
//! access to one collection is serialised while the two collections stay
//! independent.  Mutating a collection without holding its lock is
//! impossible by construction.

use vstd::prelude::*;
use vstd::rwlock::RwLock;
use vstd::rwlock::RwLockPredicate;
use vstd::string::StringExecFns;
use crate::errors::StoreError;
use crate::records::Entry;
use crate::records::List;
use crate::records::Record;
use crate::store::spec_parse_container;
use crate::store::Collection;

verus! {

/// The invariant each collection lock maintains: whatever a caller does
/// while holding the lock, the collection keeps its identity — its name
/// and its backing directory.
pub ghost struct CollectionPred {
    pub name: Seq<char>,
    pub directory: Seq<char>,
}

impl<T: Record> RwLockPredicate<Collection<T>> for CollectionPred {
    open spec fn inv(self, c: Collection<T>) -> bool {
        c.spec_name() == self.name && c.spec_directory() == self.directory
    }
}

/// One guarded collection per entity kind, for the process lifetime.
pub struct Database {
    /// The directory the backing files live in.
    pub directory: String,
    /// The guarded collection of lists.
    pub list_collection: RwLock<Collection<List>, CollectionPred>,
    /// The guarded collection of entries.
    pub entry_collection: RwLock<Collection<Entry>, CollectionPred>,
}

impl Database {
    /// The directory the backing files live in.
    pub open spec fn spec_directory(&self) -> Seq<char> {
        self.directory@
    }

    /// Constructs the database from the contents of the two backing
    /// files, `list.json` and `entry.json` under `directory`; `None`
    /// stands for an absent file.  All-or-nothing: any absent or
    /// unparseable file fails the whole construction, the list collection
    /// first.
    pub fn new(directory: String, list_file: Option<&str>, entry_file: Option<&str>) -> (r: Result<
        Database,
        StoreError,
    >)
        ensures
            match r {
                Ok(db) => {
                    &&& db.spec_directory() == directory@
                    &&& db.list_collection.pred() == (CollectionPred {
                        name: "list"@,
                        directory: directory@,
                    })
                    &&& db.entry_collection.pred() == (CollectionPred {
                        name: "entry"@,
                        directory: directory@,
                    })
                    &&& list_file matches Some(lf) && spec_parse_container::<List>(lf@) is Some
                    &&& entry_file matches Some(ef) && spec_parse_container::<Entry>(ef@) is Some
                },
                Err(e) => match list_file {
                    None => e == StoreError::NotFound,
                    Some(lf) => if spec_parse_container::<List>(lf@) is None {
                        e == StoreError::Parse
                    } else {
                        match entry_file {
                            None => e == StoreError::NotFound,
                            Some(ef) => e == StoreError::Parse && spec_parse_container::<Entry>(
                                ef@,
                            ) is None,
                        }
                    },
                },
            },
    {
        let list_c = match Collection::<List>::new("list".to_owned(), directory.as_str(), list_file) {
            Ok(c) => c,
            Err(e) => {
                return Err(e);
            },
        };
        let entry_c = match Collection::<Entry>::new(
            "entry".to_owned(),
            directory.as_str(),
            entry_file,
        ) {
            Ok(c) => c,
            Err(e) => {
                return Err(e);
            },
        };
        let list_collection = RwLock::new(
            list_c,
            Ghost(CollectionPred { name: "list"@, directory: directory@ }),
        );
        let entry_collection = RwLock::new(
            entry_c,
            Ghost(CollectionPred { name: "entry"@, directory: directory@ }),
        );
        Ok(Database { directory, list_collection, entry_collection })
    }

    /// The shared handle to the guarded list collection.
    pub fn get_list_collection(&self) -> (r: &RwLock<Collection<List>, CollectionPred>)
        ensures
            r == &self.list_collection,
            r.pred() == self.list_collection.pred(),
    {
        &self.list_collection
    }

    /// The shared handle to the guarded entry collection.
    pub fn get_entry_collection(&self) -> (r: &RwLock<Collection<Entry>, CollectionPred>)
        ensures
            r == &self.entry_collection,
            r.pred() == self.entry_collection.pred(),
    {
        &self.entry_collection
    }
}

} // verus!
