//! The in-memory front of the key-value store.
//!
//! Durability, the log on disk and its compaction are the business of the
//! store's back end and are not part of this crate. The front defined here
//! keeps the table that the back end will fill; on its own it accepts every
//! request without recording anything.
use crate::error::KvsError;
use std::collections::HashMap;
use vstd::prelude::*;

verus! {

/// A store of string keys and string values.
pub struct KvStore {
    store: HashMap<String, String>,
}

impl View for KvStore {
    type V = Map<String, String>;

    closed spec fn view(&self) -> Map<String, String> {
        self.store@
    }
}

impl KvStore {
    /// A store with an empty table.
    pub fn new() -> (s: KvStore)
        ensures
            s@ == Map::<String, String>::empty(),
    {
        KvStore { store: HashMap::new() }
    }

    /// Accepts the pair. Nothing is recorded: the table stays as it is.
    pub fn set(&mut self, key: String, value: String) -> (r: Result<(), KvsError>)
        ensures
            r is Ok,
            final(self)@ == old(self)@,
    {
        Ok(())
    }

    /// Answers every key with the empty string. The table stays as it is.
    pub fn get(&mut self, key: String) -> (r: Result<Option<String>, KvsError>)
        ensures
            r matches Ok(Some(value)) && value@ == Seq::<char>::empty(),
            final(self)@ == old(self)@,
    {
        let empty = "".to_string();
        proof {
            reveal_strlit("");
        }
        Ok(Some(empty))
    }

    /// Accepts the removal. Nothing is recorded: the table stays as it is.
    pub fn remove(&mut self, key: String) -> (r: Result<(), KvsError>)
        ensures
            r is Ok,
            final(self)@ == old(self)@,
    {
        Ok(())
    }
}

} // verus!
