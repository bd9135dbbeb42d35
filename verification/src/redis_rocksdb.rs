use crate::wrap_db::WrapDb;
use vstd::prelude::*;

verus! {

/// The commands, over the store that keeps their records.
pub struct RedisRocksdb<T: WrapDb> {
    /// The store, or the transaction, that the commands work on.
    pub db: T,
}

impl<T: WrapDb> RedisRocksdb<T> {
    /// The commands over `db`.
    pub fn new(db: T) -> (r: Self)
        ensures
            r.db == db,
    {
        RedisRocksdb { db }
    }

    /// The store that the commands work on.
    pub fn get_db(&self) -> (r: &T)
        ensures
            *r == self.db,
    {
        &self.db
    }
}

} // verus!
