//! The database: a column store of byte keys and values held in memory.
use vstd::prelude::*;
use crate::column::{Column, IterDirection, WriteOperation};
use crate::error::Error;
use crate::store::{apply_writes, is_iteration, lookup, opt_bytes, pairs_view, BatchOperations, KeyValueStore, MemoryStore};
use crate::transaction::DatabaseTransaction;

verus! {

/// The direction given, or forward when none is.
pub open spec fn direction_or_default(direction: Option<IterDirection>) -> IterDirection {
    match direction {
        Some(d) => d,
        None => IterDirection::Forward,
    }
}

/// A database of byte keys and values in columns, held in memory.
///
/// A `Database` owns its contents: it is not `Clone`, and no two handles
/// share one store, so a write through one handle is never seen through
/// another. Code that works on a database takes it by `&mut` or by value
/// (`VmDatabase::new`, `VmDatabase::into_database`), and a transaction's
/// writes reach it only through `DatabaseTransaction::commit`.
pub struct Database {
    data: MemoryStore,
}

impl View for Database {
    type V = Map<(Column, Seq<u8>), Seq<u8>>;

    closed spec fn view(&self) -> Map<(Column, Seq<u8>), Seq<u8>> {
        self.data@
    }
}

impl Database {
    #[verifier::type_invariant]
    spec fn well_formed(&self) -> bool {
        self.data.wf()
    }

    /// Takes the store out, leaving an empty one in its place.
    fn take_data(&mut self) -> (r: MemoryStore)
        ensures
            r.wf(),
            r@ == old(self)@,
    {
        proof {
            use_type_invariant(&*self);
        }
        let mut data = MemoryStore::new();
        std::mem::swap(&mut data, &mut self.data);
        data
    }

    /// An empty database held in memory.
    pub fn in_memory() -> (r: Self)
        ensures
            r@ == Map::<(Column, Seq<u8>), Seq<u8>>::empty(),
    {
        Database { data: MemoryStore::new() }
    }

    /// Stores `value` under `key` in `column`; gives back the value replaced.
    pub fn insert(&mut self, key: &[u8], column: Column, value: Vec<u8>) -> (r: Result<Option<Vec<u8>>, Error>)
        ensures
            final(self)@ == old(self)@.insert((column, key@), value@),
            r matches Ok(prev) && opt_bytes(prev) == lookup(old(self)@, column, key@),
    {
        let mut data = self.take_data();
        let prev = data.put_value(key, column, value);
        self.data = data;
        Ok(prev)
    }

    /// Removes `key` from `column`; gives back the value removed.
    pub fn remove(&mut self, key: &[u8], column: Column) -> (r: Result<Option<Vec<u8>>, Error>)
        ensures
            final(self)@ == old(self)@.remove((column, key@)),
            r matches Ok(prev) && opt_bytes(prev) == lookup(old(self)@, column, key@),
    {
        let mut data = self.take_data();
        let prev = data.delete_value(key, column);
        self.data = data;
        Ok(prev)
    }

    /// The value under `key` in `column`.
    pub fn get(&self, key: &[u8], column: Column) -> (r: Result<Option<Vec<u8>>, Error>)
        ensures
            r matches Ok(v) && opt_bytes(v) == lookup(self@, column, key@),
    {
        proof {
            use_type_invariant(self);
        }
        Ok(self.data.get_value(key, column))
    }

    /// Whether `key` is in `column`.
    pub fn contains_key(&self, key: &[u8], column: Column) -> (r: Result<bool, Error>)
        ensures
            r matches Ok(b) && b == self@.contains_key((column, key@)),
    {
        proof {
            use_type_invariant(self);
        }
        Ok(self.data.contains(key, column))
    }

    /// The entries of `column` whose keys have `prefix` and lie from `start` on,
    /// walked in `direction` (forward when none is given).
    pub fn iter_all(
        &self,
        column: Column,
        prefix: Option<Vec<u8>>,
        start: Option<Vec<u8>>,
        direction: Option<IterDirection>,
    ) -> (r: Vec<(Vec<u8>, Vec<u8>)>)
        ensures
            is_iteration(self@, column, opt_bytes(prefix), opt_bytes(start), direction_or_default(direction), pairs_view(r@)),
    {
        proof {
            use_type_invariant(self);
        }
        let d = match direction {
            Some(d) => d,
            None => IterDirection::default(),
        };
        self.data.iter_entries(column, &prefix, &start, d)
    }

    /// A transaction on this database: it starts from the database's contents.
    pub fn transaction(&self) -> (r: DatabaseTransaction)
        ensures
            r.source() == self@,
            r.changes().len() == 0,
            r@ == self@,
    {
        proof {
            use_type_invariant(self);
        }
        DatabaseTransaction::new(&self.data)
    }

    /// Writes a batch of operations, in order.
    pub(crate) fn write_batch(&mut self, ops: Vec<WriteOperation>) -> (r: Result<(), Error>)
        ensures
            final(self)@ == apply_writes(old(self)@, ops@),
            r is Ok,
    {
        let mut data = self.take_data();
        let r = data.batch_write(ops);
        self.data = data;
        r
    }
}

/// A read after a write gives back the value written, and leaves every other
/// key as it was; a read after a removal finds nothing.
pub proof fn lemma_read_after_write(
    m: Map<(Column, Seq<u8>), Seq<u8>>,
    c: Column,
    k: Seq<u8>,
    v: Seq<u8>,
    c2: Column,
    k2: Seq<u8>,
)
    ensures
        lookup(m.insert((c, k), v), c, k) == Some(v),
        lookup(m.remove((c, k)), c, k) is None,
        (c2, k2) != (c, k) ==> lookup(m.insert((c, k), v), c2, k2) == lookup(m, c2, k2),
        (c2, k2) != (c, k) ==> lookup(m.remove((c, k)), c2, k2) == lookup(m, c2, k2),
{
}

impl KeyValueStore for Database {
    open spec fn contents(&self) -> Map<(Column, Seq<u8>), Seq<u8>> {
        self@
    }

    open spec fn inv(&self) -> bool {
        true
    }

    open spec fn infallible(&self) -> bool {
        true
    }

    fn get(&self, key: &[u8], column: Column) -> (r: Result<Option<Vec<u8>>, Error>) {
        Database::get(self, key, column)
    }

    fn put(&mut self, key: &[u8], column: Column, value: Vec<u8>) -> (r: Result<Option<Vec<u8>>, Error>) {
        Database::insert(self, key, column, value)
    }

    fn delete(&mut self, key: &[u8], column: Column) -> (r: Result<Option<Vec<u8>>, Error>) {
        Database::remove(self, key, column)
    }

    fn contains_key(&self, key: &[u8], column: Column) -> (r: Result<bool, Error>) {
        Database::contains_key(self, key, column)
    }

    fn iter_all(
        &self,
        column: Column,
        prefix: Option<Vec<u8>>,
        start: Option<Vec<u8>>,
        direction: IterDirection,
    ) -> (r: Result<Vec<(Vec<u8>, Vec<u8>)>, Error>) {
        Ok(Database::iter_all(self, column, prefix, start, Some(direction)))
    }
}

impl Default for Database {
    /// An empty database held in memory.
    fn default() -> (r: Self)
        ensures
            r@ == Map::<(Column, Seq<u8>), Seq<u8>>::empty(),
    {
        Database::in_memory()
    }
}

} // verus!
