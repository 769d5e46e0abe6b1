//! Transactions: writes collected on top of a database's contents and applied
//! to a database in one batch.
use vstd::prelude::*;
use crate::column::{Column, IterDirection, WriteOperation};
use crate::database::Database;
use crate::error::{Error, TransactionError};
use crate::store::{apply_writes, lemma_apply_writes_push, BatchOperations, KeyValueStore, MemoryStore, TransactableStorage};

verus! {

/// The view of a transaction: the source's contents with the transaction's
/// writes on top, and the log of those writes.
pub struct MemoryTransactionView {
    view_layer: MemoryStore,
    changes: Vec<WriteOperation>,
    source: Ghost<Map<(Column, Seq<u8>), Seq<u8>>>,
}

impl View for MemoryTransactionView {
    type V = Map<(Column, Seq<u8>), Seq<u8>>;

    closed spec fn view(&self) -> Map<(Column, Seq<u8>), Seq<u8>> {
        self.view_layer@
    }
}

impl MemoryTransactionView {
    /// What the view shows is its source with its writes applied.
    #[verifier::type_invariant]
    spec fn well_formed(&self) -> bool {
        &&& self.view_layer.wf()
        &&& self.view_layer@ == apply_writes(self.source@, self.changes@)
    }

    /// The contents the transaction started from.
    pub closed spec fn source(&self) -> Map<(Column, Seq<u8>), Seq<u8>> {
        self.source@
    }

    /// The writes of the transaction, in order.
    pub closed spec fn changes(&self) -> Seq<WriteOperation> {
        self.changes@
    }

    /// A view on nothing, with no writes.
    fn empty() -> (r: Self)
        ensures
            r.source() == Map::<(Column, Seq<u8>), Seq<u8>>::empty(),
            r.changes().len() == 0,
            r@ == Map::<(Column, Seq<u8>), Seq<u8>>::empty(),
    {
        let r = MemoryTransactionView {
            view_layer: MemoryStore::new(),
            changes: Vec::new(),
            source: Ghost(Map::empty()),
        };
        assert(r.changes@ =~= Seq::<WriteOperation>::empty());
        r
    }

    /// What the view shows is its source with its writes applied.
    pub fn check_consistent(&self)
        ensures
            self@ == apply_writes(self.source(), self.changes()),
    {
        proof {
            use_type_invariant(self);
        }
    }

    /// A view with no writes on top of `data`.
    pub fn new(data: &MemoryStore) -> (r: Self)
        requires
            data.wf(),
        ensures
            r.source() == data@,
            r.changes().len() == 0,
            r@ == data@,
    {
        let r = MemoryTransactionView {
            view_layer: data.clone(),
            changes: Vec::new(),
            source: Ghost(data@),
        };
        assert(r.changes@ =~= Seq::<WriteOperation>::empty());
        r
    }

    /// The log of writes, consumed.
    fn into_changes(self) -> (r: Vec<WriteOperation>)
        ensures
            r@ == self.changes(),
            self@ == apply_writes(self.source(), r@),
    {
        proof {
            use_type_invariant(&self);
        }
        let MemoryTransactionView { view_layer, changes, source } = self;
        changes
    }
}

impl KeyValueStore for MemoryTransactionView {
    open spec fn contents(&self) -> Map<(Column, Seq<u8>), Seq<u8>> {
        self@
    }

    open spec fn inv(&self) -> bool {
        true
    }

    open spec fn infallible(&self) -> bool {
        true
    }

    fn get(&self, key: &[u8], column: Column) -> (r: Result<Option<Vec<u8>>, Error>) {
        proof {
            use_type_invariant(self);
        }
        Ok(self.view_layer.get_value(key, column))
    }

    fn put(&mut self, key: &[u8], column: Column, value: Vec<u8>) -> (r: Result<Option<Vec<u8>>, Error>)
        ensures
            final(self).source() == old(self).source(),
            final(self).changes().len() == old(self).changes().len() + 1,
            final(self).changes().drop_last() == old(self).changes(),
            final(self).changes().last() matches WriteOperation::Insert(k, c, v) && k@ == key@ && c == column && v@ == value@,
    {
        proof {
            use_type_invariant(&*self);
        }
        let op = WriteOperation::Insert(vstd::slice::slice_to_vec(key), column, vstd::slice::slice_to_vec(value.as_slice()));
        proof {
            lemma_apply_writes_push(self.source@, self.changes@, op);
        }
        let mut tmp = MemoryTransactionView::empty();
        std::mem::swap(self, &mut tmp);
        let MemoryTransactionView { mut view_layer, mut changes, source } = tmp;
        changes.push(op);
        let prev = view_layer.put_value(key, column, value);
        *self = MemoryTransactionView { view_layer, changes, source };
        Ok(prev)
    }

    fn delete(&mut self, key: &[u8], column: Column) -> (r: Result<Option<Vec<u8>>, Error>)
        ensures
            final(self).source() == old(self).source(),
            final(self).changes().len() == old(self).changes().len() + 1,
            final(self).changes().drop_last() == old(self).changes(),
            final(self).changes().last() matches WriteOperation::Remove(k, c) && k@ == key@ && c == column,
    {
        proof {
            use_type_invariant(&*self);
        }
        let op = WriteOperation::Remove(vstd::slice::slice_to_vec(key), column);
        proof {
            lemma_apply_writes_push(self.source@, self.changes@, op);
        }
        let mut tmp = MemoryTransactionView::empty();
        std::mem::swap(self, &mut tmp);
        let MemoryTransactionView { mut view_layer, mut changes, source } = tmp;
        changes.push(op);
        let prev = view_layer.delete_value(key, column);
        *self = MemoryTransactionView { view_layer, changes, source };
        Ok(prev)
    }

    fn contains_key(&self, key: &[u8], column: Column) -> (r: Result<bool, Error>) {
        proof {
            use_type_invariant(self);
        }
        Ok(self.view_layer.contains(key, column))
    }

    fn iter_all(
        &self,
        column: Column,
        prefix: Option<Vec<u8>>,
        start: Option<Vec<u8>>,
        direction: IterDirection,
    ) -> (r: Result<Vec<(Vec<u8>, Vec<u8>)>, Error>) {
        proof {
            use_type_invariant(self);
        }
        Ok(self.view_layer.iter_entries(column, &prefix, &start, direction))
    }
}

impl BatchOperations for MemoryTransactionView {
}

impl TransactableStorage for MemoryTransactionView {
}

/// A transaction on a database.
pub struct DatabaseTransaction {
    changes: MemoryTransactionView,
}

impl View for DatabaseTransaction {
    type V = Map<(Column, Seq<u8>), Seq<u8>>;

    open spec fn view(&self) -> Map<(Column, Seq<u8>), Seq<u8>> {
        self.view_state()@
    }
}

impl DatabaseTransaction {
    /// The contents the transaction started from.
    pub open spec fn source(&self) -> Map<(Column, Seq<u8>), Seq<u8>> {
        self.view_state().source()
    }

    /// The transaction's view.
    pub closed spec fn view_state(&self) -> MemoryTransactionView {
        self.changes
    }

    /// The writes of the transaction, in order.
    pub open spec fn changes(&self) -> Seq<WriteOperation> {
        self.view_state().changes()
    }

    /// A transaction with no writes on top of `data`.
    pub(crate) fn new(data: &MemoryStore) -> (r: Self)
        requires
            data.wf(),
        ensures
            r.source() == data@,
            r.changes().len() == 0,
            r@ == data@,
    {
        DatabaseTransaction { changes: MemoryTransactionView::new(data) }
    }

    /// The transaction's view, to read.
    pub fn as_ref(&self) -> (r: &MemoryTransactionView)
        ensures
            *r == self.view_state(),
            r@ == self@,
            r.source() == self.source(),
            r.changes() == self.changes(),
    {
        &self.changes
    }

    /// The transaction's view, to read and write.
    pub fn as_mut(&mut self) -> (r: &mut MemoryTransactionView)
        ensures
            *r == old(self).view_state(),
            final(self).view_state() == *final(r),
    {
        &mut self.changes
    }

    /// Applies the transaction's writes, in order, to `database`.
    pub fn commit(self, database: &mut Database) -> (r: Result<(), Error>)
        ensures
            final(database)@ == apply_writes(old(database)@, self.changes()),
            old(database)@ == self.source() ==> final(database)@ == self@,
            r is Ok,
    {
        let ops = self.changes.into_changes();
        database.write_batch(ops)
    }
}

impl KeyValueStore for DatabaseTransaction {
    open spec fn contents(&self) -> Map<(Column, Seq<u8>), Seq<u8>> {
        self@
    }

    open spec fn inv(&self) -> bool {
        true
    }

    open spec fn infallible(&self) -> bool {
        true
    }

    fn get(&self, key: &[u8], column: Column) -> (r: Result<Option<Vec<u8>>, Error>) {
        self.changes.get(key, column)
    }

    fn put(&mut self, key: &[u8], column: Column, value: Vec<u8>) -> (r: Result<Option<Vec<u8>>, Error>)
        ensures
            final(self).source() == old(self).source(),
            final(self).changes().len() == old(self).changes().len() + 1,
            final(self).changes().drop_last() == old(self).changes(),
            final(self).changes().last() matches WriteOperation::Insert(k, c, v) && k@ == key@ && c == column && v@ == value@,
    {
        self.changes.put(key, column, value)
    }

    fn delete(&mut self, key: &[u8], column: Column) -> (r: Result<Option<Vec<u8>>, Error>)
        ensures
            final(self).source() == old(self).source(),
            final(self).changes().len() == old(self).changes().len() + 1,
            final(self).changes().drop_last() == old(self).changes(),
            final(self).changes().last() matches WriteOperation::Remove(k, c) && k@ == key@ && c == column,
    {
        self.changes.delete(key, column)
    }

    fn contains_key(&self, key: &[u8], column: Column) -> (r: Result<bool, Error>) {
        self.changes.contains_key(key, column)
    }

    fn iter_all(
        &self,
        column: Column,
        prefix: Option<Vec<u8>>,
        start: Option<Vec<u8>>,
        direction: IterDirection,
    ) -> (r: Result<Vec<(Vec<u8>, Vec<u8>)>, Error>) {
        self.changes.iter_all(column, prefix, start, direction)
    }
}

/// The result of a transaction.
pub type TransactionResult<T> = Result<T, TransactionError>;

/// Running a closure inside a transaction.
pub trait Transaction {
    /// Runs `f` on a transaction and keeps its writes only when it succeeds.
    fn transaction<F, R>(&mut self, f: F) -> TransactionResult<R>
        where
            F: FnOnce(&mut MemoryTransactionView) -> TransactionResult<R> + Copy,
        requires
            forall|v: &mut MemoryTransactionView| call_requires(f, (v,)),
    ;
}

impl Transaction for Database {
    /// Runs `f` on a transaction on this database; when `f` succeeds its
    /// writes are committed, and when it fails the database is unchanged.
    fn transaction<F, R>(&mut self, f: F) -> (r: TransactionResult<R>)
        where
            F: FnOnce(&mut MemoryTransactionView) -> TransactionResult<R> + Copy,
        ensures
            exists|v: &mut MemoryTransactionView|
                {
                    &&& call_ensures(f, (v,), r)
                    &&& v.source() == old(self)@
                    &&& v@ == old(self)@
                    &&& v.changes().len() == 0
                    &&& r is Ok ==> final(self)@ == apply_writes(old(self)@, final(v).changes())
                },
            r is Err ==> final(self)@ == old(self)@,
    {
        let mut tx = Database::transaction(self);
        let res = f(tx.as_mut());
        match res {
            Ok(v) => {
                let _ = tx.commit(self);
                Ok(v)
            },
            Err(e) => Err(e),
        }
    }
}

} // verus!
