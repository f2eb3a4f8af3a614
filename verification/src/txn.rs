//! Read-only and read-write transactions: each owns a snapshot of its
//! environment's tables; committing a write transaction publishes the
//! snapshot back.

use vstd::prelude::*;

use crate::errors::Result;
use crate::tree::Tree;

verus! {

/// The tables of two snapshots hold the same data, table by table.
pub open spec fn tables_same(a: Seq<Tree>, b: Seq<Tree>) -> bool {
    a.len() == b.len() && forall|i: int| 0 <= i < a.len() ==> a[i].same_data(b[i])
}

/// An independent copy of a table snapshot.
pub fn clone_tables(tables: &Vec<Tree>) -> (r: Vec<Tree>)
    ensures
        tables_same(r@, tables@),
{
    let mut out: Vec<Tree> = Vec::new();
    let n = tables.len();
    let mut i: usize = 0;
    while i < n
        invariant
            0 <= i <= n,
            n == tables@.len(),
            out@.len() == i,
            forall|j: int| 0 <= j < i ==> out@[j].same_data(tables@[j]),
        decreases n - i,
    {
        out.push(tables[i].duplicate());
        i = i + 1;
    }
    out
}

/// A read-only transaction: one consistent snapshot of the environment's
/// tables, bound to the environment it was begun on. The type parameter is a
/// phantom tag a caller may use to distinguish environments at the type
/// level.
pub struct RoTxn<T> {
    pub env_id: usize,
    pub tables: Vec<Tree>,
    pub tag: core::marker::PhantomData<T>,
}

impl<T> RoTxn<T> {
    /// Every table of the snapshot is sorted.
    pub open spec fn wf(self) -> bool {
        forall|i: int| 0 <= i < self.tables@.len() ==> self.tables@[i].wf()
    }

    /// Number of tables visible to this transaction.
    pub open spec fn n_tables(self) -> int {
        self.tables@.len() as int
    }

    /// The table a handle with this identifier reads.
    pub open spec fn table(self, dbi: int) -> Tree {
        self.tables@[dbi]
    }

    /// End the transaction; a read-only snapshot has nothing to write back.
    pub fn commit(self) -> (r: Result<()>)
        ensures
            r is Ok,
    {
        Ok(())
    }

    /// Abandon the transaction.
    pub fn abort(self) -> (r: Result<()>)
        ensures
            r is Ok,
    {
        Ok(())
    }
}

/// A read-write transaction: a private working copy of the environment's
/// tables. Mutations stay invisible to every other snapshot until `commit`
/// publishes them; dropping or aborting the transaction discards them.
pub struct RwTxn<T> {
    pub txn: RoTxn<T>,
}

impl<T> RwTxn<T> {
    /// Every table of the working copy is sorted.
    pub open spec fn wf(self) -> bool {
        self.txn.wf()
    }

    /// Number of tables visible to this transaction.
    pub open spec fn n_tables(self) -> int {
        self.txn.n_tables()
    }

    /// The table a handle with this identifier works on.
    pub open spec fn table(self, dbi: int) -> Tree {
        self.txn.table(dbi)
    }

    /// The read view of this transaction, for read operations.
    pub fn ro(&self) -> (r: &RoTxn<T>)
        ensures
            r == &self.txn,
    {
        &self.txn
    }

    /// Abandon the transaction, discarding every buffered mutation.
    pub fn abort(self) -> (r: Result<()>)
        ensures
            r is Ok,
    {
        Ok(())
    }

    /// Commit a nested transaction into its parent: the parent takes over
    /// the child's view of every table.
    pub fn commit_nested(self, parent: &mut RwTxn<T>) -> (r: Result<()>)
        ensures
            r is Ok,
            final(parent).txn.env_id == old(parent).txn.env_id,
            tables_same(final(parent).txn.tables@, self.txn.tables@),
    {
        let RwTxn { txn } = self;
        parent.txn.tables = txn.tables;
        Ok(())
    }
}

} // verus!
