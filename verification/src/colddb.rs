//! The archival tier: a backend over another backend, which holds what
//! that backend holds and hands every read and write through to it.

use crate::column::DBCol;
use crate::database::Database;
use crate::database::StoreStatistics;
use crate::table::admitted;
use crate::table::Entry;
use crate::table::Row;
use crate::transaction::DBTransaction;
use vstd::prelude::*;

verus! {

/// A backend for data that is written rarely and read often.
pub struct ColdDB<D: Database> {
    pub inner: D,
}

impl<D: Database> ColdDB<D> {
    pub fn new(inner: D) -> (r: Self)
        requires
            inner.valid(),
        ensures
            r.valid(),
            r.inner == inner,
    {
        ColdDB { inner }
    }
}

impl<D: Database> Database for ColdDB<D> {
    open spec fn valid(&self) -> bool {
        self.inner.valid()
    }

    open spec fn column(&self, col: DBCol) -> Seq<Entry> {
        self.inner.column(col)
    }

    open spec fn never_fails(&self) -> bool {
        self.inner.never_fails()
    }

    open spec fn keeps_statistics(&self) -> bool {
        self.inner.keeps_statistics()
    }

    proof fn column_sorted(&self, col: DBCol) {
        self.inner.column_sorted(col);
    }

    fn get_raw_bytes(&self, col: DBCol, key: &[u8]) -> (r: Result<Option<Vec<u8>>, std::io::Error>)
    {
        self.inner.get_raw_bytes(col, key)
    }

    fn iter(&self, col: DBCol) -> (r: Result<Vec<Row>, std::io::Error>) {
        self.inner.iter(col)
    }

    fn iter_prefix(&self, col: DBCol, key_prefix: &[u8]) -> (r: Result<Vec<Row>, std::io::Error>)
    {
        self.inner.iter_prefix(col, key_prefix)
    }

    fn iter_range(
        &self,
        col: DBCol,
        lower_bound: Option<&[u8]>,
        upper_bound: Option<&[u8]>,
    ) -> (r: Result<Vec<Row>, std::io::Error>) {
        self.inner.iter_range(col, lower_bound, upper_bound)
    }

    fn iter_raw_bytes(&self, col: DBCol) -> (r: Result<Vec<Row>, std::io::Error>) {
        self.inner.iter_raw_bytes(col)
    }

    fn write(&mut self, batch: DBTransaction) -> (r: Result<(), std::io::Error>) {
        proof {
            assert forall|col: DBCol| admitted(self.inner.column(col), col, batch@) by {
                assert(admitted(self.column(col), col, batch@));
            }
        }
        self.inner.write(batch)
    }

    fn flush(&mut self) -> (r: Result<(), std::io::Error>) {
        self.inner.flush()
    }

    fn compact(&mut self) -> (r: Result<(), std::io::Error>) {
        self.inner.compact()
    }

    fn get_store_statistics(&self) -> (r: Option<StoreStatistics>) {
        self.inner.get_store_statistics()
    }
}

} // verus!
