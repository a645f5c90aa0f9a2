//! A backend that keeps every column in memory and never fails.

use crate::column::lemma_columns_distinct;
use crate::column::DBCol;
use crate::column::NUM_COLUMNS;
use crate::database::Database;
use crate::database::StoreStatistics;
use crate::refcount::strip;
use crate::order::bytes_eq;
use crate::rows::apply_row_op;
use crate::rows::copy_rows;
use crate::rows::find_sorted;
use crate::rows::opt_bytes;
use crate::rows::select_prefix;
use crate::rows::select_range;
use crate::rows::strip_rows;
use crate::table::admitted;
use crate::table::apply_all;
use crate::table::lemma_admitted_prefix;
use crate::table::lemma_apply_op_sorted;
use crate::table::lemma_keep_strip_commute;
use crate::table::lemma_shown_sorted;
use crate::table::op_admitted;
use crate::table::rows_view;
use crate::table::sorted;
use crate::table::Entry;
use crate::table::KeySet;
use crate::table::Row;
use crate::transaction::DBOp;
use crate::transaction::DBTransaction;
use crate::transaction::Op;
use vstd::prelude::*;
use vstd::slice::slice_to_vec;

verus! {

/// The columns of the store, each a list of rows in key order.
pub struct TestDB {
    cols: Vec<Vec<Row>>,
}

impl TestDB {
    /// A store whose columns are all empty.
    pub fn new() -> (r: Self)
        ensures
            r.valid(),
            forall|col: DBCol| #[trigger] r.column(col) == Seq::<Entry>::empty(),
    {
        let mut cols: Vec<Vec<Row>> = Vec::new();
        let mut i: usize = 0;
        while i < NUM_COLUMNS
            invariant
                i <= NUM_COLUMNS,
                cols.len() == i,
                forall|c: int| 0 <= c < i ==> (#[trigger] cols[c])@.len() == 0,
            decreases NUM_COLUMNS - i,
        {
            cols.push(Vec::new());
            i += 1;
        }
        let r = TestDB { cols };
        assert forall|col: DBCol| #[trigger] r.column(col) == Seq::<Entry>::empty() by {
            lemma_columns_distinct(col, col);
            assert(r.column(col) =~= Seq::<Entry>::empty());
        }
        r
    }
}

impl TestDB {
    /// Applies the operations of the batch, all of them or none: where an
    /// `Insert` would change the value that its key holds, nothing is
    /// written and the answer is `false`.
    pub fn try_write(&mut self, batch: &DBTransaction) -> (done: bool)
        requires
            old(self).valid(),
        ensures
            final(self).valid(),
            done == (forall|col: DBCol| admitted(old(self).column(col), col, batch@)),
            done ==> forall|col: DBCol| #[trigger]
                final(self).column(col) == apply_all(old(self).column(col), col, batch@),
            !done ==> forall|col: DBCol| #[trigger]
                final(self).column(col) == old(self).column(col),
    {
        let ghost start = *self;
        let mut next = TestDB { cols: copy_columns(&self.cols) };
        assert forall|col: DBCol| #[trigger] next.column(col) == start.column(col) by {
            lemma_columns_distinct(col, col);
        }
        let n = batch.ops.len();
        let mut i: usize = 0;
        assert(batch@.take(0) =~= Seq::<Op>::empty());
        while i < n
            invariant
                i <= n,
                n == batch.ops.len(),
                next.valid(),
                *self == start,
                start.valid(),
                forall|col: DBCol| admitted(start.column(col), col, batch@.take(i as int)),
                forall|col: DBCol| #[trigger]
                    next.column(col) == apply_all(start.column(col), col, batch@.take(i as int)),
            decreases n - i,
        {
            let op = &batch.ops[i];
            let col = op.col();
            let idx = col.index();
            let ghost before = next;
            let fits = match op {
                DBOp::Insert { col: _, key, value } => match find_sorted(
                    &next.cols[idx],
                    key.as_slice(),
                ) {
                    Some(j) => bytes_eq(value.as_slice(), next.cols[idx][j].1.as_slice()),
                    None => true,
                },
                _ => true,
            };
            proof {
                assert(before.column(col) == apply_all(
                    start.column(col),
                    col,
                    batch@.take(i as int),
                ));
                assert(fits == op_admitted(before.column(col), col, op@));
            }
            if !fits {
                proof {
                    if admitted(start.column(col), col, batch@) {
                        lemma_admitted_prefix(start.column(col), col, batch@, i as int);
                    }
                }
                return false;
            }
            proof {
                lemma_apply_op_sorted(before.column(col), col, op@);
            }
            let rows = apply_row_op(&next.cols[idx], op);
            next.cols.set(idx, rows);
            proof {
                assert(batch@.take(i + 1).drop_last() =~= batch@.take(i as int));
                assert(batch@.take(i + 1).last() == op@);
                assert forall|c: DBCol| #[trigger]
                    next.column(c) == apply_all(start.column(c), c, batch@.take(i + 1)) by {
                    lemma_columns_distinct(c, col);
                    assert(before.column(c) == apply_all(
                        start.column(c),
                        c,
                        batch@.take(i as int),
                    ));
                }
                assert forall|c: DBCol| admitted(start.column(c), c, batch@.take(i + 1)) by {
                    lemma_columns_distinct(c, col);
                    assert(before.column(c) == apply_all(
                        start.column(c),
                        c,
                        batch@.take(i as int),
                    ));
                }
            }
            i += 1;
        }
        assert(batch@.take(n as int) =~= batch@);
        self.cols = next.cols;
        true
    }
}

/// A copy of the rows of every column.
fn copy_columns(cols: &Vec<Vec<Row>>) -> (out: Vec<Vec<Row>>)
    ensures
        out.len() == cols.len(),
        forall|c: int| 0 <= c < cols.len() ==> rows_view(#[trigger] out[c]@) == rows_view(cols[c]@),
{
    let mut out: Vec<Vec<Row>> = Vec::new();
    let mut i: usize = 0;
    while i < cols.len()
        invariant
            i <= cols.len(),
            out.len() == i,
            forall|c: int| 0 <= c < i ==> rows_view(#[trigger] out[c]@) == rows_view(cols[c]@),
        decreases cols.len() - i,
    {
        out.push(copy_rows(&cols[i]));
        i += 1;
    }
    out
}

impl Database for TestDB {
    closed spec fn valid(&self) -> bool {
        &&& self.cols.len() == NUM_COLUMNS
        &&& forall|c: int| 0 <= c < NUM_COLUMNS ==> sorted(rows_view(#[trigger] self.cols[c]@))
    }

    closed spec fn column(&self, col: DBCol) -> Seq<Entry> {
        rows_view(self.cols[col.ord()]@)
    }

    open spec fn never_fails(&self) -> bool {
        true
    }

    open spec fn keeps_statistics(&self) -> bool {
        false
    }

    proof fn column_sorted(&self, col: DBCol) {
        lemma_columns_distinct(col, col);
    }

    fn get_raw_bytes(&self, col: DBCol, key: &[u8]) -> (r: Result<Option<Vec<u8>>, std::io::Error>)
        ensures
            r is Ok,
    {
        let rows = &self.cols[col.index()];
        match find_sorted(rows, key) {
            Some(j) => Ok(Some(slice_to_vec(rows[j].1.as_slice()))),
            None => Ok(None),
        }
    }

    fn get_with_rc_stripped(&self, col: DBCol, key: &[u8]) -> (r: Result<
        Option<Vec<u8>>,
        std::io::Error,
    >)
        ensures
            r is Ok,
    {
        let rows = &self.cols[col.index()];
        match find_sorted(rows, key) {
            Some(j) => Ok(strip(rows[j].1.as_slice())),
            None => Ok(None),
        }
    }

    fn iter(&self, col: DBCol) -> (r: Result<Vec<Row>, std::io::Error>)
        ensures
            r is Ok,
    {
        let rows = &self.cols[col.index()];
        proof {
            lemma_shown_sorted(col, rows_view(rows@), KeySet::Within(None, None));
        }
        if col.is_rc() {
            Ok(strip_rows(rows))
        } else {
            Ok(copy_rows(rows))
        }
    }

    fn iter_prefix(&self, col: DBCol, key_prefix: &[u8]) -> (r: Result<Vec<Row>, std::io::Error>)
        ensures
            r is Ok,
    {
        let rows = &self.cols[col.index()];
        let found = select_prefix(rows, key_prefix);
        proof {
            lemma_shown_sorted(col, rows_view(rows@), KeySet::Prefixed(key_prefix@));
        }
        if col.is_rc() {
            proof {
                lemma_keep_strip_commute(rows_view(rows@), KeySet::Prefixed(key_prefix@));
            }
            Ok(strip_rows(&found))
        } else {
            Ok(found)
        }
    }

    fn iter_range(
        &self,
        col: DBCol,
        lower_bound: Option<&[u8]>,
        upper_bound: Option<&[u8]>,
    ) -> (r: Result<Vec<Row>, std::io::Error>)
        ensures
            r is Ok,
    {
        let rows = &self.cols[col.index()];
        let found = select_range(rows, lower_bound, upper_bound);
        proof {
            lemma_shown_sorted(
                col,
                rows_view(rows@),
                KeySet::Within(opt_bytes(lower_bound), opt_bytes(upper_bound)),
            );
        }
        if col.is_rc() {
            proof {
                lemma_keep_strip_commute(
                    rows_view(rows@),
                    KeySet::Within(opt_bytes(lower_bound), opt_bytes(upper_bound)),
                );
            }
            Ok(strip_rows(&found))
        } else {
            Ok(found)
        }
    }

    fn iter_raw_bytes(&self, col: DBCol) -> (r: Result<Vec<Row>, std::io::Error>)
        ensures
            r is Ok,
    {
        Ok(copy_rows(&self.cols[col.index()]))
    }

    fn write(&mut self, batch: DBTransaction) -> (r: Result<(), std::io::Error>)
        ensures
            r is Ok,
    {
        let ghost start = *self;
        let n = batch.ops.len();
        let mut i: usize = 0;
        while i < n
            invariant
                i <= n,
                n == batch.ops.len(),
                self.valid(),
                forall|col: DBCol| admitted(start.column(col), col, batch@),
                forall|col: DBCol| #[trigger]
                    self.column(col) == apply_all(start.column(col), col, batch@.take(i as int)),
            decreases n - i,
        {
            let op = &batch.ops[i];
            let col = op.col();
            let idx = col.index();
            let ghost before = *self;
            proof {
                lemma_admitted_prefix(start.column(col), col, batch@, i as int);
                assert(before.column(col) == apply_all(
                    start.column(col),
                    col,
                    batch@.take(i as int),
                ));
                lemma_apply_op_sorted(before.column(col), col, op@);
            }
            let rows = apply_row_op(&self.cols[idx], op);
            self.cols.set(idx, rows);
            proof {
                assert(batch@.take(i + 1).drop_last() =~= batch@.take(i as int));
                assert(batch@.take(i + 1).last() == op@);
                assert forall|c: DBCol| #[trigger]
                    self.column(c) == apply_all(start.column(c), c, batch@.take(i + 1)) by {
                    lemma_columns_distinct(c, col);
                    assert(before.column(c) == apply_all(
                        start.column(c),
                        c,
                        batch@.take(i as int),
                    ));
                }
            }
            i += 1;
        }
        assert(batch@.take(n as int) =~= batch@);
        Ok(())
    }

    fn flush(&mut self) -> (r: Result<(), std::io::Error>)
        ensures
            r is Ok,
    {
        Ok(())
    }

    fn compact(&mut self) -> (r: Result<(), std::io::Error>)
        ensures
            r is Ok,
    {
        Ok(())
    }

    fn get_store_statistics(&self) -> (r: Option<StoreStatistics>)
        ensures
            r is None,
    {
        None
    }
}

} // verus!
