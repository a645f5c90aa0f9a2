//! What every backend offers: lookups, ordered iteration and atomic
//! writes over columns, stated over the contents of each column.

use crate::column::DBCol;
use crate::order::bytes_eq;
use crate::order::bytes_lt;
use crate::refcount::merge;
use crate::refcount::strip;
use crate::refcount::stripped;
use crate::rows::opt_bytes;
use crate::rows::opt_view;
use crate::rows::strip_rows;
use crate::table::admitted;
use crate::table::apply_all;
use crate::table::keep;
use crate::table::lemma_admitted_prefix;
use crate::table::lemma_lookup_apply_op;
use crate::table::lookup;
use crate::table::op_admitted;
use crate::table::rows_view;
use crate::table::shown;
use crate::table::sorted;
use crate::table::value_after;
use crate::table::Entry;
use crate::table::KeySet;
use crate::table::Row;
use crate::transaction::DBOp;
use crate::transaction::DBTransaction;
use crate::transaction::Op;
use vstd::prelude::*;
use vstd::slice::slice_to_vec;

verus! {

/// `std::io::Error`: the failure of the storage under a backend. Nothing is
/// said of what it holds; the library hands it on unread.
#[verifier::external_type_specification]
#[verifier::external_body]
pub struct ExIoError(std::io::Error);

/// One figure of a backend's statistics.
#[derive(Debug, Clone, Copy, PartialEq)]
pub enum StatsValue {
    Count(i64),
    Sum(i64),
    /// A percentile rank and the value at it, as the bits of a 64-bit
    /// float.
    Percentile(u32, u64),
    ColumnValue(DBCol, i64),
}

/// The statistics of a backend: the figures of each metric, by its name.
#[derive(Debug, PartialEq)]
pub struct StoreStatistics {
    pub data: Vec<(String, Vec<StatsValue>)>,
}

/// What a stored value looks like to a reader of a reference-counted
/// column.
pub open spec fn stripped_opt(found: Option<Seq<u8>>) -> Option<Seq<u8>> {
    match found {
        Some(bytes) => stripped(bytes),
        None => None,
    }
}

/// What a reader of a reference-counted column gets of a raw lookup: the
/// payload of a value with a positive count, nothing of any other value or
/// of an absent key, and the failure of a lookup that failed.
pub fn strip_found(found: Result<Option<Vec<u8>>, std::io::Error>) -> (r: Result<
    Option<Vec<u8>>,
    std::io::Error,
>)
    ensures
        match found {
            Ok(held) => r matches Ok(seen) && opt_view(seen) == stripped_opt(opt_view(held)),
            Err(e) => r matches Err(same) && same == e,
        },
{
    match found {
        Ok(Some(bytes)) => Ok(strip(bytes.as_slice())),
        Ok(None) => Ok(None),
        Err(e) => Err(e),
    }
}

/// What a reader gets of the stored rows of a column: of a
/// reference-counted column the rows with a positive count, each with its
/// payload alone; of any other column the rows as they are; and the
/// failure of a read that failed.
pub fn show_rows(col: DBCol, raw: Result<Vec<Row>, std::io::Error>) -> (r: Result<
    Vec<Row>,
    std::io::Error,
>)
    ensures
        match raw {
            Ok(rows) => r matches Ok(seen) && rows_view(seen@) == shown(col, rows_view(rows@)),
            Err(e) => r matches Err(same) && same == e,
        },
{
    match raw {
        Ok(rows) => if col.is_rc() {
            Ok(strip_rows(&rows))
        } else {
            Ok(rows)
        },
        Err(e) => Err(e),
    }
}

/// A store of columns. Each column holds entries in the order of their
/// keys; reads say what it holds, and a write changes every column to what
/// the operations of the batch, in order, make of it, or changes nothing.
pub trait Database: Sync + Send {
    /// The backend is in a state that its own operations leave.
    spec fn valid(&self) -> bool;

    /// The entries of a column, as they are stored.
    spec fn column(&self, col: DBCol) -> Seq<Entry>;

    /// Nothing under the backend can fail: it answers every call with
    /// `Ok`. A backend over storage that can fail says `false`.
    spec fn never_fails(&self) -> bool;

    /// The backend keeps statistics.
    spec fn keeps_statistics(&self) -> bool;

    /// The entries of every column are in the order of their keys.
    proof fn column_sorted(&self, col: DBCol)
        requires
            self.valid(),
        ensures
            sorted(self.column(col)),
    ;

    /// The bytes stored under `key`, with no reference count taken off.
    fn get_raw_bytes(&self, col: DBCol, key: &[u8]) -> (r: Result<Option<Vec<u8>>, std::io::Error>)
        requires
            self.valid(),
        ensures
            r matches Ok(found) ==> opt_view(found) == lookup(self.column(col), key@),
            self.never_fails() ==> r is Ok,
    ;

    /// The payload stored under `key` in a reference-counted column, where
    /// its count is positive.
    fn get_with_rc_stripped(&self, col: DBCol, key: &[u8]) -> (r: Result<
        Option<Vec<u8>>,
        std::io::Error,
    >)
        requires
            self.valid(),
            col.rc(),
        ensures
            r matches Ok(found) ==> opt_view(found) == stripped_opt(
                lookup(self.column(col), key@),
            ),
            self.never_fails() ==> r is Ok,
    {
        strip_found(self.get_raw_bytes(col, key))
    }

    /// The entries of a column in key order, as a reader sees them.
    fn iter(&self, col: DBCol) -> (r: Result<Vec<Row>, std::io::Error>)
        requires
            self.valid(),
        ensures
            r matches Ok(rows) ==> rows_view(rows@) == shown(col, self.column(col)),
            r matches Ok(rows) ==> sorted(rows_view(rows@)),
            self.never_fails() ==> r is Ok,
    ;

    /// The entries of `iter` whose keys begin with `key_prefix`.
    fn iter_prefix(&self, col: DBCol, key_prefix: &[u8]) -> (r: Result<Vec<Row>, std::io::Error>)
        requires
            self.valid(),
        ensures
            r matches Ok(rows) ==> rows_view(rows@) == keep(
                shown(col, self.column(col)),
                KeySet::Prefixed(key_prefix@),
            ),
            r matches Ok(rows) ==> sorted(rows_view(rows@)),
            self.never_fails() ==> r is Ok,
    ;

    /// The entries of `iter` whose keys lie from `lower_bound`, included,
    /// to `upper_bound`, excluded.
    fn iter_range(
        &self,
        col: DBCol,
        lower_bound: Option<&[u8]>,
        upper_bound: Option<&[u8]>,
    ) -> (r: Result<Vec<Row>, std::io::Error>)
        requires
            self.valid(),
        ensures
            r matches Ok(rows) ==> rows_view(rows@) == keep(
                shown(col, self.column(col)),
                KeySet::Within(opt_bytes(lower_bound), opt_bytes(upper_bound)),
            ),
            r matches Ok(rows) ==> sorted(rows_view(rows@)),
            self.never_fails() ==> r is Ok,
    ;

    /// The entries of a column in key order, as they are stored.
    fn iter_raw_bytes(&self, col: DBCol) -> (r: Result<Vec<Row>, std::io::Error>)
        requires
            self.valid(),
        ensures
            r matches Ok(rows) ==> rows_view(rows@) == self.column(col),
            r matches Ok(rows) ==> sorted(rows_view(rows@)),
            self.never_fails() ==> r is Ok,
    ;

    /// Applies the operations of the batch, all of them or none.
    fn write(&mut self, batch: DBTransaction) -> (r: Result<(), std::io::Error>)
        requires
            old(self).valid(),
            forall|col: DBCol| admitted(old(self).column(col), col, batch@),
        ensures
            final(self).valid(),
            r is Ok ==> forall|col: DBCol| #[trigger]
                final(self).column(col) == apply_all(old(self).column(col), col, batch@),
            r is Err ==> forall|col: DBCol| #[trigger]
                final(self).column(col) == old(self).column(col),
            old(self).never_fails() ==> r is Ok,
            final(self).never_fails() == old(self).never_fails(),
            final(self).keeps_statistics() == old(self).keeps_statistics(),
    ;

    /// Makes what was written durable. The contents stay as they are.
    fn flush(&mut self) -> (r: Result<(), std::io::Error>)
        requires
            old(self).valid(),
        ensures
            final(self).valid(),
            forall|col: DBCol| #[trigger] final(self).column(col) == old(self).column(col),
            old(self).never_fails() ==> r is Ok,
            final(self).never_fails() == old(self).never_fails(),
            final(self).keeps_statistics() == old(self).keeps_statistics(),
    ;

    /// Reclaims the space of what was removed. The contents stay as they
    /// are.
    fn compact(&mut self) -> (r: Result<(), std::io::Error>)
        requires
            old(self).valid(),
        ensures
            final(self).valid(),
            forall|col: DBCol| #[trigger] final(self).column(col) == old(self).column(col),
            old(self).never_fails() ==> r is Ok,
            final(self).never_fails() == old(self).never_fails(),
            final(self).keeps_statistics() == old(self).keeps_statistics(),
    ;

    /// The backend's statistics: some where it keeps any, none where it
    /// keeps none.
    fn get_store_statistics(&self) -> (r: Option<StoreStatistics>)
        requires
            self.valid(),
        ensures
            r is Some <==> self.keeps_statistics(),
    ;
}

/// What a key holds after one operation on column `col`, given what it
/// held before.
pub fn held_after(found: Option<Vec<u8>>, col: DBCol, op: &DBOp, key: &[u8]) -> (r: Option<
    Vec<u8>,
>)
    ensures
        opt_view(r) == value_after(opt_view(found), col, op@, key@),
{
    if op.col() != col {
        return found;
    }
    match op {
        DBOp::Put { col: _, key: k, value } => if bytes_eq(k.as_slice(), key) {
            Some(slice_to_vec(value.as_slice()))
        } else {
            found
        },
        DBOp::Insert { col: _, key: k, value } => if bytes_eq(k.as_slice(), key) {
            Some(slice_to_vec(value.as_slice()))
        } else {
            found
        },
        DBOp::UpdateRefcount { col: _, key: k, value } => if bytes_eq(k.as_slice(), key) {
            match &found {
                Some(bytes) => Some(merge(Some(bytes.as_slice()), value.as_slice())),
                None => Some(merge(None, value.as_slice())),
            }
        } else {
            found
        },
        DBOp::Delete { col: _, key: k } => if bytes_eq(k.as_slice(), key) {
            None
        } else {
            found
        },
        DBOp::DeleteAll { col: _ } => None,
        DBOp::DeleteRange { col: _, from, to } => {
            let reached = bytes_eq(from.as_slice(), key) || bytes_lt(from.as_slice(), key);
            if reached && bytes_lt(key, to.as_slice()) {
                None
            } else {
                found
            }
        },
    }
}

/// Whether a backend admits a batch: every `Insert` finds its key absent
/// or holding the very value that it brings, once the operations before it
/// are applied. The backend is read and not changed.
pub fn admits<D: Database>(db: &D, batch: &DBTransaction) -> (r: Result<bool, std::io::Error>)
    requires
        db.valid(),
    ensures
        r matches Ok(fits) ==> fits == (forall|col: DBCol|
            admitted(db.column(col), col, batch@)),
        db.never_fails() ==> r is Ok,
        (forall|i: int| 0 <= i < batch@.len() ==> !((#[trigger] batch@[i]) is Insert)) ==> (r matches Ok(
            fits,
        ) && fits),
{
    let n = batch.ops.len();
    let mut i: usize = 0;
    assert(batch@.take(0) =~= Seq::<Op>::empty());
    while i < n
        invariant
            i <= n,
            n == batch.ops.len(),
            db.valid(),
            forall|col: DBCol| admitted(db.column(col), col, batch@.take(i as int)),
        decreases n - i,
    {
        let op = &batch.ops[i];
        let ghost prefix = batch@.take(i as int);
        assert(batch@[i as int] == op@);
        let mut fits = true;
        match op {
            DBOp::Insert { col, key, value } => {
                let mut found = match db.get_raw_bytes(*col, key.as_slice()) {
                    Ok(found) => found,
                    Err(e) => {
                        return Err(e);
                    },
                };
                let mut j: usize = 0;
                assert(prefix.take(0) =~= Seq::<Op>::empty());
                while j < i
                    invariant
                        j <= i <= n,
                        n == batch.ops.len(),
                        prefix == batch@.take(i as int),
                        opt_view(found) == lookup(
                            apply_all(db.column(*col), *col, prefix.take(j as int)),
                            key@,
                        ),
                    decreases i - j,
                {
                    proof {
                        assert(prefix.take(j + 1).drop_last() =~= prefix.take(j as int));
                        assert(prefix.take(j + 1).last() == batch.ops[j as int]@);
                        lemma_lookup_apply_op(
                            apply_all(db.column(*col), *col, prefix.take(j as int)),
                            *col,
                            batch.ops[j as int]@,
                            key@,
                        );
                    }
                    found = held_after(found, *col, &batch.ops[j], key.as_slice());
                    j += 1;
                }
                assert(prefix.take(i as int) =~= prefix);
                fits = match &found {
                    Some(bytes) => bytes_eq(bytes.as_slice(), value.as_slice()),
                    None => true,
                };
                assert(fits == op_admitted(apply_all(db.column(*col), *col, prefix), *col, op@));
            },
            _ => {},
        }
        if !fits {
            proof {
                let col = op@.column();
                if admitted(db.column(col), col, batch@) {
                    lemma_admitted_prefix(db.column(col), col, batch@, i as int);
                }
            }
            return Ok(false);
        }
        proof {
            assert(batch@.take(i + 1).drop_last() =~= prefix);
            assert(batch@.take(i + 1).last() == op@);
            assert forall|c: DBCol| admitted(db.column(c), c, batch@.take(i + 1)) by {
                assert(admitted(db.column(c), c, prefix));
            }
        }
        i += 1;
    }
    assert(batch@.take(n as int) =~= batch@);
    Ok(true)
}

/// Two backends that hold the same entries in a column and apply the same
/// batch hold the same entries after it, and show their readers the same.
pub proof fn lemma_backends_agree<A: Database, B: Database>(
    a_before: A,
    a_after: A,
    b_before: B,
    b_after: B,
    col: DBCol,
    ops: Seq<Op>,
    key: Seq<u8>,
)
    requires
        a_before.column(col) == b_before.column(col),
        a_after.column(col) == apply_all(a_before.column(col), col, ops),
        b_after.column(col) == apply_all(b_before.column(col), col, ops),
    ensures
        a_after.column(col) == b_after.column(col),
        shown(col, a_after.column(col)) == shown(col, b_after.column(col)),
        stripped_opt(lookup(a_after.column(col), key)) == stripped_opt(
            lookup(b_after.column(col), key),
        ),
{
}

} // verus!
