//! The batch model: an ordered list of operations that a backend applies as
//! one unit.

use crate::column::DBCol;
use vstd::prelude::*;

verus! {

/// One operation of a batch.
#[derive(Debug)]
pub enum DBOp {
    /// Sets `key` to `value`, whatever was there.
    Put { col: DBCol, key: Vec<u8>, value: Vec<u8> },
    /// Sets `key` to `value` in an insert-only column; the key holds no
    /// other value.
    Insert { col: DBCol, key: Vec<u8>, value: Vec<u8> },
    /// Merges `value`, a payload followed by a signed count, into what a
    /// reference-counted column holds under `key`.
    UpdateRefcount { col: DBCol, key: Vec<u8>, value: Vec<u8> },
    /// Removes `key`.
    Delete { col: DBCol, key: Vec<u8> },
    /// Removes every key of the column.
    DeleteAll { col: DBCol },
    /// Removes the keys from `from`, included, to `to`, excluded.
    DeleteRange { col: DBCol, from: Vec<u8>, to: Vec<u8> },
}

/// What an operation is, over byte sequences.
pub ghost enum Op {
    Put { col: DBCol, key: Seq<u8>, value: Seq<u8> },
    Insert { col: DBCol, key: Seq<u8>, value: Seq<u8> },
    UpdateRefcount { col: DBCol, key: Seq<u8>, value: Seq<u8> },
    Delete { col: DBCol, key: Seq<u8> },
    DeleteAll { col: DBCol },
    DeleteRange { col: DBCol, from: Seq<u8>, to: Seq<u8> },
}

impl Op {
    /// The column that the operation works on.
    pub open spec fn column(self) -> DBCol {
        match self {
            Op::Put { col, .. } => col,
            Op::Insert { col, .. } => col,
            Op::UpdateRefcount { col, .. } => col,
            Op::Delete { col, .. } => col,
            Op::DeleteAll { col } => col,
            Op::DeleteRange { col, .. } => col,
        }
    }
}

impl View for DBOp {
    type V = Op;

    open spec fn view(&self) -> Op {
        match *self {
            DBOp::Put { col, key, value } => Op::Put { col, key: key@, value: value@ },
            DBOp::Insert { col, key, value } => Op::Insert { col, key: key@, value: value@ },
            DBOp::UpdateRefcount { col, key, value } => Op::UpdateRefcount {
                col,
                key: key@,
                value: value@,
            },
            DBOp::Delete { col, key } => Op::Delete { col, key: key@ },
            DBOp::DeleteAll { col } => Op::DeleteAll { col },
            DBOp::DeleteRange { col, from, to } => Op::DeleteRange { col, from: from@, to: to@ },
        }
    }
}

impl DBOp {
    pub fn col(&self) -> (r: DBCol)
        ensures
            r == self@.column(),
    {
        match self {
            DBOp::Put { col, .. } => *col,
            DBOp::Insert { col, .. } => *col,
            DBOp::UpdateRefcount { col, .. } => *col,
            DBOp::Delete { col, .. } => *col,
            DBOp::DeleteAll { col } => *col,
            DBOp::DeleteRange { col, .. } => *col,
        }
    }
}

/// The operations of a batch, in the order in which they were added.
#[derive(Debug)]
pub struct DBTransaction {
    pub ops: Vec<DBOp>,
}

/// The models of a list of operations, in the same order.
pub open spec fn ops_view(ops: Seq<DBOp>) -> Seq<Op> {
    Seq::new(ops.len(), |i: int| ops[i]@)
}

impl View for DBTransaction {
    type V = Seq<Op>;

    open spec fn view(&self) -> Seq<Op> {
        ops_view(self.ops@)
    }
}

impl Default for DBTransaction {
    fn default() -> (r: Self)
        ensures
            r@ == Seq::<Op>::empty(),
    {
        DBTransaction::new()
    }
}

impl DBTransaction {
    pub fn new() -> (r: Self)
        ensures
            r@ == Seq::<Op>::empty(),
    {
        let r = DBTransaction { ops: Vec::new() };
        assert(r@ =~= Seq::<Op>::empty());
        r
    }

    pub fn set(&mut self, col: DBCol, key: Vec<u8>, value: Vec<u8>)
        ensures
            final(self)@ == old(self)@.push(Op::Put { col, key: key@, value: value@ }),
    {
        self.ops.push(DBOp::Put { col, key, value });
        assert(self@ =~= old(self)@.push(Op::Put { col, key: key@, value: value@ }));
    }

    pub fn insert(&mut self, col: DBCol, key: Vec<u8>, value: Vec<u8>)
        requires
            col.insert_only(),
        ensures
            final(self)@ == old(self)@.push(Op::Insert { col, key: key@, value: value@ }),
    {
        self.ops.push(DBOp::Insert { col, key, value });
        assert(self@ =~= old(self)@.push(Op::Insert { col, key: key@, value: value@ }));
    }

    pub fn update_refcount(&mut self, col: DBCol, key: Vec<u8>, value: Vec<u8>)
        requires
            col.rc(),
        ensures
            final(self)@ == old(self)@.push(Op::UpdateRefcount { col, key: key@, value: value@ }),
    {
        self.ops.push(DBOp::UpdateRefcount { col, key, value });
        assert(self@ =~= old(self)@.push(Op::UpdateRefcount { col, key: key@, value: value@ }));
    }

    pub fn delete(&mut self, col: DBCol, key: Vec<u8>)
        ensures
            final(self)@ == old(self)@.push(Op::Delete { col, key: key@ }),
    {
        self.ops.push(DBOp::Delete { col, key });
        assert(self@ =~= old(self)@.push(Op::Delete { col, key: key@ }));
    }

    pub fn delete_all(&mut self, col: DBCol)
        ensures
            final(self)@ == old(self)@.push(Op::DeleteAll { col }),
    {
        self.ops.push(DBOp::DeleteAll { col });
        assert(self@ =~= old(self)@.push(Op::DeleteAll { col }));
    }

    pub fn delete_range(&mut self, col: DBCol, from: Vec<u8>, to: Vec<u8>)
        ensures
            final(self)@ == old(self)@.push(Op::DeleteRange { col, from: from@, to: to@ }),
    {
        self.ops.push(DBOp::DeleteRange { col, from, to });
        assert(self@ =~= old(self)@.push(Op::DeleteRange { col, from: from@, to: to@ }));
    }

    /// Appends the operations of `other`, in their order, after this
    /// batch's own.
    pub fn merge(&mut self, other: DBTransaction)
        ensures
            final(self)@ == old(self)@ + other@,
    {
        let mut rest = other.ops;
        self.ops.append(&mut rest);
        assert(self@ =~= old(self)@ + other@);
    }
}

} // verus!
