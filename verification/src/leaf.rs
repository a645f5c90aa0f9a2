//! The leaf backend's side of a write: each operation of a batch as the
//! primitive of an ordered key-value engine that carries it out.

use crate::column::DBCol;
use crate::refcount::merged;
use crate::table::apply_all;
use crate::table::apply_op;
use crate::table::keep;
use crate::table::lookup;
use crate::table::put;
use crate::table::Entry;
use crate::table::KeySet;
use crate::transaction::DBOp;
use crate::transaction::DBTransaction;
use crate::transaction::Op;
use vstd::prelude::*;
use vstd::slice::slice_to_vec;

verus! {

/// A primitive of the engine.
#[derive(Debug)]
pub enum EngineOp {
    /// Stores `value` under `key`.
    Put { col: DBCol, key: Vec<u8>, value: Vec<u8> },
    /// Has the engine merge `operand` into what `key` holds, with the
    /// merge of reference-counted values.
    Merge { col: DBCol, key: Vec<u8>, operand: Vec<u8> },
    /// Removes `key`.
    Delete { col: DBCol, key: Vec<u8> },
    /// Removes the keys from `from`, included, to `to`, excluded.
    DeleteRange { col: DBCol, from: Vec<u8>, to: Vec<u8> },
    /// Removes every key of the column.
    DeleteAll { col: DBCol },
}

/// What a primitive is, over byte sequences.
pub ghost enum EngineCall {
    Put { col: DBCol, key: Seq<u8>, value: Seq<u8> },
    Merge { col: DBCol, key: Seq<u8>, operand: Seq<u8> },
    Delete { col: DBCol, key: Seq<u8> },
    DeleteRange { col: DBCol, from: Seq<u8>, to: Seq<u8> },
    DeleteAll { col: DBCol },
}

impl View for EngineOp {
    type V = EngineCall;

    open spec fn view(&self) -> EngineCall {
        match *self {
            EngineOp::Put { col, key, value } => EngineCall::Put { col, key: key@, value: value@ },
            EngineOp::Merge { col, key, operand } => EngineCall::Merge {
                col,
                key: key@,
                operand: operand@,
            },
            EngineOp::Delete { col, key } => EngineCall::Delete { col, key: key@ },
            EngineOp::DeleteRange { col, from, to } => EngineCall::DeleteRange {
                col,
                from: from@,
                to: to@,
            },
            EngineOp::DeleteAll { col } => EngineCall::DeleteAll { col },
        }
    }
}

impl EngineCall {
    /// The column that the primitive works on.
    pub open spec fn column(self) -> DBCol {
        match self {
            EngineCall::Put { col, .. } => col,
            EngineCall::Merge { col, .. } => col,
            EngineCall::Delete { col, .. } => col,
            EngineCall::DeleteRange { col, .. } => col,
            EngineCall::DeleteAll { col } => col,
        }
    }

    /// What the primitive makes of the contents of column `col`.
    pub open spec fn applied(self, s: Seq<Entry>, col: DBCol) -> Seq<Entry> {
        if self.column() != col {
            s
        } else {
            match self {
                EngineCall::Put { key, value, .. } => put(s, key, value),
                EngineCall::Merge { key, operand, .. } => put(
                    s,
                    key,
                    merged(lookup(s, key), operand),
                ),
                EngineCall::Delete { key, .. } => keep(s, KeySet::Except(key)),
                EngineCall::DeleteRange { from, to, .. } => keep(s, KeySet::Outside(from, to)),
                EngineCall::DeleteAll { .. } => Seq::empty(),
            }
        }
    }
}

/// The primitive that carries an operation out: `Put` and `Insert` store,
/// `UpdateRefcount` merges, and the three removals remove.
pub open spec fn engine_call(op: Op) -> EngineCall {
    match op {
        Op::Put { col, key, value } => EngineCall::Put { col, key, value },
        Op::Insert { col, key, value } => EngineCall::Put { col, key, value },
        Op::UpdateRefcount { col, key, value } => EngineCall::Merge { col, key, operand: value },
        Op::Delete { col, key } => EngineCall::Delete { col, key },
        Op::DeleteAll { col } => EngineCall::DeleteAll { col },
        Op::DeleteRange { col, from, to } => EngineCall::DeleteRange { col, from, to },
    }
}

/// What a list of primitives, carried out in order, makes of the contents
/// of column `col`.
pub open spec fn applied_all(s: Seq<Entry>, col: DBCol, calls: Seq<EngineCall>) -> Seq<Entry>
    decreases calls.len(),
{
    if calls.len() == 0 {
        s
    } else {
        calls.last().applied(applied_all(s, col, calls.drop_last()), col)
    }
}

/// The primitives of a list of engine operations, in the same order.
pub open spec fn calls_view(ops: Seq<EngineOp>) -> Seq<EngineCall> {
    Seq::new(ops.len(), |i: int| ops[i]@)
}

/// The primitive of an operation does to a column what the operation
/// does.
pub proof fn lemma_engine_call(s: Seq<Entry>, col: DBCol, op: Op)
    ensures
        engine_call(op).column() == op.column(),
        engine_call(op).applied(s, col) == apply_op(s, col, op),
{
}

/// The primitives of a batch, carried out in order, do to a column what
/// the batch does.
pub proof fn lemma_engine_calls(s: Seq<Entry>, col: DBCol, ops: Seq<Op>)
    ensures
        applied_all(s, col, ops.map_values(|op: Op| engine_call(op))) == apply_all(s, col, ops),
    decreases ops.len(),
{
    let calls = ops.map_values(|op: Op| engine_call(op));
    if ops.len() > 0 {
        assert(calls.drop_last() =~= ops.drop_last().map_values(|op: Op| engine_call(op)));
        lemma_engine_calls(s, col, ops.drop_last());
        lemma_engine_call(apply_all(s, col, ops.drop_last()), col, ops.last());
    }
}

/// The primitive that carries an operation out.
pub fn translate(op: &DBOp) -> (r: EngineOp)
    ensures
        r@ == engine_call(op@),
{
    match op {
        DBOp::Put { col, key, value } => EngineOp::Put {
            col: *col,
            key: slice_to_vec(key.as_slice()),
            value: slice_to_vec(value.as_slice()),
        },
        DBOp::Insert { col, key, value } => EngineOp::Put {
            col: *col,
            key: slice_to_vec(key.as_slice()),
            value: slice_to_vec(value.as_slice()),
        },
        DBOp::UpdateRefcount { col, key, value } => EngineOp::Merge {
            col: *col,
            key: slice_to_vec(key.as_slice()),
            operand: slice_to_vec(value.as_slice()),
        },
        DBOp::Delete { col, key } => EngineOp::Delete {
            col: *col,
            key: slice_to_vec(key.as_slice()),
        },
        DBOp::DeleteAll { col } => EngineOp::DeleteAll { col: *col },
        DBOp::DeleteRange { col, from, to } => EngineOp::DeleteRange {
            col: *col,
            from: slice_to_vec(from.as_slice()),
            to: slice_to_vec(to.as_slice()),
        },
    }
}

/// The primitives that carry a batch out, one for each operation, in the
/// order of the batch.
pub fn engine_batch(batch: &DBTransaction) -> (r: Vec<EngineOp>)
    ensures
        calls_view(r@) == batch@.map_values(|op: Op| engine_call(op)),
{
    let mut out: Vec<EngineOp> = Vec::new();
    let mut i: usize = 0;
    let ghost calls = batch@.map_values(|op: Op| engine_call(op));
    assert(calls_view(out@) =~= calls.take(0));
    while i < batch.ops.len()
        invariant
            i <= batch.ops.len(),
            calls == batch@.map_values(|op: Op| engine_call(op)),
            calls_view(out@) == calls.take(i as int),
        decreases batch.ops.len() - i,
    {
        let ghost before = calls_view(out@);
        let call = translate(&batch.ops[i]);
        out.push(call);
        assert(calls_view(out@) =~= before.push(call@));
        assert(calls.take(i + 1) =~= before.push(calls[i as int]));
        i += 1;
    }
    assert(calls.take(batch.ops.len() as int) =~= calls);
    out
}

} // verus!
