//! The hot and cold tiers: which tier holds each column, how a batch is
//! parted between them, and how a store over both reads.

use crate::column::lemma_columns_distinct;
use crate::column::DBCol;
use crate::column::NUM_COLUMNS;
use crate::database::admits;
use crate::order::bytes_eq;
use crate::order::bytes_lt;
use crate::order::lemma_lt_total;
use crate::order::lex_lt;
use crate::database::show_rows;
use crate::database::strip_found;
use crate::database::stripped_opt;
use crate::database::Database;
use crate::database::StoreStatistics;
use crate::rows::opt_bytes;
use crate::rows::opt_view;
use crate::rows::select_prefix;
use crate::rows::select_range;
use crate::table::admitted;
use crate::table::all_below;
use crate::table::apply_all;
use crate::table::keep;
use crate::table::lemma_all_below_push;
use crate::table::lemma_lookup_beyond;
use crate::table::lemma_lookup_put;
use crate::table::lemma_sorted_push;
use crate::table::lemma_sorted_same;
use crate::table::lemma_put_sorted;
use crate::table::lemma_shown_sorted;
use crate::table::lookup;
use crate::table::put;
use crate::table::rows_view;
use crate::table::shown;
use crate::table::sorted;
use crate::table::Entry;
use crate::table::KeySet;
use crate::table::Row;
use crate::transaction::DBOp;
use crate::transaction::DBTransaction;
use crate::transaction::Op;
use vstd::prelude::*;
use vstd::slice::slice_to_vec;

verus! {

/// Where a column is kept.
#[derive(Clone, Copy, Debug, PartialEq, Eq, Structural)]
pub enum Tier {
    /// In the hot store alone.
    Hot,
    /// In the cold store alone.
    Cold,
    /// In both: what the hot store holds under a key hides what the cold
    /// store holds under it, and writes go to the hot store.
    Split,
}

impl Tier {
    /// Whether writes to a column of this tier go to the hot store.
    pub open spec fn writes_hot(self) -> bool {
        !(self is Cold)
    }

    pub fn is_written_hot(&self) -> (r: bool)
        ensures
            r == self.writes_hot(),
    {
        match self {
            Tier::Cold => false,
            _ => true,
        }
    }
}

/// The tier of every column.
pub struct RoutingTable {
    tiers: Vec<Tier>,
}

impl RoutingTable {
    /// The table names a tier for every column of the catalogue.
    pub closed spec fn valid(&self) -> bool {
        self.tiers.len() == NUM_COLUMNS
    }

    /// The tier of a column.
    pub closed spec fn tier(&self, col: DBCol) -> Tier {
        self.tiers[col.ord()]
    }

    /// The table that keeps every column in one tier.
    pub fn uniform(tier: Tier) -> (r: Self)
        ensures
            r.valid(),
            forall|col: DBCol| #[trigger] r.tier(col) == tier,
    {
        let mut tiers: Vec<Tier> = Vec::new();
        let mut i: usize = 0;
        while i < NUM_COLUMNS
            invariant
                i <= NUM_COLUMNS,
                tiers.len() == i,
                forall|c: int| 0 <= c < i ==> #[trigger] tiers[c] == tier,
            decreases NUM_COLUMNS - i,
        {
            tiers.push(tier);
            i += 1;
        }
        let r = RoutingTable { tiers };
        assert forall|col: DBCol| #[trigger] r.tier(col) == tier by {
            lemma_columns_distinct(col, col);
        }
        r
    }

    /// Moves one column to a tier; the other columns stay where they are.
    pub fn assign(&mut self, col: DBCol, tier: Tier)
        requires
            old(self).valid(),
        ensures
            final(self).valid(),
            final(self).tier(col) == tier,
            forall|c: DBCol| c != col ==> #[trigger] final(self).tier(c) == old(self).tier(c),
    {
        self.tiers.set(col.index(), tier);
        assert forall|c: DBCol| c != col implies #[trigger] self.tier(c) == old(self).tier(c) by {
            lemma_columns_distinct(c, col);
        }
    }

    /// The tier of a column.
    pub fn route(&self, col: DBCol) -> (r: Tier)
        requires
            self.valid(),
        ensures
            r == self.tier(col),
    {
        self.tiers[col.index()]
    }

    /// The operations of a batch that go to the hot store, or those that go
    /// to the cold store, in their order.
    pub open spec fn routed(&self, ops: Seq<Op>, hot: bool) -> Seq<Op>
        decreases ops.len(),
    {
        if ops.len() == 0 {
            Seq::empty()
        } else if self.tier(ops.last().column()).writes_hot() == hot {
            self.routed(ops.drop_last(), hot).push(ops.last())
        } else {
            self.routed(ops.drop_last(), hot)
        }
    }

    /// Parts a batch into the operations for the hot store and those for
    /// the cold store.
    pub fn partition(&self, batch: &DBTransaction) -> (r: (DBTransaction, DBTransaction))
        requires
            self.valid(),
        ensures
            r.0@ == self.routed(batch@, true),
            r.1@ == self.routed(batch@, false),
    {
        let mut hot = DBTransaction::new();
        let mut cold = DBTransaction::new();
        let mut i: usize = 0;
        while i < batch.ops.len()
            invariant
                i <= batch.ops.len(),
                self.valid(),
                hot@ == self.routed(batch@.take(i as int), true),
                cold@ == self.routed(batch@.take(i as int), false),
            decreases batch.ops.len() - i,
        {
            assert(batch@.take(i + 1).drop_last() =~= batch@.take(i as int));
            assert(batch@.take(i + 1).last() == batch.ops[i as int]@);
            let op = copy_op(&batch.ops[i]);
            let ghost hot_before = hot@;
            let ghost cold_before = cold@;
            if self.route(op.col()).is_written_hot() {
                hot.ops.push(op);
                assert(hot@ =~= hot_before.push(op@));
            } else {
                cold.ops.push(op);
                assert(cold@ =~= cold_before.push(op@));
            }
            i += 1;
        }
        assert(batch@.take(batch.ops.len() as int) =~= batch@);
        (hot, cold)
    }
}

/// A copy of an operation.
pub fn copy_op(op: &DBOp) -> (r: DBOp)
    ensures
        r@ == op@,
{
    match op {
        DBOp::Put { col, key, value } => DBOp::Put {
            col: *col,
            key: slice_to_vec(key.as_slice()),
            value: slice_to_vec(value.as_slice()),
        },
        DBOp::Insert { col, key, value } => DBOp::Insert {
            col: *col,
            key: slice_to_vec(key.as_slice()),
            value: slice_to_vec(value.as_slice()),
        },
        DBOp::UpdateRefcount { col, key, value } => DBOp::UpdateRefcount {
            col: *col,
            key: slice_to_vec(key.as_slice()),
            value: slice_to_vec(value.as_slice()),
        },
        DBOp::Delete { col, key } => DBOp::Delete { col: *col, key: slice_to_vec(key.as_slice()) },
        DBOp::DeleteAll { col } => DBOp::DeleteAll { col: *col },
        DBOp::DeleteRange { col, from, to } => DBOp::DeleteRange {
            col: *col,
            from: slice_to_vec(from.as_slice()),
            to: slice_to_vec(to.as_slice()),
        },
    }
}

/// Every column has exactly one tier.
pub proof fn lemma_route_total(table: RoutingTable, col: DBCol)
    requires
        table.valid(),
    ensures
        table.tier(col) is Hot || table.tier(col) is Cold || table.tier(col) is Split,
        !(table.tier(col) is Hot && table.tier(col) is Cold),
        !(table.tier(col) is Hot && table.tier(col) is Split),
        !(table.tier(col) is Cold && table.tier(col) is Split),
{
}

/// The part of a batch that goes to the store of a column's tier does to
/// that column what the whole batch does.
pub proof fn lemma_routed_apply(table: RoutingTable, s: Seq<Entry>, col: DBCol, ops: Seq<Op>)
    requires
        table.valid(),
    ensures
        apply_all(s, col, table.routed(ops, table.tier(col).writes_hot())) == apply_all(
            s,
            col,
            ops,
        ),
    decreases ops.len(),
{
    if ops.len() > 0 {
        let hot = table.tier(col).writes_hot();
        lemma_routed_apply(table, s, col, ops.drop_last());
        if table.tier(ops.last().column()).writes_hot() == hot {
            assert(table.routed(ops, hot).drop_last() =~= table.routed(ops.drop_last(), hot));
        }
    }
}

/// The part of a batch that goes to the other store leaves the column as
/// it is.
pub proof fn lemma_routed_elsewhere(table: RoutingTable, s: Seq<Entry>, col: DBCol, ops: Seq<Op>)
    requires
        table.valid(),
    ensures
        apply_all(s, col, table.routed(ops, !table.tier(col).writes_hot())) == s,
    decreases ops.len(),
{
    if ops.len() > 0 {
        let other = !table.tier(col).writes_hot();
        lemma_routed_elsewhere(table, s, col, ops.drop_last());
        if table.tier(ops.last().column()).writes_hot() == other {
            assert(table.routed(ops, other).drop_last() =~= table.routed(ops.drop_last(), other));
        }
    }
}

/// The cold entries with every hot entry put over them.
pub open spec fn overlay(hot: Seq<Entry>, cold: Seq<Entry>) -> Seq<Entry>
    decreases hot.len(),
{
    if hot.len() == 0 {
        cold
    } else {
        put(overlay(hot.drop_last(), cold), hot.last().0, hot.last().1)
    }
}

/// Cold entries in key order stay so with hot entries over them.
pub proof fn lemma_overlay_sorted(hot: Seq<Entry>, cold: Seq<Entry>)
    requires
        sorted(cold),
    ensures
        sorted(overlay(hot, cold)),
    decreases hot.len(),
{
    if hot.len() > 0 {
        lemma_overlay_sorted(hot.drop_last(), cold);
        lemma_put_sorted(overlay(hot.drop_last(), cold), hot.last().0, hot.last().1);
    }
}

/// Under a key the overlay holds what the hot entries hold, or else what
/// the cold entries hold.
pub proof fn lemma_lookup_overlay(hot: Seq<Entry>, cold: Seq<Entry>, key: Seq<u8>)
    ensures
        lookup(overlay(hot, cold), key) == if lookup(hot, key) is Some {
            lookup(hot, key)
        } else {
            lookup(cold, key)
        },
    decreases hot.len(),
{
    if hot.len() > 0 {
        lemma_lookup_overlay(hot.drop_last(), cold, key);
        lemma_lookup_put(overlay(hot.drop_last(), cold), hot.last().0, hot.last().1, key);
    }
}

/// What the hot entries hold under a key, or else what the cold entries
/// hold.
pub open spec fn hot_first(hot: Option<Seq<u8>>, cold: Option<Seq<u8>>) -> Option<Seq<u8>> {
    if hot is Some {
        hot
    } else {
        cold
    }
}

/// The cold rows with every hot row put over them: the two lists, each in
/// key order, are merged in one pass, and under a key that both hold the
/// hot row is taken.
pub fn overlay_rows(hot: &Vec<Row>, cold: &Vec<Row>) -> (out: Vec<Row>)
    requires
        sorted(rows_view(hot@)),
        sorted(rows_view(cold@)),
    ensures
        rows_view(out@) == overlay(rows_view(hot@), rows_view(cold@)),
{
    let ghost h = rows_view(hot@);
    let ghost c = rows_view(cold@);
    let mut out: Vec<Row> = Vec::new();
    let mut i: usize = 0;
    let mut j: usize = 0;
    assert(rows_view(out@) =~= Seq::<Entry>::empty());
    while i < hot.len() || j < cold.len()
        invariant
            i <= hot.len(),
            j <= cold.len(),
            h == rows_view(hot@),
            c == rows_view(cold@),
            sorted(h),
            sorted(c),
            sorted(rows_view(out@)),
            i < hot.len() ==> all_below(rows_view(out@), h[i as int].0),
            j < cold.len() ==> all_below(rows_view(out@), c[j as int].0),
            forall|k: Seq<u8>| #[trigger]
                lookup(rows_view(out@), k) == hot_first(
                    lookup(h.take(i as int), k),
                    lookup(c.take(j as int), k),
                ),
        decreases (hot.len() - i) + (cold.len() - j),
    {
        let ghost o = rows_view(out@);
        let take_hot = if i == hot.len() {
            false
        } else if j == cold.len() {
            true
        } else {
            !bytes_lt(cold[j].0.as_slice(), hot[i].0.as_slice())
        };
        if take_hot {
            let same = j < cold.len() && bytes_eq(hot[i].0.as_slice(), cold[j].0.as_slice());
            let row = &hot[i];
            out.push((slice_to_vec(row.0.as_slice()), slice_to_vec(row.1.as_slice())));
            let ghost e = h[i as int];
            let ghost i1 = i + 1;
            let ghost j1 = if same {
                j + 1
            } else {
                j as int
            };
            proof {
                assert(rows_view(out@) =~= o.push(e));
                lemma_sorted_push(o, e);
                assert(o.push(e).drop_last() =~= o);
                assert(h.take(i1).drop_last() =~= h.take(i as int));
                assert(h.take(i1).last() == e);
                if same {
                    assert(c.take(j1).drop_last() =~= c.take(j as int));
                    assert(c.take(j1).last() == c[j as int]);
                }
                assert forall|k: Seq<u8>| #[trigger]
                    lookup(o.push(e), k) == hot_first(
                        lookup(h.take(i1), k),
                        lookup(c.take(j1), k),
                    ) by {
                    assert(lookup(o, k) == hot_first(
                        lookup(h.take(i as int), k),
                        lookup(c.take(j as int), k),
                    ));
                }
                if i1 < hot.len() {
                    assert(lex_lt(h[i as int].0, h[i1].0));
                    lemma_all_below_push(o, e, h[i1].0);
                }
                if j1 < cold.len() {
                    if same {
                        assert(lex_lt(c[j as int].0, c[j1].0));
                    } else {
                        lemma_lt_total(e.0, c[j1].0);
                    }
                    lemma_all_below_push(o, e, c[j1].0);
                }
            }
            i += 1;
            if same {
                j += 1;
            }
        } else {
            let row = &cold[j];
            out.push((slice_to_vec(row.0.as_slice()), slice_to_vec(row.1.as_slice())));
            let ghost e = c[j as int];
            let ghost j1 = j + 1;
            proof {
                assert(rows_view(out@) =~= o.push(e));
                lemma_sorted_push(o, e);
                assert(o.push(e).drop_last() =~= o);
                assert(c.take(j1).drop_last() =~= c.take(j as int));
                assert(c.take(j1).last() == e);
                lemma_lookup_beyond(o, e.0);
                assert(lookup(o, e.0) == hot_first(
                    lookup(h.take(i as int), e.0),
                    lookup(c.take(j as int), e.0),
                ));
                assert forall|k: Seq<u8>| #[trigger]
                    lookup(o.push(e), k) == hot_first(
                        lookup(h.take(i as int), k),
                        lookup(c.take(j1), k),
                    ) by {
                    assert(lookup(o, k) == hot_first(
                        lookup(h.take(i as int), k),
                        lookup(c.take(j as int), k),
                    ));
                }
                if j1 < cold.len() {
                    assert(lex_lt(c[j as int].0, c[j1].0));
                    lemma_all_below_push(o, e, c[j1].0);
                }
                if i < hot.len() {
                    lemma_all_below_push(o, e, h[i as int].0);
                }
            }
            j += 1;
        }
    }
    proof {
        let o = rows_view(out@);
        assert(h.take(hot.len() as int) =~= h);
        assert(c.take(cold.len() as int) =~= c);
        lemma_overlay_sorted(h, c);
        assert forall|k: Seq<u8>| lookup(o, k) == lookup(overlay(h, c), k) by {
            lemma_lookup_overlay(h, c, k);
            assert(lookup(o, k) == hot_first(lookup(h, k), lookup(c, k)));
        }
        lemma_sorted_same(o, overlay(h, c));
    }
    out
}

/// A store over a hot and a cold store, which reads each column from the
/// store, or the stores, of its tier.
pub struct SplitDB<H: Database, C: Database> {
    pub hot: H,
    pub cold: C,
    pub table: RoutingTable,
}

impl<H: Database, C: Database> SplitDB<H, C> {
    pub open spec fn valid(&self) -> bool {
        self.hot.valid() && self.cold.valid() && self.table.valid()
    }

    /// Neither store can fail: the store over them answers every call
    /// with `Ok`.
    pub open spec fn never_fails(&self) -> bool {
        self.hot.never_fails() && self.cold.never_fails()
    }

    /// The entries of a column, as the two stores together hold them.
    pub open spec fn column(&self, col: DBCol) -> Seq<Entry> {
        match self.table.tier(col) {
            Tier::Hot => self.hot.column(col),
            Tier::Cold => self.cold.column(col),
            Tier::Split => overlay(self.hot.column(col), self.cold.column(col)),
        }
    }

    pub fn new(hot: H, cold: C, table: RoutingTable) -> (r: Self)
        requires
            hot.valid(),
            cold.valid(),
            table.valid(),
        ensures
            r.valid(),
            r.hot == hot,
            r.cold == cold,
            r.table == table,
    {
        SplitDB { hot, cold, table }
    }

    /// The entries of every column are in the order of their keys.
    pub proof fn column_sorted(&self, col: DBCol)
        requires
            self.valid(),
        ensures
            sorted(self.column(col)),
    {
        self.hot.column_sorted(col);
        self.cold.column_sorted(col);
        lemma_overlay_sorted(self.hot.column(col), self.cold.column(col));
    }

    /// What a batch makes of a column: a column of the hot or the cold
    /// tier is changed as its store changes it, and a column of both has
    /// the operations applied to its hot entries.
    pub open spec fn written(&self, col: DBCol, ops: Seq<Op>) -> Seq<Entry> {
        match self.table.tier(col) {
            Tier::Hot => apply_all(self.hot.column(col), col, ops),
            Tier::Cold => apply_all(self.cold.column(col), col, ops),
            Tier::Split => overlay(
                apply_all(self.hot.column(col), col, ops),
                self.cold.column(col),
            ),
        }
    }

    /// Whether the two stores admit their parts of a batch, as `write`
    /// asks. The stores are read and not changed.
    pub fn admits(&self, batch: &DBTransaction) -> (r: Result<bool, std::io::Error>)
        requires
            self.valid(),
        ensures
            r matches Ok(fits) ==> fits == ((forall|col: DBCol|
                admitted(self.hot.column(col), col, self.table.routed(batch@, true)))
                && (forall|col: DBCol|
                admitted(self.cold.column(col), col, self.table.routed(batch@, false)))),
            self.never_fails() ==> r is Ok,
    {
        let (hot_part, cold_part) = self.table.partition(batch);
        match admits(&self.hot, &hot_part) {
            Ok(true) => admits(&self.cold, &cold_part),
            Ok(false) => Ok(false),
            Err(e) => Err(e),
        }
    }

    /// Hands the hot store the operations on columns that are written
    /// hot, then the cold store the others; a store with no operation to
    /// its name is left alone. A batch for one store alone is applied
    /// wholly or not at all. Where the hot store fails nothing is changed;
    /// where the cold store fails after it, the cold store is unchanged
    /// and the hot store has its part.
    pub fn write(&mut self, batch: DBTransaction) -> (r: Result<(), std::io::Error>)
        requires
            old(self).valid(),
            forall|col: DBCol|
                admitted(old(self).hot.column(col), col, old(self).table.routed(batch@, true)),
            forall|col: DBCol|
                admitted(old(self).cold.column(col), col, old(self).table.routed(batch@, false)),
        ensures
            final(self).valid(),
            final(self).table == old(self).table,
            old(self).never_fails() ==> r is Ok,
            final(self).never_fails() == old(self).never_fails(),
            old(self).table.routed(batch@, true).len() == 0 && old(self).table.routed(
                batch@,
                false,
            ).len() == 0 ==> r is Ok,
            r is Ok ==> forall|col: DBCol| #[trigger]
                final(self).column(col) == old(self).written(col, batch@),
            r is Err ==> forall|col: DBCol| #[trigger]
                final(self).cold.column(col) == old(self).cold.column(col),
            r is Err ==> (forall|col: DBCol| #[trigger]
                final(self).hot.column(col) == old(self).hot.column(col)) || (
                old(self).table.routed(batch@, true).len() > 0
                    && old(self).table.routed(batch@, false).len() > 0
                    && forall|col: DBCol| #[trigger]
                    final(self).hot.column(col) == apply_all(
                        old(self).hot.column(col),
                        col,
                        old(self).table.routed(batch@, true),
                    )),
    {
        let (hot_part, cold_part) = self.table.partition(&batch);
        let ghost hot_ops = hot_part@;
        let ghost cold_ops = cold_part@;
        if hot_part.ops.len() > 0 {
            match self.hot.write(hot_part) {
                Ok(()) => {},
                Err(e) => {
                    return Err(e);
                },
            }
        }
        if cold_part.ops.len() > 0 {
            match self.cold.write(cold_part) {
                Ok(()) => {},
                Err(e) => {
                    return Err(e);
                },
            }
        }
        proof {
            assert(hot_ops.len() == 0 ==> hot_ops =~= Seq::<Op>::empty());
            assert(cold_ops.len() == 0 ==> cold_ops =~= Seq::<Op>::empty());
            assert forall|col: DBCol| #[trigger]
                self.column(col) == old(self).written(col, batch@) by {
                if self.table.tier(col).writes_hot() {
                    lemma_routed_apply(self.table, old(self).hot.column(col), col, batch@);
                    lemma_routed_elsewhere(self.table, old(self).cold.column(col), col, batch@);
                } else {
                    lemma_routed_apply(self.table, old(self).cold.column(col), col, batch@);
                    lemma_routed_elsewhere(self.table, old(self).hot.column(col), col, batch@);
                }
            }
        }
        Ok(())
    }

    /// Makes what both stores were given durable, the hot store first.
    /// The contents stay as they are.
    pub fn flush(&mut self) -> (r: Result<(), std::io::Error>)
        requires
            old(self).valid(),
        ensures
            final(self).valid(),
            final(self).table == old(self).table,
            old(self).never_fails() ==> r is Ok,
            final(self).never_fails() == old(self).never_fails(),
            forall|col: DBCol| #[trigger] final(self).column(col) == old(self).column(col),
    {
        match self.hot.flush() {
            Ok(()) => self.cold.flush(),
            Err(e) => Err(e),
        }
    }

    /// Reclaims space in both stores, the hot store first. The contents
    /// stay as they are.
    pub fn compact(&mut self) -> (r: Result<(), std::io::Error>)
        requires
            old(self).valid(),
        ensures
            final(self).valid(),
            final(self).table == old(self).table,
            old(self).never_fails() ==> r is Ok,
            final(self).never_fails() == old(self).never_fails(),
            forall|col: DBCol| #[trigger] final(self).column(col) == old(self).column(col),
    {
        match self.hot.compact() {
            Ok(()) => self.cold.compact(),
            Err(e) => Err(e),
        }
    }

    /// The store over both tiers keeps no statistics of its own.
    pub fn get_store_statistics(&self) -> (r: Option<StoreStatistics>)
        ensures
            r is None,
    {
        None
    }

    /// The bytes stored under `key`, with no reference count taken off.
    pub fn get_raw_bytes(&self, col: DBCol, key: &[u8]) -> (r: Result<
        Option<Vec<u8>>,
        std::io::Error,
    >)
        requires
            self.valid(),
        ensures
            r matches Ok(found) ==> opt_view(found) == lookup(self.column(col), key@),
            self.never_fails() ==> r is Ok,
    {
        proof {
            lemma_lookup_overlay(self.hot.column(col), self.cold.column(col), key@);
        }
        match self.table.route(col) {
            Tier::Hot => self.hot.get_raw_bytes(col, key),
            Tier::Cold => self.cold.get_raw_bytes(col, key),
            Tier::Split => match self.hot.get_raw_bytes(col, key) {
                Ok(Some(bytes)) => Ok(Some(bytes)),
                Ok(None) => self.cold.get_raw_bytes(col, key),
                Err(e) => Err(e),
            },
        }
    }

    /// The payload stored under `key` in a reference-counted column, where
    /// its count is positive.
    pub fn get_with_rc_stripped(&self, col: DBCol, key: &[u8]) -> (r: Result<
        Option<Vec<u8>>,
        std::io::Error,
    >)
        requires
            self.valid(),
            col.rc(),
        ensures
            r matches Ok(found) ==> opt_view(found) == stripped_opt(
                lookup(self.column(col), key@),
            ),
            self.never_fails() ==> r is Ok,
    {
        strip_found(self.get_raw_bytes(col, key))
    }

    /// The entries of a column in key order, as they are stored.
    pub fn iter_raw_bytes(&self, col: DBCol) -> (r: Result<Vec<Row>, std::io::Error>)
        requires
            self.valid(),
        ensures
            r matches Ok(rows) ==> rows_view(rows@) == self.column(col),
            r matches Ok(rows) ==> sorted(rows_view(rows@)),
            self.never_fails() ==> r is Ok,
    {
        proof {
            self.column_sorted(col);
        }
        match self.table.route(col) {
            Tier::Hot => self.hot.iter_raw_bytes(col),
            Tier::Cold => self.cold.iter_raw_bytes(col),
            Tier::Split => match self.hot.iter_raw_bytes(col) {
                Ok(hot) => match self.cold.iter_raw_bytes(col) {
                    Ok(cold) => Ok(overlay_rows(&hot, &cold)),
                    Err(e) => Err(e),
                },
                Err(e) => Err(e),
            },
        }
    }

    /// The entries of a column in key order, as a reader sees them.
    pub fn iter(&self, col: DBCol) -> (r: Result<Vec<Row>, std::io::Error>)
        requires
            self.valid(),
        ensures
            r matches Ok(rows) ==> rows_view(rows@) == shown(col, self.column(col)),
            r matches Ok(rows) ==> sorted(rows_view(rows@)),
            self.never_fails() ==> r is Ok,
    {
        proof {
            self.column_sorted(col);
            lemma_shown_sorted(col, self.column(col), KeySet::Within(None, None));
        }
        show_rows(col, self.iter_raw_bytes(col))
    }

    /// The entries of `iter` whose keys begin with `key_prefix`.
    pub fn iter_prefix(&self, col: DBCol, key_prefix: &[u8]) -> (r: Result<
        Vec<Row>,
        std::io::Error,
    >)
        requires
            self.valid(),
        ensures
            r matches Ok(rows) ==> rows_view(rows@) == keep(
                shown(col, self.column(col)),
                KeySet::Prefixed(key_prefix@),
            ),
            r matches Ok(rows) ==> sorted(rows_view(rows@)),
            self.never_fails() ==> r is Ok,
    {
        proof {
            self.column_sorted(col);
            lemma_shown_sorted(col, self.column(col), KeySet::Prefixed(key_prefix@));
        }
        match self.iter(col) {
            Ok(seen) => Ok(select_prefix(&seen, key_prefix)),
            Err(e) => Err(e),
        }
    }

    /// The entries of `iter` whose keys lie from `lower_bound`, included,
    /// to `upper_bound`, excluded.
    pub fn iter_range(
        &self,
        col: DBCol,
        lower_bound: Option<&[u8]>,
        upper_bound: Option<&[u8]>,
    ) -> (r: Result<Vec<Row>, std::io::Error>)
        requires
            self.valid(),
        ensures
            r matches Ok(rows) ==> rows_view(rows@) == keep(
                shown(col, self.column(col)),
                KeySet::Within(opt_bytes(lower_bound), opt_bytes(upper_bound)),
            ),
            r matches Ok(rows) ==> sorted(rows_view(rows@)),
            self.never_fails() ==> r is Ok,
    {
        proof {
            self.column_sorted(col);
            lemma_shown_sorted(
                col,
                self.column(col),
                KeySet::Within(opt_bytes(lower_bound), opt_bytes(upper_bound)),
            );
        }
        match self.iter(col) {
            Ok(seen) => Ok(select_range(&seen, lower_bound, upper_bound)),
            Err(e) => Err(e),
        }
    }
}

} // verus!
