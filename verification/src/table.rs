//! The contents of one column: a sequence of entries in the order of their
//! keys, and what each operation of a batch makes of it.

use crate::column::DBCol;
use crate::order::has_prefix;
use crate::order::lemma_lt_asymmetric;
use crate::order::lemma_lt_irreflexive;
use crate::order::lemma_lt_total;
use crate::order::lemma_lt_transitive;
use crate::order::lex_le;
use crate::order::lex_lt;
use crate::refcount::count_of;
use crate::refcount::counts_fit;
use crate::refcount::last_payload;
use crate::refcount::lemma_merge_all;
use crate::refcount::merge_all;
use crate::refcount::total_count;
use crate::refcount::merged;
use crate::refcount::payload_of;
use crate::refcount::stripped;
use crate::transaction::Op;
use vstd::prelude::*;

verus! {

/// A key and the value stored under it.
pub type Entry = (Seq<u8>, Seq<u8>);

/// A key and a value as a backend hands them out.
pub type Row = (Vec<u8>, Vec<u8>);

/// The entries that a list of rows stands for.
pub open spec fn rows_view(rows: Seq<Row>) -> Seq<Entry> {
    Seq::new(rows.len(), |i: int| (rows[i].0@, rows[i].1@))
}

/// A set of keys that a pass over a column keeps.
pub ghost enum KeySet {
    /// The keys before the given one.
    Below(Seq<u8>),
    /// The keys after the given one.
    Above(Seq<u8>),
    /// Every key but the given one.
    Except(Seq<u8>),
    /// The keys that lie before the first key or not before the second.
    Outside(Seq<u8>, Seq<u8>),
    /// The keys from the first bound, included, to the second, excluded; a
    /// bound that is absent does not limit.
    Within(Option<Seq<u8>>, Option<Seq<u8>>),
    /// The keys that begin with the given bytes.
    Prefixed(Seq<u8>),
}

impl KeySet {
    pub open spec fn has(self, key: Seq<u8>) -> bool {
        match self {
            KeySet::Below(k) => lex_lt(key, k),
            KeySet::Above(k) => lex_lt(k, key),
            KeySet::Except(k) => key != k,
            KeySet::Outside(from, to) => !(lex_le(from, key) && lex_lt(key, to)),
            KeySet::Within(lower, upper) => {
                &&& (lower is Some ==> lex_le(lower.unwrap(), key))
                &&& (upper is Some ==> lex_lt(key, upper.unwrap()))
            },
            KeySet::Prefixed(prefix) => has_prefix(key, prefix),
        }
    }
}

/// The keys of the entries strictly increase.
pub open spec fn sorted(s: Seq<Entry>) -> bool {
    forall|i: int, j: int| 0 <= i < j < s.len() ==> lex_lt(#[trigger] s[i].0, #[trigger] s[j].0)
}

/// Every key of the entries comes before `key`.
pub open spec fn all_below(s: Seq<Entry>, key: Seq<u8>) -> bool {
    forall|i: int| 0 <= i < s.len() ==> lex_lt(#[trigger] s[i].0, key)
}

/// Every key of the entries is in `set`.
pub open spec fn all_in(s: Seq<Entry>, set: KeySet) -> bool {
    forall|i: int| 0 <= i < s.len() ==> set.has(#[trigger] s[i].0)
}

/// The value of the last entry under `key`, if there is one.
pub open spec fn lookup(s: Seq<Entry>, key: Seq<u8>) -> Option<Seq<u8>>
    decreases s.len(),
{
    if s.len() == 0 {
        None
    } else if s.last().0 == key {
        Some(s.last().1)
    } else {
        lookup(s.drop_last(), key)
    }
}

/// The entries whose keys are in `set`, in their order.
pub open spec fn keep(s: Seq<Entry>, set: KeySet) -> Seq<Entry>
    decreases s.len(),
{
    if s.len() == 0 {
        Seq::empty()
    } else if set.has(s.last().0) {
        keep(s.drop_last(), set).push(s.last())
    } else {
        keep(s.drop_last(), set)
    }
}

/// The entries of a reference-counted column as a reader sees them: those
/// with a positive count, each with its payload alone.
pub open spec fn strip_all(s: Seq<Entry>) -> Seq<Entry>
    decreases s.len(),
{
    if s.len() == 0 {
        Seq::empty()
    } else if count_of(s.last().1) > 0 {
        strip_all(s.drop_last()).push((s.last().0, payload_of(s.last().1)))
    } else {
        strip_all(s.drop_last())
    }
}

/// The entries of a column as a reader sees them.
pub open spec fn shown(col: DBCol, s: Seq<Entry>) -> Seq<Entry> {
    if col.rc() {
        strip_all(s)
    } else {
        s
    }
}

/// The column with `value` under `key` and every other key as it was.
pub open spec fn put(s: Seq<Entry>, key: Seq<u8>, value: Seq<u8>) -> Seq<Entry> {
    keep(s, KeySet::Below(key)).push((key, value)) + keep(s, KeySet::Above(key))
}

/// What one operation makes of the contents of column `col`. An operation
/// on another column leaves them as they are.
pub open spec fn apply_op(s: Seq<Entry>, col: DBCol, op: Op) -> Seq<Entry> {
    if op.column() != col {
        s
    } else {
        match op {
            Op::Put { key, value, .. } => put(s, key, value),
            Op::Insert { key, value, .. } => put(s, key, value),
            Op::UpdateRefcount { key, value, .. } => put(s, key, merged(lookup(s, key), value)),
            Op::Delete { key, .. } => keep(s, KeySet::Except(key)),
            Op::DeleteAll { .. } => Seq::empty(),
            Op::DeleteRange { from, to, .. } => keep(s, KeySet::Outside(from, to)),
        }
    }
}

/// What a list of operations, applied in order, makes of the contents of
/// column `col`.
pub open spec fn apply_all(s: Seq<Entry>, col: DBCol, ops: Seq<Op>) -> Seq<Entry>
    decreases ops.len(),
{
    if ops.len() == 0 {
        s
    } else {
        apply_op(apply_all(s, col, ops.drop_last()), col, ops.last())
    }
}

/// An `Insert` into column `col` finds its key absent or holding the very
/// value that it brings.
pub open spec fn op_admitted(s: Seq<Entry>, col: DBCol, op: Op) -> bool {
    match op {
        Op::Insert { col: c, key, value } => c != col || lookup(s, key) is None || lookup(s, key)
            == Some(value),
        _ => true,
    }
}

/// Every `Insert` of the list is admitted by the contents that the
/// operations before it leave.
pub open spec fn admitted(s: Seq<Entry>, col: DBCol, ops: Seq<Op>) -> bool
    decreases ops.len(),
{
    ops.len() == 0 || (admitted(s, col, ops.drop_last()) && op_admitted(
        apply_all(s, col, ops.drop_last()),
        col,
        ops.last(),
    ))
}

/// The operations before any position of an admitted list are admitted,
/// and so is the operation at that position by what they leave.
pub proof fn lemma_admitted_prefix(s: Seq<Entry>, col: DBCol, ops: Seq<Op>, k: int)
    requires
        admitted(s, col, ops),
        0 <= k < ops.len(),
    ensures
        admitted(s, col, ops.take(k)),
        op_admitted(apply_all(s, col, ops.take(k)), col, ops[k]),
    decreases ops.len(),
{
    if k == ops.len() - 1 {
        assert(ops.take(k) =~= ops.drop_last());
    } else {
        lemma_admitted_prefix(s, col, ops.drop_last(), k);
        assert(ops.drop_last().take(k) =~= ops.take(k));
    }
}

/// A list of operations without an `Insert` is admitted by any contents.
pub proof fn lemma_admitted_without_inserts(s: Seq<Entry>, col: DBCol, ops: Seq<Op>)
    requires
        forall|i: int| 0 <= i < ops.len() ==> !((#[trigger] ops[i]) is Insert),
    ensures
        admitted(s, col, ops),
    decreases ops.len(),
{
    if ops.len() > 0 {
        assert(!(ops[ops.len() - 1] is Insert));
        assert forall|i: int| 0 <= i < ops.drop_last().len() implies !((
        #[trigger] ops.drop_last()[i]) is Insert) by {
            assert(ops.drop_last()[i] == ops[i]);
        }
        lemma_admitted_without_inserts(s, col, ops.drop_last());
    }
}

/// What `keep` retains lies in the set, and stays below any key that the
/// whole column stays below.
pub proof fn lemma_keep_bounds(s: Seq<Entry>, set: KeySet, key: Seq<u8>)
    ensures
        all_in(keep(s, set), set),
        all_below(s, key) ==> all_below(keep(s, set), key),
        keep(s, set).len() <= s.len(),
    decreases s.len(),
{
    if s.len() > 0 {
        lemma_keep_bounds(s.drop_last(), set, key);
        if all_below(s, key) {
            assert forall|i: int| 0 <= i < s.drop_last().len() implies lex_lt(
                #[trigger] s.drop_last()[i].0,
                key,
            ) by {
                assert(s.drop_last()[i] == s[i]);
            }
            assert(lex_lt(s[s.len() - 1].0, key));
        }
    }
}

/// A column in key order without its last entry is in key order, below
/// that entry's key.
pub proof fn lemma_sorted_drop_last(s: Seq<Entry>)
    requires
        sorted(s),
        s.len() > 0,
    ensures
        sorted(s.drop_last()),
        all_below(s.drop_last(), s.last().0),
{
    let t = s.drop_last();
    assert forall|i: int, j: int| 0 <= i < j < t.len() implies lex_lt(
        #[trigger] t[i].0,
        #[trigger] t[j].0,
    ) by {
        assert(t[i] == s[i] && t[j] == s[j]);
    }
    assert forall|i: int| 0 <= i < t.len() implies lex_lt(#[trigger] t[i].0, s.last().0) by {
        assert(t[i] == s[i]);
        assert(s.last() == s[s.len() - 1]);
    }
}

/// A column in key order stays so with an entry added whose key comes
/// after all of its keys.
pub proof fn lemma_sorted_push(s: Seq<Entry>, e: Entry)
    requires
        sorted(s),
        all_below(s, e.0),
    ensures
        sorted(s.push(e)),
{
    let t = s.push(e);
    assert forall|i: int, j: int| 0 <= i < j < t.len() implies lex_lt(
        #[trigger] t[i].0,
        #[trigger] t[j].0,
    ) by {
        assert(t[i] == s[i]);
        if j < s.len() {
            assert(t[j] == s[j]);
        }
    }
}

/// What `keep` retains of a column in key order is in key order.
pub proof fn lemma_keep_sorted(s: Seq<Entry>, set: KeySet)
    requires
        sorted(s),
    ensures
        sorted(keep(s, set)),
    decreases s.len(),
{
    if s.len() > 0 {
        lemma_sorted_drop_last(s);
        lemma_keep_sorted(s.drop_last(), set);
        lemma_keep_bounds(s.drop_last(), set, s.last().0);
        if set.has(s.last().0) {
            lemma_sorted_push(keep(s.drop_last(), set), s.last());
        }
    }
}

/// What a reader sees of a column stays below any key that the column
/// stays below.
pub proof fn lemma_strip_bounds(s: Seq<Entry>, key: Seq<u8>)
    requires
        all_below(s, key),
    ensures
        all_below(strip_all(s), key),
    decreases s.len(),
{
    if s.len() > 0 {
        assert forall|i: int| 0 <= i < s.drop_last().len() implies lex_lt(
            #[trigger] s.drop_last()[i].0,
            key,
        ) by {
            assert(s.drop_last()[i] == s[i]);
        }
        assert(lex_lt(s[s.len() - 1].0, key));
        lemma_strip_bounds(s.drop_last(), key);
    }
}

/// What a reader sees of a column in key order is in key order.
pub proof fn lemma_strip_sorted(s: Seq<Entry>)
    requires
        sorted(s),
    ensures
        sorted(strip_all(s)),
    decreases s.len(),
{
    if s.len() > 0 {
        lemma_sorted_drop_last(s);
        lemma_strip_sorted(s.drop_last());
        lemma_strip_bounds(s.drop_last(), s.last().0);
        if count_of(s.last().1) > 0 {
            lemma_sorted_push(strip_all(s.drop_last()), (s.last().0, payload_of(s.last().1)));
        }
    }
}

/// What a reader sees of a column in key order, and any part that `keep`
/// retains of it, is in key order.
pub proof fn lemma_shown_sorted(col: DBCol, s: Seq<Entry>, set: KeySet)
    requires
        sorted(s),
    ensures
        sorted(shown(col, s)),
        sorted(keep(shown(col, s), set)),
{
    lemma_strip_sorted(s);
    lemma_keep_sorted(shown(col, s), set);
}

/// A column in key order stays so when a key is given a value.
pub proof fn lemma_put_sorted(s: Seq<Entry>, key: Seq<u8>, value: Seq<u8>)
    requires
        sorted(s),
    ensures
        sorted(put(s, key, value)),
{
    let below = keep(s, KeySet::Below(key));
    let above = keep(s, KeySet::Above(key));
    lemma_keep_sorted(s, KeySet::Below(key));
    lemma_keep_sorted(s, KeySet::Above(key));
    lemma_keep_bounds(s, KeySet::Below(key), key);
    lemma_keep_bounds(s, KeySet::Above(key), key);
    let t = put(s, key, value);
    let n = below.len() as int;
    assert forall|i: int, j: int| 0 <= i < j < t.len() implies lex_lt(
        #[trigger] t[i].0,
        #[trigger] t[j].0,
    ) by {
        if j < n {
            assert(t[i] == below[i] && t[j] == below[j]);
        } else if j == n {
            assert(t[i] == below[i]);
            assert(KeySet::Below(key).has(below[i].0));
        } else if i < n {
            assert(t[i] == below[i] && t[j] == above[j - n - 1]);
            assert(KeySet::Below(key).has(below[i].0));
            assert(KeySet::Above(key).has(above[j - n - 1].0));
            lemma_lt_transitive(t[i].0, key, t[j].0);
        } else if i == n {
            assert(t[j] == above[j - n - 1]);
            assert(KeySet::Above(key).has(above[j - n - 1].0));
        } else {
            assert(t[i] == above[i - n - 1] && t[j] == above[j - n - 1]);
        }
    }
}

/// An operation leaves a column in key order in key order.
pub proof fn lemma_apply_op_sorted(s: Seq<Entry>, col: DBCol, op: Op)
    requires
        sorted(s),
    ensures
        sorted(apply_op(s, col, op)),
{
    if op.column() == col {
        match op {
            Op::Put { key, value, .. } => lemma_put_sorted(s, key, value),
            Op::Insert { key, value, .. } => lemma_put_sorted(s, key, value),
            Op::UpdateRefcount { key, value, .. } => lemma_put_sorted(
                s,
                key,
                merged(lookup(s, key), value),
            ),
            Op::Delete { key, .. } => lemma_keep_sorted(s, KeySet::Except(key)),
            Op::DeleteAll { .. } => {},
            Op::DeleteRange { from, to, .. } => lemma_keep_sorted(s, KeySet::Outside(from, to)),
        }
    }
}

/// Looking a key up in two lists, one after the other, finds it in the
/// second or else in the first.
pub proof fn lemma_lookup_concat(a: Seq<Entry>, b: Seq<Entry>, key: Seq<u8>)
    ensures
        lookup(a + b, key) == if lookup(b, key) is Some {
            lookup(b, key)
        } else {
            lookup(a, key)
        },
    decreases b.len(),
{
    if b.len() == 0 {
        assert(a + b =~= a);
    } else {
        assert((a + b).drop_last() =~= a + b.drop_last());
        assert((a + b).last() == b.last());
        lemma_lookup_concat(a, b.drop_last(), key);
    }
}

/// `keep` leaves the keys of the set with their values and holds no other
/// key.
pub proof fn lemma_lookup_keep(s: Seq<Entry>, set: KeySet, key: Seq<u8>)
    ensures
        lookup(keep(s, set), key) == if set.has(key) {
            lookup(s, key)
        } else {
            None
        },
    decreases s.len(),
{
    if s.len() > 0 {
        lemma_lookup_keep(s.drop_last(), set, key);
        if set.has(s.last().0) {
            assert(keep(s, set).drop_last() =~= keep(s.drop_last(), set));
        }
    }
}

/// After `put` the key holds the value, and every other key what it held.
pub proof fn lemma_lookup_put(s: Seq<Entry>, key: Seq<u8>, value: Seq<u8>, other: Seq<u8>)
    ensures
        lookup(put(s, key, value), key) == Some(value),
        other != key ==> lookup(put(s, key, value), other) == lookup(s, other),
{
    let below = keep(s, KeySet::Below(key));
    let above = keep(s, KeySet::Above(key));
    let head = below.push((key, value));
    assert(head.drop_last() =~= below);
    lemma_lookup_concat(head, above, key);
    lemma_lookup_concat(head, above, other);
    lemma_lookup_keep(s, KeySet::Above(key), key);
    lemma_lookup_keep(s, KeySet::Above(key), other);
    lemma_lookup_keep(s, KeySet::Below(key), other);
    lemma_lt_irreflexive(key);
    if other != key {
        lemma_lt_total(other, key);
        if lex_lt(other, key) {
            lemma_lt_asymmetric(other, key);
        } else {
            lemma_lt_asymmetric(key, other);
        }
    }
}

/// What a key holds after one operation on column `col`, given what it
/// held before.
pub open spec fn value_after(found: Option<Seq<u8>>, col: DBCol, op: Op, key: Seq<u8>) -> Option<
    Seq<u8>,
> {
    if op.column() != col {
        found
    } else {
        match op {
            Op::Put { key: k, value, .. } => if k == key {
                Some(value)
            } else {
                found
            },
            Op::Insert { key: k, value, .. } => if k == key {
                Some(value)
            } else {
                found
            },
            Op::UpdateRefcount { key: k, value, .. } => if k == key {
                Some(merged(found, value))
            } else {
                found
            },
            Op::Delete { key: k, .. } => if k == key {
                None
            } else {
                found
            },
            Op::DeleteAll { .. } => None,
            Op::DeleteRange { from, to, .. } => if lex_le(from, key) && lex_lt(key, to) {
                None
            } else {
                found
            },
        }
    }
}

/// Key by key, an operation does what its name says: it sets, merges or
/// removes what its own keys hold and leaves every other key alone.
pub proof fn lemma_lookup_apply_op(s: Seq<Entry>, col: DBCol, op: Op, key: Seq<u8>)
    ensures
        lookup(apply_op(s, col, op), key) == value_after(lookup(s, key), col, op, key),
{
    if op.column() == col {
        match op {
            Op::Put { key: k, value, .. } => lemma_lookup_put(s, k, value, key),
            Op::Insert { key: k, value, .. } => lemma_lookup_put(s, k, value, key),
            Op::UpdateRefcount { key: k, value, .. } => lemma_lookup_put(
                s,
                k,
                merged(lookup(s, k), value),
                key,
            ),
            Op::Delete { key: k, .. } => lemma_lookup_keep(s, KeySet::Except(k), key),
            Op::DeleteAll { .. } => {},
            Op::DeleteRange { from, to, .. } => lemma_lookup_keep(
                s,
                KeySet::Outside(from, to),
                key,
            ),
        }
    }
}

/// A column whose keys all come before `key` does not hold `key`.
pub proof fn lemma_lookup_beyond(s: Seq<Entry>, key: Seq<u8>)
    requires
        all_below(s, key),
    ensures
        lookup(s, key) is None,
    decreases s.len(),
{
    if s.len() > 0 {
        assert(lex_lt(s[s.len() - 1].0, key));
        lemma_lt_irreflexive(key);
        assert forall|i: int| 0 <= i < s.drop_last().len() implies lex_lt(
            #[trigger] s.drop_last()[i].0,
            key,
        ) by {
            assert(s.drop_last()[i] == s[i]);
        }
        lemma_lookup_beyond(s.drop_last(), key);
    }
}

/// A reader of a reference-counted column in key order finds under a key
/// the payload of what is stored there, where its count is positive, and
/// nothing otherwise.
pub proof fn lemma_lookup_strip(s: Seq<Entry>, key: Seq<u8>)
    requires
        sorted(s),
    ensures
        lookup(strip_all(s), key) == match lookup(s, key) {
            Some(bytes) => stripped(bytes),
            None => None,
        },
    decreases s.len(),
{
    if s.len() > 0 {
        lemma_sorted_drop_last(s);
        lemma_lookup_strip(s.drop_last(), key);
        if s.last().0 == key {
            lemma_lookup_beyond(s.drop_last(), key);
        }
        if count_of(s.last().1) > 0 {
            assert(strip_all(s).drop_last() =~= strip_all(s.drop_last()));
        }
    }
}

/// Some entry of the column has the key.
pub open spec fn holds_key(s: Seq<Entry>, key: Seq<u8>) -> bool {
    exists|i: int| 0 <= i < s.len() && (#[trigger] s[i]).0 == key
}

/// A key is found in a column if and only if an entry has it.
pub proof fn lemma_lookup_holds(s: Seq<Entry>, key: Seq<u8>)
    ensures
        lookup(s, key) is Some <==> holds_key(s, key),
    decreases s.len(),
{
    if s.len() > 0 {
        lemma_lookup_holds(s.drop_last(), key);
        if s.last().0 == key {
            assert(s[s.len() - 1].0 == key);
        } else if holds_key(s, key) {
            let i = choose|i: int| 0 <= i < s.len() && (#[trigger] s[i]).0 == key;
            assert(s.drop_last()[i].0 == key);
        } else if holds_key(s.drop_last(), key) {
            let i = choose|i: int| 0 <= i < s.drop_last().len() && (#[trigger] s.drop_last()[i]).0
                == key;
            assert(s[i].0 == key);
        }
    }
}

/// One `UpdateRefcount` for each delta, in order, all on one key.
pub open spec fn refcount_ops(col: DBCol, key: Seq<u8>, deltas: Seq<Seq<u8>>) -> Seq<Op> {
    Seq::new(deltas.len(), |i: int| Op::UpdateRefcount { col, key, value: deltas[i] })
}

/// Reference-count updates on one key leave under it the merge of their
/// deltas, in order, into what the key held.
pub proof fn lemma_refcount_updates(s: Seq<Entry>, col: DBCol, key: Seq<u8>, deltas: Seq<Seq<u8>>)
    ensures
        lookup(apply_all(s, col, refcount_ops(col, key, deltas)), key) == merge_all(
            lookup(s, key),
            deltas,
        ),
    decreases deltas.len(),
{
    if deltas.len() > 0 {
        let ops = refcount_ops(col, key, deltas);
        assert(ops.drop_last() =~= refcount_ops(col, key, deltas.drop_last()));
        lemma_refcount_updates(s, col, key, deltas.drop_last());
        let before = apply_all(s, col, ops.drop_last());
        lemma_lookup_put(before, key, merged(lookup(before, key), deltas.last()), key);
    }
}

/// After reference-count updates on a key that held nothing, a reader
/// finds a payload under the key if and only if the counts of the deltas
/// sum to more than zero, and it is the payload of the last delta that has
/// one.
pub proof fn lemma_refcount_reads(s: Seq<Entry>, col: DBCol, key: Seq<u8>, deltas: Seq<Seq<u8>>)
    requires
        lookup(s, key) is None,
        deltas.len() > 0,
        counts_fit(deltas),
    ensures
        lookup(apply_all(s, col, refcount_ops(col, key, deltas)), key) is Some,
        stripped(lookup(apply_all(s, col, refcount_ops(col, key, deltas)), key).unwrap()) == if 
            total_count(deltas) > 0 {
            Some(last_payload(deltas))
        } else {
            None
        },
{
    lemma_refcount_updates(s, col, key, deltas);
    lemma_merge_all(deltas);
}

/// `keep` works through two lists, one after the other, list by list.
pub proof fn lemma_keep_concat(a: Seq<Entry>, b: Seq<Entry>, set: KeySet)
    ensures
        keep(a + b, set) == keep(a, set) + keep(b, set),
    decreases b.len(),
{
    if b.len() == 0 {
        assert(a + b =~= a);
        assert(keep(a, set) + keep(b, set) =~= keep(a, set));
    } else {
        assert((a + b).drop_last() =~= a + b.drop_last());
        assert((a + b).last() == b.last());
        lemma_keep_concat(a, b.drop_last(), set);
        assert(keep(a, set) + keep(b.drop_last(), set).push(b.last()) =~= (keep(a, set) + keep(
            b.drop_last(),
            set,
        )).push(b.last()));
    }
}

/// `keep` retains all of a list whose keys are all in the set, and nothing
/// of one whose keys are all in a set apart from it.
pub proof fn lemma_keep_whole(s: Seq<Entry>, set: KeySet, inside: KeySet)
    requires
        all_in(s, inside),
    ensures
        (forall|k: Seq<u8>| inside.has(k) ==> set.has(k)) ==> keep(s, set) == s,
        (forall|k: Seq<u8>| inside.has(k) ==> !set.has(k)) ==> keep(s, set).len() == 0,
    decreases s.len(),
{
    if s.len() > 0 {
        assert forall|i: int| 0 <= i < s.drop_last().len() implies inside.has(
            #[trigger] s.drop_last()[i].0,
        ) by {
            assert(s.drop_last()[i] == s[i]);
        }
        lemma_keep_whole(s.drop_last(), set, inside);
        assert(inside.has(s[s.len() - 1].0));
        assert(s.drop_last().push(s.last()) =~= s);
    }
}

/// Giving a key the same value twice is the same as giving it once, and
/// the second `Insert` finds the value that it brings.
pub proof fn lemma_put_twice(s: Seq<Entry>, key: Seq<u8>, value: Seq<u8>)
    ensures
        put(put(s, key, value), key, value) == put(s, key, value),
        lookup(put(s, key, value), key) == Some(value),
{
    let below = keep(s, KeySet::Below(key));
    let above = keep(s, KeySet::Above(key));
    let mid = Seq::<Entry>::empty().push((key, value));
    let once = put(s, key, value);
    assert(once =~= below + mid + above);
    lemma_lookup_put(s, key, value, key);
    lemma_lt_irreflexive(key);
    lemma_keep_bounds(s, KeySet::Below(key), key);
    lemma_keep_bounds(s, KeySet::Above(key), key);
    assert forall|k: Seq<u8>| KeySet::Below(key).has(k) implies !KeySet::Above(key).has(k) by {
        lemma_lt_asymmetric(k, key);
    }
    assert forall|k: Seq<u8>| KeySet::Above(key).has(k) implies !KeySet::Below(key).has(k) by {
        lemma_lt_asymmetric(key, k);
    }
    lemma_keep_whole(below, KeySet::Below(key), KeySet::Below(key));
    lemma_keep_whole(below, KeySet::Above(key), KeySet::Below(key));
    lemma_keep_whole(above, KeySet::Above(key), KeySet::Above(key));
    lemma_keep_whole(above, KeySet::Below(key), KeySet::Above(key));
    assert(mid.last().0 == key);
    assert(keep(mid.drop_last(), KeySet::Below(key)) =~= Seq::<Entry>::empty());
    assert(keep(mid.drop_last(), KeySet::Above(key)) =~= Seq::<Entry>::empty());
    assert(keep(mid, KeySet::Below(key)) =~= Seq::<Entry>::empty());
    assert(keep(mid, KeySet::Above(key)) =~= Seq::<Entry>::empty());
    lemma_keep_concat(below, mid, KeySet::Below(key));
    lemma_keep_concat(below + mid, above, KeySet::Below(key));
    lemma_keep_concat(below, mid, KeySet::Above(key));
    lemma_keep_concat(below + mid, above, KeySet::Above(key));
    assert(keep(once, KeySet::Below(key)) =~= below);
    assert(keep(once, KeySet::Above(key)) =~= above);
}

/// The entries whose keys are in `set` are those at the positions from `a`
/// up to, not including, `b`.
pub open spec fn in_block(s: Seq<Entry>, set: KeySet, a: int, b: int) -> bool {
    forall|i: int| 0 <= i < s.len() ==> (set.has(#[trigger] s[i].0) <==> a <= i < b)
}

/// Where the keys of a set stand together in a column, `keep` retains
/// that stretch of the column.
pub proof fn lemma_keep_block(s: Seq<Entry>, set: KeySet, a: int, b: int)
    requires
        0 <= a <= b <= s.len(),
        in_block(s, set, a, b),
    ensures
        keep(s, set) == s.subrange(a, b),
    decreases s.len(),
{
    if s.len() == 0 {
        assert(s.subrange(a, b) =~= Seq::<Entry>::empty());
    } else {
        let n = s.len() as int;
        let t = s.drop_last();
        assert(set.has(s[n - 1].0) <==> a <= n - 1 < b);
        let a1 = if a < n { a } else { n - 1 };
        let b1 = if b < n { b } else { n - 1 };
        assert forall|i: int| 0 <= i < t.len() implies (set.has(#[trigger] t[i].0) <==> a1 <= i
            < b1) by {
            assert(t[i] == s[i]);
        }
        lemma_keep_block(t, set, a1, b1);
        if set.has(s.last().0) {
            assert(t.subrange(a1, b1).push(s.last()) =~= s.subrange(a, b));
        } else {
            assert(t.subrange(a1, b1) =~= s.subrange(a, b));
        }
    }
}

/// Keeping the keys of a set and taking the counts off can be done in
/// either order.
pub proof fn lemma_keep_strip_commute(s: Seq<Entry>, set: KeySet)
    ensures
        keep(strip_all(s), set) == strip_all(keep(s, set)),
    decreases s.len(),
{
    if s.len() > 0 {
        let t = s.drop_last();
        let e = s.last();
        lemma_keep_strip_commute(t, set);
        if count_of(e.1) > 0 {
            let shown_e = (e.0, payload_of(e.1));
            assert(strip_all(t).push(shown_e).drop_last() =~= strip_all(t));
            assert(strip_all(t).push(shown_e).last() == shown_e);
        }
        if set.has(e.0) {
            assert(keep(t, set).push(e).drop_last() =~= keep(t, set));
            assert(keep(t, set).push(e).last() == e);
        }
    }
}

/// In a column in key order every entry is found under its key.
pub proof fn lemma_lookup_at(s: Seq<Entry>, i: int)
    requires
        sorted(s),
        0 <= i < s.len(),
    ensures
        lookup(s, s[i].0) == Some(s[i].1),
    decreases s.len(),
{
    if i < s.len() - 1 {
        assert(lex_lt(s[i].0, s[s.len() - 1].0));
        lemma_lt_irreflexive(s[i].0);
        lemma_sorted_drop_last(s);
        assert(s.drop_last()[i] == s[i]);
        lemma_lookup_at(s.drop_last(), i);
    }
}

/// An entry of a reference-counted column in key order whose count is not
/// positive is stored, and a reader does not see it.
pub proof fn lemma_hidden_unless_positive(s: Seq<Entry>, key: Seq<u8>)
    requires
        sorted(s),
        lookup(s, key) is Some,
        count_of(lookup(s, key).unwrap()) <= 0,
    ensures
        holds_key(s, key),
        !holds_key(strip_all(s), key),
{
    lemma_lookup_strip(s, key);
    lemma_lookup_holds(s, key);
    lemma_lookup_holds(strip_all(s), key);
}

/// A column stays below a key with an entry added whose key comes before
/// that key.
pub proof fn lemma_all_below_push(s: Seq<Entry>, e: Entry, key: Seq<u8>)
    requires
        all_below(s, e.0),
        lex_lt(e.0, key),
    ensures
        all_below(s.push(e), key),
{
    let t = s.push(e);
    assert forall|i: int| 0 <= i < t.len() implies lex_lt(#[trigger] t[i].0, key) by {
        if i < s.len() {
            assert(t[i] == s[i]);
            lemma_lt_transitive(s[i].0, e.0, key);
        }
    }
}

/// Two columns in key order that hold the same value under every key are
/// the same column.
pub proof fn lemma_sorted_same(a: Seq<Entry>, b: Seq<Entry>)
    requires
        sorted(a),
        sorted(b),
        forall|k: Seq<u8>| lookup(a, k) == lookup(b, k),
    ensures
        a == b,
    decreases a.len() + b.len(),
{
    if a.len() == 0 {
        if b.len() > 0 {
            assert(lookup(a, b.last().0) == lookup(b, b.last().0));
        }
        assert(a =~= b);
    } else if b.len() == 0 {
        assert(lookup(a, a.last().0) == lookup(b, a.last().0));
    } else {
        let ka = a.last().0;
        let kb = b.last().0;
        lemma_sorted_drop_last(a);
        lemma_sorted_drop_last(b);
        assert(lookup(a, ka) == lookup(b, ka));
        assert(lookup(a, kb) == lookup(b, kb));
        if ka != kb {
            lemma_lookup_holds(b.drop_last(), ka);
            lemma_lookup_holds(a.drop_last(), kb);
            lemma_lookup_beyond(b.drop_last(), kb);
            lemma_lookup_beyond(a.drop_last(), ka);
            lemma_lt_total(ka, kb);
            if lex_lt(ka, kb) {
                // kb is in a, yet every key of a is at most ka
                let i = choose|i: int|
                    0 <= i < a.drop_last().len() && (#[trigger] a.drop_last()[i]).0 == kb;
                assert(lex_lt(a.drop_last()[i].0, ka));
                lemma_lt_asymmetric(ka, kb);
            } else {
                let i = choose|i: int|
                    0 <= i < b.drop_last().len() && (#[trigger] b.drop_last()[i]).0 == ka;
                assert(lex_lt(b.drop_last()[i].0, kb));
                lemma_lt_asymmetric(kb, ka);
            }
        }
        assert(ka == kb);
        assert(a.last().1 == b.last().1);
        assert forall|k: Seq<u8>| lookup(a.drop_last(), k) == lookup(b.drop_last(), k) by {
            if k == ka {
                lemma_lookup_beyond(a.drop_last(), ka);
                lemma_lookup_beyond(b.drop_last(), kb);
            } else {
                assert(lookup(a, k) == lookup(b, k));
            }
        }
        lemma_sorted_same(a.drop_last(), b.drop_last());
        assert(a =~= a.drop_last().push(a.last()));
        assert(b =~= b.drop_last().push(b.last()));
    }
}

/// A range without bounds keeps the whole column.
pub proof fn lemma_keep_unbounded(s: Seq<Entry>)
    ensures
        keep(s, KeySet::Within(None, None)) == s,
    decreases s.len(),
{
    if s.len() > 0 {
        lemma_keep_unbounded(s.drop_last());
        assert(s.drop_last().push(s.last()) =~= s);
    }
}

/// A range with an upper bound does not hold that bound, and holds its
/// lower bound, where that comes before the upper one, with whatever the
/// column holds under it.
pub proof fn lemma_range_bounds(s: Seq<Entry>, lower: Seq<u8>, upper: Seq<u8>)
    ensures
        !holds_key(keep(s, KeySet::Within(Some(lower), Some(upper))), upper),
        !holds_key(keep(s, KeySet::Within(None, Some(upper))), upper),
        lex_lt(lower, upper) ==> lookup(keep(s, KeySet::Within(Some(lower), Some(upper))), lower)
            == lookup(s, lower),
        lookup(keep(s, KeySet::Within(Some(lower), None)), lower) == lookup(s, lower),
{
    lemma_lt_irreflexive(upper);
    lemma_lookup_holds(keep(s, KeySet::Within(Some(lower), Some(upper))), upper);
    lemma_lookup_holds(keep(s, KeySet::Within(None, Some(upper))), upper);
    lemma_lookup_keep(s, KeySet::Within(Some(lower), Some(upper)), upper);
    lemma_lookup_keep(s, KeySet::Within(None, Some(upper)), upper);
    lemma_lookup_keep(s, KeySet::Within(Some(lower), Some(upper)), lower);
    lemma_lookup_keep(s, KeySet::Within(Some(lower), None), lower);
}

} // verus!
