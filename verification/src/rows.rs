//! Passes over the rows of one column: the executable side of the column
//! model.

use crate::order::bytes_eq;
use crate::order::bytes_lt;
use crate::order::bytes_start_with;
use crate::order::has_prefix;
use crate::order::lemma_lt_asymmetric;
use crate::order::lemma_lt_irreflexive;
use crate::order::lemma_lt_total;
use crate::order::lemma_lt_transitive;
use crate::order::lemma_prefix_block_ends;
use crate::order::lemma_prefix_not_below;
use crate::order::lex_lt;
use crate::refcount::decode;
use crate::refcount::merge;
use crate::table::apply_op;
use crate::table::holds_key;
use crate::table::keep;
use crate::table::lemma_keep_block;
use crate::table::lemma_lookup_at;
use crate::table::lemma_lookup_holds;
use crate::table::lemma_keep_unbounded;
use crate::table::lookup;
use crate::table::op_admitted;
use crate::table::put;
use crate::table::rows_view;
use crate::table::sorted;
use crate::table::strip_all;
use crate::table::Entry;
use crate::table::KeySet;
use crate::table::Row;
use crate::transaction::DBOp;
use vstd::prelude::*;
use vstd::slice::slice_to_vec;

verus! {

/// A set of keys, given by the keys that bound it.
pub enum KeyTest<'a> {
    Below(&'a [u8]),
    Above(&'a [u8]),
    Except(&'a [u8]),
    Outside(&'a [u8], &'a [u8]),
    Within(Option<&'a [u8]>, Option<&'a [u8]>),
    Prefixed(&'a [u8]),
}

/// The bytes of an optional string.
pub open spec fn opt_bytes(o: Option<&[u8]>) -> Option<Seq<u8>> {
    match o {
        Some(bytes) => Some(bytes@),
        None => None,
    }
}

/// The bytes of an optional owned string.
pub open spec fn opt_view(o: Option<Vec<u8>>) -> Option<Seq<u8>> {
    match o {
        Some(bytes) => Some(bytes@),
        None => None,
    }
}

impl<'a> View for KeyTest<'a> {
    type V = KeySet;

    open spec fn view(&self) -> KeySet {
        match *self {
            KeyTest::Below(k) => KeySet::Below(k@),
            KeyTest::Above(k) => KeySet::Above(k@),
            KeyTest::Except(k) => KeySet::Except(k@),
            KeyTest::Outside(from, to) => KeySet::Outside(from@, to@),
            KeyTest::Within(lower, upper) => KeySet::Within(opt_bytes(lower), opt_bytes(upper)),
            KeyTest::Prefixed(prefix) => KeySet::Prefixed(prefix@),
        }
    }
}

impl<'a> KeyTest<'a> {
    /// Whether `key` is in the set.
    pub fn admits(&self, key: &[u8]) -> (r: bool)
        ensures
            r == self@.has(key@),
    {
        match self {
            KeyTest::Below(k) => bytes_lt(key, k),
            KeyTest::Above(k) => bytes_lt(k, key),
            KeyTest::Except(k) => !bytes_eq(key, k),
            KeyTest::Outside(from, to) => {
                let from_reached = bytes_eq(from, key) || bytes_lt(from, key);
                !(from_reached && bytes_lt(key, to))
            },
            KeyTest::Within(lower, upper) => {
                let lower_met = match lower {
                    Some(bound) => bytes_eq(bound, key) || bytes_lt(bound, key),
                    None => true,
                };
                let upper_met = match upper {
                    Some(bound) => bytes_lt(key, bound),
                    None => true,
                };
                lower_met && upper_met
            },
            KeyTest::Prefixed(prefix) => bytes_start_with(key, prefix),
        }
    }
}

/// The rows whose keys are in the set, in their order.
pub fn select(rows: &Vec<Row>, test: &KeyTest) -> (out: Vec<Row>)
    ensures
        rows_view(out@) == keep(rows_view(rows@), test@),
{
    let mut out: Vec<Row> = Vec::new();
    let mut i: usize = 0;
    let ghost s = rows_view(rows@);
    assert(rows_view(out@) =~= Seq::<Entry>::empty());
    while i < rows.len()
        invariant
            i <= rows.len(),
            s == rows_view(rows@),
            rows_view(out@) == keep(s.take(i as int), test@),
        decreases rows.len() - i,
    {
        let ghost before = rows_view(out@);
        assert(s.take(i + 1).drop_last() =~= s.take(i as int));
        assert(s.take(i + 1).last() == s[i as int]);
        let row = &rows[i];
        if test.admits(row.0.as_slice()) {
            let key = slice_to_vec(row.0.as_slice());
            let value = slice_to_vec(row.1.as_slice());
            out.push((key, value));
            assert(rows_view(out@) =~= before.push(s[i as int]));
        }
        i += 1;
    }
    assert(s.take(rows.len() as int) =~= s);
    out
}

/// A copy of the rows.
pub fn copy_rows(rows: &Vec<Row>) -> (out: Vec<Row>)
    ensures
        rows_view(out@) == rows_view(rows@),
{
    proof {
        lemma_keep_unbounded(rows_view(rows@));
    }
    select(rows, &KeyTest::Within(None, None))
}

/// The rows of a reference-counted column as a reader sees them.
pub fn strip_rows(rows: &Vec<Row>) -> (out: Vec<Row>)
    ensures
        rows_view(out@) == strip_all(rows_view(rows@)),
{
    let mut out: Vec<Row> = Vec::new();
    let mut i: usize = 0;
    let ghost s = rows_view(rows@);
    assert(rows_view(out@) =~= Seq::<Entry>::empty());
    while i < rows.len()
        invariant
            i <= rows.len(),
            s == rows_view(rows@),
            rows_view(out@) == strip_all(s.take(i as int)),
        decreases rows.len() - i,
    {
        let ghost before = rows_view(out@);
        assert(s.take(i + 1).drop_last() =~= s.take(i as int));
        assert(s.take(i + 1).last() == s[i as int]);
        let row = &rows[i];
        let (payload, count) = decode(row.1.as_slice());
        if count > 0 {
            let key = slice_to_vec(row.0.as_slice());
            let value = slice_to_vec(payload);
            out.push((key, value));
            assert(rows_view(out@) =~= before.push((s[i as int].0, payload@)));
        }
        i += 1;
    }
    assert(s.take(rows.len() as int) =~= s);
    out
}

/// The position of the last row under `key`, if there is one.
pub fn find(rows: &Vec<Row>, key: &[u8]) -> (r: Option<usize>)
    ensures
        match r {
            Some(j) => j < rows.len() && rows[j as int].0@ == key@ && lookup(
                rows_view(rows@),
                key@,
            ) == Some(rows[j as int].1@),
            None => lookup(rows_view(rows@), key@) is None,
        },
        forall|i: int|
            0 <= i < rows.len() && (r is None || i > r.unwrap()) ==> (#[trigger] rows[i]).0@
                != key@,
{
    let mut found: Option<usize> = None;
    let mut i: usize = 0;
    let ghost s = rows_view(rows@);
    while i < rows.len()
        invariant
            i <= rows.len(),
            s == rows_view(rows@),
            match found {
                Some(j) => j < i && rows[j as int].0@ == key@ && lookup(s.take(i as int), key@)
                    == Some(rows[j as int].1@),
                None => lookup(s.take(i as int), key@) is None,
            },
            forall|t: int|
                0 <= t < i && (found is None || t > found.unwrap()) ==> (#[trigger] rows[t]).0@
                    != key@,
        decreases rows.len() - i,
    {
        assert(s.take(i + 1).drop_last() =~= s.take(i as int));
        assert(s.take(i + 1).last() == s[i as int]);
        if bytes_eq(rows[i].0.as_slice(), key) {
            found = Some(i);
        }
        i += 1;
    }
    assert(s.take(rows.len() as int) =~= s);
    found
}

/// The position of the first row whose key does not come before `key`, in
/// rows in key order.
pub fn lower_bound(rows: &Vec<Row>, key: &[u8]) -> (r: usize)
    requires
        sorted(rows_view(rows@)),
    ensures
        r <= rows.len(),
        forall|i: int| 0 <= i < r ==> lex_lt(#[trigger] rows_view(rows@)[i].0, key@),
        forall|i: int| r <= i < rows.len() ==> !lex_lt(#[trigger] rows_view(rows@)[i].0, key@),
{
    let ghost s = rows_view(rows@);
    let mut lo: usize = 0;
    let mut hi: usize = rows.len();
    while lo < hi
        invariant
            lo <= hi <= rows.len(),
            s == rows_view(rows@),
            sorted(s),
            forall|i: int| 0 <= i < lo ==> lex_lt(#[trigger] s[i].0, key@),
            forall|i: int| hi <= i < rows.len() ==> !lex_lt(#[trigger] s[i].0, key@),
        decreases hi - lo,
    {
        let mid = lo + (hi - lo) / 2;
        if bytes_lt(rows[mid].0.as_slice(), key) {
            assert forall|i: int| 0 <= i < mid + 1 implies lex_lt(#[trigger] s[i].0, key@) by {
                if i < mid {
                    assert(lex_lt(s[i].0, s[mid as int].0));
                    lemma_lt_transitive(s[i].0, s[mid as int].0, key@);
                }
            }
            lo = mid + 1;
        } else {
            assert forall|i: int| mid <= i < rows.len() implies !lex_lt(
                #[trigger] s[i].0,
                key@,
            ) by {
                if i > mid && lex_lt(s[i].0, key@) {
                    assert(lex_lt(s[mid as int].0, s[i].0));
                    lemma_lt_transitive(s[mid as int].0, s[i].0, key@);
                }
            }
            hi = mid;
        }
    }
    lo
}

/// The position of the row under `key`, if there is one, in rows in key
/// order.
pub fn find_sorted(rows: &Vec<Row>, key: &[u8]) -> (r: Option<usize>)
    requires
        sorted(rows_view(rows@)),
    ensures
        match r {
            Some(j) => j < rows.len() && rows[j as int].0@ == key@ && lookup(
                rows_view(rows@),
                key@,
            ) == Some(rows[j as int].1@),
            None => lookup(rows_view(rows@), key@) is None,
        },
{
    let ghost s = rows_view(rows@);
    let at = lower_bound(rows, key);
    if at < rows.len() && bytes_eq(rows[at].0.as_slice(), key) {
        proof {
            lemma_lookup_at(s, at as int);
        }
        Some(at)
    } else {
        proof {
            lemma_lookup_holds(s, key@);
            if holds_key(s, key@) {
                let i = choose|i: int| 0 <= i < s.len() && (#[trigger] s[i]).0 == key@;
                lemma_lt_irreflexive(key@);
                if i > at {
                    assert(lex_lt(s[at as int].0, s[i].0));
                }
            }
        }
        None
    }
}

/// The rows from position `a` up to, not including, position `b`.
pub fn copy_range(rows: &Vec<Row>, a: usize, b: usize) -> (out: Vec<Row>)
    requires
        a <= b <= rows.len(),
    ensures
        rows_view(out@) == rows_view(rows@).subrange(a as int, b as int),
{
    let mut out: Vec<Row> = Vec::new();
    let mut i: usize = a;
    let ghost s = rows_view(rows@);
    assert(rows_view(out@) =~= s.subrange(a as int, a as int));
    while i < b
        invariant
            a <= i <= b <= rows.len(),
            s == rows_view(rows@),
            rows_view(out@) == s.subrange(a as int, i as int),
        decreases b - i,
    {
        let ghost before = rows_view(out@);
        let row = &rows[i];
        out.push((slice_to_vec(row.0.as_slice()), slice_to_vec(row.1.as_slice())));
        assert(rows_view(out@) =~= before.push(s[i as int]));
        assert(s.subrange(a as int, i + 1) =~= before.push(s[i as int]));
        i += 1;
    }
    out
}

/// The rows whose keys lie from `lower`, included, to `upper`, excluded,
/// of rows in key order: both ends are found by bisection.
pub fn select_range(rows: &Vec<Row>, lower: Option<&[u8]>, upper: Option<&[u8]>) -> (out: Vec<
    Row,
>)
    requires
        sorted(rows_view(rows@)),
    ensures
        rows_view(out@) == keep(
            rows_view(rows@),
            KeySet::Within(opt_bytes(lower), opt_bytes(upper)),
        ),
{
    let ghost s = rows_view(rows@);
    let ghost set = KeySet::Within(opt_bytes(lower), opt_bytes(upper));
    let a = match lower {
        Some(bound) => lower_bound(rows, bound),
        None => 0,
    };
    let end = match upper {
        Some(bound) => lower_bound(rows, bound),
        None => rows.len(),
    };
    let b = if end < a {
        a
    } else {
        end
    };
    proof {
        assert forall|i: int| 0 <= i < s.len() implies (set.has(#[trigger] s[i].0) <==> a <= i
            < b) by {
            if lower is Some {
                let bound = lower.unwrap()@;
                if i < a {
                    lemma_lt_asymmetric(s[i].0, bound);
                    lemma_lt_irreflexive(bound);
                } else if s[i].0 != bound {
                    lemma_lt_total(s[i].0, bound);
                }
            }
            if upper is Some && lower is Some && end < a && set.has(s[i].0) {
                let low = lower.unwrap()@;
                let high = upper.unwrap()@;
                assert(!lex_lt(s[a as int - 1].0, high));
                assert(lex_lt(s[a as int - 1].0, low));
                if low != s[i].0 {
                    lemma_lt_transitive(s[a as int - 1].0, low, s[i].0);
                }
                lemma_lt_transitive(s[a as int - 1].0, s[i].0, high);
            }
        }
        lemma_keep_block(s, set, a as int, b as int);
    }
    copy_range(rows, a, b)
}

/// The rows whose keys begin with `prefix`, of rows in key order: the
/// first is found by bisection, and the rows are read from there on.
pub fn select_prefix(rows: &Vec<Row>, prefix: &[u8]) -> (out: Vec<Row>)
    requires
        sorted(rows_view(rows@)),
    ensures
        rows_view(out@) == keep(rows_view(rows@), KeySet::Prefixed(prefix@)),
{
    let ghost s = rows_view(rows@);
    let ghost set = KeySet::Prefixed(prefix@);
    let a = lower_bound(rows, prefix);
    let mut b: usize = a;
    while b < rows.len() && bytes_start_with(rows[b].0.as_slice(), prefix)
        invariant
            a <= b <= rows.len(),
            s == rows_view(rows@),
            forall|i: int| a <= i < b ==> has_prefix(#[trigger] s[i].0, prefix@),
        decreases rows.len() - b,
    {
        b += 1;
    }
    proof {
        assert forall|i: int| 0 <= i < s.len() implies (set.has(#[trigger] s[i].0) <==> a <= i
            < b) by {
            if i < a {
                if has_prefix(s[i].0, prefix@) {
                    lemma_prefix_not_below(s[i].0, prefix@);
                }
            } else if i > b {
                assert(lex_lt(s[b as int].0, s[i].0));
                lemma_prefix_block_ends(prefix@, s[b as int].0, s[i].0);
            }
        }
        lemma_keep_block(s, set, a as int, b as int);
    }
    copy_range(rows, a, b)
}

/// The rows with `value` under `key` and every other key as it was.
pub fn put_row(rows: &Vec<Row>, key: &[u8], value: Vec<u8>) -> (out: Vec<Row>)
    ensures
        rows_view(out@) == put(rows_view(rows@), key@, value@),
{
    let mut out = select(rows, &KeyTest::Below(key));
    let mut above = select(rows, &KeyTest::Above(key));
    let ghost below = rows_view(out@);
    let ghost tail = rows_view(above@);
    out.push((slice_to_vec(key), value));
    out.append(&mut above);
    assert(rows_view(out@) =~= below.push((key@, value@)) + tail);
    out
}

/// Stops a write that would change what an insert-only column holds under
/// a key: the value that it brings is the value that is there.
pub fn assert_no_overwrite(col: crate::column::DBCol, key: &[u8], value: &[u8], old_value: &[u8])
    requires
        value@ == old_value@,
{
    let same = bytes_eq(value, old_value);
    assert(same);
}

/// What one operation makes of the rows of the column that it names.
pub fn apply_row_op(rows: &Vec<Row>, op: &DBOp) -> (out: Vec<Row>)
    requires
        op_admitted(rows_view(rows@), op@.column(), op@),
    ensures
        rows_view(out@) == apply_op(rows_view(rows@), op@.column(), op@),
{
    match op {
        DBOp::Put { col, key, value } => put_row(
            rows,
            key.as_slice(),
            slice_to_vec(value.as_slice()),
        ),
        DBOp::Insert { col, key, value } => {
            match find(rows, key.as_slice()) {
                Some(j) => assert_no_overwrite(
                    *col,
                    key.as_slice(),
                    value.as_slice(),
                    rows[j].1.as_slice(),
                ),
                None => {},
            }
            put_row(rows, key.as_slice(), slice_to_vec(value.as_slice()))
        },
        DBOp::UpdateRefcount { col, key, value } => {
            let merged = match find(rows, key.as_slice()) {
                Some(j) => merge(Some(rows[j].1.as_slice()), value.as_slice()),
                None => merge(None, value.as_slice()),
            };
            put_row(rows, key.as_slice(), merged)
        },
        DBOp::Delete { col, key } => select(rows, &KeyTest::Except(key.as_slice())),
        DBOp::DeleteAll { col } => {
            let out: Vec<Row> = Vec::new();
            assert(rows_view(out@) =~= Seq::<Entry>::empty());
            out
        },
        DBOp::DeleteRange { col, from, to } => select(
            rows,
            &KeyTest::Outside(from.as_slice(), to.as_slice()),
        ),
    }
}

} // verus!
