use near_store::colddb::ColdDB;
use near_store::column::{DBCol, NUM_COLUMNS};
use near_store::database::{
    admits, held_after, show_rows, strip_found, Database, StatsValue, StoreStatistics,
};
use near_store::refcount::encode;
use near_store::router::{copy_op, overlay_rows, RoutingTable, SplitDB, Tier};
use near_store::rows::{
    apply_row_op, copy_range, copy_rows, find, find_sorted, lower_bound, put_row, select,
    select_prefix, select_range, strip_rows, KeyTest,
};
use near_store::testdb::TestDB;
use near_store::transaction::{DBOp, DBTransaction};

fn row(k: &[u8], v: &[u8]) -> (Vec<u8>, Vec<u8>) {
    (k.to_vec(), v.to_vec())
}

fn table() -> RoutingTable {
    let mut t = RoutingTable::uniform(Tier::Hot);
    t.assign(DBCol::Block, Tier::Cold);
    t.assign(DBCol::State, Tier::Split);
    t.assign(DBCol::BlockHeight, Tier::Split);
    t
}

#[test]
fn every_column_has_one_tier() {
    let t = table();
    for i in 0..NUM_COLUMNS {
        let col = DBCol::from_index(i).unwrap();
        let tier = t.route(col);
        let expected = match col {
            DBCol::Block => Tier::Cold,
            DBCol::State | DBCol::BlockHeight => Tier::Split,
            _ => Tier::Hot,
        };
        assert_eq!(tier, expected);
        assert!(matches!(tier, Tier::Hot | Tier::Cold | Tier::Split));
    }
}

#[test]
fn uniform_table_routes_everything_alike() {
    for tier in [Tier::Hot, Tier::Cold, Tier::Split] {
        let t = RoutingTable::uniform(tier);
        for i in 0..NUM_COLUMNS {
            assert_eq!(t.route(DBCol::from_index(i).unwrap()), tier);
        }
    }
    assert!(Tier::Hot.is_written_hot());
    assert!(Tier::Split.is_written_hot());
    assert!(!Tier::Cold.is_written_hot());
}

#[test]
fn partition_parts_by_tier_and_keeps_order() {
    let mut tx = DBTransaction::new();
    tx.set(DBCol::BlockMisc, b"1".to_vec(), b"a".to_vec());
    tx.insert(DBCol::Block, b"2".to_vec(), b"b".to_vec());
    tx.update_refcount(DBCol::State, b"3".to_vec(), encode(b"c", 1));
    tx.delete(DBCol::Block, b"4".to_vec());
    tx.delete_all(DBCol::BlockMisc);
    let (hot, cold) = table().partition(&tx);
    assert_eq!(hot.ops.len(), 3);
    assert_eq!(cold.ops.len(), 2);
    assert!(matches!(&hot.ops[0], DBOp::Put { col: DBCol::BlockMisc, key, .. } if key == b"1"));
    assert!(matches!(&hot.ops[1], DBOp::UpdateRefcount { col: DBCol::State, key, .. }
        if key == b"3"));
    assert!(matches!(&hot.ops[2], DBOp::DeleteAll { col: DBCol::BlockMisc }));
    assert!(matches!(&cold.ops[0], DBOp::Insert { col: DBCol::Block, key, value }
        if key == b"2" && value == b"b"));
    assert!(matches!(&cold.ops[1], DBOp::Delete { col: DBCol::Block, key } if key == b"4"));
}

#[test]
fn copy_op_copies() {
    let op = DBOp::DeleteRange { col: DBCol::Chunks, from: vec![1, 2], to: vec![3] };
    assert!(matches!(copy_op(&op), DBOp::DeleteRange { col: DBCol::Chunks, from, to }
        if from == vec![1, 2] && to == vec![3]));
    let op = DBOp::Put { col: DBCol::Chunks, key: vec![1], value: vec![2] };
    assert!(matches!(copy_op(&op), DBOp::Put { col: DBCol::Chunks, key, value }
        if key == vec![1] && value == vec![2]));
}

#[test]
fn overlay_lets_hot_rows_win() {
    let hot = vec![row(b"b", b"hot-b"), row(b"d", b"hot-d")];
    let cold = vec![row(b"a", b"cold-a"), row(b"b", b"cold-b"), row(b"c", b"cold-c")];
    assert_eq!(
        overlay_rows(&hot, &cold),
        vec![row(b"a", b"cold-a"), row(b"b", b"hot-b"), row(b"c", b"cold-c"), row(b"d", b"hot-d")]
    );
    assert_eq!(overlay_rows(&vec![], &vec![row(b"a", b"1")]), vec![row(b"a", b"1")]);
    assert_eq!(overlay_rows(&vec![row(b"a", b"1")], &vec![]), vec![row(b"a", b"1")]);
    assert_eq!(overlay_rows(&vec![], &vec![]), vec![]);
    let hot = vec![row(b"a", b"h1"), row(b"b", b"h2"), row(b"z", b"h3")];
    let cold = vec![row(b"a", b"c1"), row(b"b", b"c2"), row(b"c", b"c3")];
    assert_eq!(
        overlay_rows(&hot, &cold),
        vec![row(b"a", b"h1"), row(b"b", b"h2"), row(b"c", b"c3"), row(b"z", b"h3")]
    );
}

fn split_store() -> SplitDB<TestDB, ColdDB<TestDB>> {
    let mut hot = TestDB::new();
    let mut cold = ColdDB::new(TestDB::new());
    let mut tx = DBTransaction::new();
    tx.set(DBCol::BlockHeight, b"b".to_vec(), b"hot-b".to_vec());
    tx.set(DBCol::BlockHeight, b"d".to_vec(), b"hot-d".to_vec());
    tx.set(DBCol::BlockMisc, b"m".to_vec(), b"hot-m".to_vec());
    tx.set(DBCol::Block, b"x".to_vec(), b"hot-x".to_vec());
    tx.update_refcount(DBCol::State, b"s".to_vec(), encode(b"gone", 0));
    hot.write(tx).unwrap();
    let mut tx = DBTransaction::new();
    tx.set(DBCol::BlockHeight, b"a".to_vec(), b"cold-a".to_vec());
    tx.set(DBCol::BlockHeight, b"b".to_vec(), b"cold-b".to_vec());
    tx.set(DBCol::BlockMisc, b"m".to_vec(), b"cold-m".to_vec());
    tx.set(DBCol::Block, b"x".to_vec(), b"cold-x".to_vec());
    tx.update_refcount(DBCol::State, b"s".to_vec(), encode(b"kept", 2));
    tx.update_refcount(DBCol::State, b"t".to_vec(), encode(b"cold-t", 1));
    cold.write(tx).unwrap();
    SplitDB::new(hot, cold, table())
}

#[test]
fn split_store_reads_by_tier() {
    let db = split_store();
    assert_eq!(db.get_raw_bytes(DBCol::BlockMisc, b"m").unwrap(), Some(b"hot-m".to_vec()));
    assert_eq!(db.get_raw_bytes(DBCol::Block, b"x").unwrap(), Some(b"cold-x".to_vec()));
    assert_eq!(db.get_raw_bytes(DBCol::BlockHeight, b"a").unwrap(), Some(b"cold-a".to_vec()));
    assert_eq!(db.get_raw_bytes(DBCol::BlockHeight, b"b").unwrap(), Some(b"hot-b".to_vec()));
    assert_eq!(db.get_raw_bytes(DBCol::BlockHeight, b"d").unwrap(), Some(b"hot-d".to_vec()));
    assert_eq!(db.get_raw_bytes(DBCol::BlockHeight, b"z").unwrap(), None);
}

#[test]
fn split_store_iterates_merged_without_duplicates() {
    let db = split_store();
    assert_eq!(
        db.iter(DBCol::BlockHeight).unwrap(),
        vec![row(b"a", b"cold-a"), row(b"b", b"hot-b"), row(b"d", b"hot-d")]
    );
    assert_eq!(db.iter(DBCol::BlockMisc).unwrap(), vec![row(b"m", b"hot-m")]);
    assert_eq!(db.iter(DBCol::Block).unwrap(), vec![row(b"x", b"cold-x")]);
    assert_eq!(
        db.iter_range(DBCol::BlockHeight, Some(b"b"), Some(b"d")).unwrap(),
        vec![row(b"b", b"hot-b")]
    );
    assert_eq!(
        db.iter_prefix(DBCol::BlockHeight, b"a").unwrap(),
        vec![row(b"a", b"cold-a")]
    );
}

#[test]
fn split_store_strips_after_hot_hides_cold() {
    let db = split_store();
    assert_eq!(db.get_with_rc_stripped(DBCol::State, b"s").unwrap(), None);
    assert_eq!(db.get_with_rc_stripped(DBCol::State, b"t").unwrap(), Some(b"cold-t".to_vec()));
    assert_eq!(db.iter(DBCol::State).unwrap(), vec![row(b"t", b"cold-t")]);
    assert_eq!(
        db.iter_raw_bytes(DBCol::State).unwrap(),
        vec![row(b"s", &encode(b"gone", 0)), row(b"t", &encode(b"cold-t", 1))]
    );
}

#[test]
fn split_store_writes_by_tier() {
    let mut db = split_store();
    let mut tx = DBTransaction::new();
    tx.set(DBCol::BlockMisc, b"n".to_vec(), b"1".to_vec());
    tx.delete(DBCol::Block, b"x".to_vec());
    tx.set(DBCol::BlockHeight, b"a".to_vec(), b"new-a".to_vec());
    assert!(db.write(tx).is_ok());
    assert_eq!(db.hot.get_raw_bytes(DBCol::BlockMisc, b"n").unwrap(), Some(b"1".to_vec()));
    assert_eq!(db.cold.get_raw_bytes(DBCol::BlockMisc, b"n").unwrap(), None);
    assert_eq!(db.cold.get_raw_bytes(DBCol::Block, b"x").unwrap(), None);
    assert_eq!(db.hot.get_raw_bytes(DBCol::Block, b"x").unwrap(), Some(b"hot-x".to_vec()));
    assert_eq!(db.get_raw_bytes(DBCol::Block, b"x").unwrap(), None);
    assert_eq!(db.get_raw_bytes(DBCol::BlockHeight, b"a").unwrap(), Some(b"new-a".to_vec()));
    assert_eq!(db.cold.get_raw_bytes(DBCol::BlockHeight, b"a").unwrap(), Some(b"cold-a".to_vec()));
}

#[test]
fn hot_only_router_agrees_with_plain_store() {
    let mut plain = TestDB::new();
    let mut routed = SplitDB::new(TestDB::new(), TestDB::new(), RoutingTable::uniform(Tier::Hot));
    for round in 0..3u8 {
        let mut a = DBTransaction::new();
        let mut b = DBTransaction::new();
        for tx in [&mut a, &mut b] {
            tx.set(DBCol::BlockMisc, vec![round], vec![round, 1]);
            tx.update_refcount(DBCol::State, b"k".to_vec(), encode(b"p", 2 - round as i64 * 2));
            tx.update_refcount(DBCol::State, vec![b'k', round], encode(&[round], 1));
            tx.delete(DBCol::BlockMisc, vec![round.wrapping_sub(2)]);
        }
        plain.write(a).unwrap();
        routed.write(b).unwrap();
        for col in [DBCol::BlockMisc, DBCol::State] {
            assert_eq!(plain.iter(col).unwrap(), routed.iter(col).unwrap());
            assert_eq!(plain.iter_raw_bytes(col).unwrap(), routed.iter_raw_bytes(col).unwrap());
        }
        for key in [&b"k"[..], &[b'k', round][..], &b"none"[..]] {
            assert_eq!(
                plain.get_with_rc_stripped(DBCol::State, key).unwrap(),
                routed.get_with_rc_stripped(DBCol::State, key).unwrap()
            );
        }
    }
    assert_eq!(plain.get_with_rc_stripped(DBCol::State, b"k").unwrap(), None);
    assert_eq!(plain.get_raw_bytes(DBCol::State, b"k").unwrap(), Some(encode(b"p", 0)));
}

#[test]
fn row_passes() {
    let rows = vec![row(b"a1", b"1"), row(b"a2", b"2"), row(b"b1", b"3")];
    assert_eq!(select(&rows, &KeyTest::Below(b"a2")), vec![row(b"a1", b"1")]);
    assert_eq!(select(&rows, &KeyTest::Above(b"a2")), vec![row(b"b1", b"3")]);
    assert_eq!(select(&rows, &KeyTest::Except(b"a2")).len(), 2);
    assert_eq!(select(&rows, &KeyTest::Outside(b"a2", b"b1")).len(), 2);
    assert_eq!(select(&rows, &KeyTest::Within(Some(b"a2"), None)).len(), 2);
    assert_eq!(select(&rows, &KeyTest::Prefixed(b"a")).len(), 2);
    assert!(KeyTest::Within(None, None).admits(b"anything"));
    assert!(!KeyTest::Within(None, Some(b"k")).admits(b"k"));
    assert!(KeyTest::Within(Some(b"k"), None).admits(b"k"));
    assert_eq!(copy_rows(&rows), rows);
    assert_eq!(find(&rows, b"a2"), Some(1));
    assert_eq!(find(&rows, b"a3"), None);
    assert_eq!(find_sorted(&rows, b"b1"), Some(2));
    assert_eq!(find_sorted(&rows, b"a0"), None);
    assert_eq!(lower_bound(&rows, b""), 0);
    assert_eq!(lower_bound(&rows, b"a2"), 1);
    assert_eq!(lower_bound(&rows, b"a3"), 2);
    assert_eq!(lower_bound(&rows, b"c"), 3);
    assert_eq!(copy_range(&rows, 1, 3), rows[1..3].to_vec());
    assert_eq!(select_range(&rows, Some(b"a2"), Some(b"b1")), rows[1..2].to_vec());
    assert_eq!(select_range(&rows, Some(b"b"), Some(b"a")), vec![]);
    assert_eq!(select_prefix(&rows, b"a"), rows[0..2].to_vec());
    assert_eq!(select_prefix(&rows, b"a2"), rows[1..2].to_vec());
    assert_eq!(
        put_row(&rows, b"a3", b"x".to_vec()),
        vec![row(b"a1", b"1"), row(b"a2", b"2"), row(b"a3", b"x"), row(b"b1", b"3")]
    );
    assert_eq!(put_row(&rows, b"a2", b"y".to_vec())[1], row(b"a2", b"y"));
    let rc = vec![row(b"k", &encode(b"v", 1)), row(b"l", &encode(b"w", 0)), row(b"m", b"bad")];
    assert_eq!(strip_rows(&rc), vec![row(b"k", b"v")]);
    let op = DBOp::UpdateRefcount { col: DBCol::State, key: b"l".to_vec(), value: encode(b"", 4) };
    assert_eq!(apply_row_op(&rc, &op)[1], row(b"l", &encode(b"w", 4)));
}

#[test]
fn statistics_hold_their_figures() {
    let stats = StoreStatistics {
        data: vec![(
            "metric".to_string(),
            vec![
                StatsValue::Count(1),
                StatsValue::Sum(-2),
                StatsValue::Percentile(50, 4607182418800017408),
                StatsValue::ColumnValue(DBCol::State, 3),
            ],
        )],
    };
    assert_eq!(stats.data[0].1.len(), 4);
    assert_eq!(stats.data[0].1[2], StatsValue::Percentile(50, 4607182418800017408));
    assert_ne!(stats.data[0].1[0], StatsValue::Sum(1));
}

#[test]
fn refcount_sequence_follows_the_sum() {
    let deltas: Vec<(&[u8], i64)> =
        vec![(b"one", 1), (b"", -1), (b"", -1), (b"two", 3), (b"", -1)];
    let mut db = TestDB::new();
    let mut sum = 0i64;
    let mut payload: Vec<u8> = vec![];
    for (p, c) in deltas {
        let mut tx = DBTransaction::new();
        tx.update_refcount(DBCol::Transactions, b"key".to_vec(), encode(p, c));
        db.write(tx).unwrap();
        sum += c;
        if !p.is_empty() {
            payload = p.to_vec();
        }
        let seen = db.get_with_rc_stripped(DBCol::Transactions, b"key").unwrap();
        assert_eq!(seen, if sum > 0 { Some(payload.clone()) } else { None });
    }
    assert_eq!(sum, 1);
}

#[test]
fn cold_store_hands_everything_through() {
    let mut cold = ColdDB::new(TestDB::new());
    let mut tx = DBTransaction::new();
    tx.set(DBCol::BlockMisc, b"b".to_vec(), b"2".to_vec());
    tx.set(DBCol::BlockMisc, b"a".to_vec(), b"1".to_vec());
    tx.update_refcount(DBCol::State, b"s".to_vec(), encode(b"p", 1));
    assert!(cold.write(tx).is_ok());
    assert_eq!(cold.get_raw_bytes(DBCol::BlockMisc, b"a").unwrap(), Some(b"1".to_vec()));
    assert_eq!(cold.get_with_rc_stripped(DBCol::State, b"s").unwrap(), Some(b"p".to_vec()));
    assert_eq!(cold.iter(DBCol::BlockMisc).unwrap(), vec![row(b"a", b"1"), row(b"b", b"2")]);
    assert_eq!(cold.iter_prefix(DBCol::BlockMisc, b"b").unwrap(), vec![row(b"b", b"2")]);
    assert_eq!(
        cold.iter_range(DBCol::BlockMisc, None, Some(b"b")).unwrap(),
        vec![row(b"a", b"1")]
    );
    assert_eq!(cold.iter_raw_bytes(DBCol::State).unwrap(), vec![row(b"s", &encode(b"p", 1))]);
    assert!(cold.flush().is_ok());
    assert!(cold.compact().is_ok());
    assert!(cold.get_store_statistics().is_none());
    assert_eq!(cold.inner.iter(DBCol::BlockMisc).unwrap().len(), 2);
}

#[test]
fn split_store_flush_and_compact_change_nothing() {
    let mut db = split_store();
    let before = db.iter_raw_bytes(DBCol::BlockHeight).unwrap();
    assert!(db.flush().is_ok());
    assert!(db.compact().is_ok());
    assert!(db.get_store_statistics().is_none());
    assert_eq!(db.iter_raw_bytes(DBCol::BlockHeight).unwrap(), before);
}

#[test]
fn admits_judges_inserts_against_what_is_stored() {
    let mut db = ColdDB::new(TestDB::new());
    let mut tx = DBTransaction::new();
    tx.insert(DBCol::Block, b"h".to_vec(), b"block".to_vec());
    tx.insert(DBCol::Block, b"h".to_vec(), b"block".to_vec());
    assert!(admits(&db, &tx).unwrap());
    db.write(tx).unwrap();
    let mut again = DBTransaction::new();
    again.set(DBCol::BlockMisc, b"A".to_vec(), b"1".to_vec());
    again.insert(DBCol::Block, b"h".to_vec(), b"block".to_vec());
    assert!(admits(&db, &again).unwrap());
    let mut clash = DBTransaction::new();
    clash.set(DBCol::BlockMisc, b"A".to_vec(), b"1".to_vec());
    clash.insert(DBCol::Block, b"h".to_vec(), b"other".to_vec());
    assert!(!admits(&db, &clash).unwrap());
    let mut cleared = DBTransaction::new();
    cleared.delete_range(DBCol::Block, b"a".to_vec(), b"z".to_vec());
    cleared.insert(DBCol::Block, b"h".to_vec(), b"other".to_vec());
    assert!(admits(&db, &cleared).unwrap());
    let mut inside = DBTransaction::new();
    inside.insert(DBCol::Chunks, b"c".to_vec(), b"1".to_vec());
    inside.insert(DBCol::Chunks, b"c".to_vec(), b"2".to_vec());
    assert!(!admits(&db, &inside).unwrap());
    assert_eq!(db.get_raw_bytes(DBCol::BlockMisc, b"A").unwrap(), None);
}

#[test]
fn split_store_admits_by_part() {
    let db = split_store();
    let mut tx = DBTransaction::new();
    tx.insert(DBCol::Block, b"x".to_vec(), b"cold-x".to_vec());
    assert!(db.admits(&tx).unwrap());
    let mut tx = DBTransaction::new();
    tx.insert(DBCol::Block, b"x".to_vec(), b"hot-x".to_vec());
    assert!(!db.admits(&tx).unwrap());
}

#[test]
fn held_after_follows_each_operation() {
    let col = DBCol::State;
    let key = b"k";
    let had = Some(encode(b"v", 1));
    let put = DBOp::Put { col, key: b"k".to_vec(), value: b"new".to_vec() };
    assert_eq!(held_after(had.clone(), col, &put, key), Some(b"new".to_vec()));
    assert_eq!(held_after(had.clone(), DBCol::Block, &put, key), had);
    assert_eq!(held_after(had.clone(), col, &put, b"other"), had);
    let bump = DBOp::UpdateRefcount { col, key: b"k".to_vec(), value: encode(b"", 2) };
    assert_eq!(held_after(had.clone(), col, &bump, key), Some(encode(b"v", 3)));
    assert_eq!(held_after(None, col, &bump, key), Some(encode(b"", 2)));
    let del = DBOp::Delete { col, key: b"k".to_vec() };
    assert_eq!(held_after(had.clone(), col, &del, key), None);
    assert_eq!(held_after(had.clone(), col, &DBOp::DeleteAll { col }, key), None);
    let range = DBOp::DeleteRange { col, from: b"k".to_vec(), to: b"l".to_vec() };
    assert_eq!(held_after(had.clone(), col, &range, key), None);
    assert_eq!(held_after(had.clone(), col, &range, b"l"), had);
    assert_eq!(held_after(had.clone(), col, &range, b"j"), had);
}

#[test]
fn strip_found_hands_failures_through() {
    assert_eq!(strip_found(Ok(Some(encode(b"v", 2)))).unwrap(), Some(b"v".to_vec()));
    assert_eq!(strip_found(Ok(Some(encode(b"v", 0)))).unwrap(), None);
    assert_eq!(strip_found(Ok(Some(b"short".to_vec()))).unwrap(), None);
    assert_eq!(strip_found(Ok(None)).unwrap(), None);
    let failed = strip_found(Err(std::io::Error::new(std::io::ErrorKind::Other, "disk")));
    assert_eq!(failed.unwrap_err().to_string(), "disk");
}

#[test]
fn show_rows_strips_counted_columns_only() {
    let raw = vec![row(b"a", &encode(b"x", 1)), row(b"b", &encode(b"y", 0))];
    assert_eq!(show_rows(DBCol::State, Ok(raw.clone())).unwrap(), vec![row(b"a", b"x")]);
    assert_eq!(show_rows(DBCol::BlockMisc, Ok(raw.clone())).unwrap(), raw);
    let failed =
        show_rows(DBCol::State, Err(std::io::Error::new(std::io::ErrorKind::Other, "disk")));
    assert_eq!(failed.unwrap_err().to_string(), "disk");
}

#[test]
fn stores_in_memory_never_fail() {
    let mut db = split_store();
    assert!(db.get_raw_bytes(DBCol::State, b"s").is_ok());
    assert!(db.get_with_rc_stripped(DBCol::State, b"s").is_ok());
    assert!(db.iter(DBCol::State).is_ok());
    assert!(db.iter_raw_bytes(DBCol::State).is_ok());
    assert!(db.iter_prefix(DBCol::State, b"s").is_ok());
    assert!(db.iter_range(DBCol::State, None, None).is_ok());
    assert!(db.admits(&DBTransaction::new()).unwrap());
    assert!(db.write(DBTransaction::new()).is_ok());
    assert!(db.flush().is_ok());
    assert!(db.compact().is_ok());
    let mut without_inserts = DBTransaction::new();
    without_inserts.set(DBCol::Block, b"x".to_vec(), b"other".to_vec());
    without_inserts.delete_all(DBCol::Chunks);
    assert!(admits(&db.cold, &without_inserts).unwrap());
    assert!(db.cold.get_store_statistics().is_none());
}
