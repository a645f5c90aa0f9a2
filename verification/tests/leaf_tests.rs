use near_store::column::DBCol;
use near_store::leaf::{engine_batch, translate, EngineOp};
use near_store::refcount::encode;
use near_store::transaction::{DBOp, DBTransaction};

#[test]
fn each_operation_has_its_primitive() {
    let col = DBCol::Block;
    let put = translate(&DBOp::Put { col, key: vec![1], value: vec![2] });
    assert!(matches!(put, EngineOp::Put { col: DBCol::Block, key, value }
        if key == vec![1] && value == vec![2]));
    let insert = translate(&DBOp::Insert { col, key: vec![1], value: vec![2] });
    assert!(matches!(insert, EngineOp::Put { col: DBCol::Block, key, value }
        if key == vec![1] && value == vec![2]));
    let update =
        translate(&DBOp::UpdateRefcount { col: DBCol::State, key: vec![1], value: encode(b"v", 1) });
    assert!(matches!(update, EngineOp::Merge { col: DBCol::State, key, operand }
        if key == vec![1] && operand == encode(b"v", 1)));
    let delete = translate(&DBOp::Delete { col, key: vec![3] });
    assert!(matches!(delete, EngineOp::Delete { col: DBCol::Block, key } if key == vec![3]));
    let all = translate(&DBOp::DeleteAll { col });
    assert!(matches!(all, EngineOp::DeleteAll { col: DBCol::Block }));
    let range = translate(&DBOp::DeleteRange { col, from: vec![1], to: vec![9] });
    assert!(matches!(range, EngineOp::DeleteRange { col: DBCol::Block, from, to }
        if from == vec![1] && to == vec![9]));
}

#[test]
fn batch_translates_in_order() {
    let mut tx = DBTransaction::new();
    tx.set(DBCol::BlockMisc, b"a".to_vec(), b"1".to_vec());
    tx.update_refcount(DBCol::State, b"b".to_vec(), encode(b"p", 1));
    tx.delete_all(DBCol::ChunkExtra);
    tx.insert(DBCol::Chunks, b"c".to_vec(), b"3".to_vec());
    let calls = engine_batch(&tx);
    assert_eq!(calls.len(), 4);
    assert!(matches!(&calls[0], EngineOp::Put { col: DBCol::BlockMisc, key, .. } if key == b"a"));
    assert!(matches!(&calls[1], EngineOp::Merge { col: DBCol::State, key, .. } if key == b"b"));
    assert!(matches!(&calls[2], EngineOp::DeleteAll { col: DBCol::ChunkExtra }));
    assert!(matches!(&calls[3], EngineOp::Put { col: DBCol::Chunks, value, .. } if value == b"3"));
    assert!(engine_batch(&DBTransaction::new()).is_empty());
}
