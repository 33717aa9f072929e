use mview_table::codec::{deserialize_datum, serialize_datum};
use mview_table::keys::{make_cell_key, serialize_cell_idx, serialize_pk};
use mview_table::order::bytes_lt;
use mview_table::state::ManagedMViewState;
use mview_table::store::{MemoryStateStore, WriteOp};
use mview_table::table::{Keyspace, MViewTable};
use mview_table::types::{DataType, Field, OrderType, Row, ScalarImpl, Schema, TableError};

fn some_i32(v: i32) -> Option<ScalarImpl> {
    Some(ScalarImpl::Int32(v))
}

fn some_str(s: &str) -> Option<ScalarImpl> {
    Some(ScalarImpl::Utf8(s.to_string()))
}

fn int_table_parts() -> (Keyspace, Schema, Vec<usize>, Vec<OrderType>) {
    let schema = Schema::new(vec![
        Field::new(DataType::Int32),
        Field::new(DataType::Int32),
        Field::new(DataType::Int32),
    ]);
    (
        Keyspace::executor_root(0x42),
        schema,
        vec![0, 1],
        vec![OrderType::Ascending, OrderType::Descending],
    )
}

#[test]
fn i32_cell_encoding_is_sign_flipped_big_endian() {
    assert_eq!(serialize_datum(&some_i32(1)).unwrap(), vec![1, 0x80, 0, 0, 1]);
    assert_eq!(serialize_datum(&some_i32(-1)).unwrap(), vec![1, 0x7f, 0xff, 0xff, 0xff]);
    assert_eq!(serialize_datum(&None).unwrap(), vec![0]);
}

#[test]
fn string_cell_encoding_uses_groups_of_eight() {
    let enc = serialize_datum(&some_str("ab")).unwrap();
    assert_eq!(enc, vec![1, 1, b'a', b'b', 0, 0, 0, 0, 0, 0, 2]);
    assert_eq!(serialize_datum(&some_str("")).unwrap(), vec![1, 0]);
}

#[test]
fn cell_round_trip() {
    let cases = vec![
        (some_i32(0), DataType::Int32),
        (some_i32(i32::MIN), DataType::Int32),
        (some_i32(i32::MAX), DataType::Int32),
        (None, DataType::Int32),
        (some_str(""), DataType::Varchar),
        (some_str("hello, world, longer than eight"), DataType::Varchar),
        (some_str("12345678"), DataType::Varchar),
        (None, DataType::Varchar),
    ];
    for (d, t) in cases {
        let enc = serialize_datum(&d).unwrap();
        assert_eq!(deserialize_datum(&enc, t).unwrap(), d);
    }
}

#[test]
fn malformed_cells_are_rejected() {
    assert_eq!(deserialize_datum(&[], DataType::Int32), Err(TableError::Codec));
    assert_eq!(deserialize_datum(&[2], DataType::Int32), Err(TableError::Codec));
    assert_eq!(deserialize_datum(&[1, 0, 0], DataType::Int32), Err(TableError::Codec));
    assert_eq!(deserialize_datum(&[1, 1, b'a'], DataType::Varchar), Err(TableError::Codec));
}

#[test]
fn pk_encoding_preserves_order() {
    let asc_desc = vec![OrderType::Ascending, OrderType::Descending];
    let k = |a: i32, b: i32| serialize_pk(&Row(vec![some_i32(a), some_i32(b)]), &asc_desc).unwrap();
    // first column ascending
    assert!(bytes_lt(&k(-5, 0), &k(3, 0)));
    assert!(bytes_lt(&k(1, 11), &k(2, 22)));
    // second column descending
    assert!(bytes_lt(&k(1, 22), &k(1, 11)));
    assert!(!bytes_lt(&k(1, 11), &k(1, 22)));
    assert!(!bytes_lt(&k(1, 11), &k(1, 11)));
    // null first under ascending
    let asc = vec![OrderType::Ascending];
    let n = serialize_pk(&Row(vec![None]), &asc).unwrap();
    let m = serialize_pk(&Row(vec![some_i32(i32::MIN)]), &asc).unwrap();
    assert!(bytes_lt(&n, &m));
}

#[test]
fn cell_keys_have_prefix_pk_and_column() {
    assert_eq!(serialize_cell_idx(0x01020304), vec![1, 2, 3, 4]);
    let ks = Keyspace::executor_root(0x42);
    assert_eq!(ks.key(), &[b'e', 0, 0, 0, 0x42]);
    let key = make_cell_key(ks.key(), &[9, 9], 2);
    assert_eq!(key, vec![b'e', 0, 0, 0, 0x42, 9, 9, 0, 0, 0, 2]);
}

#[test]
fn store_keeps_keys_in_order() {
    let mut store = MemoryStateStore::new();
    store.put(vec![3], vec![30]);
    store.put(vec![1], vec![10]);
    store.put(vec![2, 0], vec![20]);
    store.put(vec![1], vec![11]);
    store.delete(&[3]);
    assert_eq!(store.get(&[1]), Some(vec![11]));
    assert_eq!(store.get(&[3]), None);
    store
        .ingest_batch(vec![WriteOp::Put(vec![2], vec![5]), WriteOp::Delete(vec![2, 0])], 7)
        .unwrap();
    let all = store.scan(&[]);
    assert_eq!(all, vec![(vec![1], vec![11]), (vec![2], vec![5])]);
    assert_eq!(store.scan(&[2]), vec![(vec![2], vec![5])]);
}

#[test]
fn last_write_wins_before_flush() {
    let (ks, schema, pk_columns, orderings) = int_table_parts();
    let mut store = MemoryStateStore::new();
    let mut state = ManagedMViewState::new(ks.clone(), schema.clone(), pk_columns.clone(), orderings.clone());
    let table = MViewTable::new(ks, schema, pk_columns, orderings);
    let pk = Row(vec![some_i32(1), some_i32(11)]);
    state.put(pk.clone(), Row(vec![some_i32(1), some_i32(11), some_i32(111)]));
    state.put(pk.clone(), Row(vec![some_i32(1), some_i32(11), some_i32(999)]));
    state.flush(&mut store, 1).unwrap();
    assert_eq!(table.get(&store, &pk, 2).unwrap(), Some(some_i32(999)));
    let mut iter = table.iter(&store).unwrap();
    assert_eq!(iter.next().unwrap(), Some(Row(vec![some_i32(1), some_i32(11), some_i32(999)])));
    assert_eq!(iter.next().unwrap(), None);
}

#[test]
fn delete_after_flush_removes_row() {
    let (ks, schema, pk_columns, orderings) = int_table_parts();
    let mut store = MemoryStateStore::new();
    let mut state = ManagedMViewState::new(ks.clone(), schema.clone(), pk_columns.clone(), orderings.clone());
    let table = MViewTable::new(ks, schema, pk_columns, orderings);
    let pk = Row(vec![some_i32(5), some_i32(6)]);
    state.put(pk.clone(), Row(vec![some_i32(5), some_i32(6), None]));
    state.flush(&mut store, 1).unwrap();
    assert_eq!(table.get(&store, &pk, 2).unwrap(), Some(None));
    state.delete(pk.clone());
    state.flush(&mut store, 2).unwrap();
    for i in 0..3 {
        assert_eq!(table.get(&store, &pk, i).unwrap(), None);
    }
    assert_eq!(table.iter(&store).unwrap().next().unwrap(), None);
}

#[test]
fn scan_yields_rows_in_declared_order() {
    let (ks, schema, pk_columns, orderings) = int_table_parts();
    let mut store = MemoryStateStore::new();
    let mut state = ManagedMViewState::new(ks.clone(), schema.clone(), pk_columns.clone(), orderings.clone());
    let table = MViewTable::new(ks, schema, pk_columns, orderings);
    for (a, b) in [(2, 1), (1, 1), (1, 2), (-3, 0)] {
        state.put(Row(vec![some_i32(a), some_i32(b)]), Row(vec![some_i32(a), some_i32(b), some_i32(a * b)]));
    }
    state.flush(&mut store, 0).unwrap();
    let mut iter = table.iter(&store).unwrap();
    let mut seen = vec![];
    while let Some(row) = iter.next().unwrap() {
        seen.push(row);
    }
    let expect: Vec<Row> = [(-3, 0), (1, 2), (1, 1), (2, 1)]
        .iter()
        .map(|&(a, b)| Row(vec![some_i32(a), some_i32(b), some_i32(a * b)]))
        .collect();
    assert_eq!(seen, expect);
}

#[test]
fn invalid_arguments_are_rejected() {
    let (ks, schema, pk_columns, orderings) = int_table_parts();
    let store = MemoryStateStore::new();
    let table = MViewTable::new(ks, schema, pk_columns, orderings);
    let pk = Row(vec![some_i32(1), some_i32(11)]);
    assert_eq!(table.get(&store, &pk, 3), Err(TableError::InvalidArgument));
    assert_eq!(table.get(&store, &Row(vec![some_i32(1)]), 0), Err(TableError::InvalidArgument));
    assert_eq!(table.get(&store, &pk, 0), Ok(None));
    assert_eq!(table.schema().len(), 3);
}

#[test]
fn incomplete_row_is_reported() {
    let (ks, schema, pk_columns, orderings) = int_table_parts();
    let mut store = MemoryStateStore::new();
    let table = MViewTable::new(ks.clone(), schema, pk_columns, orderings.clone());
    let pk = serialize_pk(&Row(vec![some_i32(1), some_i32(11)]), &orderings).unwrap();
    for col in 0..2u32 {
        let key = make_cell_key(ks.key(), &pk, col);
        store.put(key, serialize_datum(&some_i32(col as i32)).unwrap());
    }
    let mut iter = table.iter(&store).unwrap();
    assert_eq!(iter.next(), Err(TableError::IncompleteItem));
}

#[test]
fn incomplete_row_followed_by_another_is_reported() {
    let (ks, schema, pk_columns, orderings) = int_table_parts();
    let mut store = MemoryStateStore::new();
    let table = MViewTable::new(ks.clone(), schema, pk_columns, orderings.clone());
    let pk1 = serialize_pk(&Row(vec![some_i32(1), some_i32(11)]), &orderings).unwrap();
    let pk2 = serialize_pk(&Row(vec![some_i32(2), some_i32(22)]), &orderings).unwrap();
    store.put(make_cell_key(ks.key(), &pk1, 0), serialize_datum(&some_i32(1)).unwrap());
    for col in 0..3u32 {
        store.put(make_cell_key(ks.key(), &pk2, col), serialize_datum(&some_i32(2)).unwrap());
    }
    let mut iter = table.iter(&store).unwrap();
    assert_eq!(iter.next(), Err(TableError::IncompleteItem));
}

#[test]
fn short_key_is_reported_as_malformed() {
    let (ks, schema, pk_columns, orderings) = int_table_parts();
    let mut store = MemoryStateStore::new();
    let table = MViewTable::new(ks.clone(), schema, pk_columns, orderings);
    let mut key = ks.key().to_vec();
    key.push(1);
    store.put(key, vec![0]);
    let mut iter = table.iter(&store).unwrap();
    assert_eq!(iter.next(), Err(TableError::MalformedKey));
}

#[test]
fn undecodable_cell_is_reported() {
    let (ks, schema, pk_columns, orderings) = int_table_parts();
    let mut store = MemoryStateStore::new();
    let table = MViewTable::new(ks.clone(), schema, pk_columns, orderings.clone());
    let pk = serialize_pk(&Row(vec![some_i32(1), some_i32(11)]), &orderings).unwrap();
    for col in 0..3u32 {
        store.put(make_cell_key(ks.key(), &pk, col), vec![7]);
    }
    let mut iter = table.iter(&store).unwrap();
    assert_eq!(iter.next(), Err(TableError::Codec));
    let pk_row = Row(vec![some_i32(1), some_i32(11)]);
    assert_eq!(table.get(&store, &pk_row, 0), Err(TableError::Codec));
}
