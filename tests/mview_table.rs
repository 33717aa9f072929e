use mview_table::state::ManagedMViewState;
use mview_table::store::MemoryStateStore;
use mview_table::table::{Keyspace, MViewTable};
use mview_table::types::{DataType, Field, OrderType, Row, ScalarImpl, Schema};

fn i32_datum(v: i32) -> Option<ScalarImpl> {
    Some(ScalarImpl::Int32(v))
}

fn str_datum(s: &str) -> Option<ScalarImpl> {
    Some(ScalarImpl::Utf8(s.to_string()))
}

fn int_schema() -> Schema {
    Schema::new(vec![
        Field::new(DataType::Int32),
        Field::new(DataType::Int32),
        Field::new(DataType::Int32),
    ])
}

fn string_schema() -> Schema {
    Schema::new(vec![
        Field::new(DataType::Varchar),
        Field::new(DataType::Varchar),
        Field::new(DataType::Varchar),
    ])
}

#[test]
fn test_mview_table() {
    let mut state_store = MemoryStateStore::new();
    let schema = int_schema();
    let pk_columns = vec![0, 1];
    let orderings = vec![OrderType::Ascending, OrderType::Descending];
    let keyspace = Keyspace::executor_root(0x42);
    let mut state = ManagedMViewState::new(
        keyspace.clone(),
        schema.clone(),
        pk_columns.clone(),
        orderings.clone(),
    );
    let table = MViewTable::new(keyspace.clone(), schema, pk_columns.clone(), orderings);
    let epoch: u64 = 0;

    state.put(Row(vec![i32_datum(1), i32_datum(11)]), Row(vec![i32_datum(1), i32_datum(11), i32_datum(111)]));
    state.put(Row(vec![i32_datum(2), i32_datum(22)]), Row(vec![i32_datum(2), i32_datum(22), i32_datum(222)]));
    state.delete(Row(vec![i32_datum(2), i32_datum(22)]));
    state.flush(&mut state_store, epoch).unwrap();

    let cell_1_0 = table.get(&state_store, &Row(vec![i32_datum(1), i32_datum(11)]), 0).unwrap();
    assert!(cell_1_0.is_some());
    assert_eq!(*cell_1_0.unwrap().unwrap().as_int32(), 1);
    let cell_1_1 = table.get(&state_store, &Row(vec![i32_datum(1), i32_datum(11)]), 1).unwrap();
    assert!(cell_1_1.is_some());
    assert_eq!(*cell_1_1.unwrap().unwrap().as_int32(), 11);
    let cell_1_2 = table.get(&state_store, &Row(vec![i32_datum(1), i32_datum(11)]), 2).unwrap();
    assert!(cell_1_2.is_some());
    assert_eq!(*cell_1_2.unwrap().unwrap().as_int32(), 111);

    let cell_2_0 = table.get(&state_store, &Row(vec![i32_datum(2), i32_datum(22)]), 0).unwrap();
    assert!(cell_2_0.is_none());
    let cell_2_1 = table.get(&state_store, &Row(vec![i32_datum(2), i32_datum(22)]), 1).unwrap();
    assert!(cell_2_1.is_none());
    let cell_2_2 = table.get(&state_store, &Row(vec![i32_datum(2), i32_datum(22)]), 2).unwrap();
    assert!(cell_2_2.is_none());
}

#[test]
fn test_mview_table_for_string() {
    let mut state_store = MemoryStateStore::new();
    let schema = string_schema();
    let pk_columns = vec![0, 1];
    let orderings = vec![OrderType::Ascending, OrderType::Descending];
    let keyspace = Keyspace::executor_root(0x42);
    let mut state = ManagedMViewState::new(
        keyspace.clone(),
        schema.clone(),
        pk_columns.clone(),
        orderings.clone(),
    );
    let table = MViewTable::new(keyspace.clone(), schema, pk_columns.clone(), orderings);
    let epoch: u64 = 0;

    state.put(Row(vec![str_datum("1"), str_datum("11")]), Row(vec![str_datum("1"), str_datum("11"), str_datum("111")]));
    state.put(Row(vec![str_datum("2"), str_datum("22")]), Row(vec![str_datum("2"), str_datum("22"), str_datum("222")]));
    state.delete(Row(vec![str_datum("2"), str_datum("22")]));
    state.flush(&mut state_store, epoch).unwrap();

    let pk1 = Row(vec![str_datum("1"), str_datum("11")]);
    let cell_1_0 = table.get(&state_store, &pk1, 0).unwrap();
    assert!(cell_1_0.is_some());
    assert_eq!(
        Some(cell_1_0.unwrap().unwrap().as_utf8().to_string()),
        Some("1".to_string())
    );
    let cell_1_1 = table.get(&state_store, &pk1, 1).unwrap();
    assert!(cell_1_1.is_some());
    assert_eq!(
        Some(cell_1_1.unwrap().unwrap().as_utf8().to_string()),
        Some("11".to_string())
    );
    let cell_1_2 = table.get(&state_store, &pk1, 2).unwrap();
    assert!(cell_1_2.is_some());
    assert_eq!(
        Some(cell_1_2.unwrap().unwrap().as_utf8().to_string()),
        Some("111".to_string())
    );

    let pk2 = Row(vec![str_datum("2"), str_datum("22")]);
    let cell_2_0 = table.get(&state_store, &pk2, 0).unwrap();
    assert!(cell_2_0.is_none());
    let cell_2_1 = table.get(&state_store, &pk2, 1).unwrap();
    assert!(cell_2_1.is_none());
    let cell_2_2 = table.get(&state_store, &pk2, 2).unwrap();
    assert!(cell_2_2.is_none());
}

#[test]
fn test_mview_table_iter() {
    let mut state_store = MemoryStateStore::new();
    let schema = int_schema();
    let pk_columns = vec![0, 1];
    let orderings = vec![OrderType::Ascending, OrderType::Descending];
    let keyspace = Keyspace::executor_root(0x42);
    let mut state = ManagedMViewState::new(
        keyspace.clone(),
        schema.clone(),
        pk_columns.clone(),
        orderings.clone(),
    );
    let table = MViewTable::new(keyspace.clone(), schema, pk_columns.clone(), orderings);
    let epoch: u64 = 0;

    state.put(Row(vec![i32_datum(1), i32_datum(11)]), Row(vec![i32_datum(1), i32_datum(11), i32_datum(111)]));
    state.put(Row(vec![i32_datum(2), i32_datum(22)]), Row(vec![i32_datum(2), i32_datum(22), i32_datum(222)]));
    state.delete(Row(vec![i32_datum(2), i32_datum(22)]));
    state.flush(&mut state_store, epoch).unwrap();

    let mut iter = table.iter(&state_store).unwrap();

    let res = iter.next().unwrap();
    assert!(res.is_some());
    assert_eq!(Row(vec![i32_datum(1), i32_datum(11), i32_datum(111)]), res.unwrap());

    let res = iter.next().unwrap();
    assert!(res.is_none());
}

#[test]
fn test_multi_mview_table_iter() {
    let mut state_store = MemoryStateStore::new();
    let schema_1 = int_schema();
    let schema_2 = string_schema();
    let pk_columns = vec![0, 1];
    let orderings = vec![OrderType::Ascending, OrderType::Descending];

    let keyspace_1 = Keyspace::executor_root(0x1111);
    let keyspace_2 = Keyspace::executor_root(0x2222);
    let epoch: u64 = 0;

    let mut state_1 = ManagedMViewState::new(
        keyspace_1.clone(),
        schema_1.clone(),
        pk_columns.clone(),
        orderings.clone(),
    );
    let mut state_2 = ManagedMViewState::new(
        keyspace_2.clone(),
        schema_2.clone(),
        pk_columns.clone(),
        orderings.clone(),
    );

    let table_1 = MViewTable::new(
        keyspace_1.clone(),
        schema_1.clone(),
        pk_columns.clone(),
        orderings.clone(),
    );
    let table_2 = MViewTable::new(keyspace_2.clone(), schema_2.clone(), pk_columns.clone(), orderings);

    state_1.put(Row(vec![i32_datum(1), i32_datum(11)]), Row(vec![i32_datum(1), i32_datum(11), i32_datum(111)]));
    state_1.put(Row(vec![i32_datum(2), i32_datum(22)]), Row(vec![i32_datum(2), i32_datum(22), i32_datum(222)]));
    state_1.delete(Row(vec![i32_datum(2), i32_datum(22)]));

    state_2.put(Row(vec![str_datum("1"), str_datum("11")]), Row(vec![str_datum("1"), str_datum("11"), str_datum("111")]));
    state_2.put(Row(vec![str_datum("2"), str_datum("22")]), Row(vec![str_datum("2"), str_datum("22"), str_datum("222")]));
    state_2.delete(Row(vec![str_datum("2"), str_datum("22")]));

    state_1.flush(&mut state_store, epoch).unwrap();
    state_2.flush(&mut state_store, epoch).unwrap();

    let mut iter_1 = table_1.iter(&state_store).unwrap();
    let mut iter_2 = table_2.iter(&state_store).unwrap();

    let res_1_1 = iter_1.next().unwrap();
    assert!(res_1_1.is_some());
    assert_eq!(Row(vec![i32_datum(1), i32_datum(11), i32_datum(111)]), res_1_1.unwrap());
    let res_1_2 = iter_1.next().unwrap();
    assert!(res_1_2.is_none());

    let res_2_1 = iter_2.next().unwrap();
    assert!(res_2_1.is_some());
    assert_eq!(Row(vec![str_datum("1"), str_datum("11"), str_datum("111")]), res_2_1.unwrap());
    let res_2_2 = iter_2.next().unwrap();
    assert!(res_2_2.is_none());
}
