//! The group-by kernel and the block model, exercised on concrete
//! blocks.

use query_core::group_by::{boost_hash_combine, AsU64, IdHasher, IdxHash, StrHash};
use query_core::value::{Column, DataBlock, DataType, TypeID, Value};

fn uint_column(name: &str, values: &[u64]) -> Column {
    Column {
        name: name.to_string(),
        data_type: DataType { id: TypeID::UInt64, nullable: false },
        values: values.iter().map(|v| Value::UInt64(*v)).collect(),
    }
}

fn block_of(columns: Vec<Column>) -> DataBlock {
    DataBlock::create(columns).expect("columns must agree in row count")
}

#[test]
fn group_by_modulo_partitions_rows() {
    // Column A = [1,2,3,4,5], grouped by the computed key column A % 3.
    let a = uint_column("A", &[1, 2, 3, 4, 5]);
    let keys = uint_column("K", &[1 % 3, 2 % 3, 3 % 3, 4 % 3, 5 % 3]);
    let block = block_of(vec![a, keys]);
    let table = DataBlock::group_by_get_indices(&block, &vec!["K".to_string()]).unwrap();
    // First-seen order of keys: 1 (rows 0 and 3), 2 (rows 1 and 4), 0 (row 2).
    assert_eq!(table.len(), 3);
    assert_eq!(table[0].1, vec![0, 3]);
    assert_eq!(table[1].1, vec![1, 4]);
    assert_eq!(table[2].1, vec![2]);
    // Representatives lead their buckets.
    assert_eq!(table[0].0.idx, 0);
    assert_eq!(table[1].0.idx, 1);
    assert_eq!(table[2].0.idx, 2);
}

#[test]
fn group_by_materializes_sub_blocks() {
    let a = uint_column("A", &[10, 20, 10]);
    let block = block_of(vec![a]);
    let groups = DataBlock::group_by(&block, &vec!["A".to_string()]).unwrap();
    assert_eq!(groups.len(), 2);
    // Bucket of value 10 holds rows 0 and 2; bucket of 20 holds row 1.
    assert_eq!(groups[0].1.num_rows(), 2);
    assert_eq!(groups[1].1.num_rows(), 1);
    // Concatenating the sub-blocks reproduces every row exactly once.
    let total: usize = groups.iter().map(|(_, b)| b.num_rows()).sum();
    assert_eq!(total, 3);
}

#[test]
fn group_by_empty_block_yields_empty_table() {
    let a = uint_column("A", &[]);
    let block = block_of(vec![a]);
    let table = DataBlock::group_by_get_indices(&block, &vec!["A".to_string()]).unwrap();
    assert_eq!(table.len(), 0);
}

#[test]
fn group_by_empty_column_list_yields_one_bucket() {
    let a = uint_column("A", &[7, 8, 9]);
    let block = block_of(vec![a]);
    let table = DataBlock::group_by_get_indices(&block, &Vec::new()).unwrap();
    assert_eq!(table.len(), 1);
    assert_eq!(table[0].1, vec![0, 1, 2]);
}

#[test]
fn group_by_unknown_column_is_reported() {
    let a = uint_column("A", &[1]);
    let block = block_of(vec![a]);
    let err = DataBlock::group_by_get_indices(&block, &vec!["B".to_string()]).unwrap_err();
    assert_eq!(err.kind(), query_core::ErrorKind::UnknownColumn);
}

#[test]
fn hash_combiner_is_bit_exact() {
    assert_eq!(boost_hash_combine(0, 0), 0x9e3779b9);
    assert_eq!(boost_hash_combine(1, 1), 1 ^ 0x9e3779fau64);
}

#[test]
fn id_hasher_passes_integers_through() {
    let mut h = IdHasher::default();
    assert_eq!(h.finish(), 0);
    h.write_u64(42);
    assert_eq!(h.finish(), 42);
    h.write_u32(7);
    assert_eq!(h.finish(), 7);
    h.write_i64(-1);
    assert_eq!(h.finish(), u64::MAX);
}

#[test]
fn key_conversions_to_u64() {
    assert_eq!(3u32.as_u64(), 3);
    assert_eq!(9u64.as_u64(), 9);
    assert_eq!(Some(5u32).as_u64(), 5);
    assert_eq!(Option::<u32>::None.as_u64(), u64::MAX);
    assert_eq!(Option::<u64>::None.as_u64(), u64::MAX);
    // The ninth byte (the null tag) is deliberately dropped.
    let key: [u8; 9] = [1, 0, 0, 0, 0, 0, 0, 0, 0xff];
    assert_eq!(key.as_u64(), 1);
    let hash = IdxHash::new(4, 99);
    assert_eq!(hash.idx, 4);
    assert_eq!(hash.hash, 99);
    let s = StrHash::new(Some("ab"), 7);
    let t = StrHash::new(Some("ab"), 8);
    assert!(s.same_str(&t));
    assert_eq!(s.as_u64(), 7);
}

#[test]
fn take_by_indices_reorders_rows() {
    let a = uint_column("A", &[10, 20, 30]);
    let block = block_of(vec![a]);
    let taken = DataBlock::block_take_by_indices(&block, &vec![2, 0]).unwrap();
    assert_eq!(taken.num_rows(), 2);
    match &taken.get_by_offset(0).values[0] {
        Value::UInt64(v) => assert_eq!(*v, 30),
        other => panic!("unexpected cell {:?}", other),
    }
    let err = DataBlock::block_take_by_indices(&block, &vec![3]).unwrap_err();
    assert_eq!(err.kind(), query_core::ErrorKind::BadArguments);
}

#[test]
fn slice_filter_and_resort() {
    let a = uint_column("A", &[1, 2, 3, 4]);
    let b = uint_column("B", &[5, 6, 7, 8]);
    let block = block_of(vec![a, b]);
    let sliced = block.slice(1, 2);
    assert_eq!(sliced.num_rows(), 2);

    let predicate = Column {
        name: "p".to_string(),
        data_type: DataType { id: TypeID::Boolean, nullable: false },
        values: vec![
            Value::Boolean(true),
            Value::Boolean(false),
            Value::Boolean(true),
            Value::Boolean(false),
        ],
    };
    let filtered = block.filter(&predicate).unwrap();
    assert_eq!(filtered.num_rows(), 2);

    let resorted = block.resort(&vec!["B".to_string(), "A".to_string()]).unwrap();
    assert_eq!(resorted.get_by_offset(0).name, "B");
    let err = block.resort(&vec!["C".to_string()]).unwrap_err();
    assert_eq!(err.kind(), query_core::ErrorKind::UnknownColumn);
}

#[test]
fn block_memory_size_counts_cells() {
    let a = uint_column("A", &[1, 2]);
    let s = Column {
        name: "S".to_string(),
        data_type: DataType { id: TypeID::Utf8, nullable: false },
        values: vec![Value::Utf8("ab".to_string()), Value::Utf8("c".to_string())],
    };
    let block = block_of(vec![a, s]);
    assert_eq!(block.memory_size(), 8 + 8 + 2 + 1);
}

#[test]
fn ragged_columns_are_rejected() {
    let a = uint_column("A", &[1, 2]);
    let b = uint_column("B", &[1]);
    let err = DataBlock::create(vec![a, b]).unwrap_err();
    assert_eq!(err.kind(), query_core::ErrorKind::BadArguments);
}
