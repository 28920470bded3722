//! The block filter index: building, probing, predicate rewriting and
//! the stored byte form.

use query_core::bloom::{
    BlockFilter, FilterEvalResult, FunctionContext, TableField, TableSchema,
    FILTER_FORMAT_VERSION,
};
use query_core::digest::digest_value;
use query_core::expr::Expr;
use query_core::value::{Column, DataBlock, DataType, TypeID, Value};
use query_core::xor_filter::{build_filter, filter_contains, FilterParts};

fn name_block() -> (TableSchema, DataBlock) {
    let schema = TableSchema {
        fields: vec![TableField {
            name: "name".to_string(),
            data_type: DataType { id: TypeID::Utf8, nullable: false },
        }],
    };
    let column = Column {
        name: "name".to_string(),
        data_type: DataType { id: TypeID::Utf8, nullable: false },
        values: vec![
            Value::Utf8("Alice".to_string()),
            Value::Utf8("Bob".to_string()),
        ],
    };
    let block = DataBlock::create(vec![column]).unwrap();
    (schema, block)
}

fn utf8_type() -> DataType {
    DataType { id: TypeID::Utf8, nullable: false }
}

fn eq_expr(column: &str, value: Value) -> Expr {
    Expr::FunctionCall {
        name: "eq".to_string(),
        args: vec![
            Expr::ColumnRef { id: column.to_string(), data_type: utf8_type() },
            Expr::Constant { scalar: value, data_type: utf8_type() },
        ],
        return_type: DataType { id: TypeID::Boolean, nullable: false },
    }
}

fn build_name_filter() -> BlockFilter {
    let (schema, block) = name_block();
    BlockFilter::try_create(FunctionContext {}, schema, FILTER_FORMAT_VERSION, &vec![block])
        .unwrap()
}

#[test]
fn find_never_refutes_a_present_value() {
    let bf = build_name_filter();
    for present in ["Alice", "Bob"] {
        let verdict = bf
            .find("name", &Value::Utf8(present.to_string()), &utf8_type())
            .unwrap();
        assert_eq!(verdict, FilterEvalResult::Uncertain);
    }
}

#[test]
fn find_refutes_an_absent_value() {
    let bf = build_name_filter();
    let verdict = bf
        .find("name", &Value::Utf8("Carol".to_string()), &utf8_type())
        .unwrap();
    assert_eq!(verdict, FilterEvalResult::MustFalse);
}

#[test]
fn find_is_uncertain_without_a_filter_or_for_null() {
    let bf = build_name_filter();
    let other = bf
        .find("age", &Value::UInt64(3), &DataType { id: TypeID::UInt64, nullable: false })
        .unwrap();
    assert_eq!(other, FilterEvalResult::Uncertain);
    let null = bf.find("name", &Value::Null, &utf8_type()).unwrap();
    assert_eq!(null, FilterEvalResult::Uncertain);
}

#[test]
fn eval_prunes_absent_equality() {
    let bf = build_name_filter();
    let uncertain = bf
        .eval(eq_expr("name", Value::Utf8("Alice".to_string())))
        .unwrap();
    assert_eq!(uncertain, FilterEvalResult::Uncertain);
    let must_false = bf
        .eval(eq_expr("name", Value::Utf8("Carol".to_string())))
        .unwrap();
    assert_eq!(must_false, FilterEvalResult::MustFalse);
}

#[test]
fn eval_keeps_a_disjunction_with_one_present_side() {
    let bf = build_name_filter();
    let expr = Expr::FunctionCall {
        name: "or".to_string(),
        args: vec![
            eq_expr("name", Value::Utf8("Carol".to_string())),
            eq_expr("name", Value::Utf8("Bob".to_string())),
        ],
        return_type: DataType { id: TypeID::Boolean, nullable: false },
    };
    assert_eq!(bf.eval(expr).unwrap(), FilterEvalResult::Uncertain);
    let both_absent = Expr::FunctionCall {
        name: "or".to_string(),
        args: vec![
            eq_expr("name", Value::Utf8("Carol".to_string())),
            eq_expr("name", Value::Utf8("Dan".to_string())),
        ],
        return_type: DataType { id: TypeID::Boolean, nullable: false },
    };
    assert_eq!(bf.eval(both_absent).unwrap(), FilterEvalResult::MustFalse);
}

#[test]
fn eval_of_null_equality_is_uncertain() {
    let bf = build_name_filter();
    assert_eq!(
        bf.eval(eq_expr("name", Value::Null)).unwrap(),
        FilterEvalResult::Uncertain
    );
}

#[test]
fn find_eq_columns_collects_names() {
    let expr = Expr::FunctionCall {
        name: "or".to_string(),
        args: vec![
            eq_expr("a", Value::UInt64(1)),
            eq_expr("b", Value::UInt64(2)),
        ],
        return_type: DataType { id: TypeID::Boolean, nullable: false },
    };
    let cols = BlockFilter::find_eq_columns(&expr).unwrap();
    assert_eq!(cols, vec!["a".to_string(), "b".to_string()]);
}

#[test]
fn try_create_rejects_empty_input() {
    let schema = TableSchema { fields: Vec::new() };
    let err =
        BlockFilter::try_create(FunctionContext {}, schema, FILTER_FORMAT_VERSION, &Vec::new())
            .unwrap_err();
    assert_eq!(err.kind(), query_core::ErrorKind::BadArguments);
}

#[test]
fn distinct_counts_are_recorded() {
    let (schema, block) = name_block();
    let bf = BlockFilter::try_create(FunctionContext {}, schema, FILTER_FORMAT_VERSION, &vec![
        block,
    ])
    .unwrap();
    assert_eq!(bf.column_distinct_count, vec![(0, 2)]);
}

#[test]
fn filter_column_names_are_synthetic() {
    assert_eq!(BlockFilter::build_filter_column_name("age"), "Bloom(age)");
}

#[test]
fn loading_a_filter_block_validates_its_shape() {
    let bf = build_name_filter();
    let reloaded = BlockFilter::from_filter_block(
        FunctionContext {},
        bf.source_schema.clone(),
        bf.filter_schema.clone(),
        bf.filter_block.clone(),
        FILTER_FORMAT_VERSION,
    )
    .unwrap();
    let verdict = reloaded
        .find("name", &Value::Utf8("Carol".to_string()), &utf8_type())
        .unwrap();
    assert_eq!(verdict, FilterEvalResult::MustFalse);

    let bad = BlockFilter::from_filter_block(
        FunctionContext {},
        bf.source_schema.clone(),
        bf.filter_schema.clone(),
        DataBlock::empty(),
        FILTER_FORMAT_VERSION,
    )
    .unwrap_err();
    assert_eq!(bad.kind(), query_core::ErrorKind::BadArguments);
}

#[test]
fn filter_bytes_round_trip() {
    let digests = vec![1u64, 2, 3, 2];
    let (parts, distinct) = build_filter(&digests);
    assert_eq!(distinct, 3);
    for d in [1u64, 2, 3] {
        assert!(filter_contains(&parts, d));
    }
    let bytes = parts.to_bytes();
    let back = FilterParts::from_bytes(&bytes).unwrap();
    assert_eq!(back.seed, parts.seed);
    assert_eq!(back.block_length, parts.block_length);
    assert_eq!(back.finger_prints, parts.finger_prints);
    for d in [1u64, 2, 3] {
        assert!(filter_contains(&back, d));
    }
    let garbage = vec![9u8; 7];
    assert!(FilterParts::from_bytes(&garbage).is_err());
}

#[test]
fn digests_are_deterministic_and_type_tagged() {
    let a = Value::Utf8("x".to_string());
    let b = Value::Utf8("x".to_string());
    assert_eq!(digest_value(&a), digest_value(&b));
    // The same payload under a different kind digests differently.
    let n = Value::UInt64(120);
    let s = Value::Utf8("x".to_string());
    assert_ne!(digest_value(&n), digest_value(&s));
}

#[test]
fn a_must_false_verdict_refutes_every_row() {
    // The law behind the verdict, on concrete values: once `eval`
    // answers `MustFalse`, no row of the blocks the filter was built
    // over satisfies the predicate under row evaluation.
    let (schema, block) = name_block();
    let filter = BlockFilter::try_create(
        FunctionContext {},
        schema,
        FILTER_FORMAT_VERSION,
        &vec![block],
    )
    .unwrap();
    let probe = eq_expr("name", Value::Utf8("Mallory".to_string()));
    assert_eq!(filter.eval(probe).unwrap(), FilterEvalResult::MustFalse);
    let predicate = eq_expr("name", Value::Utf8("Mallory".to_string()));
    let (_, block) = name_block();
    for row in 0..block.num_rows() {
        let outcome = query_core::expr::eval_row_exec(&predicate, &block, row);
        let satisfied = matches!(outcome, Some(Value::Boolean(true)));
        assert!(!satisfied);
    }
}
