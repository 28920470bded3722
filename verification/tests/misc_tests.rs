//! The collaborator helpers: federated dispatch, the presign core,
//! the delete binder, plan formatting, the type registry entry, and
//! the scan source.

use query_core::binder::{resolve_projection, DeleteCollectPushDowns};
use query_core::bloom::{TableField, TableSchema};
use query_core::expr::Expr;
use query_core::federated::FederatedHelper;
use query_core::format::{
    pretty_display_agg_desc, AggregateFunctionDesc, AggregateFunctionSignature, ColumnEntry,
    FormatTreeNode, Metadata,
};
use query_core::fuse_source::{ChunkData, FuseNativeSource, PartInfo, SourceState};
use query_core::pipeline::{Event, PortArena};
use query_core::signer::{from_method, to_method, Operation, PresignRequest};
use query_core::value::{Column, DataBlock, DataType, TypeID, Value};
use query_core::variant_type::VariantObjectType;

fn bool_type() -> DataType {
    DataType { id: TypeID::Boolean, nullable: false }
}

fn uint_type() -> DataType {
    DataType { id: TypeID::UInt64, nullable: false }
}

#[test]
fn federated_answers_the_first_matching_rule() {
    let schema = TableSchema {
        fields: vec![TableField { name: "version".to_string(), data_type: uint_type() }],
    };
    let block = DataBlock::create(vec![Column {
        name: "version".to_string(),
        data_type: uint_type(),
        values: vec![Value::UInt64(8)],
    }])
    .unwrap();
    let rules = vec![
        ("^SELECT @@version".to_string(), Some((schema, block))),
        ("^SELECT".to_string(), None),
    ];
    let hit = FederatedHelper::block_match_rule("SELECT @@version", rules).unwrap();
    assert_eq!(hit.0.fields.len(), 1);
    assert_eq!(hit.1.num_rows(), 1);

    let rules2 = vec![("^SET ".to_string(), None)];
    let canned = FederatedHelper::block_match_rule("SET autocommit=1", rules2).unwrap();
    assert_eq!(canned.0.fields.len(), 0);
    assert_eq!(canned.1.num_columns(), 0);

    let rules3 = vec![("^SET ".to_string(), None)];
    assert!(FederatedHelper::block_match_rule("SELECT 1", rules3).is_none());

    let broken = vec![("(".to_string(), None)];
    assert!(FederatedHelper::block_match_rule("anything", broken).is_none());
}

#[test]
fn presign_core_maps_reads() {
    let req = PresignRequest::new("dir/file_a", Operation::Read);
    assert_eq!(req.path, "dir/file_a");
    assert_eq!(req.op, Operation::Read);
    let method = to_method(Operation::Read);
    assert_eq!(method, "GET");
    assert_eq!(from_method(method.as_str()), Operation::Read);
}

#[test]
fn delete_binder_collects_and_resolves_columns() {
    // a = 1 and b = a
    let predicate = Expr::FunctionCall {
        name: "and".to_string(),
        args: vec![
            Expr::FunctionCall {
                name: "eq".to_string(),
                args: vec![
                    Expr::ColumnRef { id: "a".to_string(), data_type: uint_type() },
                    Expr::Constant { scalar: Value::UInt64(1), data_type: uint_type() },
                ],
                return_type: bool_type(),
            },
            Expr::FunctionCall {
                name: "eq".to_string(),
                args: vec![
                    Expr::ColumnRef { id: "b".to_string(), data_type: uint_type() },
                    Expr::ColumnRef { id: "a".to_string(), data_type: uint_type() },
                ],
                return_type: bool_type(),
            },
        ],
        return_type: bool_type(),
    };
    let mut columns: Vec<String> = Vec::new();
    DeleteCollectPushDowns::visit_filter(&predicate, &mut columns).unwrap();
    assert_eq!(columns, vec!["a".to_string(), "b".to_string()]);

    let schema = TableSchema {
        fields: vec![
            TableField { name: "b".to_string(), data_type: uint_type() },
            TableField { name: "a".to_string(), data_type: uint_type() },
        ],
    };
    let projection = resolve_projection(&schema, &columns).unwrap();
    assert_eq!(projection, vec![1, 0]);

    let missing = resolve_projection(&schema, &vec!["c".to_string()]).unwrap_err();
    assert_eq!(missing.kind(), query_core::ErrorKind::UnknownColumn);
}

#[test]
fn format_tree_renders_with_indentation() {
    let tree = FormatTreeNode::with_children("Filter".to_string(), vec![
        FormatTreeNode::new("filters: [a = 1]".to_string()),
        FormatTreeNode::with_children("TableScan".to_string(), vec![FormatTreeNode::new(
            "table: t".to_string(),
        )]),
    ]);
    let rendered = tree.format_pretty();
    assert_eq!(
        rendered,
        "Filter\n  filters: [a = 1]\n  TableScan\n    table: t\n"
    );
}

#[test]
fn aggregate_descriptions_display_their_arguments() {
    let metadata = Metadata {
        columns: vec![
            ColumnEntry::BaseTableColumn { column_name: "price".to_string() },
            ColumnEntry::DerivedColumn { alias: "qty".to_string() },
        ],
    };
    let desc = AggregateFunctionDesc {
        sig: AggregateFunctionSignature { name: "sum".to_string() },
        arg_indices: vec![0, 1],
    };
    assert_eq!(pretty_display_agg_desc(&desc, &metadata), "sum(price, qty)");
    let no_args = AggregateFunctionDesc {
        sig: AggregateFunctionSignature { name: "count".to_string() },
        arg_indices: Vec::new(),
    };
    assert_eq!(pretty_display_agg_desc(&no_args, &metadata), "count()");
}

#[test]
fn variant_object_registry_entry() {
    let ty = VariantObjectType::new_impl();
    assert_eq!(ty.id, TypeID::VariantObject);
    assert!(!ty.nullable);
    let v = VariantObjectType {};
    assert_eq!(v.data_type_id(), TypeID::VariantObject);
    assert_eq!(v.display_name(), "Object");
}

#[test]
fn scan_source_walks_its_states() {
    let mut ports = PortArena::new();
    let out = ports.add_port();
    let mut source = FuseNativeSource::create(
        vec![PartInfo { name: "p0".to_string() }],
        out,
        vec!["a".to_string()],
        1,
        None,
        true,
    );
    // First poll picks the partition and asks for synchronous work.
    assert_eq!(source.source_event(&mut ports).unwrap(), Event::Sync);
    assert!(matches!(source.state, SourceState::ReadData(Some(_))));
    // The driver reads the partition and hands the chunks over.
    let chunks = vec![ChunkData {
        index: 0,
        arrays: vec![Column {
            name: "a".to_string(),
            data_type: uint_type(),
            values: vec![Value::UInt64(1), Value::UInt64(2)],
        }],
    }];
    source.on_chunks_read(chunks).unwrap();
    // Deserializing assembles and holds a block.
    assert_eq!(source.source_event(&mut ports).unwrap(), Event::Sync);
    source.source_process().unwrap();
    assert!(matches!(source.state, SourceState::Generated(_, _)));
    // The next poll pushes it downstream.
    assert_eq!(source.source_event(&mut ports).unwrap(), Event::NeedConsume);
    assert!(ports.has_data(out));
    assert_eq!(source.scan_rows, 2);
    // The exhausted chunks send the source back for the next partition,
    // and with no partition left it finishes.
    let _ = ports.pull_data(out);
    source.source_process().unwrap();
    assert!(matches!(source.state, SourceState::ReadData(None)));
    assert_eq!(source.source_event(&mut ports).unwrap(), Event::Finished);
    assert!(ports.is_finished(out));
}

#[test]
fn scan_source_filters_rows_with_its_predicate() {
    let mut ports = PortArena::new();
    let out = ports.add_port();
    let predicate = Expr::FunctionCall {
        name: "eq".to_string(),
        args: vec![
            Expr::ColumnRef { id: "a".to_string(), data_type: uint_type() },
            Expr::Constant { scalar: Value::UInt64(2), data_type: uint_type() },
        ],
        return_type: bool_type(),
    };
    let mut source = FuseNativeSource::create(
        vec![PartInfo { name: "p0".to_string() }],
        out,
        vec!["a".to_string()],
        1,
        Some(predicate),
        true,
    );
    assert_eq!(source.source_event(&mut ports).unwrap(), Event::Sync);
    let chunks = vec![ChunkData {
        index: 0,
        arrays: vec![Column {
            name: "a".to_string(),
            data_type: uint_type(),
            values: vec![Value::UInt64(1), Value::UInt64(2), Value::UInt64(2)],
        }],
    }];
    source.on_chunks_read(chunks).unwrap();
    source.source_process().unwrap();
    match &source.state {
        SourceState::Generated(block, _) => assert_eq!(block.num_rows(), 2),
        other => panic!("unexpected state {:?}", state_name(other)),
    }
}

fn state_name(s: &SourceState) -> &'static str {
    match s {
        SourceState::ReadData(_) => "ReadData",
        SourceState::Deserialize(_) => "Deserialize",
        SourceState::Generated(_, _) => "Generated",
        SourceState::Finish => "Finish",
    }
}

#[test]
fn scan_source_rejects_work_in_the_wrong_state() {
    let mut source = FuseNativeSource::create(
        Vec::new(),
        0,
        Vec::new(),
        0,
        None,
        true,
    );
    // Waiting for a partition is no state for a synchronous step.
    let err = source.source_process().unwrap_err();
    assert_eq!(err.kind(), query_core::ErrorKind::Internal);
    assert_eq!(err.message(), "It's a bug.");
    assert!(matches!(source.state, SourceState::Finish));
}

#[test]
fn values_compare_pointwise() {
    assert!(Value::UInt64(3).equals(&Value::UInt64(3)));
    assert!(!Value::UInt64(3).equals(&Value::Int64(3)));
    assert!(Value::Null.equals(&Value::Null));
    assert!(!Value::Null.equals(&Value::UInt64(0)));
    assert!(Value::Utf8("a".to_string()).equals(&Value::Utf8("a".to_string())));
    assert!(Value::Bytes(vec![1, 2]).equals(&Value::Bytes(vec![1, 2])));
    assert!(!Value::Bytes(vec![1]).equals(&Value::Bytes(vec![2])));
}
