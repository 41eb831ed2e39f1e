use splayed::filter::{Filter, FilterValue, Operator, SymbolSelection, TimeRange};
use splayed::hint::{
    translate, Hint, HintColumn, HintExpr, HintLiteral, HintType, HintValue,
};
use splayed::lazy::{
    columns_in_batch, dataset_columns, field_columns, frame_request, partition_constant,
    query_type, stored_columns, table_columns, table_layout, PartitionColumn,
    PartitionColumnKind, PartitionConstant,
};
use splayed::{DataType, FieldSchema, TimeType};

fn strings(list: &[&str]) -> Vec<String> {
    list.iter().map(|s| s.to_string()).collect()
}

fn columns() -> Vec<HintColumn> {
    table_layout(
        TimeType::Date32,
        &[
            FieldSchema::new("close", DataType::Float64),
            FieldSchema::new("vol", DataType::UInt32),
        ],
        &[
            PartitionColumn { name: "year".to_string(), kind: PartitionColumnKind::Int64 },
            PartitionColumn { name: "exch".to_string(), kind: PartitionColumnKind::String },
        ],
    )
}

fn names(columns: &[HintColumn]) -> Vec<&str> {
    columns.iter().map(|c| c.name.as_str()).collect()
}

fn value(literal: HintLiteral) -> HintValue {
    HintValue { literal, double: None, single: None }
}

fn float(v: f64) -> HintValue {
    HintValue {
        literal: HintLiteral::Float { whole: if v.fract() == 0.0 { Some(v as i64) } else { None } },
        double: Some(v.to_bits()),
        single: None,
    }
}

fn compare(left: HintExpr, op: Operator, right: HintExpr) -> HintExpr {
    HintExpr::Compare { left: Box::new(left), op, right: Box::new(right) }
}

fn col(name: &str) -> HintExpr {
    HintExpr::Column(name.to_string())
}

fn and(a: HintExpr, b: HintExpr) -> HintExpr {
    HintExpr::And(Box::new(a), Box::new(b))
}

fn partitions() -> Vec<String> {
    strings(&["year", "exch"])
}

fn hint(expr: HintExpr) -> Hint {
    translate(Some(expr), &columns(), &partitions())
}

#[test]
fn a_table_shows_time_symbol_fields_and_partitions() {
    let c = columns();
    assert_eq!(names(&c), vec!["time", "sym", "close", "vol", "year", "exch"]);
    let kinds: Vec<HintType> = c.iter().map(|c| c.kind).collect();
    assert_eq!(
        kinds,
        vec![
            HintType::Date,
            HintType::Text,
            HintType::Float64,
            HintType::UInt32,
            HintType::Int64,
            HintType::Text,
        ]
    );
    let c = table_layout(TimeType::TimestampUs, &[], &[]);
    assert_eq!(c[0].kind, HintType::Datetime);
    assert_eq!(query_type(DataType::Date64), HintType::Date);
    assert_eq!(query_type(DataType::Bool), HintType::Boolean);
}

#[test]
fn a_table_keeps_the_order_of_its_columns() {
    let asked = strings(&["exch", "close", "time", "nothing"]);
    let out = table_columns(&columns(), Some(&asked));
    assert_eq!(out, vec!["time", "close", "exch"]);
    let stored = stored_columns(&out, &partitions());
    assert_eq!(stored, vec!["time", "close"]);
    assert_eq!(field_columns(&stored), vec!["close"]);
    assert_eq!(table_columns(&columns(), None).len(), 6);
}

#[test]
fn a_dataset_keeps_the_order_that_is_asked_for() {
    let asked = strings(&["close", "time"]);
    assert_eq!(dataset_columns(&columns(), Some(asked)), vec!["close", "time"]);
    assert_eq!(dataset_columns(&columns(), None).len(), 6);
}

#[test]
fn columns_of_a_batch_come_in_its_order() {
    let batch = strings(&["time", "sym", "close", "vol"]);
    let wanted = strings(&["vol", "time", "close"]);
    let pairs = columns_in_batch(&wanted, &batch, "scan").unwrap();
    assert_eq!(pairs, vec![(0, 1), (2, 2), (3, 0)]);
    let wanted = strings(&["vol", "open"]);
    assert_eq!(
        columns_in_batch(&wanted, &batch, "batch").unwrap_err(),
        "column open not in batch"
    );
    assert_eq!(
        columns_in_batch(&wanted, &batch, "scan").unwrap_err(),
        "column open not in scan"
    );
}

#[test]
fn partition_constants() {
    let declared = vec![
        ("year".to_string(), "2024".to_string()),
        ("exch".to_string(), "NY".to_string()),
    ];
    let column = |name: &str, kind: PartitionColumnKind| PartitionColumn { name: name.to_string(), kind };
    match partition_constant(&declared, &column("year", PartitionColumnKind::Int64)) {
        PartitionConstant::Int64(n) => assert_eq!(n, 2024),
        other => panic!("{other:?}"),
    }
    match partition_constant(&declared, &column("exch", PartitionColumnKind::Int64)) {
        PartitionConstant::Int64(n) => assert_eq!(n, 0),
        other => panic!("{other:?}"),
    }
    match partition_constant(&declared, &column("exch", PartitionColumnKind::String)) {
        PartitionConstant::Text(s) => assert_eq!(s, "NY"),
        other => panic!("{other:?}"),
    }
    match partition_constant(&declared, &column("none", PartitionColumnKind::String)) {
        PartitionConstant::Text(s) => assert_eq!(s, ""),
        other => panic!("{other:?}"),
    }
}

#[test]
fn a_frame_asks_for_columns_and_rows() {
    let r = frame_request(Some(strings(&["close"])), Some(7));
    assert_eq!(r.projection, vec!["close"]);
    assert_eq!(r.limit, Some(7));
    assert!(r.sym.is_none() && r.time.is_none() && r.predicate.is_none());
    let r = frame_request(None, None);
    assert!(r.projection.is_empty() && r.limit.is_none());
}

#[test]
fn nothing_to_translate() {
    let h = translate(None, &columns(), &partitions());
    assert!(h.symbols.is_none() && h.time_range.is_none());
    assert!(h.filters.is_empty() && h.partition_filters.is_empty());
    let h = hint(HintExpr::Other);
    assert!(h.filters.is_empty());
}

#[test]
fn a_chain_of_conditions_is_translated() {
    let h = hint(and(
        and(
            compare(col("sym"), Operator::Eq, HintExpr::Literal(value(HintLiteral::Text("A".into())))),
            compare(col("time"), Operator::GtEq, HintExpr::Literal(value(HintLiteral::Int32(10)))),
        ),
        and(
            compare(col("time"), Operator::Lt, HintExpr::Literal(value(HintLiteral::Int64(20)))),
            compare(col("close"), Operator::Gt, HintExpr::Literal(float(1.5))),
        ),
    ));
    match h.symbols {
        Some(SymbolSelection::Symbols(v)) => assert_eq!(v, vec!["A"]),
        other => panic!("{other:?}"),
    }
    assert_eq!(h.time_range, Some(TimeRange { start: 10, end: 20 }));
    assert_eq!(h.filters.len(), 1);
    assert!(matches!(
        &h.filters[0],
        Filter::GreaterThan { field, value: FilterValue::Float64(b) }
            if field == "close" && *b == 1.5f64.to_bits()
    ));
}

#[test]
fn a_constant_on_the_left_turns_the_comparison() {
    let h = hint(compare(
        HintExpr::Literal(value(HintLiteral::Int32(10))),
        Operator::Lt,
        col("time"),
    ));
    assert_eq!(h.time_range, Some(TimeRange { start: 11, end: i64::MAX }));
}

#[test]
fn numbers_that_a_column_cannot_hold_are_left_alone() {
    let below = compare(
        col("vol"),
        Operator::Gt,
        HintExpr::Literal(value(HintLiteral::Int64(-1))),
    );
    assert!(hint(below).filters.is_empty());
    let above = compare(
        col("vol"),
        Operator::Lt,
        HintExpr::Literal(value(HintLiteral::Int64(1 << 33))),
    );
    assert!(hint(above).filters.is_empty());
    let between = compare(col("vol"), Operator::Lt, HintExpr::Literal(float(2.5)));
    assert!(hint(between).filters.is_empty());
    let fits = compare(col("vol"), Operator::Lt, HintExpr::Literal(float(3.0)));
    assert!(matches!(
        hint(fits).filters.first(),
        Some(Filter::LessThan { value: FilterValue::UInt32(3), .. })
    ));
}

#[test]
fn conditions_on_partitions_go_their_own_way() {
    let h = hint(and(
        compare(col("year"), Operator::Eq, HintExpr::Literal(value(HintLiteral::UInt64(2024)))),
        compare(col("exch"), Operator::NotEq, HintExpr::Literal(value(HintLiteral::Text("NY".into())))),
    ));
    assert!(h.filters.is_empty());
    assert!(matches!(
        h.partition_filters.first(),
        Some(Filter::Equal { value: FilterValue::Int64(2024), .. })
    ));
    assert!(matches!(
        &h.partition_filters[1],
        Filter::NotEqual { value: FilterValue::String(s), .. } if s == "NY"
    ));
}
