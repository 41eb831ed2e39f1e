use splayed::bridge::{
    build_arrow_schema, build_views, dict_value, scan_sizes, schema_count, schema_field,
    BatchColumn, ExportError, ListedField, NativeError, SPLAYED_TYPE_STRING_DICT, UNKNOWN_TYPE,
};
use splayed::{DataType, TimeType};

#[test]
fn export_error_display() {
    let e = ExportError::OpenDataset("not found".into());
    assert!(e.to_text().contains("not found"));
}

#[test]
fn errors_in_words() {
    assert_eq!(ExportError::Scan("x".into()).to_text(), "scan error: x");
    assert_eq!(ExportError::Ipc("x".into()).to_text(), "arrow IPC error: x");
    assert_eq!(ExportError::Io("x".into()).to_text(), "io error: x");
    assert_eq!(NativeError::Scan("x".into()).to_text(), "scan failed: x");
}

fn fields() -> Vec<ListedField> {
    vec![
        ListedField { name: "close".into(), data_type: Some(DataType::Float64) },
        ListedField { name: "broken".into(), data_type: None },
        ListedField { name: "vol".into(), data_type: Some(DataType::Int64) },
    ]
}

#[test]
fn columns_of_a_dataset() {
    assert_eq!(schema_count(3), 5);
    let f = fields();
    let time = schema_field(0, TimeType::TimestampUs, &f).unwrap();
    assert_eq!((time.name.as_str(), time.type_id, time.nullable), ("time", 6, false));
    let sym = schema_field(1, TimeType::Date32, &f).unwrap();
    assert_eq!(
        (sym.name.as_str(), sym.type_id, sym.nullable),
        ("sym", SPLAYED_TYPE_STRING_DICT, false)
    );
    let close = schema_field(2, TimeType::Date32, &f).unwrap();
    assert_eq!((close.name.as_str(), close.type_id, close.nullable), ("close", 4, true));
    assert!(schema_field(3, TimeType::Date32, &f).is_none());
    assert!(schema_field(5, TimeType::Date32, &f).is_none());
    assert!(schema_field(-1, TimeType::Date32, &f).is_none());
}

#[test]
fn the_schema_of_an_export_leaves_out_broken_fields() {
    let out = build_arrow_schema(TimeType::Date32, &fields());
    let names: Vec<&str> = out.iter().map(|f| f.name.as_str()).collect();
    assert_eq!(names, vec!["time", "sym", "close", "vol"]);
    assert_eq!(out[0].data_type, DataType::Date32);
    assert_eq!(out[3].data_type, DataType::Int64);
    assert!(!out[1].nullable && out[2].nullable);
}

#[test]
fn views_of_a_batch() {
    let columns = vec![
        BatchColumn::Primitive {
            data_type: Some(DataType::Date32),
            data: vec![1, 0, 0, 0, 2, 0, 0, 0],
            nulls: None,
        },
        BatchColumn::Dictionary {
            indices: vec![0, 0, 0, 0, 1, 0, 0, 0],
            values: vec!["SYM01".into(), "SYM02".into()],
        },
        BatchColumn::Primitive { data_type: None, data: vec![7, 8], nulls: Some(vec![0b01]) },
        BatchColumn::Varlen,
    ];
    let batch = build_views(&columns, 2);
    assert_eq!(batch.row_count, 2);
    assert_eq!(batch.column_count, 4);
    assert_eq!(batch.system_columns, 2);
    assert_eq!(batch.columns[0].type_id, 5);
    assert!(batch.columns[0].validity.is_none());
    assert_eq!(batch.columns[1].kind, 1);
    assert_eq!(batch.columns[1].dict_count, 2);
    assert_eq!(batch.columns[2].type_id, UNKNOWN_TYPE);
    assert_eq!(batch.columns[2].validity, Some(&[0b01u8][..]));
    assert_eq!(batch.columns[3].data.len(), 0);

    assert_eq!(dict_value(&columns, 1, 0), Some("SYM01"));
    assert_eq!(dict_value(&columns, 1, 2), None);
    assert_eq!(dict_value(&columns, 1, -1), None);
    assert_eq!(dict_value(&columns, 0, 0), None);
    assert_eq!(dict_value(&columns, 9, 0), None);
    assert_eq!(build_views(&[], 0).system_columns, 0);
}

#[test]
fn sizes_are_at_least_one() {
    assert_eq!(scan_sizes(0, -3), (1, 1));
    assert_eq!(scan_sizes(4, 2), (4, 2));
}
