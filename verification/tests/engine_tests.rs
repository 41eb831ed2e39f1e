use splayed::filter::{Expr, Filter, FilterValue, Literal, Operator};
use splayed::frame::{
    column_of_cells, data_of_series, read_cells, series_of_view, NamedSeries, SeriesType,
};
use splayed::provider::{
    batch_positions, batch_size, lay_out_batch, projected_fields, projected_indices, scan_columns,
    scan_parts, sorted_by_sym_time, Emission, OutputColumn, RowCounter, ScanBatch,
    SplayedSubsetFunction, SplayedTableFactory, SplayedTableFunction,
};
use splayed::stats::{
    aggregate_scalar, aggregate_statistics, compute_statistics, field_stats_scalars,
    odd_partition, same_schema, Aggregate, AggregateArg, AggregateName, AggregateValue,
    DatasetSummary, FieldStat, NamedType, Precision, SplayedStatsAggRule, Statistics,
};
use splayed::table::TableError;
use splayed::{DataType, FormatError, TimeType};

fn strings(list: &[&str]) -> Vec<String> {
    list.iter().map(|s| s.to_string()).collect()
}

fn named(list: &[(&str, u32)]) -> Vec<NamedType> {
    list.iter().map(|(n, t)| NamedType { name: n.to_string(), type_id: *t }).collect()
}

fn slots(a: u64, b: u64) -> Option<([u8; 8], [u8; 8])> {
    Some((a.to_le_bytes(), b.to_le_bytes()))
}

fn summary() -> DatasetSummary {
    DatasetSummary {
        time_type: TimeType::Date32,
        time_axis: vec![3, 5, 9],
        symbols: 2,
        total_rows: 6,
    }
}

fn dataset_statistics() -> Statistics {
    compute_statistics(
        &summary(),
        &[
            FieldStat {
                name: "vol".to_string(),
                data_type: DataType::Int64,
                null_count: 1,
                size: 200,
                slots: slots(7, 70),
            },
            FieldStat {
                name: "flag".to_string(),
                data_type: DataType::Bool,
                null_count: 0,
                size: 70,
                slots: None,
            },
        ],
    )
}

#[test]
fn bounds_of_a_field() {
    let (lo, hi) = field_stats_scalars(
        DataType::Int8,
        &(-5i64).to_le_bytes(),
        &3i64.to_le_bytes(),
    )
    .unwrap();
    assert_eq!((lo, hi), (FilterValue::Int8(-5), FilterValue::Int8(3)));
    assert!(field_stats_scalars(DataType::Utf8, &[0; 8], &[0; 8]).is_none());
}

#[test]
fn statistics_of_a_dataset() {
    let s = dataset_statistics();
    assert!(matches!(s.num_rows, Precision::Exact(6)));
    assert!(matches!(s.total_byte_size, Precision::Exact(270)));
    assert_eq!(s.column_statistics.len(), 4);
    assert!(matches!(
        s.column_statistics[0].min_value,
        Precision::Exact(FilterValue::Date32(3))
    ));
    assert!(matches!(
        s.column_statistics[0].max_value,
        Precision::Exact(FilterValue::Date32(9))
    ));
    assert!(matches!(s.column_statistics[2].null_count, Precision::Exact(1)));
    assert!(matches!(
        s.column_statistics[2].max_value,
        Precision::Exact(FilterValue::Int64(70))
    ));
    assert!(matches!(s.column_statistics[3].min_value, Precision::Absent));
}

#[test]
fn statistics_of_partitions_are_merged() {
    let merged = aggregate_statistics(vec![dataset_statistics(), dataset_statistics()]);
    assert!(matches!(merged.num_rows, Precision::Exact(12)));
    assert!(matches!(
        merged.column_statistics[0].max_value,
        Precision::Exact(FilterValue::Date32(9))
    ));
    // Only times are compared across partitions.
    assert!(matches!(merged.column_statistics[2].min_value, Precision::Absent));
    assert!(matches!(merged.column_statistics[2].null_count, Precision::Exact(2)));
    assert!(matches!(aggregate_statistics(vec![]).num_rows, Precision::Absent));
}

#[test]
fn tables_are_of_one_schema() {
    let a = named(&[("time", 1), ("sym", 2)]);
    let b = named(&[("time", 1), ("sym", 3)]);
    assert!(same_schema(&a, &a));
    assert!(!same_schema(&a, &b));
    assert_eq!(
        odd_partition(&[named(&[("x", 1)]), named(&[("x", 1)]), named(&[("y", 1)])]),
        Some(2)
    );
    assert_eq!(odd_partition(&[named(&[("x", 1)])]), None);
}

fn aggregate(name: AggregateName, args: Vec<AggregateArg>) -> Aggregate {
    Aggregate { name, args, plain: true }
}

#[test]
fn aggregates_are_answered_from_statistics() {
    let s = dataset_statistics();
    let columns = named(&[("time", 1), ("sym", 2), ("vol", 3), ("flag", 4)]);
    let count = aggregate(AggregateName::Count, vec![AggregateArg::Wildcard]);
    assert!(matches!(
        aggregate_scalar(&count, &columns, &s),
        Some(AggregateValue::Count(6))
    ));
    let count = aggregate(AggregateName::Count, vec![AggregateArg::Column("vol".to_string())]);
    assert!(matches!(
        aggregate_scalar(&count, &columns, &s),
        Some(AggregateValue::Count(5))
    ));
    let max = aggregate(AggregateName::Max, vec![AggregateArg::Column("vol".to_string())]);
    assert!(matches!(
        aggregate_scalar(&max, &columns, &s),
        Some(AggregateValue::Value(FilterValue::Int64(70)))
    ));
    let min = aggregate(AggregateName::Min, vec![AggregateArg::Column("flag".to_string())]);
    assert!(aggregate_scalar(&min, &columns, &s).is_none());
    let rule = SplayedStatsAggRule::default();
    assert_eq!(rule.try_rewrite(false, false, &[max], &columns, &s).unwrap().len(), 1);
    let max = aggregate(AggregateName::Max, vec![AggregateArg::Column("vol".to_string())]);
    assert!(rule.try_rewrite(false, true, &[max], &columns, &s).is_none());
    assert!(rule.try_rewrite(false, false, &[min], &columns, &s).is_none());
}

#[test]
fn projections_of_a_scan() {
    assert_eq!(projected_indices(None, 3), vec![0, 1, 2]);
    assert_eq!(projected_indices(Some(&vec![2, 0]), 3), vec![2, 0]);
    let columns = named(&[("time", 1), ("sym", 2), ("close", 3), ("vol", 4)]);
    let fields = projected_fields(&[0, 3], &columns);
    assert_eq!(fields, vec!["vol"]);
    let filter = Filter::compare("close", Operator::Gt, FilterValue::Int64(3)).unwrap();
    assert_eq!(scan_columns(fields, &[filter]), vec!["vol", "close"]);
    assert_eq!(batch_positions(&[0, 1, 3, 2]), vec![0, 1, 2, 3]);
    assert_eq!(batch_positions(&[1, 3]), vec![1, 2]);
    assert!(sorted_by_sym_time(true, &columns));
    assert!(!sorted_by_sym_time(false, &columns));
    assert!(!sorted_by_sym_time(true, &named(&[("sym", 2)])));
}

#[test]
fn sizes_of_a_scan() {
    assert_eq!(batch_size(None), 65_536);
    assert_eq!(batch_size(Some(10)), 10);
    assert_eq!(scan_parts(4, 2), 2);
    assert_eq!(scan_parts(2, 9), 2);
}

#[test]
fn a_limit_cuts_the_last_batch() {
    let mut counter = RowCounter::new(Some(5));
    assert_eq!(counter.take(3), Emission::All);
    assert!(!counter.done());
    assert_eq!(counter.take(3), Emission::Last(2));
    assert!(counter.done());
    let mut free = RowCounter::new(None);
    assert_eq!(free.take(1000), Emission::All);
    assert!(!free.done());
}

#[test]
fn batches_are_laid_out() {
    let batch = ScanBatch {
        row_count: 2,
        time_values: vec![4, 5],
        sym_indices: vec![1, 0],
        field_names: strings(&["close"]),
    };
    let out = lay_out_batch(
        &batch,
        &[0, 1, 2, 3],
        &strings(&["time", "sym", "close", "vol"]),
        &strings(&["A", "B"]),
        TimeType::Date32,
    );
    assert!(matches!(&out[0], OutputColumn::Dates(v) if *v == vec![4, 5]));
    assert!(matches!(&out[1], OutputColumn::Symbols(v) if *v == strings(&["B", "A"])));
    assert!(matches!(&out[2], OutputColumn::Field(0)));
    assert!(matches!(&out[3], OutputColumn::Missing(2)));
    let out = lay_out_batch(&batch, &[0], &strings(&["time"]), &strings(&["A", "B"]), TimeType::TimestampUs);
    assert!(matches!(&out[0], OutputColumn::Timestamps(v) if *v == vec![4, 5]));
}

fn text(s: &str) -> Expr {
    Expr::Literal(Literal::Utf8(Some(s.to_string())))
}

#[test]
fn statements_name_directories() {
    let factory = SplayedTableFactory::default();
    assert_eq!(factory.location("splayed", &strings(&["/data"])).unwrap(), "/data");
    assert_eq!(
        factory.location("CSV", &strings(&["/data"])).unwrap_err(),
        "SplayedTableFactory: expected STORED AS SPLAYED, got CSV"
    );
    assert_eq!(
        factory.location("SPLAYED", &[]).unwrap_err(),
        "SplayedTableFactory: missing LOCATION"
    );
    let f = SplayedTableFunction::default();
    assert_eq!(f.path(&[text("/data")]).unwrap(), "/data");
    assert!(f.path(&[]).is_err());
    assert!(f.path(&[Expr::Other]).is_err());
    let f = SplayedSubsetFunction::default();
    assert_eq!(
        f.path_and_subset(&[text("/data"), text("hs300")]).unwrap(),
        ("/data".to_string(), "hs300".to_string())
    );
    assert!(f.path_and_subset(&[text("/data")]).unwrap_err().contains("two string arguments"));
    assert_eq!(
        f.path_and_subset(&[text("/data"), Expr::Other]).unwrap_err(),
        "read_splayed_subset args must be string literals"
    );
}

#[test]
fn cells_are_stored_and_read_back() {
    let cells = vec![Some(FilterValue::Int16(-2)), None, Some(FilterValue::Int16(300))];
    let column = column_of_cells(DataType::Int16, &cells);
    assert_eq!(column.null_count(), 1);
    assert_eq!(read_cells(&column.as_view()), cells);
    let cells = vec![
        Some(FilterValue::Float64(1.5f64.to_bits())),
        Some(FilterValue::Float64((-2.5f64).to_bits())),
    ];
    let column = column_of_cells(DataType::Float64, &cells);
    assert!(column.validity.is_none());
    assert_eq!(read_cells(&column.as_view()), cells);
}

#[test]
fn texts_are_stored_in_a_dictionary_in_order() {
    let t = |s: &str| Some(FilterValue::String(s.to_string()));
    let cells = vec![t("MSFT"), t("AAPL"), None, t("MSFT")];
    let column = column_of_cells(DataType::Utf8, &cells);
    let dict = column.dict.as_ref().unwrap();
    assert_eq!(dict.strings.as_slice(), b"AAPLMSFT");
    assert_eq!(column.values.as_slice(), &[1, 0, 0, 0, 0, 0, 0, 0, 0, 0, 0, 0, 1, 0, 0, 0]);
    let view = column.as_view();
    assert_eq!(view.string_at(0), Some("MSFT"));
    assert_eq!(view.string_at(1), Some("AAPL"));
    assert_eq!(view.string_at(3), Some("MSFT"));
    assert_eq!(read_cells(&view), cells);
    let none = vec![None, None];
    let column = column_of_cells(DataType::Utf8, &none);
    assert_eq!(column.null_count(), 2);
    assert_eq!(read_cells(&column.as_view()), none);
}

#[test]
fn missing_texts_come_back_as_missing() {
    let t = |s: &str| Some(FilterValue::String(s.to_string()));
    let series = vec![NamedSeries {
        name: "note".to_string(),
        kind: SeriesType::Text,
        cells: vec![None, t("b"), None, t("a")],
    }];
    let data = data_of_series(&series).unwrap();
    let back = series_of_view(&data.as_view());
    assert_eq!(back[0].cells, series[0].cells);
    let part = data.columns[0].as_view().slice_rows(1, 2).unwrap();
    assert_eq!(read_cells(&part), vec![t("b"), None]);
}

#[test]
fn series_make_a_table_and_come_back() {
    let series = vec![
        NamedSeries {
            name: "time".to_string(),
            kind: SeriesType::Int64,
            cells: vec![Some(FilterValue::Int64(100)), Some(FilterValue::Int64(200))],
        },
        NamedSeries {
            name: "flag".to_string(),
            kind: SeriesType::Boolean,
            cells: vec![Some(FilterValue::Bool(true)), None],
        },
    ];
    let data = data_of_series(&series).unwrap();
    assert_eq!(data.length(), 2);
    let back = series_of_view(&data.as_view());
    assert_eq!(back.len(), 2);
    assert_eq!(back[0].name, "time");
    assert!(matches!(back[0].kind, SeriesType::Int64));
    assert_eq!(back[0].cells, series[0].cells);
    assert_eq!(back[1].cells, series[1].cells);
}

#[test]
fn series_that_cannot_be_stored() {
    let odd = vec![NamedSeries {
        name: "x".to_string(),
        kind: SeriesType::Other("Duration".to_string()),
        cells: vec![],
    }];
    match data_of_series(&odd) {
        Err(TableError::Invalid(m)) => assert_eq!(m, "unsupported polars dtype Duration"),
        other => panic!("{other:?}"),
    }
    let uneven = vec![
        NamedSeries { name: "a".to_string(), kind: SeriesType::UInt8, cells: vec![None] },
        NamedSeries { name: "b".to_string(), kind: SeriesType::UInt8, cells: vec![] },
    ];
    match data_of_series(&uneven) {
        Err(TableError::Format(FormatError::InvalidLayout(m))) => {
            assert_eq!(m, "column 'b' length 0 != 1");
        }
        other => panic!("{other:?}"),
    }
}
