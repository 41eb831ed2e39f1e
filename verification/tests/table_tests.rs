use splayed::fields::{
    check_cast_field, check_create_field, check_delete_field, check_packing, check_rename_field,
    check_update_field, PartitionFields,
};
use splayed::gather::gather_runs;
use splayed::listing::{
    check_new_partition, check_partition_data, check_partition_name, check_table_name,
    discover_partitions, existing_scheme, holds_table, infer_scheme, DirEntry,
};
use splayed::partition::{days_from_civil, PartitionScheme};
use splayed::plan::{check_table_input, plan_table, round_robin, share_out, TableOptions, TablePlan};
use splayed::query::{
    assemble_batch, resolve_projection, scan_table, select_partitions, BatchPlan, CmpOp,
    PartitionRowRange,
    Predicate, ReadMode, RowRange, Scalar, ScanStep, TableReader, TableScanRequest,
};
use splayed::spans::partition_spans;
use splayed::table::{
    aggregate_partitions, describe_partitions, infer_tt, meta_partition, peek_time_type,
    table_metadata, time_value_at, DatasetStatistics, TableError,
};
use splayed::writing::{
    build_aligned_column, check_input, check_partitions, match_places, partition_pairs,
    plan_columns, rows_to_write, scan_partition_runs, written_fields, PartitionTarget,
};
use splayed::{
    Bitmap, Buffer, Column, Compression, Data, DataType, FieldSchema, FormatError, MetaHeader,
    Schema, TimeType,
};

fn strings(list: &[&str]) -> Vec<String> {
    list.iter().map(|s| s.to_string()).collect()
}

fn message(e: TableError) -> String {
    match e {
        TableError::Invalid(m) => m,
        TableError::InvalidState(m) => m,
        TableError::Format(e) => format!("{e:?}"),
    }
}

fn floats(values: &[f64]) -> Buffer {
    let bits: Vec<u64> = values.iter().map(|v| v.to_bits()).collect();
    Buffer::from_slice_copy(&bits)
}

/// Rows of symbol, day and price.
fn make_data(rows: &[(&str, i32, f64)]) -> Data {
    let mut dict: Vec<&str> = rows.iter().map(|r| r.0).collect();
    dict.sort();
    dict.dedup();
    let mut offsets = vec![0u64];
    let mut strings = Vec::new();
    for s in &dict {
        strings.extend_from_slice(s.as_bytes());
        offsets.push(strings.len() as u64);
    }
    let keys: Vec<u32> = rows
        .iter()
        .map(|r| dict.iter().position(|x| *x == r.0).unwrap() as u32)
        .collect();
    let sym_col = Column::from_dict(keys, offsets, strings, None);
    let time_col = Column {
        data_type: DataType::Date32,
        values: Buffer::from_slice_copy(&rows.iter().map(|r| r.1).collect::<Vec<i32>>()),
        validity: None,
        dict: None,
    };
    let price_col = Column {
        data_type: DataType::Float64,
        values: floats(&rows.iter().map(|r| r.2).collect::<Vec<f64>>()),
        validity: None,
        dict: None,
    };
    Data::new(
        Schema::new(vec![
            FieldSchema::new("sym", DataType::Utf8),
            FieldSchema::new("time", DataType::Date32),
            FieldSchema::new("price", DataType::Float64),
        ]),
        vec![sym_col, time_col, price_col],
    )
    .unwrap()
}

fn day(y: i64, m: u32, d: u32) -> i32 {
    days_from_civil(y, m, d) as i32
}

fn month_sample() -> Data {
    make_data(&[
        ("AAPL", day(2026, 8, 3), 10.0),
        ("AAPL", day(2026, 8, 4), 11.0),
        ("AAPL", day(2026, 9, 1), 12.0),
        ("AAPL", day(2026, 9, 2), 13.0),
        ("MSFT", day(2026, 8, 3), 20.0),
        ("MSFT", day(2026, 8, 4), 21.0),
        ("MSFT", day(2026, 9, 1), 22.0),
        ("MSFT", day(2026, 9, 2), 23.0),
    ])
}

fn prices(column: &Column) -> Vec<f64> {
    column
        .values
        .as_slice()
        .chunks(8)
        .map(|c| f64::from_le_bytes(c.try_into().unwrap()))
        .collect()
}

#[test]
fn rows_are_spread_over_months() {
    let data = month_sample();
    let spans = partition_spans(&data, PartitionScheme::Month, TimeType::Date32).unwrap();
    assert_eq!(
        spans,
        vec![
            ("month=2026-08".to_string(), vec![(0, 2), (4, 2)]),
            ("month=2026-09".to_string(), vec![(2, 2), (6, 2)]),
        ]
    );
    let august = gather_runs(&data, &spans[0].1).unwrap();
    assert_eq!(august.length(), 4);
    assert_eq!(prices(august.column("price").unwrap()), vec![10.0, 11.0, 20.0, 21.0]);
    let view = august.as_view();
    let sym = view.column("sym").unwrap();
    let syms: Vec<&str> = (0..4).map(|i| sym.string_at(i).unwrap()).collect();
    assert_eq!(syms, vec!["AAPL", "AAPL", "MSFT", "MSFT"]);
}

#[test]
fn validity_and_dictionaries_survive_the_split() {
    let mut data = month_sample();
    let mut bits = Bitmap::ones(8);
    bits.set(2, false);
    bits.set(5, false);
    data.columns[2].validity = Some(bits);
    let out = gather_runs(&data, &[(1, 2), (5, 1)]).unwrap();
    let price = out.column("price").unwrap();
    assert_eq!(price.null_count(), 2);
    let validity = price.validity.as_ref().unwrap();
    assert!(validity.is_valid(0));
    assert!(!validity.is_valid(1));
    assert!(!validity.is_valid(2));
    let only = gather_runs(&data, &[(6, 2)]).unwrap();
    assert_eq!(only.column("price").unwrap().null_count(), 0);
    assert_eq!(only.as_view().column("sym").unwrap().string_at(1), Some("MSFT"));
    assert_eq!(only.columns[0].dict.as_ref().unwrap().strings.as_slice(), b"MSFT");
}

#[test]
fn a_bitmap_must_cover_the_rows() {
    let mut data = month_sample();
    data.columns[2].validity = Some(Bitmap::ones(6));
    assert!(gather_runs(&data, &[(0, 6)]).is_ok());
    assert!(matches!(gather_runs(&data, &[(6, 2)]), Err(TableError::Format(_))));
}

#[test]
fn plans_for_tables() {
    let data = month_sample();
    let options = TableOptions { max_parallelism: Some(4), ..TableOptions::default() };
    match plan_table(&data, PartitionScheme::Month, &options, 16).unwrap() {
        TablePlan::Partitions { buckets, groups, max_parallelism } => {
            assert_eq!(buckets.len(), 2);
            assert_eq!(groups, vec![vec![0], vec![1]]);
            assert_eq!(max_parallelism, 2);
        }
        other => panic!("{other:?}"),
    }
    match plan_table(&data, PartitionScheme::Unpartitioned, &TableOptions::default(), 6).unwrap() {
        TablePlan::Single { max_parallelism } => assert_eq!(max_parallelism, 6),
        other => panic!("{other:?}"),
    }
    let empty = make_data(&[]);
    assert!(matches!(
        plan_table(&empty, PartitionScheme::Month, &options, 1),
        Ok(TablePlan::Empty)
    ));
    let no_time = Data::new(
        Schema::new(vec![FieldSchema::new("sym", DataType::UInt8)]),
        vec![Column::zeroed(DataType::UInt8, 1, false)],
    )
    .unwrap();
    assert_eq!(
        message(plan_table(&no_time, PartitionScheme::Month, &options, 1).unwrap_err()),
        "table input requires sym and time columns"
    );
}

#[test]
fn partitions_are_dealt_in_turn() {
    assert_eq!(round_robin(5, 2), vec![vec![0, 2, 4], vec![1, 3]]);
    assert_eq!(share_out(7, 3), (vec![vec![0], vec![1], vec![2]], 2));
    assert_eq!(share_out(7, 1), (vec![vec![0]], 7));
    let options = TableOptions { max_parallelism: Some(0), ..TableOptions::default() };
    assert_eq!(options.budget(9), 1);
    assert_eq!(TableOptions::default().budget(9), 9);
    assert_eq!(TableOptions::default().packing(), (Compression::Uncompressed, 8192));
    let packed = TableOptions {
        compression: Some(Compression::Lz4),
        chunk_target_rows: Some(100),
        ..TableOptions::default()
    };
    assert_eq!(packed.packing(), (Compression::Lz4, 100));
}

fn entry(name: &str, is_dir: bool) -> DirEntry {
    DirEntry { name: name.to_string(), is_dir }
}

#[test]
fn partitions_are_found_by_name() {
    let entries = vec![
        entry("month=2026-09", true),
        entry("month=2026-08", true),
        entry("month=2026-07.tmp", true),
        entry(".lock", false),
        entry("month=2026-06", false),
        entry("notes", true),
        entry("year=2026", true),
        entry("date=2026-08-03", true),
    ];
    assert_eq!(
        discover_partitions(&entries, PartitionScheme::Month),
        vec!["month=2026-08", "month=2026-09"]
    );
    assert_eq!(discover_partitions(&entries, PartitionScheme::Year), vec!["year=2026"]);
    assert_eq!(discover_partitions(&entries, PartitionScheme::Date), vec!["date=2026-08-03"]);
    assert_eq!(discover_partitions(&entries, PartitionScheme::Unpartitioned), vec![""]);
}

#[test]
fn a_table_without_partitions_is_scanned_whole() {
    let names = strings(&[""]);
    let none = PartitionScheme::Unpartitioned;
    assert_eq!(select_partitions(&names, none, TimeType::Date32, 5, 6).unwrap(), vec![""]);
    let request =
        TableScanRequest { time: Some((5, 6)), ..TableScanRequest::default() };
    let scanner = scan_table(names, none, TimeType::Date32, request).unwrap();
    assert_eq!(scanner.partitions, vec![""]);
    match scanner.predicate.as_ref().unwrap() {
        Predicate::And(parts) => {
            assert!(matches!(
                &parts[0],
                Predicate::Cmp { column, op: CmpOp::Ge, value: Scalar::Int(5) } if column == "time"
            ));
            assert!(matches!(
                &parts[1],
                Predicate::Cmp { column, op: CmpOp::Lt, value: Scalar::Int(6) } if column == "time"
            ));
            assert_eq!(parts.len(), 2);
        }
        other => panic!("{other:?}"),
    }
    let request =
        TableScanRequest { time: Some((5, 6)), ..TableScanRequest::default() };
    let odd = scan_table(strings(&["x"]), PartitionScheme::Month, TimeType::Date32, request);
    assert_eq!(message(odd.unwrap_err()), "bad partition name x");
}

#[test]
fn the_columns_of_a_new_table_are_checked() {
    assert_eq!(check_table_input(&month_sample()).unwrap(), TimeType::Date32);
    let mut nameless = month_sample();
    nameless.schema.fields[0].name = "symbol".to_string();
    assert_eq!(
        message(check_table_input(&nameless).unwrap_err()),
        "table input requires sym and time columns"
    );
}

#[test]
fn the_scheme_of_a_table() {
    assert_eq!(
        message(existing_scheme(true, &[]).unwrap_err()),
        "table uses 'none' partitioning (root is a Dataset); partitions are not allowed"
    );
    assert_eq!(infer_scheme(true, &[]).unwrap(), PartitionScheme::Unpartitioned);
    assert_eq!(existing_scheme(false, &[]).unwrap(), None);
    assert_eq!(
        infer_scheme(false, &strings(&["year=2026", "year=2027"])).unwrap(),
        PartitionScheme::Year
    );
    assert!(infer_scheme(false, &[]).is_err());
    assert!(existing_scheme(false, &strings(&["year=2026", "date=2026-01-01"])).is_err());
}

#[test]
fn names_are_checked() {
    assert!(check_table_name("prices").is_ok());
    assert!(check_table_name("a/b").is_err());
    assert!(check_table_name("").is_err());
    assert_eq!(check_partition_name("date=2026-01-01").unwrap(), PartitionScheme::Date);
    assert!(check_partition_name("2026").is_err());
    assert_eq!(
        check_new_partition("month=2026-10", false, &strings(&["month=2026-09"])).unwrap(),
        PartitionScheme::Month
    );
    assert_eq!(
        message(
            check_new_partition("year=2026", false, &strings(&["month=2026-09"])).unwrap_err()
        ),
        "existing partitions use a different partition scheme"
    );
    assert!(check_partition_data(&month_sample()).is_ok());
    assert_eq!(
        message(check_partition_data(&make_data(&[])).unwrap_err()),
        "partition data must not be empty"
    );
}

#[test]
fn a_directory_with_metadata_is_a_table() {
    assert!(holds_table(true, true, &[]));
    assert!(holds_table(true, false, &[false, true]));
    assert!(!holds_table(true, false, &[false]));
    assert!(!holds_table(false, true, &[true]));
}

#[test]
fn statistics_of_a_table() {
    let part = |rows, lo: &str, hi: &str, a, b| DatasetStatistics {
        row_count: rows,
        sym_min: Some(lo.to_string()),
        sym_max: Some(hi.to_string()),
        time_min: a,
        time_max: b,
    };
    let s = aggregate_partitions(&[part(4, "B", "C", 10, 20), part(3, "A", "B", 5, 12)]).unwrap();
    assert_eq!(s.row_count, 7);
    assert_eq!(s.partition_count, 2);
    assert_eq!(s.sym_min.as_deref(), Some("A"));
    assert_eq!(s.sym_max.as_deref(), Some("C"));
    assert_eq!((s.time_min, s.time_max), (5, 20));
}

#[test]
fn partitions_are_described() {
    let names = strings(&["month=2026-08", "month=2026-09"]);
    let infos = describe_partitions(&names, PartitionScheme::Month, TimeType::Date32).unwrap();
    assert_eq!(infos[1].time_min, days_from_civil(2026, 9, 1));
    // The last day, not the first that no longer belongs.
    assert_eq!(infos[1].time_max, days_from_civil(2026, 9, 30));
    let meta = table_metadata(PartitionScheme::Month, infos);
    assert_eq!(meta.ordering, vec!["sym", "time"]);
    assert_eq!(meta.partitioning.scheme, "Month");
    assert!(meta.capabilities.limit_pushdown);
    let bad = strings(&["month=2026"]);
    assert_eq!(
        message(describe_partitions(&bad, PartitionScheme::Month, TimeType::Date32).unwrap_err()),
        "bad partition name month=2026"
    );
}

#[test]
fn the_time_type_of_a_table() {
    assert!(meta_partition(PartitionScheme::Unpartitioned, &[]).unwrap().is_none());
    let names = strings(&["year=2025", "year=2026"]);
    assert_eq!(
        meta_partition(PartitionScheme::Year, &names).unwrap().map(|s| s.as_str()),
        Some("year=2025")
    );
    assert_eq!(
        message(meta_partition(PartitionScheme::Year, &[]).unwrap_err()),
        "table has no partitions"
    );
    let header = MetaHeader::new(TimeType::TimestampUs, 1, 2, 3, 4, 64, 64, 64);
    assert_eq!(peek_time_type(&header.to_bytes()).unwrap(), TimeType::TimestampUs);
    assert!(matches!(
        peek_time_type(&[0u8; 10]),
        Err(TableError::Format(FormatError::SizeMismatch { expected: 64, found: 10 }))
    ));
    assert!(matches!(
        peek_time_type(&[0u8; 64]),
        Err(TableError::Format(FormatError::BadMagic { .. }))
    ));
    assert_eq!(infer_tt(DataType::Int64).unwrap(), TimeType::TimestampUs);
    assert_eq!(
        message(infer_tt(DataType::Bool).unwrap_err()),
        "unsupported time column type Bool for partitioning"
    );
}

#[test]
fn times_are_read_by_row() {
    let data = month_sample();
    let view = data.as_view();
    let time = view.column("time").unwrap();
    assert_eq!(time_value_at(time, 2).unwrap(), days_from_civil(2026, 9, 1));
    assert_eq!(message(time_value_at(time, 8).unwrap_err()), "time row out of range");
    assert_eq!(
        message(time_value_at(view.column("sym").unwrap(), 0).unwrap_err()),
        "time column must be fixed-width"
    );
}

#[test]
fn scans_are_pruned_by_time() {
    let names = strings(&["month=2026-09", "month=2026-08", "month=2026-10"]);
    let lo = days_from_civil(2026, 8, 31);
    let hi = days_from_civil(2026, 9, 30);
    let kept = select_partitions(&names, PartitionScheme::Month, TimeType::Date32, lo, hi).unwrap();
    assert_eq!(kept, vec!["month=2026-08", "month=2026-09"]);
    let request = TableScanRequest {
        sym: Some("MSFT".to_string()),
        time: Some((lo, hi)),
        limit: Some(5),
        ..TableScanRequest::default()
    };
    let scanner =
        scan_table(names, PartitionScheme::Month, TimeType::Date32, request).unwrap();
    assert_eq!(scanner.partitions, kept);
    match scanner.predicate.as_ref().unwrap() {
        Predicate::And(parts) => {
            assert_eq!(parts.len(), 3);
            assert!(matches!(
                &parts[0],
                Predicate::Cmp { column, op: CmpOp::Eq, value: Scalar::Str(s) }
                    if column == "sym" && s == "MSFT"
            ));
        }
        other => panic!("{other:?}"),
    }
}

#[test]
fn a_scan_stops_at_its_limit() {
    let request = TableScanRequest { limit: Some(5), ..TableScanRequest::default() };
    let mut scanner = scan_table(
        strings(&["year=2025", "year=2026"]),
        PartitionScheme::Year,
        TimeType::Date32,
        request,
    )
    .unwrap();
    assert_eq!(scanner.step(), ScanStep::Open { index: 0, limit: Some(5) });
    let rows = scanner.deliver(Some(RowRange::new(10, 3))).unwrap();
    assert_eq!(rows.partition, "year=2025");
    assert_eq!((rows.row_range.offset, rows.row_range.length), (10, 3));
    assert_eq!(scanner.step(), ScanStep::Pull { index: 0 });
    assert!(scanner.deliver(None).is_none());
    assert_eq!(scanner.step(), ScanStep::Open { index: 1, limit: Some(2) });
    let rows = scanner.deliver(Some(RowRange::new(0, 9))).unwrap();
    assert_eq!((rows.row_range.offset, rows.row_range.length), (0, 2));
    assert_eq!(scanner.step(), ScanStep::Finished);
}

#[test]
fn batches_are_filled_from_ranges() {
    let mut reader = TableReader::new(Some(4));
    assert_eq!(reader.mode().unwrap(), ReadMode::Batch(4));
    let range = PartitionRowRange { partition: "p".to_string(), row_range: RowRange::new(7, 6) };
    let mut batch = BatchPlan::new(Some(4));
    assert!(batch.wants_more());
    reader.fill(&mut batch, range);
    assert!(!batch.wants_more());
    assert_eq!((batch.heads.len(), batch.rows), (1, 4));
    assert_eq!(batch.heads[0].row_range, RowRange::new(7, 4));
    let rest = reader.take_pending().unwrap();
    assert_eq!(rest.partition, "p");
    assert_eq!(rest.row_range, RowRange::new(11, 2));
    let mut batch = BatchPlan::new(Some(4));
    reader.fill(&mut batch, rest);
    assert!(batch.wants_more());
    let next = PartitionRowRange { partition: "q".to_string(), row_range: RowRange::new(0, 2) };
    reader.fill(&mut batch, next);
    assert!(!batch.wants_more());
    assert_eq!(batch.heads[0].row_range, RowRange::new(11, 2));
    assert_eq!(batch.heads[1].partition, "q");
    let mut whole = BatchPlan::new(None);
    let long = PartitionRowRange { partition: "r".to_string(), row_range: RowRange::new(3, 99) };
    reader.fill(&mut whole, long);
    assert!(!whole.wants_more());
    assert_eq!(whole.heads[0].row_range, RowRange::new(3, 99));
    assert!(reader.take_pending().is_none());
    reader.finish();
    assert_eq!(reader.mode().unwrap(), ReadMode::Finished);
    assert_eq!(
        message(TableReader::new(Some(0)).mode().unwrap_err()),
        "batch_size must be non-zero"
    );
    assert_eq!(TableReader::new(None).mode().unwrap(), ReadMode::OneRange);
}

#[test]
fn ranges_of_rows_make_one_batch() {
    let a = make_data(&[("A", 1, 1.0), ("A", 2, 2.0)]);
    let b = make_data(&[("B", 1, 3.0)]);
    let views = vec![a.as_view(), b.as_view()];
    let joined = assemble_batch(&views).unwrap().unwrap();
    assert_eq!(joined.length(), 3);
    let sym = joined.column("sym").unwrap();
    assert_eq!(sym.string_at(1), Some("A"));
    assert_eq!(sym.string_at(2), Some("B"));
    assert!(assemble_batch(&[]).unwrap().is_none());
    let schema = a.schema.clone();
    assert_eq!(resolve_projection(vec![], &schema), vec!["price"]);
    assert_eq!(resolve_projection(strings(&["sym"]), &schema), vec!["sym"]);
}

#[test]
fn rows_to_write_are_checked() {
    let data = make_data(&[
        ("AAPL", day(2026, 8, 3), 1.0),
        ("AAPL", day(2026, 9, 3), 2.0),
        ("MSFT", day(2026, 8, 3), 3.0),
    ]);
    let view = data.as_view();
    assert_eq!(check_input(&view, "write_table").unwrap(), true);
    let runs = scan_partition_runs(&view, PartitionScheme::Month, TimeType::Date32).unwrap();
    assert_eq!(
        runs,
        vec![
            ("month=2026-08".to_string(), vec![(0, 1), (2, 1)]),
            ("month=2026-09".to_string(), vec![(1, 1)]),
        ]
    );
    assert!(check_partitions(
        &runs,
        PartitionScheme::Month,
        &strings(&["month=2026-08", "month=2026-09"])
    )
    .is_ok());
    assert_eq!(
        message(
            check_partitions(&runs, PartitionScheme::Month, &strings(&["month=2026-08"]))
                .unwrap_err()
        ),
        "partition 'month=2026-09' does not exist; input spans a missing partition"
    );
    assert_eq!(
        message(check_partitions(&runs, PartitionScheme::Unpartitioned, &[]).unwrap_err()),
        "table has 'none' partitioning; input time spans other partitions"
    );
    let pairs =
        partition_pairs(view.column("sym").unwrap(), view.column("time").unwrap(), &runs[0].1)
            .unwrap();
    let august = days_from_civil(2026, 8, 3);
    assert_eq!(pairs, vec![("AAPL", august), ("MSFT", august)]);

    let unordered = make_data(&[("MSFT", 1, 5.0), ("AAPL", 1, 6.0)]);
    assert_eq!(
        message(
            scan_partition_runs(&unordered.as_view(), PartitionScheme::Month, TimeType::Date32)
                .unwrap_err()
        ),
        "input must be strictly sorted and unique by (sym ASC, time ASC)"
    );
    let twice = make_data(&[("AAPL", 1, 5.0), ("AAPL", 1, 6.0)]);
    assert!(scan_partition_runs(&twice.as_view(), PartitionScheme::Month, TimeType::Date32)
        .is_err());
    assert_eq!(check_input(&make_data(&[]).as_view(), "write_table").unwrap(), false);
    let bare = Data::new(
        Schema::new(vec![FieldSchema::new("sym", DataType::UInt8)]),
        vec![Column::zeroed(DataType::UInt8, 1, false)],
    )
    .unwrap();
    assert_eq!(
        message(check_input(&bare.as_view(), "write_table").unwrap_err()),
        "write_table requires sym and time columns"
    );
}

#[test]
fn places_are_matched_with_rows() {
    let located = vec![RowRange::new(10, 3), RowRange::new(40, 1)];
    let writes = match_places(&located, &[(0, 2), (7, 2)]).unwrap();
    assert_eq!(writes, vec![(10, 0, 2), (12, 7, 1), (40, 8, 1)]);
    match match_places(&located, &[(0, 2)]) {
        Err(TableError::InvalidState(m)) => assert_eq!(m, "locate total 4 != input rows 2"),
        other => panic!("{other:?}"),
    }
}

#[test]
fn written_rows_are_cut_from_the_input() {
    let data = month_sample();
    let view = data.as_view();
    let (schema, at) = written_fields(&view.schema);
    assert_eq!(at, vec![2]);
    assert_eq!(schema.fields[0].name.as_str(), "price");
    let cut = rows_to_write(&view, &schema, &at, (100, 3, 2)).unwrap();
    assert_eq!(cut.length(), 2);
    let bytes = cut.columns[0].segments()[0].fixed_bytes().unwrap();
    assert_eq!(f64::from_le_bytes(bytes[..8].try_into().unwrap()), 13.0);
    assert!(rows_to_write(&view, &schema, &at, (100, 7, 2)).is_err());
}

#[test]
fn aligned_columns_hold_the_rows_at_their_places() {
    let data = make_data(&[("A", 1, 5.0), ("A", 2, 6.0)]);
    let view = data.as_view();
    let out =
        build_aligned_column(&view, &[(3, 0, 1), (0, 1, 1)], "price", DataType::Float64, 5).unwrap();
    assert_eq!(prices(&out), vec![6.0, 0.0, 0.0, 5.0, 0.0]);
    let validity = out.validity.as_ref().unwrap();
    let there: Vec<bool> = (0..5).map(|i| validity.is_valid(i)).collect();
    assert_eq!(there, vec![true, false, false, true, false]);
    assert_eq!(
        message(build_aligned_column(&view, &[], "open", DataType::Float64, 5).unwrap_err()),
        "input column 'open' missing"
    );
    assert_eq!(
        message(build_aligned_column(&view, &[(0, 0, 1)], "sym", DataType::Utf8, 5).unwrap_err()),
        "create_table_columns supports fixed-width columns only (column 'sym')"
    );
}

#[test]
fn columns_are_created_where_they_lack() {
    let data = make_data(&[("A", 1, 5.0)]);
    let view = data.as_view();
    let target = |name: &str, fields: Vec<FieldSchema>, writes| PartitionTarget {
        name: name.to_string(),
        schema: Schema::new(fields),
        row_count: 2,
        writes,
    };
    let queue = plan_columns(
        &view,
        &[
            target("p0", vec![], vec![(1, 0, 1)]),
            target("p1", vec![FieldSchema::new("price", DataType::Float64)], vec![]),
            target("p2", vec![], vec![]),
        ],
    )
    .unwrap();
    assert_eq!(queue.len(), 2);
    assert_eq!((queue[0].partition, queue[0].field), (0, 2));
    assert_eq!(prices(queue[0].column.as_ref().unwrap()), vec![0.0, 5.0]);
    assert_eq!((queue[1].partition, queue[1].field), (2, 2));
    assert!(queue[1].column.is_none());
    assert_eq!(
        message(
            plan_columns(
                &view,
                &[target("p0", vec![FieldSchema::new("price", DataType::Int64)], vec![])]
            )
            .unwrap_err()
        ),
        "field 'price' exists with type Int64, but input has type Float64"
    );
}

fn part(name: &str, fields: Vec<FieldSchema>) -> PartitionFields {
    PartitionFields { name: name.to_string(), schema: Schema::new(fields) }
}

#[test]
fn changes_of_fields_are_checked() {
    let parts = vec![
        part("a", vec![FieldSchema::new("price", DataType::Float64)]),
        part(
            "b",
            vec![
                FieldSchema::new("price", DataType::Float64),
                FieldSchema::new("vol", DataType::Int64),
            ],
        ),
    ];
    assert!(check_create_field("open", &parts).is_ok());
    assert!(check_create_field("vol", &parts).is_err());
    assert!(check_create_field("sym", &parts).is_err());
    assert!(check_delete_field("price", &parts).is_ok());
    assert!(check_delete_field("vol", &parts).is_err());
    assert!(check_update_field("price", &parts).is_ok());
    assert!(check_update_field("time", &parts).is_err());
    assert!(check_rename_field("price", "last", &parts).is_ok());
    assert!(check_rename_field("price", "vol", &parts).is_err());
    assert!(check_packing("price", &parts, &[false, false], true).is_ok());
    assert!(check_packing("price", &parts, &[false, true], true).is_err());
    assert!(check_cast_field("price", &parts).is_ok());
    let mixed = vec![
        part("a", vec![FieldSchema::new("price", DataType::Float64)]),
        part("b", vec![FieldSchema::new("price", DataType::Int64)]),
    ];
    assert!(check_cast_field("price", &mixed).is_err());
}
