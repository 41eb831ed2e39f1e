use splayed::bitmap::bitmap_count_ones;
use splayed::column::{dict_bytes, ColumnValues};
use splayed::filter::{
    invert_op, time_fragment, Expr, Filter, FilterField, FilterValue, Literal, Operator,
    SymbolSelection, TimeRange,
};
use splayed::frame::SeriesType;
use splayed::hint::{HintColumn, HintExpr, HintLiteral, HintType, HintValue};
use splayed::lazy::{plan_dataset_scan, plan_table_scan};
use splayed::partition::{
    days_from_civil, days_to_value, partition_key, partition_name, partition_range,
    value_to_days, PartitionScheme, US_PER_DAY,
};
use splayed::plan::{share_out, TableOptions};
use splayed::provider::{plan_scan, DEFAULT_BATCH};
use splayed::query::{
    compose_predicate, select_partitions, CmpOp, PartitionRowRange, Predicate, RowRange, Scalar,
    TableScanRequest,
};
use splayed::spans::partition_spans;
use splayed::stats::{read_value, NamedType};
use splayed::subset::{SubsetBuilder, SubsetError, SubsetFile};
use splayed::{header, BitmapView, Buffer, BufferView};
use splayed::{
    Bitmap, Column, ColumnSegment, ColumnView, Data, DataType, FieldHeader, FieldSchema,
    FormatError, Schema, SymIndexRecord, TimeType,
};

fn strings(list: &[&str]) -> Vec<String> {
    list.iter().map(|s| s.to_string()).collect()
}

fn run(time_start: u32, time_count: u32, row_start: u32) -> SymIndexRecord {
    SymIndexRecord { time_start, time_count, row_start }
}

#[test]
fn every_value_lies_in_the_partition_that_is_named_for_it() {
    let days = [
        days_from_civil(1969, 12, 31),
        0,
        days_from_civil(2024, 2, 29),
        days_from_civil(2026, 12, 31),
    ];
    for scheme in [PartitionScheme::Year, PartitionScheme::Month, PartitionScheme::Date] {
        for tt in [TimeType::Date32, TimeType::TimestampUs] {
            for day in days {
                let value = days_to_value(day, tt);
                assert_eq!(value_to_days(value, tt), day);
                let name = partition_name(scheme, value, tt);
                let (lo, hi) = partition_range(scheme, &name, tt).unwrap();
                assert!(lo <= value && value < hi);
                assert_eq!(partition_name(scheme, lo, tt), name);
                assert_eq!(partition_name(scheme, hi - 1, tt), name);
                assert_ne!(partition_name(scheme, hi, tt), name);
                assert_ne!(partition_name(scheme, lo - 1, tt), name);
                assert_eq!(partition_key(scheme, lo, tt), partition_key(scheme, hi - 1, tt));
                assert_ne!(partition_key(scheme, lo, tt), partition_key(scheme, hi, tt));
            }
        }
    }
}

#[test]
fn days_and_microseconds() {
    assert_eq!(value_to_days(-1, TimeType::TimestampUs), -1);
    assert_eq!(value_to_days(US_PER_DAY - 1, TimeType::TimestampUs), 0);
    assert_eq!(value_to_days(-1, TimeType::Date32), -1);
    assert_eq!(days_to_value(2, TimeType::TimestampUs), 172_800_000_000);
    assert_eq!(days_to_value(2, TimeType::Date32), 2);
    assert!(!PartitionScheme::Unpartitioned.allows_partitions());
    assert!(PartitionScheme::Date.allows_partitions());
    assert_eq!(PartitionScheme::Unpartitioned.variant_str(), "None");
    assert_eq!(PartitionScheme::Month.variant_str(), "Month");
}

/// A table that holds times only.
fn times(values: &[i32]) -> Data {
    let column = Column {
        data_type: DataType::Date32,
        values: Buffer::from_slice_copy(values),
        validity: None,
        dict: None,
    };
    Data::new(Schema::new(vec![FieldSchema::new("time", DataType::Date32)]), vec![column]).unwrap()
}

#[test]
fn rows_that_are_written_are_scanned() {
    let days: Vec<i32> = [(2025, 12, 31), (2026, 1, 1), (2026, 1, 31), (2026, 2, 1), (2026, 7, 9)]
        .iter()
        .map(|&(y, m, d)| days_from_civil(y, m, d) as i32)
        .collect();
    let data = times(&days);
    for scheme in [PartitionScheme::Year, PartitionScheme::Month, PartitionScheme::Date] {
        let buckets = partition_spans(&data, scheme, TimeType::Date32).unwrap();
        let rows: usize = buckets.iter().flat_map(|b| b.1.iter()).map(|s| s.1).sum();
        assert_eq!(rows, days.len());
        assert!(buckets.iter().all(|b| b.1.iter().all(|s| s.1 > 0)));
        let names: Vec<String> = buckets.iter().map(|b| b.0.clone()).collect();
        for (i, &day) in days.iter().enumerate() {
            let t = day as i64;
            let picked = select_partitions(&names, scheme, TimeType::Date32, t, t + 1).unwrap();
            assert_eq!(picked.len(), 1);
            let bucket = buckets.iter().find(|b| b.0 == picked[0]).unwrap();
            assert!(bucket.1.iter().any(|s| s.0 <= i && i < s.0 + s.1));
        }
    }
}

#[test]
fn threads_are_shared_out_within_the_budget() {
    for threads in 1..9usize {
        for partitions in 1..9usize {
            let (groups, each) = share_out(threads, partitions);
            assert!(each >= 1);
            assert!(groups.len() * each <= threads);
            let mut seen: Vec<usize> = groups.concat();
            seen.sort();
            assert_eq!(seen, (0..partitions).collect::<Vec<usize>>());
        }
    }
    let options = TableOptions { max_parallelism: Some(0), ..TableOptions::default() };
    assert_eq!(options.budget(8), 1);
    assert_eq!(TableOptions::default().budget(8), 8);
}

fn typed(list: &[(&str, u32)]) -> Vec<NamedType> {
    list.iter().map(|(n, t)| NamedType { name: n.to_string(), type_id: *t }).collect()
}

fn compare(column: &str, op: Operator, literal: Literal) -> Expr {
    Expr::Binary {
        left: Box::new(Expr::Column(column.to_string())),
        op,
        right: Box::new(Expr::Literal(literal)),
    }
}

#[test]
fn a_scan_reads_what_it_tests() {
    let columns = typed(&[("time", 0), ("sym", 1), ("open", 2), ("vol", 3)]);
    let fields: Vec<FilterField> = [
        ("time", 0, DataType::Date32),
        ("sym", 1, DataType::Utf8),
        ("open", 2, DataType::Float64),
        ("vol", 3, DataType::Int64),
    ]
    .iter()
    .map(|(n, t, s)| FilterField { name: n.to_string(), type_id: *t, stored: Some(*s) })
    .collect();
    let known = strings(&["A", "B"]);
    let filters = [
        compare("sym", Operator::Eq, Literal::Utf8(Some("B".to_string()))),
        compare("time", Operator::GtEq, Literal::Int64(Some(5))),
        compare("vol", Operator::Gt, Literal::Int64(Some(100))),
    ];
    let projection = vec![1usize, 2];
    let (indices, request) =
        plan_scan(&columns, &fields, &known, Some(&projection), &filters, Some(10), None);
    assert_eq!(indices, projection);
    assert_eq!(request.columns, strings(&["open", "vol"]));
    assert!(matches!(&request.symbols, SymbolSelection::Symbols(s) if s == &strings(&["B"])));
    assert_eq!(request.time_range, TimeRange { start: 5, end: i64::MAX });
    assert_eq!(request.filters.len(), 1);
    assert!(matches!(
        &request.filters[0],
        Filter::GreaterThan { field, value: FilterValue::Int64(100) } if field == "vol"
    ));
    assert_eq!(request.batch_size, 10);
    assert_eq!(request.limit, Some(10));

    let picked = SymbolSelection::Symbols(strings(&["A"]));
    let (indices, request) = plan_scan(&columns, &fields, &known, None, &[], None, Some(picked));
    assert_eq!(indices, vec![0, 1, 2, 3]);
    assert_eq!(request.columns, strings(&["open", "vol"]));
    assert!(matches!(&request.symbols, SymbolSelection::Symbols(s) if s == &strings(&["A"])));
    assert_eq!(request.time_range, TimeRange { start: i64::MIN, end: i64::MAX });
    assert_eq!(request.batch_size, DEFAULT_BATCH);
    assert_eq!(request.limit, None);
}

#[test]
fn operators_and_times() {
    assert_eq!(invert_op(Operator::Lt), Operator::Gt);
    assert_eq!(invert_op(Operator::GtEq), Operator::LtEq);
    assert_eq!(invert_op(Operator::Eq), Operator::Eq);
    assert_eq!(time_fragment(Operator::Eq, 7), Some(TimeRange { start: 7, end: 8 }));
    assert_eq!(time_fragment(Operator::LtEq, 7), Some(TimeRange { start: i64::MIN, end: 8 }));
    assert_eq!(time_fragment(Operator::NotEq, 7), None);
}

fn hint_columns() -> Vec<HintColumn> {
    [
        ("time", HintType::Date),
        ("sym", HintType::Text),
        ("close", HintType::Float64),
        ("year", HintType::Int64),
    ]
    .iter()
    .map(|(n, k)| HintColumn { name: n.to_string(), kind: *k })
    .collect()
}

fn is(column: &str, literal: HintLiteral) -> HintExpr {
    HintExpr::Compare {
        left: Box::new(HintExpr::Column(column.to_string())),
        op: Operator::Eq,
        right: Box::new(HintExpr::Literal(HintValue { literal, double: None, single: None })),
    }
}

#[test]
fn frames_of_a_table_are_planned() {
    let partitions = strings(&["year"]);
    let asked = strings(&["year", "close", "sym"]);
    let predicate = HintExpr::And(
        Box::new(is("sym", HintLiteral::Text("A".to_string()))),
        Box::new(is("year", HintLiteral::Text("2026".to_string()))),
    );
    let plan = plan_table_scan(&hint_columns(), &partitions, Some(&asked), Some(predicate));
    assert_eq!(plan.stored, strings(&["sym", "close"]));
    assert_eq!(plan.fields, strings(&["close"]));
    assert_eq!(plan.constants, strings(&["year"]));
    assert_eq!(plan.limit, None);
    assert_eq!(plan.hint.partition_filters.len(), 1);
    let (symbols, range) = plan.hint.selection();
    assert!(matches!(symbols, SymbolSelection::Symbols(s) if s == strings(&["A"])));
    assert_eq!(range, TimeRange { start: i64::MIN, end: i64::MAX });
}

#[test]
fn frames_of_a_dataset_are_planned() {
    let plan = plan_dataset_scan(&hint_columns(), None, None, Some(3));
    assert_eq!(plan.stored, strings(&["time", "sym", "close", "year"]));
    assert_eq!(plan.fields, strings(&["close", "year"]));
    assert!(plan.constants.is_empty());
    assert_eq!(plan.batch_size, DEFAULT_BATCH);
    assert_eq!(plan.limit, Some(3));
    let (symbols, _) = plan.hint.selection();
    assert!(matches!(symbols, SymbolSelection::All));

    let asked = Some(strings(&["close", "time"]));
    let expr = is("time", HintLiteral::Int32(9));
    let plan = plan_dataset_scan(&hint_columns(), asked, Some(expr), None);
    assert_eq!(plan.stored, strings(&["close", "time"]));
    assert_eq!(plan.fields, strings(&["close"]));
    let (_, range) = plan.hint.selection();
    assert_eq!(range, TimeRange { start: 9, end: 10 });
}

#[test]
fn conditions_of_a_request_come_in_order() {
    let extra = Predicate::cmp("vol", CmpOp::Gt, Scalar::Int(5));
    let all = compose_predicate(Some("A".to_string()), Some((1, 9)), Some(extra)).unwrap();
    let Predicate::And(parts) = all else { panic!("no conjunction") };
    assert_eq!(parts.len(), 4);
    assert!(matches!(&parts[0], Predicate::Cmp { column, op: CmpOp::Eq, value: Scalar::Str(s) }
        if column == "sym" && s == "A"));
    assert!(matches!(&parts[1], Predicate::Cmp { column, op: CmpOp::Ge, value: Scalar::Int(1) }
        if column == "time"));
    assert!(matches!(&parts[2], Predicate::Cmp { column, op: CmpOp::Lt, value: Scalar::Int(9) }
        if column == "time"));
    assert!(matches!(&parts[3], Predicate::Cmp { column, op: CmpOp::Gt, value: Scalar::Int(5) }
        if column == "vol"));
    let nothing = TableScanRequest::default();
    assert!(compose_predicate(nothing.sym, nothing.time, nothing.predicate).is_none());
}

#[test]
fn bits_are_copied_out_of_a_view() {
    let source = Buffer::from_vec(vec![0b1100_1010, 0b0000_0001]);
    let view = BitmapView::new(BufferView::from_buffer(&source), 1, 8).unwrap();
    assert!(!view.all_valid());
    assert_eq!(view.to_packed_bytes(), vec![0b1110_0101]);
    let mut target = vec![0xffu8, 0xff];
    let (before, after) = view.copy_bits_into(&mut target, 4, 8);
    assert_eq!((before, after), (8, 5));
    assert_eq!(target, vec![0b0101_1111, 0b1111_1110]);
    let full = Bitmap::ones(9);
    assert!(full.as_view().all_valid());
}

#[test]
fn dictionaries_in_segments() {
    let offsets = Buffer::from_slice_copy(&[0u64, 2, 5]);
    let texts = Buffer::from_vec(b"abcde".to_vec());
    let keys = Buffer::from_slice_copy(&[1u32, 0, 1]);
    let view = |b| BufferView::from_buffer(b);
    let dict =
        ColumnSegment::new_dict(view(&keys), view(&offsets), view(&texts), None, 3).unwrap();
    let repeat =
        ColumnSegment::new_repeat_dict(view(&offsets), view(&texts), 0, None, 2).unwrap();
    assert!(matches!(repeat.values(), ColumnValues::RepeatDict { dict_index: 0, .. }));
    assert!(dict.fixed_bytes().is_none());
    let column = ColumnView::new(DataType::Utf8, vec![dict, repeat]).unwrap();
    assert_eq!(column.length(), 5);
    let texts_read: Vec<Option<&str>> = (0..6).map(|i| column.string_at(i)).collect();
    assert_eq!(
        texts_read,
        vec![Some("cde"), Some("ab"), Some("cde"), Some("ab"), Some("ab"), None]
    );
    let middle = column.slice_rows(1, 3).unwrap();
    assert_eq!(middle.segments().len(), 2);
    assert_eq!(middle.string_at(2), Some("ab"));
    assert_eq!(dict_bytes(offsets.as_slice(), texts.as_slice(), 1), Some(&b"cde"[..]));
    assert_eq!(dict_bytes(offsets.as_slice(), texts.as_slice(), 2), None);

    let one = ColumnView::from_one(DataType::UInt32, view(&keys), None, 3).unwrap();
    assert_eq!(one.segments().len(), 1);
    assert_eq!(one.length(), 3);
    assert!(ColumnView::from_one(DataType::UInt32, view(&keys), None, 4).is_err());
    assert!(ColumnView::new(DataType::UInt32, Vec::new()).is_err());
}

#[test]
fn values_by_type() {
    let bytes = [0xffu8, 0xff, 0xff, 0xff, 0, 0, 0, 0x80];
    assert_eq!(read_value(DataType::Int32, &bytes, 0), Some(FilterValue::Int32(-1)));
    assert_eq!(read_value(DataType::UInt16, &bytes, 2), Some(FilterValue::UInt16(65535)));
    assert_eq!(read_value(DataType::Int8, &bytes, 7), Some(FilterValue::Int8(-128)));
    assert_eq!(read_value(DataType::Bool, &bytes, 4), Some(FilterValue::Bool(false)));
    assert_eq!(
        read_value(DataType::UInt64, &bytes, 0),
        Some(FilterValue::UInt64(0x8000_0000_ffff_ffff))
    );
    assert_eq!(read_value(DataType::Float32, &bytes, 0), Some(FilterValue::Float32(u32::MAX)));
}

#[test]
fn types_of_series() {
    assert!(matches!(SeriesType::for_stored(DataType::Date32), SeriesType::Int32));
    assert!(matches!(SeriesType::for_stored(DataType::TimestampUs), SeriesType::Int64));
    assert!(matches!(SeriesType::Text.storage(), Ok(DataType::Utf8)));
    assert!(SeriesType::Other("list".to_string()).storage().is_err());
}

#[test]
fn kinds_of_data_types() {
    assert!(DataType::Int8.is_signed_int());
    assert!(!DataType::UInt8.is_signed_int());
    assert!(DataType::UInt8.is_integer());
    assert!(!DataType::Float64.is_integer());
    assert_eq!(DataType::TimestampUs.variant_str(), "TimestampUs");
}

#[test]
fn flags_of_a_field_header() {
    let mut h = FieldHeader::new_uncompressed(DataType::Int64, 3, 10, 10, true);
    assert!(h.has_validity());
    assert_eq!(h.data_offset(), 64);
    h.set_has_validity(false);
    assert!(!h.has_validity());
    h.set_has_validity(true);
    assert!(h.has_validity());
    assert_eq!(FieldHeader::from_bytes(&h.to_bytes()).unwrap(), h);
}

#[test]
fn which_compressions_can_be_written() {
    assert!(header::Compression::Uncompressed.is_writable());
    assert_eq!(header::TimeType::Date32.as_data_type(), DataType::Date32);
    assert_eq!(header::TimeType::TimestampUs.as_data_type(), DataType::TimestampUs);
}

#[test]
fn records_of_an_index() {
    let record = run(4, 3, 100);
    assert!(!record.contains_time(3));
    assert!(record.contains_time(4));
    assert!(record.contains_time(6));
    assert!(!record.contains_time(7));
    let mut bytes = vec![9u8];
    bytes.extend_from_slice(&record.to_bytes());
    assert_eq!(SymIndexRecord::read_at(&bytes, 1), record);
}

#[test]
fn format_errors_in_words() {
    let words = |e: FormatError| e.to_text();
    assert_eq!(
        words(FormatError::BadVersion { expected: 2, found: 9 }),
        "bad version: expected 2, found 9"
    );
    assert_eq!(words(FormatError::UnknownDataType(99)), "unknown data type id 99");
    assert_eq!(words(FormatError::UnknownTimeType(7)), "unknown time type id 7");
    assert_eq!(words(FormatError::UnknownEncoding(8)), "unknown encoding id 8");
    assert_eq!(words(FormatError::UnknownCompression(9)), "unknown compression id 9");
    assert_eq!(
        words(FormatError::SizeMismatch { expected: 64, found: 10 }),
        "size mismatch: expected 64, found 10"
    );
    assert_eq!(
        words(FormatError::Alignment { required: 8, found: 4 }),
        "misaligned: required 8-byte alignment, found 4"
    );
    assert_eq!(words(FormatError::InvalidLayout("x".to_string())), "invalid layout: x");
}

fn small_subset() -> Vec<u8> {
    let mut b = SubsetBuilder::new(header::TimeType::TimestampUs, 5, 6);
    b.add("QQ", run(0, 2, 0));
    b.add("ZZ", run(3, 1, 9));
    let file = b.build().unwrap();
    assert_eq!(file.find_symbol("ZZ"), Some(1));
    assert_eq!(file.find_symbol("AA"), None);
    file.serialize()
}

fn fault(bytes: &[u8]) -> String {
    SubsetFile::deserialize(bytes).unwrap_err().to_text()
}

#[test]
fn broken_subsets_are_refused() {
    let good = small_subset();
    let read = SubsetFile::deserialize(&good).unwrap();
    assert_eq!(read.symbols, strings(&["QQ", "ZZ"]));
    assert_eq!(read.ranges("ZZ").unwrap(), &[run(3, 1, 9)]);
    assert_eq!(read.serialize(), good);

    let with = |at: usize, value: u8| {
        let mut bytes = good.clone();
        bytes[at] = value;
        bytes
    };
    assert_eq!(fault(&good[..63]), "subset file too short for header");
    assert_eq!(fault(&good[..good.len() - 1]), "subset file truncated");
    assert_eq!(fault(&with(0, 0)), "subset header invalid: invalid SUBSET magic");
    assert_eq!(fault(&with(8, 9)), "subset header invalid: unsupported SUBSET version");
    assert_eq!(fault(&with(12, 9)), "subset header invalid: invalid SUBSET time_type");
    assert_eq!(fault(&with(36, 7)), "subset header invalid: range_count mismatch");
    assert_eq!(fault(&with(40, 7)), "subset header invalid: total_rows mismatch");
    let at = good.windows(2).position(|w| w == b"QQ").unwrap();
    let broken = with(at, 0xff);
    assert!(matches!(SubsetFile::deserialize(&broken), Err(SubsetError::Utf8(_))));
    assert!(fault(&broken).starts_with("subset symbol utf8 error: invalid utf-8"));
}

#[test]
fn empty_runs_are_refused() {
    let mut b = SubsetBuilder::new(header::TimeType::Date32, 1, 1);
    b.add("A", run(0, 0, 0));
    let e = b.build().unwrap_err();
    assert!(matches!(e, SubsetError::EmptyRange));
    assert_eq!(e.to_text(), "subset contains an empty range");
    let none = SubsetBuilder::new(header::TimeType::Date32, 1, 1).build().unwrap_err();
    assert_eq!(none.to_text(), "subset has no ranges");
}

#[test]
fn a_subset_is_tested_before_it_is_built_or_searched() {
    let mut b = SubsetBuilder::new(header::TimeType::Date32, 1, 1);
    assert!(b.can_build());
    b.add("A", run(u32::MAX, 2, 0));
    b.add("B", run(0, 1, 0));
    assert!(b.can_build());
    b.add("A", run(0, 1, 0));
    assert!(!b.can_build());

    let mut large = SubsetBuilder::new(header::TimeType::Date32, 1, 1);
    large.add("A", run(0, u32::MAX, 0));
    assert!(large.can_build());
    large.add("B", run(0, 1, 0));
    assert!(!large.can_build());
    large.add("C", run(0, 0, 0));
    assert!(large.can_build());
    assert!(matches!(large.build(), Err(SubsetError::EmptyRange)));

    let mut read = SubsetFile::deserialize(&small_subset()).unwrap();
    assert!(read.is_sorted());
    read.symbols.swap(0, 1);
    assert!(!read.is_sorted());
    read.symbols[0] = read.symbols[1].clone();
    assert!(!read.is_sorted());
    read.symbols.clear();
    assert!(read.is_sorted());
}

#[test]
fn rows_are_cut_again_from_cut_rows() {
    let column = Column {
        data_type: DataType::Int8,
        values: Buffer::from_vec(vec![7, 8, 9]),
        validity: Some(Bitmap::from_bytes(vec![0b110], 3)),
        dict: None,
    };
    let whole = column.as_view();
    let part = whole.slice_rows(1, 2).unwrap();
    assert_eq!(part.length(), 2);
    assert_eq!(part.segments()[0].fixed_bytes(), Some(&[8u8, 9][..]));
    assert_eq!(part.segments()[0].validity().unwrap().len(), 2);
    assert_eq!(part.null_count(), 0);
    let again = part.slice_rows(0, 1).unwrap();
    assert_eq!(again.length(), 1);
    assert_eq!(again.segments()[0].rows(), 1);
    assert_eq!(again.segments()[0].fixed_bytes(), Some(&[8u8][..]));
    assert_eq!(again.null_count(), 0);
    assert_eq!(whole.slice_rows(0, 1).unwrap().null_count(), 1);
    assert_eq!(
        format!("{:?}", part.slice_rows(1, 2).unwrap_err()),
        "InvalidLayout(\"slice [1, 1) out of range (len=3)\")"
    );
}

#[test]
fn names_and_keys_tell_the_same_partitions_apart() {
    let days: Vec<i64> = [
        (-1, 12, 31),
        (0, 1, 1),
        (99, 12, 31),
        (1969, 12, 31),
        (1970, 1, 1),
        (2024, 2, 28),
        (2024, 2, 29),
        (2024, 3, 1),
        (2025, 3, 1),
        (10000, 1, 1),
    ]
    .iter()
    .map(|&(y, m, d)| days_from_civil(y, m, d))
    .collect();
    for scheme in [
        PartitionScheme::Unpartitioned,
        PartitionScheme::Year,
        PartitionScheme::Month,
        PartitionScheme::Date,
    ] {
        for &a in &days {
            for &b in &days {
                let tt = TimeType::Date32;
                assert_eq!(
                    partition_name(scheme, a, tt) == partition_name(scheme, b, tt),
                    partition_key(scheme, a, tt) == partition_key(scheme, b, tt)
                );
            }
        }
    }
}

#[test]
fn copies_hold_what_they_were_made_of() {
    let data = Data::new(
        Schema::new(vec![FieldSchema::new("a", DataType::Int8)]),
        vec![Column {
            data_type: DataType::Int8,
            values: Buffer::from_vec(vec![1, 2]),
            validity: Some(Bitmap::from_bytes(vec![0b01], 2)),
            dict: None,
        }],
    )
    .unwrap();
    let copy = data.clone();
    assert_eq!(copy.schema, data.schema);
    assert_eq!(copy.columns[0].values.as_slice(), &[1, 2]);
    assert_eq!(copy.columns[0].null_count(), 1);
    let view = copy.as_view().clone();
    assert_eq!(view.length(), 2);
    assert_eq!(view.columns[0].segments()[0].fixed_bytes(), Some(&[1u8, 2][..]));

    let file = SubsetFile::deserialize(&small_subset()).unwrap();
    let again = file.clone();
    assert_eq!(again.symbols, file.symbols);
    assert_eq!(again.sym_ranges, file.sym_ranges);
    assert_eq!(again.serialize(), small_subset());

    let request = TableScanRequest {
        sym: Some("A".to_string()),
        time: Some((1, 2)),
        predicate: Some(Predicate::And(vec![
            Predicate::cmp("x", CmpOp::Gt, Scalar::Int(3)),
            Predicate::cmp("y", CmpOp::Eq, Scalar::Str("z".to_string())),
        ])),
        projection: strings(&["x", "y"]),
        limit: Some(9),
        max_parallelism: Some(2),
    };
    assert_eq!(format!("{:?}", request.clone()), format!("{request:?}"));

    let range = PartitionRowRange {
        partition: "year=2026".to_string(),
        row_range: RowRange::new(3, 4),
    };
    assert_eq!(range.clone(), range);
    assert_ne!(PartitionRowRange { partition: String::new(), ..range.clone() }, range);
}

#[test]
fn counts_of_stretches_add_up() {
    let bytes = [0b1011_0010u8, 0xff, 0x00, 0b0101_0101, 7, 1, 2, 3, 4, 5, 6];
    for off in [0usize, 1, 7, 8, 13] {
        for a in [0usize, 1, 9, 30] {
            for b in [0usize, 2, 17, 40] {
                let both = bitmap_count_ones(&bytes, off, a + b);
                assert_eq!(
                    bitmap_count_ones(&bytes, off, a) + bitmap_count_ones(&bytes, off + a, b),
                    both
                );
                let slow = (off..off + a + b).filter(|i| bytes[i / 8] >> (i % 8) & 1 == 1).count();
                assert_eq!(both, slow as u64);
            }
        }
    }
    let view = BitmapView::new(BufferView::new(&bytes), 5, 21).unwrap();
    let packed = view.to_packed_bytes();
    assert_eq!(packed.len(), 3);
    let back = Bitmap::from_bytes(packed.clone(), 21);
    assert!((0..21).all(|i| back.is_valid(i) == view.is_valid(i)));
    assert_eq!(packed[2] >> 5, 0);
}
