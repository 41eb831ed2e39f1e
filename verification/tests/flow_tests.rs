use splayed::fields::{
    check_cast_field, check_create_field, check_delete_field, check_packing, check_rename_field,
    check_update_field, PartitionFields,
};
use splayed::filter::FilterValue;
use splayed::frame::{
    column_of_cells, data_of_series, read_cells, series_of_view, NamedSeries, SeriesType,
};
use splayed::gather::gather_runs;
use splayed::listing::{
    check_new_partition, check_partition_data, check_partition_name, check_table_name,
    infer_scheme,
};
use splayed::partition::{days_from_civil, PartitionScheme};
use splayed::plan::{plan_table, TableOptions, TablePlan};
use splayed::query::{
    assemble_batch, resolve_projection, scan_table, BatchPlan, CmpOp, Predicate, ReadMode,
    RowRange, Scalar, ScanStep, TableReader, TableScanRequest,
};
use splayed::table::{
    aggregate_partitions, describe_partitions, table_metadata, DatasetStatistics, TableError,
    TableStatistics,
};
use splayed::writing::{
    build_aligned_column, check_input, check_partitions, match_places, partition_pairs,
    rows_to_write, scan_partition_runs, written_fields,
};
use splayed::{
    Bitmap, Buffer, Column, Data, DataType, DataView, FieldSchema, Schema, TimeType,
};

/// A table whose partitions are kept in memory.
struct MemoryTable {
    scheme: PartitionScheme,
    parts: Vec<(String, Data)>,
    chunked: bool,
}

/// The rows of one batch: symbol, time and price.
type Row = (String, i64, Option<f64>);

fn integer_of(v: &FilterValue) -> i64 {
    match v {
        FilterValue::Date32(d) => *d as i64,
        FilterValue::Int64(t) => *t,
        _ => panic!("no time"),
    }
}

fn text_of(v: &FilterValue) -> String {
    match v {
        FilterValue::String(s) => s.clone(),
        _ => panic!("no text"),
    }
}

/// Whether a row meets a condition on symbol and time.
fn meets(p: &Predicate, sym: &str, time: i64) -> bool {
    match p {
        Predicate::And(all) => all.iter().all(|q| meets(q, sym, time)),
        Predicate::Cmp { column, op, value } => match value {
            Scalar::Str(s) => column == "sym" && *op == CmpOp::Eq && sym == s,
            Scalar::Int(v) => {
                column == "time"
                    && match op {
                        CmpOp::Ge => time >= *v,
                        CmpOp::Lt => time < *v,
                        _ => panic!("unexpected comparison"),
                    }
            }
            Scalar::Float(_) => panic!("unexpected value"),
        },
    }
}

fn keys_of(view: &DataView<'_>) -> Vec<(String, i64)> {
    let syms = read_cells(view.column("sym").unwrap());
    let times = read_cells(view.column("time").unwrap());
    syms.iter()
        .zip(&times)
        .map(|(s, t)| (text_of(s.as_ref().unwrap()), integer_of(t.as_ref().unwrap())))
        .collect()
}

fn rows_of(view: &DataView<'_>) -> Vec<Row> {
    let prices = read_cells(view.column("price").unwrap());
    keys_of(view)
        .into_iter()
        .zip(prices)
        .map(|((s, t), p)| {
            let price = p.map(|v| match v {
                FilterValue::Float64(b) => f64::from_bits(b),
                _ => panic!("no price"),
            });
            (s, t, price)
        })
        .collect()
}

fn cut<'a>(view: &DataView<'a>, range: RowRange) -> DataView<'a> {
    let columns = view
        .columns
        .iter()
        .map(|c| c.slice_rows(range.offset as usize, range.length as usize).unwrap())
        .collect();
    DataView::new(view.schema.clone(), columns).unwrap()
}

impl MemoryTable {
    fn create(data: Data, scheme: PartitionScheme) -> Self {
        let parts = match plan_table(&data, scheme, &TableOptions::default(), 4).unwrap() {
            TablePlan::Empty => Vec::new(),
            TablePlan::Single { .. } => vec![(String::new(), data)],
            TablePlan::Partitions { buckets, .. } => buckets
                .iter()
                .map(|(name, runs)| (name.clone(), gather_runs(&data, runs).unwrap()))
                .collect(),
        };
        MemoryTable { scheme, parts, chunked: false }
    }

    fn names(&self) -> Vec<String> {
        self.parts.iter().map(|p| p.0.clone()).collect()
    }

    fn statistics(&self) -> TableStatistics {
        let parts: Vec<DatasetStatistics> = self
            .parts
            .iter()
            .map(|(_, data)| {
                let keys = keys_of(&data.as_view());
                DatasetStatistics {
                    row_count: keys.len() as u64,
                    sym_min: keys.iter().map(|k| k.0.clone()).min(),
                    sym_max: keys.iter().map(|k| k.0.clone()).max(),
                    time_min: keys.iter().map(|k| k.1).min().unwrap(),
                    time_max: keys.iter().map(|k| k.1).max().unwrap(),
                }
            })
            .collect();
        aggregate_partitions(&parts).unwrap()
    }

    fn schema(&self) -> &Schema {
        &self.parts.last().unwrap().1.schema
    }

    /// The ranges of rows in a partition that meet a condition, up to a limit.
    fn find(&self, name: &str, p: Option<&Predicate>, limit: Option<u64>) -> Vec<RowRange> {
        let mut found: Vec<RowRange> = Vec::new();
        let mut count = 0u64;
        let part = self.parts.iter().find(|p| p.0 == name).unwrap();
        let keys = keys_of(&part.1.as_view());
        for (i, (sym, time)) in keys.iter().enumerate() {
            let wanted = p.map_or(true, |p| meets(p, sym, *time));
            if !wanted || limit.map_or(false, |n| count >= n) {
                continue;
            }
            count += 1;
            let at = i as u64;
            match found.last_mut() {
                Some(r) if r.offset + r.length == at => r.length += 1,
                _ => found.push(RowRange::new(at, 1)),
            }
        }
        found
    }

    /// The rows that a request asks for, batch by batch.
    fn query(&self, request: TableScanRequest, batch_size: Option<usize>) -> Vec<Vec<Row>> {
        let mut scanner =
            scan_table(self.names(), self.scheme, TimeType::Date32, request).unwrap();
        let asked = scanner.projection.clone();
        let projection = resolve_projection(asked, self.schema());
        assert!(projection.contains(&"price".to_string()));
        let mut reader = TableReader::new(batch_size);
        let mut found: Vec<RowRange> = Vec::new();
        let mut batches = Vec::new();
        loop {
            let size = match reader.mode().unwrap() {
                ReadMode::Finished => return batches,
                ReadMode::OneRange => None,
                ReadMode::Batch(n) => Some(n),
            };
            let mut plan = BatchPlan::new(size);
            while plan.wants_more() {
                let mut next = reader.take_pending();
                while next.is_none() {
                    match scanner.step() {
                        ScanStep::Finished => break,
                        ScanStep::Open { index, limit } => {
                            let name = scanner.partitions[index].clone();
                            found = self.find(&name, scanner.predicate.as_ref(), limit);
                            found.reverse();
                        }
                        ScanStep::Pull { .. } => next = scanner.deliver(found.pop()),
                    }
                }
                match next {
                    Some(range) => reader.fill(&mut plan, range),
                    None => {
                        reader.finish();
                        break;
                    }
                }
            }
            let views: Vec<DataView<'_>> = plan
                .heads
                .iter()
                .map(|h| {
                    let data = &self.parts.iter().find(|p| p.0 == h.partition).unwrap().1;
                    cut(&data.as_view(), h.row_range)
                })
                .collect();
            if let Some(batch) = assemble_batch(&views).unwrap() {
                batches.push(rows_of(&batch));
            }
        }
    }

    fn all(&self) -> Vec<Row> {
        self.query(TableScanRequest::default(), None).concat()
    }

    fn prices(&self) -> Vec<f64> {
        self.all().iter().map(|r| r.2.unwrap()).collect()
    }

    /// Overwrites the rows of an input that the table holds.
    fn overwrite(&mut self, input: &Data) -> Result<(), String> {
        let said = |e: TableError| format!("{e:?}");
        let data = input.as_view();
        if !check_input(&data, "write_table").map_err(said)? {
            return Ok(());
        }
        let tt = TimeType::Date32;
        let buckets = scan_partition_runs(&data, self.scheme, tt).map_err(said)?;
        check_partitions(&buckets, self.scheme, &self.names()).map_err(said)?;
        let mut plan = Vec::new();
        for (name, runs) in &buckets {
            let (sym, time) = (data.column("sym").unwrap(), data.column("time").unwrap());
            let pairs = partition_pairs(sym, time, runs).map_err(said)?;
            let at = self.parts.iter().position(|p| &p.0 == name).unwrap();
            let keys = keys_of(&self.parts[at].1.as_view());
            let mut located = Vec::new();
            for (s, t) in pairs {
                let row = keys.iter().position(|k| k.0 == s && k.1 == t).ok_or("no such key")?;
                located.push(RowRange::new(row as u64, 1));
            }
            plan.push((at, match_places(&located, runs).map_err(said)?));
        }
        let (schema, columns) = written_fields(&data.schema);
        for (at, writes) in plan {
            for w in writes {
                let rows = rows_to_write(&data, &schema, &columns, w).unwrap();
                for (field, new) in rows.schema.fields.iter().zip(&rows.columns) {
                    let target = &mut self.parts[at].1;
                    let place = target.schema.position(&field.name).unwrap();
                    let mut cells = read_cells(&target.columns[place].as_view());
                    for (i, cell) in read_cells(new).into_iter().enumerate() {
                        cells[w.0 as usize + i] = cell;
                    }
                    target.columns[place] = column_of_cells(field.data_type, &cells);
                }
            }
        }
        Ok(())
    }

    fn fields(&self) -> Vec<PartitionFields> {
        self.parts
            .iter()
            .map(|(name, data)| PartitionFields {
                name: name.clone(),
                schema: data.schema.clone(),
            })
            .collect()
    }

    fn create_field(&mut self, name: &str, t: DataType) -> Result<(), TableError> {
        check_create_field(name, &self.fields())?;
        for (_, data) in &mut self.parts {
            let rows = data.length();
            data.schema.fields.push(FieldSchema::new(name, t));
            data.columns.push(Column::zeroed(t, rows, true));
        }
        Ok(())
    }

    fn rename_field(&mut self, name: &str, new_name: &str) -> Result<(), TableError> {
        check_rename_field(name, new_name, &self.fields())?;
        for (_, data) in &mut self.parts {
            let at = data.schema.position(name).unwrap();
            data.schema.fields[at].name = new_name.to_string();
        }
        Ok(())
    }

    fn delete_field(&mut self, name: &str) -> Result<(), TableError> {
        check_delete_field(name, &self.fields())?;
        for (_, data) in &mut self.parts {
            let at = data.schema.position(name).unwrap();
            data.schema.fields.remove(at);
            data.columns.remove(at);
        }
        Ok(())
    }

    fn cast_field(&mut self, name: &str, target: DataType) -> Result<(), TableError> {
        check_cast_field(name, &self.fields())?;
        for (_, data) in &mut self.parts {
            let at = data.schema.position(name).unwrap();
            let cells = read_cells(&data.columns[at].as_view())
                .into_iter()
                .map(|c| {
                    c.map(|v| match v {
                        FilterValue::Float64(b) => FilterValue::Int64(f64::from_bits(b) as i64),
                        FilterValue::Int64(n) => FilterValue::Float64((n as f64).to_bits()),
                        _ => panic!("unexpected type"),
                    })
                })
                .collect();
            data.columns[at] = column_of_cells(target, &cells);
            data.schema.fields[at].data_type = target;
        }
        Ok(())
    }

    fn pack_field(&mut self, name: &str, pack: bool) -> Result<(), TableError> {
        let parts = self.fields();
        check_packing(name, &parts, &vec![self.chunked; parts.len()], pack)?;
        self.chunked = pack;
        Ok(())
    }
}

fn make_data(rows: &[(&str, i32, f64)]) -> Data {
    let cells = |v: Vec<FilterValue>| v.into_iter().map(Some).collect();
    let syms = cells(rows.iter().map(|r| FilterValue::String(r.0.to_string())).collect());
    let prices: Vec<u64> = rows.iter().map(|r| r.2.to_bits()).collect();
    let times: Vec<i32> = rows.iter().map(|r| r.1).collect();
    let fixed = |data_type, values| Column { data_type, values, validity: None, dict: None };
    Data::new(
        Schema::new(vec![
            FieldSchema::new("sym", DataType::Utf8),
            FieldSchema::new("time", DataType::Date32),
            FieldSchema::new("price", DataType::Float64),
        ]),
        vec![
            column_of_cells(DataType::Utf8, &syms),
            fixed(DataType::Date32, Buffer::from_slice_copy(&times)),
            fixed(DataType::Float64, Buffer::from_slice_copy(&prices)),
        ],
    )
    .unwrap()
}

fn day(y: i64, m: u32, d: u32) -> i32 {
    days_from_civil(y, m, d) as i32
}

fn month_sample() -> Data {
    make_data(&[
        ("AAPL", day(2026, 8, 3), 10.0),
        ("AAPL", day(2026, 8, 4), 11.0),
        ("MSFT", day(2026, 8, 3), 20.0),
        ("MSFT", day(2026, 8, 4), 21.0),
        ("AAPL", day(2026, 9, 1), 12.0),
        ("AAPL", day(2026, 9, 2), 13.0),
        ("MSFT", day(2026, 9, 1), 22.0),
        ("MSFT", day(2026, 9, 2), 23.0),
    ])
}

#[test]
fn month_table_create_query() {
    let table = MemoryTable::create(month_sample(), PartitionScheme::Month);
    assert_eq!(table.names(), vec!["month=2026-08", "month=2026-09"]);
    assert_eq!(infer_scheme(false, &table.names()).unwrap(), PartitionScheme::Month);

    let infos = describe_partitions(&table.names(), table.scheme, TimeType::Date32).unwrap();
    let meta = table_metadata(table.scheme, infos);
    assert_eq!(meta.partitions.len(), 2);
    assert_eq!(meta.partitions[0].name, "month=2026-08");
    assert_eq!(meta.ordering, vec!["sym", "time"]);
    assert!(meta.capabilities.limit_pushdown);

    let stats = table.statistics();
    assert_eq!(stats.row_count, 8);
    assert_eq!(stats.partition_count, 2);
    assert_eq!(stats.sym_min.as_deref(), Some("AAPL"));
    assert_eq!(stats.sym_max.as_deref(), Some("MSFT"));
    assert_eq!(table.schema().data_type_of("price"), Some(DataType::Float64));

    let rows = table.all();
    assert_eq!(rows.len(), 8);
    let row = |i: usize| (rows[i].0.as_str(), rows[i].2.unwrap());
    assert_eq!(row(0), ("AAPL", 10.0));
    assert_eq!(row(2), ("MSFT", 20.0));
    assert_eq!(row(3), ("MSFT", 21.0));
    assert_eq!(row(4), ("AAPL", 12.0));

    let time = Some((day(2026, 9, 1) as i64, day(2026, 10, 1) as i64));
    let request = TableScanRequest { time, ..Default::default() };
    let batches = table.query(request, Some(3));
    assert_eq!(batches.concat().len(), 4);
    assert_eq!(batches.iter().map(|b| b.len()).collect::<Vec<usize>>(), vec![3, 1]);

    let request = TableScanRequest { sym: Some("MSFT".to_string()), ..Default::default() };
    let syms: Vec<String> =
        table.query(request, None).concat().iter().map(|r| r.0.clone()).collect();
    assert_eq!(syms, vec!["MSFT", "MSFT", "MSFT", "MSFT"]);
}

#[test]
fn table_write_overwrites_existing_rows() {
    let mut table = MemoryTable::create(month_sample(), PartitionScheme::Month);
    let d803 = day(2026, 8, 3);
    let patch = make_data(&[("AAPL", d803, 111.0), ("MSFT", d803, 222.0)]);
    table.overwrite(&patch).unwrap();
    let expected = vec![111.0, 11.0, 222.0, 21.0, 12.0, 13.0, 22.0, 23.0];
    assert_eq!(table.prices(), expected);

    let bad = make_data(&[("AAPL", day(2026, 8, 30), 1.0)]);
    assert!(table.overwrite(&bad).is_err());
    let other_part = make_data(&[("AAPL", day(2026, 9, 15), 1.0)]);
    assert!(table.overwrite(&other_part).is_err());
    let unordered = make_data(&[("MSFT", d803, 5.0), ("AAPL", d803, 6.0)]);
    assert!(table.overwrite(&unordered).is_err());
    let missing_part = make_data(&[("AAPL", day(2026, 10, 1), 1.0)]);
    assert!(table.overwrite(&missing_part).is_err());
    assert_eq!(table.prices(), expected);
}

#[test]
fn new_columns_hold_the_rows_that_are_brought_to_them() {
    let table = MemoryTable::create(month_sample(), PartitionScheme::Month);
    let input = make_data(&[("AAPL", day(2026, 8, 4), 7.0), ("MSFT", day(2026, 8, 3), 8.0)]);
    let view = input.as_view();
    let buckets = scan_partition_runs(&view, table.scheme, TimeType::Date32).unwrap();
    let located = [RowRange::new(1, 1), RowRange::new(2, 1)];
    let writes = match_places(&located, &buckets[0].1).unwrap();
    assert_eq!(writes, vec![(1, 0, 1), (2, 1, 1)]);
    let column =
        build_aligned_column(&view, &writes, "price", DataType::Float64, 4).unwrap();
    let cells = read_cells(&column.as_view());
    let price = |p: f64| Some(FilterValue::Float64(p.to_bits()));
    assert_eq!(cells, vec![None, price(7.0), price(8.0), None]);
}

#[test]
fn none_scheme_table() {
    let (d803, d804) = (day(2026, 8, 3), day(2026, 8, 4));
    let sorted = make_data(&[
        ("AAPL", d803, 10.0),
        ("AAPL", d804, 11.0),
        ("MSFT", d803, 20.0),
        ("MSFT", d804, 21.0),
    ]);
    let table = MemoryTable::create(sorted, PartitionScheme::Unpartitioned);
    assert_eq!(table.names(), vec![""]);
    assert_eq!(infer_scheme(true, &[]).unwrap(), PartitionScheme::Unpartitioned);
    assert_eq!(table.all().len(), 4);

    // Its one partition has no times in its name: a range of times only picks rows.
    let timed = TableScanRequest {
        time: Some((d804 as i64, d804 as i64 + 1)),
        ..TableScanRequest::default()
    };
    let rows = table.query(timed, None).concat();
    assert_eq!(
        rows,
        vec![
            ("AAPL".to_string(), d804 as i64, Some(11.0)),
            ("MSFT".to_string(), d804 as i64, Some(21.0)),
        ]
    );
}

#[test]
fn partitions_are_added_by_name() {
    let partial = make_data(&[("AAPL", day(2026, 8, 3), 10.0)]);
    let mut table = MemoryTable::create(partial, PartitionScheme::Month);

    let sep_sample = make_data(&[("AAPL", day(2026, 9, 1), 12.0)]);
    check_new_partition("month=2026-09", false, &table.names()).unwrap();
    check_partition_data(&sep_sample).unwrap();
    table.parts.push(("month=2026-09".to_string(), sep_sample));
    assert!(check_new_partition("year=2026", false, &table.names()).is_err());

    check_table_name("tbl_v2").unwrap();
    let stats = table.statistics();
    assert_eq!(stats.row_count, 2);
    assert_eq!(stats.partition_count, 2);
    check_partition_name("month=2026-09").unwrap();
}

#[test]
fn empty_table_scheme_cannot_be_inferred() {
    assert!(infer_scheme(false, &[]).is_err());
}

#[test]
fn validity_survives_partition_split() {
    let mut data = make_data(&[
        ("AAPL", day(2026, 8, 3), 10.0),
        ("AAPL", day(2026, 8, 4), 0.0),
        ("AAPL", day(2026, 9, 1), 12.0),
        ("MSFT", day(2026, 8, 3), 20.0),
    ]);
    let mut bits = Bitmap::ones(4);
    bits.set(1, false);
    let price = data.schema.position("price").unwrap();
    data.columns[price].validity = Some(bits);
    let table = MemoryTable::create(data, PartitionScheme::Month);
    let rows = table.all();
    assert_eq!(rows.iter().filter(|r| r.2.is_none()).count(), 1);
    assert_eq!(rows[1], ("AAPL".to_string(), day(2026, 8, 4) as i64, None));
}

#[test]
fn table_field_structure_operations() {
    let mut table = MemoryTable::create(month_sample(), PartitionScheme::Month);
    table.create_field("volume", DataType::Int64).unwrap();
    assert_eq!(table.schema().data_type_of("volume"), Some(DataType::Int64));
    assert!(table.create_field("volume", DataType::Int64).is_err());
    check_update_field("volume", &table.fields()).unwrap();

    table.rename_field("volume", "vol").unwrap();
    assert!(table.schema().data_type_of("volume").is_none());
    assert_eq!(table.schema().data_type_of("vol"), Some(DataType::Int64));

    table.cast_field("price", DataType::Int64).unwrap();
    assert_eq!(table.schema().data_type_of("price"), Some(DataType::Int64));
    table.cast_field("price", DataType::Float64).unwrap();

    table.pack_field("price", true).unwrap();
    assert!(table.pack_field("price", true).is_err());
    assert_eq!(table.prices(), vec![10.0, 11.0, 20.0, 21.0, 12.0, 13.0, 22.0, 23.0]);
    table.pack_field("price", false).unwrap();

    table.delete_field("vol").unwrap();
    assert!(table.schema().data_type_of("vol").is_none());
    assert!(table.rename_field("vol", "vol2").is_err());
    assert!(table.delete_field("vol").is_err());
}

fn frame(syms: &[&str], times: &[i64], prices: &[f64]) -> Vec<NamedSeries> {
    let cells = |v: Vec<FilterValue>| v.into_iter().map(Some).collect();
    vec![
        NamedSeries {
            name: "sym".to_string(),
            kind: SeriesType::Text,
            cells: cells(syms.iter().map(|s| FilterValue::String(s.to_string())).collect()),
        },
        NamedSeries {
            name: "time".to_string(),
            kind: SeriesType::Int64,
            cells: cells(times.iter().map(|t| FilterValue::Int64(*t)).collect()),
        },
        NamedSeries {
            name: "price".to_string(),
            kind: SeriesType::Float64,
            cells: cells(prices.iter().map(|p| FilterValue::Float64(p.to_bits())).collect()),
        },
    ]
}

#[test]
fn frames_are_stored_and_overwritten() {
    let first = data_of_series(&frame(
        &["AAPL", "AAPL", "MSFT", "MSFT"],
        &[100, 200, 100, 200],
        &[15.5, 16.5, 25.5, 26.5],
    ))
    .unwrap();
    let mut table = MemoryTable::create(first, PartitionScheme::Unpartitioned);
    assert_eq!(table.all().len(), 4);
    assert_eq!(series_of_view(&table.parts[0].1.as_view()).len(), 3);

    let second =
        data_of_series(&frame(&["AAPL", "MSFT"], &[100, 100], &[99.0, 88.0])).unwrap();
    table.overwrite(&second).unwrap();
    assert_eq!(table.prices().iter().filter(|p| **p > 50.0).count(), 2);
    assert_eq!(table.prices(), vec![99.0, 16.5, 88.0, 26.5]);
}

#[test]
fn nulls_survive_a_scan_of_months() {
    let mut data = month_sample();
    let price = data.schema.position("price").unwrap();
    let mut bits = Bitmap::ones(8);
    bits.set(3, false);
    data.columns[price].validity = Some(bits);
    let table = MemoryTable::create(data, PartitionScheme::Month);
    assert_eq!(table.names(), vec!["month=2026-08", "month=2026-09"]);
    let rows = table.all();
    assert_eq!(rows.len(), 8);
    assert_eq!(table.schema().fields.len(), 3);
    assert_eq!(rows.iter().filter(|r| r.2.map_or(false, |p| p > 15.0)).count(), 3);
}
