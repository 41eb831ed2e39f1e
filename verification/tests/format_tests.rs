use splayed::buffer::{misalignment, padding, Buffer, BufferView};
use splayed::column::{Column, ColumnSegment, ColumnView};
use splayed::field_footer::{compute_stats, encode_footer, parse_footer};
use splayed::header;
use splayed::partition::{
    civil_from_days, days_from_civil, partition_name, partition_range, PartitionScheme, US_PER_DAY,
};
use splayed::subset::{SubsetBuilder, SubsetError, SubsetFile};
use splayed::{
    validity_size, Compression, Data, DataType, DataView, Encoding, FieldHeader, FieldSchema,
    FormatError, MetaHeader, Schema, SymIndexRecord, TimeType, FIELD_MAGIC, FORMAT_VERSION,
    META_MAGIC,
};

#[test]
fn zeroed_aligned_offsets_to_alignment() {
    for alignment in [1usize, 2, 4, 8, 16, 64] {
        for len in [0usize, 1, 7, 64, 4096] {
            let buf = Buffer::zeroed_aligned(len, alignment);
            assert_eq!(buf.len(), len);
            let addr = buf.as_slice().as_ptr() as usize;
            assert_eq!(addr % alignment, 0);
            assert!(buf.as_slice().iter().all(|&b| b == 0));
        }
    }
}

#[test]
fn padding_leads_to_the_next_multiple() {
    assert_eq!(padding(0, 8), 0);
    assert_eq!(padding(16, 8), 0);
    assert_eq!(padding(17, 8), 7);
    assert_eq!(padding(23, 8), 1);
    assert_eq!(padding(5, 1), 0);
    assert_eq!(padding(usize::MAX, 64), 1);
    assert_eq!(misalignment(17, 8), 1);
    assert_eq!(misalignment(64, 16), 0);
    for (len, alignment) in [(0usize, 1usize), (3, 8), (100, 64), (5000, 16)] {
        let made = Buffer::zeroed_aligned(len, alignment);
        assert_eq!(made.skipped(), padding(made.base(), alignment));
        assert_eq!(made.as_slice().as_ptr() as usize, made.base() + made.skipped());
    }
    let copy = Buffer::zeroed_aligned_bytes(vec![1, 2, 3], 64).clone();
    assert_eq!(copy.as_slice(), &[1, 2, 3]);
    assert_eq!(copy.alignment(), 64);
    assert_eq!(copy.as_slice().as_ptr() as usize % 64, 0);
}

#[test]
fn from_slice_copy_preserves_bytes_and_alignment() {
    let src: Vec<i64> = (0..100).map(|i| i * 7919 - 3).collect();
    let buf = Buffer::from_slice_copy(&src);
    assert_eq!(buf.alignment(), 8);
    let round: &[i64] = bytemuck::cast_slice(buf.as_slice());
    assert_eq!(round, src.as_slice());
}

#[test]
fn copied_values_are_cast_back() {
    let words = Buffer::from_slice_copy(&[1u16, 0x0203, u16::MAX]);
    assert_eq!(words.len(), 6);
    assert_eq!(words.as_slice()[2..4], 0x0203u16.to_ne_bytes());
    assert_eq!(BufferView::from_buffer(&words).cast::<u16>().unwrap(), &[1, 0x0203, u16::MAX]);
    let signed = Buffer::from_slice_copy(&[-1i32, 7]);
    assert_eq!(BufferView::from_buffer(&signed).cast::<i32>().unwrap(), &[-1, 7]);
    let long = Buffer::from_slice_copy(&[u64::MAX - 1]);
    assert_eq!(long.as_slice(), (u64::MAX - 1).to_ne_bytes());
    assert_eq!(Buffer::from_slice_copy(&[-2i64]).as_slice(), (-2i64).to_ne_bytes());
    assert_eq!(Buffer::from_slice_copy(&[0x0102_0304u32]).as_slice(), 0x0102_0304u32.to_ne_bytes());
    assert_eq!(Buffer::from_slice_copy(&[-2i16]).as_slice(), (-2i16).to_ne_bytes());
    assert_eq!(Buffer::from_slice_copy(&[-3i8, 4]).as_slice(), &[253, 4]);
    assert_eq!(Buffer::from_slice_copy(&[9u8, 8]).as_slice(), &[9, 8]);
}

#[test]
fn buffer_view_slice_and_cast() {
    let buf = Buffer::from_vec((0..16u8).collect());
    let view = BufferView::from_buffer(&buf);
    assert_eq!(view.slice(4, 8).as_slice(), &[4, 5, 6, 7, 8, 9, 10, 11]);
    let words: &[u32] = view.cast::<u32>().unwrap();
    assert_eq!(words.len(), 4);

    let odd = Buffer::from_vec(vec![0u8; 7]);
    let misaligned = BufferView::from_buffer(&odd).slice(1, 4);
    assert!(matches!(
        misaligned.cast::<u32>(),
        Err(FormatError::Alignment { required: 4, found: 1 })
    ));
}

#[test]
fn segment_checks_value_length() {
    let values = Buffer::from_vec(vec![0u8; 10]);
    let view = BufferView::from_buffer(&values);
    assert!(matches!(
        ColumnSegment::new(DataType::Int32, view, None, 2),
        Err(FormatError::SizeMismatch { expected: 8, found: 10 })
    ));
    assert!(ColumnSegment::new(DataType::Int8, view, None, 10).is_ok());
}

#[test]
fn column_view_sums_segments() {
    let a = Buffer::from_vec(vec![1u8, 2, 3, 4]);
    let b = Buffer::from_vec(vec![5u8, 6, 7, 8]);
    let s1 = ColumnSegment::new(DataType::UInt16, BufferView::from_buffer(&a), None, 2).unwrap();
    let s2 = ColumnSegment::new(DataType::UInt16, BufferView::from_buffer(&b), None, 2).unwrap();
    let view = ColumnView::new(DataType::UInt16, vec![s1, s2]).unwrap();
    assert_eq!(view.length(), 4);
    assert_eq!(view.segments().len(), 2);
    assert!(ColumnView::new(DataType::UInt16, vec![]).is_err());
}

#[test]
fn owned_column_zeroed_all_null() {
    let col = Column::zeroed(DataType::Float64, 250, true);
    assert_eq!(col.length(), 250);
    assert_eq!(col.null_count(), 250);
    assert_eq!(col.values.alignment(), 8);
    let view = col.as_view();
    assert_eq!(view.length(), 250);
    assert_eq!(view.null_count(), 250);

    let valid = Column::zeroed(DataType::Float64, 250, false);
    assert_eq!(valid.null_count(), 0);
}

#[test]
fn dict_column_string_at() {
    let strings = b"AAPLMSFTGOOG".to_vec();
    let offsets = vec![0u64, 4, 8, 12];
    let keys: Vec<u32> = vec![0, 0, 1, 2, 1];
    let col = Column::from_dict(keys, offsets, strings, None);
    assert_eq!(col.length(), 5);
    let view = col.as_view();
    assert_eq!(view.data_type(), DataType::Utf8);
    assert_eq!(view.string_at(0), Some("AAPL"));
    assert_eq!(view.string_at(1), Some("AAPL"));
    assert_eq!(view.string_at(2), Some("MSFT"));
    assert_eq!(view.string_at(3), Some("GOOG"));
    assert_eq!(view.string_at(4), Some("MSFT"));
    assert_eq!(view.string_at(5), None);
}

fn col(name_data: (DataType, usize)) -> Column {
    Column::zeroed(name_data.0, name_data.1, false)
}

#[test]
fn data_validates_uniform_length() {
    let schema = Schema::new(vec![
        FieldSchema::new("a", DataType::Int32),
        FieldSchema::new("b", DataType::Int64),
    ]);
    let ok = Data::new(
        schema.clone(),
        vec![col((DataType::Int32, 4)), col((DataType::Int64, 4))],
    );
    assert!(ok.is_ok());

    let bad = Data::new(
        schema,
        vec![col((DataType::Int32, 4)), col((DataType::Int64, 5))],
    );
    assert!(bad.is_err());
}

#[test]
fn dataview_column_lookup_and_type_check() {
    let schema = Schema::new(vec![
        FieldSchema::new("sym", DataType::UInt16),
        FieldSchema::new("price", DataType::Float64),
    ]);
    let sym = Column::zeroed(DataType::UInt16, 10, false);
    let price = Column::zeroed(DataType::Float64, 10, false);
    let columns = vec![sym.as_view(), price.as_view()];
    let view = DataView::new(schema, columns).unwrap();
    assert_eq!(view.length(), 10);
    assert!(view.column("price").is_some());
    assert!(view.column("missing").is_none());

    let sym2 = Column::zeroed(DataType::UInt16, 10, false);
    let wrong = Column::zeroed(DataType::Int64, 10, false);
    let wrong_type = vec![sym2.as_view(), wrong.as_view()];
    assert!(DataView::new(
        Schema::new(vec![
            FieldSchema::new("sym", DataType::UInt16),
            FieldSchema::new("price", DataType::Float64),
        ]),
        wrong_type
    )
    .is_err());
}

#[test]
fn field_header_layout_is_64_bytes() {
    assert_eq!(std::mem::size_of::<FieldHeader>(), 64);
    let header = FieldHeader::new_uncompressed(DataType::Float64, 42, 250, 3, true);
    let bytes = header.to_bytes();
    assert_eq!(bytes.len(), 64);
    assert_eq!(u64::from_le_bytes(bytes[40..48].try_into().unwrap()), 250 * 8);
    assert_eq!(u64::from_le_bytes(bytes[48..56].try_into().unwrap()), 64 + 250 * 8);
    let parsed = FieldHeader::from_bytes(&bytes).unwrap();
    assert_eq!(parsed, header);
    assert!(parsed.has_validity());
    assert_eq!(parsed.validity_size(), 32);
    assert!(!parsed.is_chunked());
}

#[test]
fn all_valid_header_has_no_validity_region() {
    let header = FieldHeader::new_uncompressed(DataType::Int32, 1, 100, 0, false);
    assert!(!header.has_validity());
    assert_eq!(header.validity_offset, 0);
    assert_eq!(header.validity_size(), 0);
}

#[test]
fn chunked_flag_follows_encoding_or_compression() {
    let mut header = FieldHeader::new_uncompressed(DataType::Int32, 1, 100, 0, false);
    header.encoding = Encoding::Delta.id();
    assert!(header.is_chunked());
    header.encoding = Encoding::Plain.id();
    header.compression = Compression::Zstd.id();
    assert!(header.is_chunked());
    header.compression = Compression::Uncompressed.id();
    assert!(!header.is_chunked());
}

#[test]
fn rejects_unknown_ids() {
    let mut header = FieldHeader::new_uncompressed(DataType::Int32, 1, 100, 0, false);
    header.data_type = 99;
    assert!(matches!(
        FieldHeader::from_bytes(&header.to_bytes()),
        Err(FormatError::UnknownDataType(99))
    ));
}

fn slot(v: u64) -> [u8; 8] {
    v.to_le_bytes()
}

#[test]
fn encode_parse_roundtrip() {
    let f = encode_footer(Some((slot(10), slot(20))));
    let (valid, mn, mx) = parse_footer(&f).unwrap();
    assert!(valid);
    assert_eq!(mn, slot(10));
    assert_eq!(mx, slot(20));

    let f2 = encode_footer(None);
    let (valid2, _, _) = parse_footer(&f2).unwrap();
    assert!(!valid2);

    // Without its first bytes a footer says nothing.
    let mut bad = f;
    bad[..4].copy_from_slice(&0u32.to_le_bytes());
    assert!(parse_footer(&bad).is_none());
}

#[test]
fn compute_stats_int_skips_nulls() {
    let int32 = DataType::Int32;
    let mut data = Vec::new();
    data.extend_from_slice(int32.null_bytes());
    data.extend_from_slice(&5i32.to_le_bytes());
    data.extend_from_slice(&3i32.to_le_bytes());
    data.extend_from_slice(int32.null_bytes());
    data.extend_from_slice(&7i32.to_le_bytes());
    let (mn, mx) = compute_stats(int32, &data).unwrap();
    assert_eq!(mn, slot(3));
    assert_eq!(mx, slot(7));
}

#[test]
fn compute_stats_float_and_unsigned() {
    let float64 = DataType::Float64;
    let mut f = float64.null_bytes().to_vec();
    f.extend_from_slice(&1.5f64.to_le_bytes());
    f.extend_from_slice(&(-2.25f64).to_le_bytes());
    let (mn, mx) = compute_stats(float64, &f).unwrap();
    assert_eq!(f64::from_le_bytes(mn), -2.25);
    assert_eq!(f64::from_le_bytes(mx), 1.5);

    let uint32 = DataType::UInt32;
    let mut u = Vec::new();
    u.extend_from_slice(&u32::MAX.to_le_bytes());
    u.extend_from_slice(&10u32.to_le_bytes());
    u.extend_from_slice(&20u32.to_le_bytes());
    let (mn, mx) = compute_stats(uint32, &u).unwrap();
    assert_eq!(mn, slot(10));
    assert_eq!(mx, slot(20));
}

#[test]
fn compute_stats_all_null_is_none() {
    let int32 = DataType::Int32;
    let nulls = int32.null_bytes();
    let mut d = Vec::new();
    for _ in 0..6 {
        d.extend_from_slice(nulls);
    }
    assert!(compute_stats(int32, &d).is_none());
}

#[test]
fn compute_stats_narrow_types() {
    let int8 = DataType::Int8;
    let d = vec![(-5i8) as u8, 3i8 as u8];
    let (mn, mx) = compute_stats(int8, &d).unwrap();
    assert_eq!(mn, slot(-5i8 as i64 as u64));
    assert_eq!(mx, slot(3));
}

#[test]
fn header_sizes() {
    assert_eq!(std::mem::size_of::<header::MetaHeader>(), 64);
    assert_eq!(std::mem::size_of::<header::FieldHeader>(), 64);
}

#[test]
fn meta_header_roundtrip() {
    let h = header::MetaHeader::new(header::TimeType::Date32, 42, 100, 5);
    let bytes = h.to_bytes();
    assert_eq!(bytes.len(), 64);
    let back = header::MetaHeader::from_bytes(&bytes);
    assert_eq!(back.magic, header::META_MAGIC);
    assert_eq!(back.generation, 42);
    assert_eq!(back.time_count, 100);
    assert_eq!(back.sym_count, 5);
    assert!(back.validate().is_ok());
    assert_eq!(back.time_type().unwrap(), header::TimeType::Date32);
}

#[test]
fn field_header_roundtrip() {
    let h = header::FieldHeader::new(
        DataType::Float64,
        header::Encoding::Plain,
        header::Compression::Uncompressed,
        7,
        1000,
        8000,
    );
    let bytes = h.to_bytes();
    assert_eq!(bytes.len(), 64);
    let back = header::FieldHeader::from_bytes(&bytes);
    assert!(back.validate().is_ok());
    assert_eq!(back.data_type().unwrap(), DataType::Float64);
    assert_eq!(back.encoding().unwrap(), header::Encoding::Plain);
    assert_eq!(back.compression().unwrap(), header::Compression::Uncompressed);
    assert_eq!(back.row_count, 1000);
    assert_eq!(back.data_length, 8000);
}

#[test]
fn magic_constants_are_8_bytes() {
    assert_eq!(META_MAGIC.to_le_bytes(), *b"SPLAYMTA");
    assert_eq!(FIELD_MAGIC.to_le_bytes(), *b"SPLAYFLD");
}

#[test]
fn validity_size_rounds_up() {
    assert_eq!(validity_size(0), 0);
    assert_eq!(validity_size(1), 1);
    assert_eq!(validity_size(8), 1);
    assert_eq!(validity_size(9), 2);
    assert_eq!(validity_size(250), 32);
}

#[test]
fn meta_header_layout_is_64_bytes() {
    assert_eq!(std::mem::size_of::<MetaHeader>(), 64);
    let header = MetaHeader::new(
        TimeType::TimestampUs,
        7,
        1000,
        8000,
        2_000_000,
        64 + 8000,
        64 + 8000 + 8001,
        64 + 8000 + 8001 + 96_000,
    );
    let bytes = header.to_bytes();
    assert_eq!(bytes.len(), 64);
    assert_eq!(u16::from_le_bytes([bytes[8], bytes[9]]), FORMAT_VERSION);
    assert_eq!(bytes[12], TimeType::TimestampUs.id());
    assert_eq!(u64::from_le_bytes(bytes[16..24].try_into().unwrap()), 7);
    assert_eq!(u32::from_le_bytes(bytes[32..36].try_into().unwrap()), 2_000_000);

    let parsed = MetaHeader::from_bytes(&bytes).unwrap();
    assert_eq!(parsed, header);
    assert_eq!(parsed.time_type().unwrap(), TimeType::TimestampUs);
    assert_eq!(parsed.time_type_size(), 8);
}

#[test]
fn meta_header_rejects_bad_magic_and_version() {
    let mut header = MetaHeader::new(TimeType::Date32, 0, 0, 0, 0, 64, 64, 64);
    header.magic = 0x1234;
    assert!(matches!(
        MetaHeader::from_bytes(&header.to_bytes()),
        Err(FormatError::BadMagic { .. })
    ));
    header.magic = META_MAGIC;
    header.version = 1;
    assert!(matches!(
        MetaHeader::from_bytes(&header.to_bytes()),
        Err(FormatError::BadVersion { expected: 2, found: 1 })
    ));
}

#[test]
fn sym_index_record_row_mapping() {
    assert_eq!(std::mem::size_of::<SymIndexRecord>(), 12);
    let rec = SymIndexRecord { time_start: 100, time_count: 250, row_start: 7500 };
    assert_eq!(rec.global_row(100), Some(7500));
    assert_eq!(rec.global_row(349), Some(7749));
    assert_eq!(rec.global_row(99), None);
    assert_eq!(rec.global_row(350), None);
    assert_eq!(rec.row_range(), (7500, 7750));
    let bytes = rec.to_bytes();
    assert_eq!(SymIndexRecord::from_bytes(&bytes).unwrap(), rec);
}

#[test]
fn validity_helper_agrees_with_format_doc() {
    assert_eq!(validity_size(2_000_000), 250_000);
}

#[test]
fn lookup_by_name() {
    let schema = Schema::new(vec![
        FieldSchema::new("sym", DataType::UInt16),
        FieldSchema::new("time", DataType::TimestampUs),
        FieldSchema::new("price", DataType::Float64),
    ]);
    assert_eq!(schema.len(), 3);
    assert_eq!(schema.position("price"), Some(2));
    assert_eq!(schema.data_type_of("price"), Some(DataType::Float64));
    assert_eq!(schema.data_type_of("missing"), None);
}

/// Three symbols: two runs that stay apart, one run, and two runs that touch.
fn make_subset() -> SubsetFile {
    let mut b = SubsetBuilder::new(header::TimeType::Date32, 1, 7);
    b.add("SYM01", SymIndexRecord { time_start: 0, time_count: 2, row_start: 10 });
    b.add("SYM01", SymIndexRecord { time_start: 4, time_count: 1, row_start: 14 });
    b.add("SYM02", SymIndexRecord { time_start: 1, time_count: 2, row_start: 100 });
    b.add("SYM03", SymIndexRecord { time_start: 2, time_count: 2, row_start: 200 });
    b.add("SYM03", SymIndexRecord { time_start: 4, time_count: 2, row_start: 202 });
    b.build().unwrap()
}

#[test]
fn builder_merges_and_sorts() {
    let s = make_subset();
    assert_eq!(s.symbols, vec!["SYM01", "SYM02", "SYM03"]);
    assert_eq!(
        s.ranges("SYM01").unwrap(),
        &[
            SymIndexRecord { time_start: 0, time_count: 2, row_start: 10 },
            SymIndexRecord { time_start: 4, time_count: 1, row_start: 14 },
        ]
    );
    assert_eq!(
        s.ranges("SYM03").unwrap(),
        &[SymIndexRecord { time_start: 2, time_count: 4, row_start: 200 }]
    );
    assert_eq!(s.total_rows(), 2 + 1 + 2 + 4);
    assert_eq!(s.header.range_count, 4);
    assert_eq!(s.header.parent_generation, 7);
    assert_eq!(s.time_type(), header::TimeType::Date32);
}

#[test]
fn serialize_deserialize_roundtrip() {
    let s = make_subset();
    let bytes = s.serialize();
    let s2 = SubsetFile::deserialize(&bytes).unwrap();
    assert_eq!(s2.symbols, s.symbols);
    assert_eq!(s2.sym_ranges, s.sym_ranges);
    assert_eq!(s2.total_rows(), s.total_rows());
    assert_eq!(s2.header.range_count, s.header.range_count);
    assert_eq!(s2.header.parent_generation, 7);
    assert_eq!(s2.time_type(), header::TimeType::Date32);
}

#[test]
fn empty_subset_rejected() {
    let b = SubsetBuilder::new(header::TimeType::Date32, 1, 1);
    assert!(matches!(b.build(), Err(SubsetError::Empty)));
}

#[test]
fn overlapping_segments_merge() {
    let mut b = SubsetBuilder::new(header::TimeType::Date32, 1, 1);
    b.add("A", SymIndexRecord { time_start: 0, time_count: 3, row_start: 0 });
    b.add("A", SymIndexRecord { time_start: 2, time_count: 4, row_start: 2 });
    let s = b.build().unwrap();
    assert_eq!(s.ranges("A").unwrap().len(), 1);
    assert_eq!(s.ranges("A").unwrap()[0].time_count, 6);
    assert_eq!(s.total_rows(), 6);
}

#[test]
fn data_type_ids_and_sizes() {
    let expected: [(u8, DataType, usize); 14] = [
        (0, DataType::Bool, 1),
        (1, DataType::Int32, 4),
        (2, DataType::Int64, 8),
        (3, DataType::Float32, 4),
        (4, DataType::Float64, 8),
        (5, DataType::Date32, 4),
        (6, DataType::TimestampUs, 8),
        (7, DataType::Int8, 1),
        (8, DataType::Int16, 2),
        (9, DataType::UInt8, 1),
        (10, DataType::UInt16, 2),
        (11, DataType::UInt32, 4),
        (12, DataType::UInt64, 8),
        (13, DataType::Date64, 8),
    ];
    for (id, dt, size) in expected {
        assert_eq!(DataType::from_id(id).unwrap(), dt);
        assert_eq!(dt.id(), id);
        assert_eq!(dt.size_of(), size);
    }
    assert_eq!(DataType::from_id(14).unwrap(), DataType::Utf8);
    assert!(matches!(
        DataType::from_id(15),
        Err(FormatError::UnknownDataType(15))
    ));
}

#[test]
fn encoding_compression_time_type_ids() {
    for id in 0..4u8 {
        assert_eq!(Encoding::from_id(id).unwrap().id(), id);
    }
    assert!(Encoding::from_id(4).is_err());
    for id in 0..3u8 {
        assert_eq!(Compression::from_id(id).unwrap().id(), id);
    }
    assert!(Compression::from_id(3).is_err());
    assert_eq!(TimeType::from_id(0).unwrap().size_of(), 4);
    assert_eq!(TimeType::from_id(1).unwrap().size_of(), 8);
    assert!(TimeType::from_id(2).is_err());
}

#[test]
fn civil_roundtrip() {
    for days in [-719_468i64, 0, 1, 19_000, 20_000, 100_000] {
        let (y, m, d) = civil_from_days(days);
        assert_eq!(days_from_civil(y, m, d), days);
    }
    assert_eq!(civil_from_days(0), (1970, 1, 1));
    assert_eq!(civil_from_days(days_from_civil(2026, 9, 4)), (2026, 9, 4));
}

#[test]
fn partition_names_and_ranges() {
    let days = days_from_civil(2026, 9, 4);
    let name = partition_name(PartitionScheme::Date, days, TimeType::Date32);
    assert_eq!(name, "date=2026-09-04");
    assert_eq!(
        partition_range(PartitionScheme::Date, &name, TimeType::Date32),
        Some((days, days + 1))
    );
    let name = partition_name(PartitionScheme::Month, days, TimeType::Date32);
    assert_eq!(name, "month=2026-09");
    let (lo, hi) = partition_range(PartitionScheme::Month, &name, TimeType::Date32).unwrap();
    assert_eq!(hi - lo, 30);
    let name = partition_name(PartitionScheme::Year, days * US_PER_DAY, TimeType::TimestampUs);
    assert_eq!(name, "year=2026");
    let (lo, hi) = partition_range(PartitionScheme::Year, &name, TimeType::TimestampUs).unwrap();
    assert_eq!((hi - lo) / US_PER_DAY, 365);
    assert_eq!(
        PartitionScheme::from_partition_name("month=2026-09"),
        Some(PartitionScheme::Month)
    );
    assert_eq!(PartitionScheme::from_partition_name("other"), None);
}
