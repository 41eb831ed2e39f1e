use splayed::naming::{
    parse_compression, parse_data_type, parse_scheme, scheme_name, scheme_named, table_request,
    type_named,
};
use splayed::partition::PartitionScheme;
use splayed::{Compression, DataType};

#[test]
fn schemes_by_word() {
    assert_eq!(parse_scheme("none"), Ok(PartitionScheme::Unpartitioned));
    assert_eq!(parse_scheme("YEAR"), Ok(PartitionScheme::Year));
    assert_eq!(parse_scheme("Month"), Ok(PartitionScheme::Month));
    assert_eq!(parse_scheme("day"), Ok(PartitionScheme::Date));
    assert_eq!(parse_scheme("date"), Ok(PartitionScheme::Date));
    assert_eq!(
        parse_scheme("WEEK").unwrap_err(),
        "invalid partition scheme: 'week'. Expected 'none', 'year', 'month', or 'date'"
    );
    assert!(scheme_named("YEAR").is_err());
}

#[test]
fn scheme_names_are_read_back() {
    for scheme in [
        PartitionScheme::Unpartitioned,
        PartitionScheme::Year,
        PartitionScheme::Month,
        PartitionScheme::Date,
    ] {
        assert_eq!(parse_scheme(scheme_name(scheme)), Ok(scheme));
    }
}

#[test]
fn compressions_by_word() {
    assert_eq!(parse_compression(None), Ok(Compression::Zstd));
    assert_eq!(parse_compression(Some("LZ4")), Ok(Compression::Lz4));
    assert_eq!(parse_compression(Some("Uncompressed")), Ok(Compression::Uncompressed));
    assert_eq!(parse_compression(Some("none")), Ok(Compression::Uncompressed));
    assert_eq!(
        parse_compression(Some("GZip")).unwrap_err(),
        "invalid compression: 'gzip'. Expected 'zstd', 'lz4', or 'none'"
    );
}

#[test]
fn types_by_word() {
    assert_eq!(parse_data_type("Double"), Ok(DataType::Float64));
    assert_eq!(parse_data_type("timestamp_us"), Ok(DataType::TimestampUs));
    assert_eq!(parse_data_type("BOOLEAN"), Ok(DataType::Bool));
    assert_eq!(parse_data_type("string"), Ok(DataType::Utf8));
    assert_eq!(parse_data_type("UINT16"), Ok(DataType::UInt16));
    assert_eq!(parse_data_type("Decimal").unwrap_err(), "unsupported data type 'decimal'");
    assert_eq!(type_named("float"), Ok(DataType::Float32));
}

#[test]
fn requests_from_parts() {
    let r = table_request(
        Some(vec!["A".to_string(), "B".to_string()]),
        Some(1),
        Some(2),
        Some(vec!["close".to_string()]),
        Some(10),
        Some(4),
    );
    assert_eq!(r.sym.as_deref(), Some("A"));
    assert_eq!(r.time, Some((1, 2)));
    assert_eq!(r.projection, vec!["close"]);
    assert_eq!(r.limit, Some(10));
    assert_eq!(r.max_parallelism, Some(4));
    let r = table_request(Some(vec![]), Some(1), None, None, None, None);
    assert!(r.sym.is_none());
    assert!(r.time.is_none());
    assert!(r.projection.is_empty());
}
