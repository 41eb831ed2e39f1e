use splayed::filter::{
    analyze, classify, parse_filters, Analysis, Expr, Filter, FilterField, FilterPushDown,
    FilterValue, Literal, Operator, SymbolSelection, TimeRange,
};
use splayed::DataType;

const DATE32: u32 = 1;
const UTF8: u32 = 2;
const FLOAT64: u32 = 3;
const INT64: u32 = 4;
const INT32: u32 = 5;
const INT16: u32 = 6;
const UINT32: u32 = 7;
const UINT64: u32 = 8;
const DATE64: u32 = 9;

fn field(name: &str, type_id: u32, stored: DataType) -> FilterField {
    FilterField { name: name.to_string(), type_id, stored: Some(stored) }
}

fn schema() -> Vec<FilterField> {
    vec![
        field("time", DATE32, DataType::Date32),
        field("sym", UTF8, DataType::Utf8),
        field("close", FLOAT64, DataType::Float64),
        field("volume", INT64, DataType::Int64),
    ]
}

fn known() -> Vec<String> {
    ["SYM01", "SYM02"].iter().map(|s| s.to_string()).collect()
}

fn col(name: &str) -> Expr {
    Expr::Column(name.to_string())
}

fn text(s: &str) -> Expr {
    Expr::Literal(Literal::Utf8(Some(s.to_string())))
}

fn float(v: f64) -> Expr {
    Expr::Literal(Literal::Float64(Some(v.to_bits())))
}

fn integer(v: i64) -> Expr {
    Expr::Literal(Literal::Int64(Some(v)))
}

fn binary(left: Expr, op: Operator, right: Expr) -> Expr {
    Expr::Binary { left: Box::new(left), op, right: Box::new(right) }
}

fn eq(left: Expr, right: Expr) -> Expr {
    binary(left, Operator::Eq, right)
}

fn gt(left: Expr, right: Expr) -> Expr {
    binary(left, Operator::Gt, right)
}

fn in_list(expr: Expr, list: Vec<Expr>, negated: bool) -> Expr {
    Expr::InList { expr: Box::new(expr), list, negated }
}

#[test]
fn classify_sym_exact() {
    let f = eq(col("sym"), text("SYM01"));
    let v = classify(&[f], &schema(), &known());
    assert_eq!(v[0], FilterPushDown::Exact);
}

#[test]
fn classify_unknown_sym_is_exact_zero_rows() {
    let f = eq(col("sym"), text("NOPE"));
    let v = classify(&[f], &schema(), &known());
    assert_eq!(v[0], FilterPushDown::Exact);
}

#[test]
fn classify_multi_sym_inexact() {
    let f1 = eq(col("sym"), text("SYM01"));
    let f2 = eq(col("sym"), text("SYM02"));
    let v = classify(&[f1, f2], &schema(), &known());
    assert_eq!(v[0], FilterPushDown::Inexact);
    assert_eq!(v[1], FilterPushDown::Inexact);
}

#[test]
fn classify_unconvertible_time_unsupported() {
    let f = gt(col("time"), text("not-a-date"));
    let v = classify(&[f], &schema(), &known());
    assert_eq!(v[0], FilterPushDown::Unsupported);
}

#[test]
fn parse_single_value_filter() {
    let f = gt(col("close"), float(100.0));
    let p = parse_filters(&[f], &schema(), &known());
    assert!(p.symbols.is_none());
    assert!(p.time_range.is_none());
    assert_eq!(p.value_filters.len(), 1);
}

#[test]
fn parse_two_value_filters_both_kept() {
    let f1 = gt(col("close"), float(100.0));
    let f2 = gt(col("volume"), integer(5000));
    let p = parse_filters(&[f1, f2], &schema(), &known());
    assert_eq!(p.value_filters.len(), 2);
}

#[test]
fn parse_unknown_sym_yields_empty_selection() {
    let f = eq(col("sym"), text("NOPE"));
    let p = parse_filters(&[f], &schema(), &known());
    // An empty selection yields no rows, not all of them.
    match p.symbols {
        Some(SymbolSelection::Symbols(v)) => assert!(v.is_empty()),
        other => panic!("expected Some(Symbols([])), got {other:?}"),
    }
}

#[test]
fn classify_in_single_filter_exact() {
    let f = in_list(col("sym"), vec![text("SYM01"), text("SYM02")], false);
    let v = classify(&[f], &schema(), &known());
    assert_eq!(v[0], FilterPushDown::Exact);
}

#[test]
fn classify_in_with_unknown_literal_exact() {
    let f = in_list(col("sym"), vec![text("SYM01"), text("NOPE")], false);
    let v = classify(&[f], &schema(), &known());
    assert_eq!(v[0], FilterPushDown::Exact);
}

#[test]
fn classify_in_all_unknown_exact() {
    let f = in_list(col("sym"), vec![text("NOPE1"), text("NOPE2")], false);
    let v = classify(&[f], &schema(), &known());
    assert_eq!(v[0], FilterPushDown::Exact);
}

#[test]
fn classify_in_plus_eq_inexact() {
    let f1 = in_list(col("sym"), vec![text("SYM01"), text("SYM02")], false);
    let f2 = eq(col("sym"), text("SYM01"));
    let v = classify(&[f1, f2], &schema(), &known());
    assert_eq!(v[0], FilterPushDown::Inexact);
    assert_eq!(v[1], FilterPushDown::Inexact);
}

#[test]
fn classify_negated_in_unsupported() {
    let f = in_list(col("sym"), vec![text("SYM01")], true);
    let v = classify(&[f], &schema(), &known());
    assert_eq!(v[0], FilterPushDown::Unsupported);
}

#[test]
fn parse_in_known_symbols() {
    let f = in_list(col("sym"), vec![text("SYM02"), text("SYM01")], false);
    let p = parse_filters(&[f], &schema(), &known());
    match p.symbols {
        Some(SymbolSelection::Symbols(v)) => {
            assert_eq!(v.len(), 2);
        }
        other => panic!("expected Some(Symbols(..)), got {other:?}"),
    }
}

#[test]
fn parse_in_mixed_unknown_drops_unknown() {
    let f = in_list(col("sym"), vec![text("SYM01"), text("NOPE")], false);
    let p = parse_filters(&[f], &schema(), &known());
    match p.symbols {
        Some(SymbolSelection::Symbols(v)) => {
            assert_eq!(v, vec!["SYM01"]);
        }
        other => panic!("expected Some(Symbols(..)), got {other:?}"),
    }
}

#[test]
fn parse_is_null() {
    let f = Expr::IsNull(Box::new(col("close")));
    let p = parse_filters(&[f], &schema(), &known());
    assert_eq!(p.value_filters.len(), 1);
    assert!(matches!(p.value_filters[0], Filter::IsNull { .. }));
}

#[test]
fn parse_is_not_null() {
    let f = Expr::IsNotNull(Box::new(col("close")));
    let p = parse_filters(&[f], &schema(), &known());
    assert_eq!(p.value_filters.len(), 1);
    assert!(matches!(p.value_filters[0], Filter::IsNotNull { .. }));
}

#[test]
fn is_null_on_sym_not_pushable() {
    let f = Expr::IsNull(Box::new(col("sym")));
    assert!(matches!(analyze(&f, &schema(), &known()), Analysis::NotPushdownable));
    let p = parse_filters(&[f], &schema(), &known());
    assert!(p.value_filters.is_empty());
}

#[test]
fn identity_cast_value_filter_pushable() {
    let cast = Expr::Cast { expr: Box::new(col("close")), to: FLOAT64 };
    let f = gt(cast, float(100.0));
    let p = parse_filters(&[f], &schema(), &known());
    assert_eq!(p.value_filters.len(), 1);
    assert!(matches!(p.value_filters[0], Filter::GreaterThan { .. }));
}

#[test]
fn non_identity_cast_not_pushable() {
    let cast = Expr::Cast { expr: Box::new(col("close")), to: INT32 };
    let f = gt(cast, Expr::Literal(Literal::Int32(Some(100))));
    assert!(matches!(analyze(&f, &schema(), &known()), Analysis::NotPushdownable));
}

#[test]
fn extended_types_value_filters_pushable() {
    let s = vec![
        field("time", DATE32, DataType::Date32),
        field("sym", UTF8, DataType::Utf8),
        field("i16", INT16, DataType::Int16),
        field("u32", UINT32, DataType::UInt32),
        field("count", UINT64, DataType::UInt64),
        field("d64", DATE64, DataType::Date64),
    ];
    let k: Vec<String> = vec!["SYM01".to_string()];

    let p = parse_filters(&[gt(col("i16"), Expr::Literal(Literal::Int16(Some(7))))], &s, &k);
    assert!(matches!(
        p.value_filters.first(),
        Some(Filter::GreaterThan { value: FilterValue::Int16(7), .. })
    ));

    let p = parse_filters(&[gt(col("u32"), Expr::Literal(Literal::UInt32(Some(20))))], &s, &k);
    assert!(matches!(
        p.value_filters.first(),
        Some(Filter::GreaterThan { value: FilterValue::UInt32(20), .. })
    ));

    let f = binary(col("count"), Operator::Lt, Expr::Literal(Literal::UInt64(Some(1000))));
    let p = parse_filters(&[f], &s, &k);
    assert!(matches!(
        p.value_filters.first(),
        Some(Filter::LessThan { value: FilterValue::UInt64(1000), .. })
    ));

    let p = parse_filters(&[gt(col("d64"), integer(86400000))], &s, &k);
    assert!(matches!(
        p.value_filters.first(),
        Some(Filter::GreaterThan { value: FilterValue::Date64(86400000), .. })
    ));

    let f = gt(col("u32"), Expr::Literal(Literal::UInt32(Some(20))));
    let v = classify(&[f], &s, &k);
    assert_eq!(v[0], FilterPushDown::Exact);
}

#[test]
fn swapped_sides_invert_the_operator() {
    let f = binary(float(100.0), Operator::Lt, col("close"));
    let p = parse_filters(&[f], &schema(), &known());
    assert!(matches!(
        p.value_filters.first(),
        Some(Filter::GreaterThan { value: FilterValue::Float64(bits), .. })
            if *bits == 100.0f64.to_bits()
    ));
}

#[test]
fn times_are_intersected() {
    let from = binary(col("time"), Operator::GtEq, integer(10));
    let to = binary(col("time"), Operator::LtEq, integer(20));
    let p = parse_filters(&[from, to], &schema(), &known());
    assert_eq!(p.time_range, Some(TimeRange { start: 10, end: 21 }));
}

#[test]
fn contradicting_symbols_keep_their_union() {
    let f1 = eq(col("sym"), text("SYM01"));
    let f2 = eq(col("sym"), text("SYM02"));
    let p = parse_filters(&[f1, f2], &schema(), &known());
    match p.symbols {
        Some(SymbolSelection::Symbols(v)) => assert_eq!(v, vec!["SYM01", "SYM02"]),
        other => panic!("{other:?}"),
    }
}

#[test]
fn filters_know_their_field() {
    let f = Filter::compare("close", Operator::NotEq, FilterValue::Int32(3)).unwrap();
    assert_eq!(f.field_name(), "close");
    assert!(matches!(f, Filter::NotEqual { value: FilterValue::Int32(3), .. }));
    assert!(Filter::compare("close", Operator::Other, FilterValue::Int32(3)).is_none());
}
