//! Conditions of a query that a scan can apply itself.
//!
//! [`classify`] says of each condition whether the scan applies it exactly, and
//! [`parse_filters`] turns the conditions into what the scan applies.

use vstd::prelude::*;
use vstd::string::*;
use crate::text;
use crate::types::DataType;

verus! {

/// How two values are compared.
#[derive(Debug, Clone, Copy, PartialEq, Eq, Structural)]
pub enum Operator {
    Eq,
    NotEq,
    Lt,
    LtEq,
    Gt,
    GtEq,
    /// Anything that is no comparison.
    Other,
}

/// A constant in a query; floating-point numbers by their bits.  A constant may be a
/// missing value of its type.
#[derive(Debug)]
pub enum Literal {
    Boolean(Option<bool>),
    Int8(Option<i8>),
    Int16(Option<i16>),
    Int32(Option<i32>),
    Int64(Option<i64>),
    UInt8(Option<u8>),
    UInt16(Option<u16>),
    UInt32(Option<u32>),
    UInt64(Option<u64>),
    Float32(Option<u32>),
    Float64(Option<u64>),
    Utf8(Option<String>),
    LargeUtf8(Option<String>),
    Date32(Option<i32>),
    Date64(Option<i64>),
    TimestampMicrosecond(Option<i64>),
    /// A constant of another type.
    Other,
}

/// A condition of a query.
#[derive(Debug)]
pub enum Expr {
    Column(String),
    Literal(Literal),
    /// A conversion to the type with that number.
    Cast { expr: Box<Expr>, to: u32 },
    Binary { left: Box<Expr>, op: Operator, right: Box<Expr> },
    InList { expr: Box<Expr>, list: Vec<Expr>, negated: bool },
    IsNull(Box<Expr>),
    IsNotNull(Box<Expr>),
    Other,
}

/// A column that conditions may name: the number of its type in the query, and the type
/// in which it is stored, if it is.
#[derive(Debug)]
pub struct FilterField {
    pub name: String,
    pub type_id: u32,
    pub stored: Option<DataType>,
}

/// A value that a field is compared with; floating-point numbers by their bits.
#[derive(Debug, Clone, PartialEq, Eq)]
pub enum FilterValue {
    Bool(bool),
    Int8(i8),
    Int16(i16),
    Int32(i32),
    Int64(i64),
    UInt8(u8),
    UInt16(u16),
    UInt32(u32),
    UInt64(u64),
    Float32(u32),
    Float64(u64),
    Date32(i32),
    Date64(i64),
    TimestampUs(i64),
    String(String),
}

/// A condition on a field that a scan applies.
#[derive(Debug, Clone)]
pub enum Filter {
    Equal { field: String, value: FilterValue },
    NotEqual { field: String, value: FilterValue },
    LessThan { field: String, value: FilterValue },
    LessOrEqual { field: String, value: FilterValue },
    GreaterThan { field: String, value: FilterValue },
    GreaterOrEqual { field: String, value: FilterValue },
    IsNull { field: String },
    IsNotNull { field: String },
}

/// What a condition asks of the value of a field.
pub enum Test {
    Compare(Operator, FilterValue),
    Missing,
    Present,
}

impl Filter {
    /// The field, and what is asked of it.
    pub open spec fn test(self) -> (Seq<char>, Test) {
        match self {
            Filter::Equal { field, value } => (field@, Test::Compare(Operator::Eq, value)),
            Filter::NotEqual { field, value } => (field@, Test::Compare(Operator::NotEq, value)),
            Filter::LessThan { field, value } => (field@, Test::Compare(Operator::Lt, value)),
            Filter::LessOrEqual { field, value } => (field@, Test::Compare(Operator::LtEq, value)),
            Filter::GreaterThan { field, value } => (field@, Test::Compare(Operator::Gt, value)),
            Filter::GreaterOrEqual { field, value } => (
                field@,
                Test::Compare(Operator::GtEq, value),
            ),
            Filter::IsNull { field } => (field@, Test::Missing),
            Filter::IsNotNull { field } => (field@, Test::Present),
        }
    }

    /// The field that is tested.
    pub fn field_name(&self) -> (name: &str)
        ensures
            name@ == self.test().0,
    {
        match self {
            Filter::Equal { field, .. } => field.as_str(),
            Filter::NotEqual { field, .. } => field.as_str(),
            Filter::LessThan { field, .. } => field.as_str(),
            Filter::LessOrEqual { field, .. } => field.as_str(),
            Filter::GreaterThan { field, .. } => field.as_str(),
            Filter::GreaterOrEqual { field, .. } => field.as_str(),
            Filter::IsNull { field } => field.as_str(),
            Filter::IsNotNull { field } => field.as_str(),
        }
    }

    /// The filter for a comparison.
    pub fn compare(field: &str, op: Operator, value: FilterValue) -> (r: Option<Self>)
        ensures
            match r {
                Some(f) => op !is Other && f.test() == (field@, Test::Compare(op, value)),
                None => op is Other,
            },
    {
        let field = field.to_owned();
        match op {
            Operator::Gt => Some(Filter::GreaterThan { field, value }),
            Operator::GtEq => Some(Filter::GreaterOrEqual { field, value }),
            Operator::Lt => Some(Filter::LessThan { field, value }),
            Operator::LtEq => Some(Filter::LessOrEqual { field, value }),
            Operator::Eq => Some(Filter::Equal { field, value }),
            Operator::NotEq => Some(Filter::NotEqual { field, value }),
            Operator::Other => None,
        }
    }
}

/// Times from `start` up to, but without, `end`.
#[derive(Debug, Clone, Copy, PartialEq, Eq, Structural)]
pub struct TimeRange {
    pub start: i64,
    pub end: i64,
}

impl TimeRange {
    pub fn new(start: i64, end: i64) -> (range: Self)
        ensures
            range.start == start,
            range.end == end,
    {
        TimeRange { start, end }
    }
}

/// The symbols whose rows are scanned.
#[derive(Debug, Clone)]
pub enum SymbolSelection {
    All,
    Symbols(Vec<String>),
}

/// The column with that name.
pub open spec fn field_named(schema: Seq<FilterField>, name: Seq<char>) -> Option<FilterField>
    decreases schema.len(),
{
    if schema.len() == 0 {
        None
    } else if schema[0].name@ == name {
        Some(schema[0])
    } else {
        field_named(schema.drop_first(), name)
    }
}

fn find_field<'a>(schema: &'a [FilterField], name: &str) -> (r: Option<&'a FilterField>)
    ensures
        match field_named(schema@, name@) {
            Some(f) => r matches Some(g) && *g == f,
            None => r is None,
        },
{
    let mut k: usize = 0;
    assert(schema@.skip(0) =~= schema@);
    while k < schema.len()
        invariant
            k <= schema@.len(),
            field_named(schema@, name@) == field_named(schema@.skip(k as int), name@),
        decreases schema.len() - k,
    {
        assert(schema@.skip(k as int)[0] == schema@[k as int]);
        assert(schema@.skip(k as int).drop_first() =~= schema@.skip(k + 1));
        if text::same(schema[k].name.as_str(), name) {
            return Some(&schema[k]);
        }
        k += 1;
    }
    None
}

/// The column that an expression names: by itself, or converted to the type it has
/// anyway.
pub open spec fn column_of(expr: Expr, schema: Seq<FilterField>) -> Option<Seq<char>> {
    match expr {
        Expr::Column(c) => Some(c@),
        Expr::Cast { expr: inner, to } => match *inner {
            Expr::Column(c) => match field_named(schema, c@) {
                Some(f) if f.type_id == to => Some(c@),
                _ => None,
            },
            _ => None,
        },
        _ => None,
    }
}

fn column_ref<'a>(expr: &'a Expr, schema: &[FilterField]) -> (r: Option<&'a str>)
    ensures
        match column_of(*expr, schema@) {
            Some(c) => r matches Some(s) && s@ == c,
            None => r is None,
        },
{
    match expr {
        Expr::Column(c) => Some(c.as_str()),
        Expr::Cast { expr: inner, to } => match &**inner {
            Expr::Column(c) => match find_field(schema, c.as_str()) {
                Some(f) => {
                    if f.type_id == *to {
                        Some(c.as_str())
                    } else {
                        None
                    }
                },
                None => None,
            },
            _ => None,
        },
        _ => None,
    }
}

/// A comparison of a column with a constant: the column, the constant, whether the
/// constant stands on the left, and the operator.
pub open spec fn comparison_of(expr: Expr, schema: Seq<FilterField>) -> Option<
    (Seq<char>, Literal, bool, Operator),
> {
    match expr {
        Expr::Binary { left, op, right } => match (
            column_of(*left, schema),
            column_of(*right, schema),
        ) {
            (Some(c), None) => match *right {
                Expr::Literal(v) => Some((c, v, false, op)),
                _ => None,
            },
            (None, Some(c)) => match *left {
                Expr::Literal(v) => Some((c, v, true, op)),
                _ => None,
            },
            _ => None,
        },
        _ => None,
    }
}

fn binary_col_literal<'a>(expr: &'a Expr, schema: &[FilterField]) -> (r: Option<
    (&'a str, &'a Literal, bool, Operator),
>)
    ensures
        match comparison_of(*expr, schema@) {
            Some((c, v, swapped, op)) => r matches Some((c1, v1, s1, op1)) && c1@ == c && *v1 == v
                && s1 == swapped && op1 == op,
            None => r is None,
        },
{
    match expr {
        Expr::Binary { left, op, right } => {
            match (column_ref(left, schema), column_ref(right, schema)) {
                (Some(c), None) => match &**right {
                    Expr::Literal(v) => Some((c, v, false, *op)),
                    _ => None,
                },
                (None, Some(c)) => match &**left {
                    Expr::Literal(v) => Some((c, v, true, *op)),
                    _ => None,
                },
                _ => None,
            }
        },
        _ => None,
    }
}

/// The text of a constant.
pub open spec fn literal_text(literal: Literal) -> Option<Seq<char>> {
    match literal {
        Literal::Utf8(Some(s)) => Some(s@),
        Literal::LargeUtf8(Some(s)) => Some(s@),
        _ => None,
    }
}

fn scalar_to_string(literal: &Literal) -> (r: Option<String>)
    ensures
        match literal_text(*literal) {
            Some(t) => r matches Some(s) && s@ == t,
            None => r is None,
        },
{
    match literal {
        Literal::Utf8(Some(s)) => Some(s.clone()),
        Literal::LargeUtf8(Some(s)) => Some(s.clone()),
        _ => None,
    }
}

/// The texts of constants; none where one of them is no text.
pub open spec fn list_texts(list: Seq<Expr>) -> Option<Seq<Seq<char>>>
    decreases list.len(),
{
    if list.len() == 0 {
        Some(Seq::empty())
    } else {
        match (list_texts(list.drop_last()), list.last()) {
            (Some(front), Expr::Literal(v)) => match literal_text(v) {
                Some(t) => Some(front.push(t)),
                None => None,
            },
            _ => None,
        }
    }
}

/// The symbols that a condition on the symbol asks for: one that it equals, or a list that
/// it is in.
pub open spec fn symbols_of(expr: Expr, schema: Seq<FilterField>) -> Option<Seq<Seq<char>>> {
    match comparison_of(expr, schema) {
        Some((c, v, _, op)) => if c == "sym"@ && op is Eq {
            match literal_text(v) {
                Some(t) => Some(seq![t]),
                None => None,
            }
        } else {
            None
        },
        None => match expr {
            Expr::InList { expr: inner, list, negated } => if !negated && column_of(
                *inner,
                schema,
            ) == Some("sym"@) {
                list_texts(list@)
            } else {
                None
            },
            _ => None,
        },
    }
}

proof fn lemma_list_texts_take(list: Seq<Expr>, k: int)
    requires
        0 <= k <= list.len(),
        list_texts(list) is Some,
    ensures
        list_texts(list.take(k)) is Some,
    decreases list.len() - k,
{
    if k < list.len() {
        lemma_list_texts_take(list, k + 1);
        assert(list.take(k + 1).drop_last() =~= list.take(k));
    } else {
        assert(list.take(k) =~= list);
    }
}

fn sym_literals(expr: &Expr, schema: &[FilterField]) -> (r: Option<Vec<String>>)
    ensures
        match symbols_of(*expr, schema@) {
            Some(list) => r matches Some(v) && text::texts(v@) == list,
            None => r is None,
        },
{
    if let Some((c, v, _, op)) = binary_col_literal(expr, schema) {
        if !text::same(c, "sym") || op != Operator::Eq {
            return None;
        }
        return match scalar_to_string(v) {
            Some(s) => {
                let mut out: Vec<String> = Vec::new();
                let ghost t = s@;
                out.push(s);
                assert(text::texts(out@) =~= seq![t]);
                Some(out)
            },
            None => None,
        };
    }
    match expr {
        Expr::InList { expr: inner, list, negated } => {
            if *negated {
                return None;
            }
            match column_ref(inner, schema) {
                Some(c) => {
                    if !text::same(c, "sym") {
                        return None;
                    }
                },
                None => {
                    return None;
                },
            }
            let mut out: Vec<String> = Vec::new();
            let mut k: usize = 0;
            assert(text::texts(out@) =~= Seq::empty());
            while k < list.len()
                invariant
                    k <= list@.len(),
                    symbols_of(*expr, schema@) == list_texts(list@),
                    list_texts(list@.take(k as int)) == Some(text::texts(out@)),
                decreases list.len() - k,
            {
                let ghost before = out@;
                proof {
                    assert(list@.take(k + 1).drop_last() =~= list@.take(k as int));
                    assert(list@.take(k + 1).last() == list@[k as int]);
                    if list_texts(list@) is Some {
                        lemma_list_texts_take(list@, k + 1);
                    }
                }
                match &list[k] {
                    Expr::Literal(v) => match scalar_to_string(v) {
                        Some(s) => {
                            let ghost t = s@;
                            out.push(s);
                            assert(text::texts(out@) =~= text::texts(before).push(t));
                        },
                        None => {
                            return None;
                        },
                    },
                    _ => {
                        return None;
                    },
                }
                k += 1;
            }
            assert(list@.take(k as int) =~= list@);
            Some(out)
        },
        _ => None,
    }
}

/// A condition that a field is missing, or that it is not.
pub open spec fn null_check_of(expr: Expr, schema: Seq<FilterField>) -> Option<(Seq<char>, bool)> {
    match expr {
        Expr::IsNull(inner) => match checked_field(*inner, schema) {
            Some(c) => Some((c, true)),
            None => None,
        },
        Expr::IsNotNull(inner) => match checked_field(*inner, schema) {
            Some(c) => Some((c, false)),
            None => None,
        },
        _ => None,
    }
}

/// A field that can be missing: symbol and time cannot.
pub open spec fn checked_field(expr: Expr, schema: Seq<FilterField>) -> Option<Seq<char>> {
    match column_of(expr, schema) {
        Some(c) => if c != "time"@ && c != "sym"@ && field_named(schema, c) is Some {
            Some(c)
        } else {
            None
        },
        None => None,
    }
}

fn null_check_field<'a>(expr: &'a Expr, schema: &[FilterField]) -> (r: Option<(&'a str, bool)>)
    ensures
        match null_check_of(*expr, schema@) {
            Some((c, is_null)) => r matches Some((c1, n1)) && c1@ == c && n1 == is_null,
            None => r is None,
        },
{
    let (inner, is_null) = match expr {
        Expr::IsNull(inner) => (inner, true),
        Expr::IsNotNull(inner) => (inner, false),
        _ => {
            return None;
        },
    };
    match column_ref(inner, schema) {
        Some(c) => {
            if text::same(c, "time") || text::same(c, "sym") || find_field(schema, c).is_none() {
                None
            } else {
                Some((c, is_null))
            }
        },
        None => None,
    }
}

/// The operator with its sides exchanged.
pub open spec fn inverted(op: Operator) -> Operator {
    match op {
        Operator::Gt => Operator::Lt,
        Operator::GtEq => Operator::LtEq,
        Operator::Lt => Operator::Gt,
        Operator::LtEq => Operator::GtEq,
        other => other,
    }
}

pub fn invert_op(op: Operator) -> (r: Operator)
    ensures
        r == inverted(op),
{
    match op {
        Operator::Gt => Operator::Lt,
        Operator::GtEq => Operator::LtEq,
        Operator::Lt => Operator::Gt,
        Operator::LtEq => Operator::GtEq,
        other => other,
    }
}

/// The time that a constant stands for.
pub open spec fn literal_time(literal: Literal) -> Option<i64> {
    match literal {
        Literal::Int32(Some(v)) => Some(v as i64),
        Literal::Int64(Some(v)) => Some(v),
        Literal::Date32(Some(v)) => Some(v as i64),
        Literal::Date64(Some(v)) => Some(v),
        Literal::TimestampMicrosecond(Some(v)) => Some(v),
        _ => None,
    }
}

fn extract_int_from_scalar(literal: &Literal) -> (r: Option<i64>)
    ensures
        r == literal_time(*literal),
{
    match literal {
        Literal::Int32(Some(v)) => Some(*v as i64),
        Literal::Int64(Some(v)) => Some(*v),
        Literal::Date32(Some(v)) => Some(*v as i64),
        Literal::Date64(Some(v)) => Some(*v),
        Literal::TimestampMicrosecond(Some(v)) => Some(*v),
        _ => None,
    }
}

/// The next time, if there is one.
pub open spec fn next_time(t: i64) -> i64 {
    if t == i64::MAX {
        t
    } else {
        (t + 1) as i64
    }
}

/// The times that compare with `t` as asked.
pub open spec fn times_that(op: Operator, t: i64) -> Option<(i64, i64)> {
    match op {
        Operator::Eq => Some((t, next_time(t))),
        Operator::Gt => Some((next_time(t), i64::MAX)),
        Operator::GtEq => Some((t, i64::MAX)),
        Operator::Lt => Some((i64::MIN, t)),
        Operator::LtEq => Some((i64::MIN, next_time(t))),
        _ => None,
    }
}

pub fn time_fragment(op: Operator, t: i64) -> (r: Option<TimeRange>)
    ensures
        match times_that(op, t) {
            Some((start, end)) => r matches Some(range) && range.start == start && range.end == end,
            None => r is None,
        },
{
    let next: i64 = if t == i64::MAX {
        t
    } else {
        t + 1
    };
    match op {
        Operator::Eq => Some(TimeRange::new(t, next)),
        Operator::Gt => Some(TimeRange::new(next, i64::MAX)),
        Operator::GtEq => Some(TimeRange::new(t, i64::MAX)),
        Operator::Lt => Some(TimeRange::new(i64::MIN, t)),
        Operator::LtEq => Some(TimeRange::new(i64::MIN, next)),
        _ => None,
    }
}

/// The constant as a value of a stored type.
pub open spec fn as_stored(literal: Literal, stored: DataType) -> Option<FilterValue> {
    match (stored, literal) {
        (DataType::Bool, Literal::Boolean(Some(v))) => Some(FilterValue::Bool(v)),
        (DataType::Int8, Literal::Int8(Some(v))) => Some(FilterValue::Int8(v)),
        (DataType::Int16, Literal::Int16(Some(v))) => Some(FilterValue::Int16(v)),
        (DataType::Int32, Literal::Int32(Some(v))) => Some(FilterValue::Int32(v)),
        (DataType::Int64, Literal::Int64(Some(v))) => Some(FilterValue::Int64(v)),
        (DataType::UInt8, Literal::UInt8(Some(v))) => Some(FilterValue::UInt8(v)),
        (DataType::UInt16, Literal::UInt16(Some(v))) => Some(FilterValue::UInt16(v)),
        (DataType::UInt32, Literal::UInt32(Some(v))) => Some(FilterValue::UInt32(v)),
        (DataType::UInt64, Literal::UInt64(Some(v))) => Some(FilterValue::UInt64(v)),
        (DataType::Float32, Literal::Float32(Some(v))) => Some(FilterValue::Float32(v)),
        (DataType::Float64, Literal::Float64(Some(v))) => Some(FilterValue::Float64(v)),
        (DataType::Date32, Literal::Int32(Some(v))) => Some(FilterValue::Date32(v)),
        (DataType::Date32, Literal::Date32(Some(v))) => Some(FilterValue::Date32(v)),
        (DataType::Date64, Literal::Int64(Some(v))) => Some(FilterValue::Date64(v)),
        (DataType::Date64, Literal::Date64(Some(v))) => Some(FilterValue::Date64(v)),
        (DataType::TimestampUs, Literal::Int64(Some(v))) => Some(FilterValue::TimestampUs(v)),
        (DataType::TimestampUs, Literal::TimestampMicrosecond(Some(v))) => Some(
            FilterValue::TimestampUs(v),
        ),
        _ => None,
    }
}

fn scalar_to_filter_value(literal: &Literal, stored: DataType) -> (r: Option<FilterValue>)
    ensures
        r == as_stored(*literal, stored),
{
    match (stored, literal) {
        (DataType::Bool, Literal::Boolean(Some(v))) => Some(FilterValue::Bool(*v)),
        (DataType::Int8, Literal::Int8(Some(v))) => Some(FilterValue::Int8(*v)),
        (DataType::Int16, Literal::Int16(Some(v))) => Some(FilterValue::Int16(*v)),
        (DataType::Int32, Literal::Int32(Some(v))) => Some(FilterValue::Int32(*v)),
        (DataType::Int64, Literal::Int64(Some(v))) => Some(FilterValue::Int64(*v)),
        (DataType::UInt8, Literal::UInt8(Some(v))) => Some(FilterValue::UInt8(*v)),
        (DataType::UInt16, Literal::UInt16(Some(v))) => Some(FilterValue::UInt16(*v)),
        (DataType::UInt32, Literal::UInt32(Some(v))) => Some(FilterValue::UInt32(*v)),
        (DataType::UInt64, Literal::UInt64(Some(v))) => Some(FilterValue::UInt64(*v)),
        (DataType::Float32, Literal::Float32(Some(v))) => Some(FilterValue::Float32(*v)),
        (DataType::Float64, Literal::Float64(Some(v))) => Some(FilterValue::Float64(*v)),
        (DataType::Date32, Literal::Int32(Some(v))) => Some(FilterValue::Date32(*v)),
        (DataType::Date32, Literal::Date32(Some(v))) => Some(FilterValue::Date32(*v)),
        (DataType::Date64, Literal::Int64(Some(v))) => Some(FilterValue::Date64(*v)),
        (DataType::Date64, Literal::Date64(Some(v))) => Some(FilterValue::Date64(*v)),
        (DataType::TimestampUs, Literal::Int64(Some(v))) => Some(FilterValue::TimestampUs(*v)),
        (DataType::TimestampUs, Literal::TimestampMicrosecond(Some(v))) => Some(
            FilterValue::TimestampUs(*v),
        ),
        _ => None,
    }
}

/// A comparison with the column on the left.
pub open spec fn facing_right(expr: Expr, schema: Seq<FilterField>) -> Option<
    (Seq<char>, Operator, Literal),
> {
    match comparison_of(expr, schema) {
        Some((c, v, swapped, op)) => Some(
            (
                c,
                if swapped {
                    inverted(op)
                } else {
                    op
                },
                v,
            ),
        ),
        None => None,
    }
}

/// The times that a condition on the time asks for.
pub open spec fn times_of(expr: Expr, schema: Seq<FilterField>) -> Option<(i64, i64)> {
    match facing_right(expr, schema) {
        Some((c, op, v)) => if c == "time"@ {
            match literal_time(v) {
                Some(t) => times_that(op, t),
                None => None,
            }
        } else {
            None
        },
        None => None,
    }
}

/// What a condition on another field asks of it.
pub open spec fn test_of(expr: Expr, schema: Seq<FilterField>) -> Option<(Seq<char>, Test)> {
    match null_check_of(expr, schema) {
        Some((c, is_null)) => Some(
            (
                c,
                if is_null {
                    Test::Missing
                } else {
                    Test::Present
                },
            ),
        ),
        None => match facing_right(expr, schema) {
            Some((c, op, v)) => if c == "sym"@ || c == "time"@ || op is Other {
                None
            } else {
                match field_named(schema, c) {
                    Some(FilterField { stored: Some(t), .. }) => match as_stored(v, t) {
                        Some(value) => Some((c, Test::Compare(op, value))),
                        None => None,
                    },
                    _ => None,
                }
            },
            None => None,
        },
    }
}

fn build_value_filter(
    field: &str,
    op: Operator,
    literal: &Literal,
    schema: &[FilterField],
) -> (r: Option<Filter>)
    ensures
        match field_named(schema@, field@) {
            Some(FilterField { stored: Some(t), .. }) => match as_stored(*literal, t) {
                Some(value) => if op is Other {
                    r is None
                } else {
                    r matches Some(f) && f.test() == (field@, Test::Compare(op, value))
                },
                None => r is None,
            },
            _ => r is None,
        },
{
    match find_field(schema, field) {
        Some(f) => match f.stored {
            Some(t) => match scalar_to_filter_value(literal, t) {
                Some(value) => Filter::compare(field, op, value),
                None => None,
            },
            None => None,
        },
        None => None,
    }
}

/// What one condition gives a scan to apply.
pub enum Fragment {
    /// Only rows of these symbols.
    Symbols(Vec<String>),
    /// Only rows of these times.
    Time(TimeRange),
    /// Only rows whose field passes a test.
    Value(Filter),
}

/// What becomes of one condition.
pub enum Analysis {
    /// The scan applies it.
    Applied(Fragment),
    /// It asks for symbols that are not there: no row meets it.
    SymUnknown,
    /// The scan cannot apply it.
    NotPushdownable,
}

/// The symbols that are known, in order.
pub open spec fn known_among(list: Seq<Seq<char>>, known: Seq<String>) -> Seq<Seq<char>>
    decreases list.len(),
{
    if list.len() == 0 {
        Seq::empty()
    } else {
        let front = known_among(list.drop_last(), known);
        if text::texts(known).contains(list.last()) {
            front.push(list.last())
        } else {
            front
        }
    }
}

/// The analysis of a condition.
pub open spec fn analyzes(
    a: Analysis,
    expr: Expr,
    schema: Seq<FilterField>,
    known: Seq<String>,
) -> bool {
    match symbols_of(expr, schema) {
        Some(list) => match a {
            Analysis::Applied(Fragment::Symbols(v)) => v@.len() > 0 && text::texts(v@)
                == known_among(list, known),
            Analysis::SymUnknown => known_among(list, known).len() == 0,
            _ => false,
        },
        None => match test_of(expr, schema) {
            Some(test) => a matches Analysis::Applied(Fragment::Value(f)) && f.test() == test,
            None => match times_of(expr, schema) {
                Some((start, end)) => a matches Analysis::Applied(Fragment::Time(r)) && r.start
                    == start && r.end == end,
                None => a is NotPushdownable,
            },
        },
    }
}

fn is_known(known: &[String], name: &str) -> (yes: bool)
    ensures
        yes == text::texts(known@).contains(name@),
{
    let mut k: usize = 0;
    while k < known.len()
        invariant
            k <= known@.len(),
            forall|i: int| 0 <= i < k ==> text::texts(known@)[i] != name@,
        decreases known.len() - k,
    {
        if text::same(known[k].as_str(), name) {
            assert(text::texts(known@)[k as int] == name@);
            return true;
        }
        k += 1;
    }
    false
}

fn keep_known(list: Vec<String>, known: &[String]) -> (out: Vec<String>)
    ensures
        text::texts(out@) == known_among(text::texts(list@), known@),
{
    let mut out: Vec<String> = Vec::new();
    let mut k: usize = 0;
    let ghost all = text::texts(list@);
    assert(text::texts(out@) =~= known_among(all.take(0), known@));
    while k < list.len()
        invariant
            k <= list@.len(),
            all == text::texts(list@),
            text::texts(out@) == known_among(all.take(k as int), known@),
        decreases list.len() - k,
    {
        let ghost before = out@;
        assert(all.take(k + 1).drop_last() =~= all.take(k as int));
        if is_known(known, list[k].as_str()) {
            out.push(list[k].clone());
            assert(text::texts(out@) =~= text::texts(before).push(all[k as int]));
        }
        k += 1;
    }
    assert(all.take(k as int) =~= all);
    out
}

/// Analyses one condition.
pub fn analyze(expr: &Expr, schema: &[FilterField], known_symbols: &[String]) -> (a: Analysis)
    ensures
        analyzes(a, *expr, schema@, known_symbols@),
{
    if let Some(literals) = sym_literals(expr, schema) {
        let known = keep_known(literals, known_symbols);
        proof {
            assert(text::texts(known@).len() == known@.len());
        }
        return if known.len() == 0 {
            Analysis::SymUnknown
        } else {
            Analysis::Applied(Fragment::Symbols(known))
        };
    }
    if let Some((field, is_null)) = null_check_field(expr, schema) {
        let field = field.to_owned();
        let f = if is_null {
            Filter::IsNull { field }
        } else {
            Filter::IsNotNull { field }
        };
        return Analysis::Applied(Fragment::Value(f));
    }
    let (col, literal, op) = match binary_col_literal(expr, schema) {
        Some((col, literal, swapped, op)) => {
            let op = if swapped {
                invert_op(op)
            } else {
                op
            };
            (col, literal, op)
        },
        None => {
            return Analysis::NotPushdownable;
        },
    };
    proof {
        reveal_strlit("sym");
        reveal_strlit("time");
        assert("sym"@.len() != "time"@.len());
    }
    if text::same(col, "sym") {
        return Analysis::NotPushdownable;
    }
    if text::same(col, "time") {
        return match extract_int_from_scalar(literal) {
            Some(t) => match time_fragment(op, t) {
                Some(r) => Analysis::Applied(Fragment::Time(r)),
                None => Analysis::NotPushdownable,
            },
            None => Analysis::NotPushdownable,
        };
    }
    match build_value_filter(col, op, literal, schema) {
        Some(f) => Analysis::Applied(Fragment::Value(f)),
        None => Analysis::NotPushdownable,
    }
}

/// Whether a condition has to be applied again to the rows that a scan yields.
#[derive(Debug, Clone, Copy, PartialEq, Eq, Structural)]
pub enum FilterPushDown {
    /// The scan does not apply it.
    Unsupported,
    /// The scan uses it, but may yield rows that do not meet it.
    Inexact,
    /// The scan yields only rows that meet it.
    Exact,
}

/// How many conditions ask for symbols.
pub open spec fn symbol_filters(filters: Seq<Expr>, schema: Seq<FilterField>) -> nat
    decreases filters.len(),
{
    if filters.len() == 0 {
        0
    } else {
        symbol_filters(filters.drop_last(), schema) + if symbols_of(filters.last(), schema) is Some {
            1nat
        } else {
            0
        }
    }
}

/// What is said of one condition.
pub open spec fn pushdown(expr: Expr, schema: Seq<FilterField>, several: bool) -> FilterPushDown {
    if symbols_of(expr, schema) is Some {
        if several {
            FilterPushDown::Inexact
        } else {
            FilterPushDown::Exact
        }
    } else if test_of(expr, schema) is Some || times_of(expr, schema) is Some {
        FilterPushDown::Exact
    } else {
        FilterPushDown::Unsupported
    }
}

/// Says of each condition whether a scan applies it.  Of several conditions on the symbol
/// a scan can only apply the union.
pub fn classify(filters: &[Expr], schema: &[FilterField], known_symbols: &[String]) -> (out: Vec<
    FilterPushDown,
>)
    ensures
        out@ == Seq::new(
            filters@.len(),
            |i: int| pushdown(filters@[i], schema@, symbol_filters(filters@, schema@) > 1),
        ),
{
    let mut count: usize = 0;
    let mut k: usize = 0;
    assert(filters@.take(0).len() == 0);
    while k < filters.len()
        invariant
            k <= filters@.len(),
            count <= k,
            count == symbol_filters(filters@.take(k as int), schema@),
        decreases filters.len() - k,
    {
        assert(filters@.take(k + 1).drop_last() =~= filters@.take(k as int));
        assert(filters@.take(k + 1).last() == filters@[k as int]);
        if sym_literals(&filters[k], schema).is_some() {
            count = count + 1;
        }
        k += 1;
    }
    assert(filters@.take(k as int) =~= filters@);
    let several: bool = count > 1;
    let mut out: Vec<FilterPushDown> = Vec::new();
    let mut i: usize = 0;
    while i < filters.len()
        invariant
            i <= filters@.len(),
            out@.len() == i,
            forall|j: int| 0 <= j < i ==> out@[j] == pushdown(filters@[j], schema@, several),
        decreases filters.len() - i,
    {
        let said = match analyze(&filters[i], schema, known_symbols) {
            Analysis::Applied(Fragment::Symbols(_)) | Analysis::SymUnknown => {
                if several {
                    FilterPushDown::Inexact
                } else {
                    FilterPushDown::Exact
                }
            },
            Analysis::Applied(_) => FilterPushDown::Exact,
            Analysis::NotPushdownable => FilterPushDown::Unsupported,
        };
        out.push(said);
        i += 1;
    }
    proof {
        assert(out@ =~= Seq::new(
            filters@.len(),
            |i: int| pushdown(filters@[i], schema@, symbol_filters(filters@, schema@) > 1),
        ));
    }
    out
}

/// What a scan applies of several conditions, all of which must hold.
#[derive(Debug)]
pub struct PushdownPlan {
    /// The symbols asked for, where any are.  An empty selection yields no rows.
    pub symbols: Option<SymbolSelection>,
    pub time_range: Option<TimeRange>,
    pub value_filters: Vec<Filter>,
}

/// The known symbols that conditions ask for, one condition after the other.
pub open spec fn symbols_asked(
    filters: Seq<Expr>,
    schema: Seq<FilterField>,
    known: Seq<String>,
) -> Seq<Seq<char>>
    decreases filters.len(),
{
    if filters.len() == 0 {
        Seq::empty()
    } else {
        let front = symbols_asked(filters.drop_last(), schema, known);
        match symbols_of(filters.last(), schema) {
            Some(list) => front + known_among(list, known),
            None => front,
        }
    }
}

/// The times that all conditions on the time allow.
pub open spec fn times_asked(filters: Seq<Expr>, schema: Seq<FilterField>) -> (i64, i64)
    decreases filters.len(),
{
    if filters.len() == 0 {
        (i64::MIN, i64::MAX)
    } else {
        let (start, end) = times_asked(filters.drop_last(), schema);
        let last = filters.last();
        if symbols_of(last, schema) is Some || test_of(last, schema) is Some {
            (start, end)
        } else {
            match times_of(last, schema) {
                Some((s, e)) => (
                    if s > start {
                        s
                    } else {
                        start
                    },
                    if e < end {
                        e
                    } else {
                        end
                    },
                ),
                None => (start, end),
            }
        }
    }
}

/// The tests that conditions put to fields, in order.
pub open spec fn tests_asked(filters: Seq<Expr>, schema: Seq<FilterField>) -> Seq<(Seq<char>, Test)>
    decreases filters.len(),
{
    if filters.len() == 0 {
        Seq::empty()
    } else {
        let front = tests_asked(filters.drop_last(), schema);
        if symbols_of(filters.last(), schema) is Some {
            front
        } else {
            match test_of(filters.last(), schema) {
                Some(test) => front.push(test),
                None => front,
            }
        }
    }
}

/// The tests that filters stand for.
pub open spec fn tests_in(filters: Seq<Filter>) -> Seq<(Seq<char>, Test)> {
    Seq::new(filters.len(), |i: int| filters[i].test())
}

/// The plan for conditions.
pub open spec fn plans(
    plan: PushdownPlan,
    filters: Seq<Expr>,
    schema: Seq<FilterField>,
    known: Seq<String>,
) -> bool {
    &&& if symbol_filters(filters, schema) > 0 {
        plan.symbols matches Some(SymbolSelection::Symbols(v)) && text::texts(v@) == symbols_asked(
            filters,
            schema,
            known,
        )
    } else {
        plan.symbols is None
    }
    &&& ({
        let (start, end) = times_asked(filters, schema);
        if start == i64::MIN && end == i64::MAX {
            plan.time_range is None
        } else {
            plan.time_range == Some(TimeRange { start, end })
        }
    })
    &&& tests_in(plan.value_filters@) == tests_asked(filters, schema)
}

/// Turns conditions into what a scan applies.
pub fn parse_filters(filters: &[Expr], schema: &[FilterField], known_symbols: &[String]) -> (plan:
    PushdownPlan)
    ensures
        plans(plan, filters@, schema@, known_symbols@),
{
    let mut symbols: Vec<String> = Vec::new();
    let mut saw_sym: bool = false;
    let mut start: i64 = i64::MIN;
    let mut end: i64 = i64::MAX;
    let mut value_filters: Vec<Filter> = Vec::new();
    let mut k: usize = 0;
    proof {
        assert(filters@.take(0).len() == 0);
        assert(text::texts(symbols@) =~= Seq::empty());
        assert(tests_in(value_filters@) =~= Seq::empty());
    }
    while k < filters.len()
        invariant
            k <= filters@.len(),
            saw_sym == (symbol_filters(filters@.take(k as int), schema@) > 0),
            text::texts(symbols@) == symbols_asked(
                filters@.take(k as int),
                schema@,
                known_symbols@,
            ),
            (start, end) == times_asked(filters@.take(k as int), schema@),
            tests_in(value_filters@) == tests_asked(filters@.take(k as int), schema@),
        decreases filters.len() - k,
    {
        let ghost before = symbols@;
        let ghost tests = value_filters@;
        proof {
            assert(filters@.take(k + 1).drop_last() =~= filters@.take(k as int));
            assert(filters@.take(k + 1).last() == filters@[k as int]);
        }
        match analyze(&filters[k], schema, known_symbols) {
            Analysis::Applied(Fragment::Symbols(mut more)) => {
                saw_sym = true;
                let ghost extra = more@;
                symbols.append(&mut more);
                assert(text::texts(symbols@) =~= text::texts(before) + text::texts(extra));
            },
            Analysis::Applied(Fragment::Time(r)) => {
                if r.start > start {
                    start = r.start;
                }
                if r.end < end {
                    end = r.end;
                }
            },
            Analysis::Applied(Fragment::Value(f)) => {
                let ghost test = f.test();
                value_filters.push(f);
                assert(tests_in(value_filters@) =~= tests_in(tests).push(test));
            },
            Analysis::SymUnknown => {
                saw_sym = true;
                proof {
                    let list = symbols_of(filters@[k as int], schema@)->0;
                    assert(text::texts(symbols@) + known_among(list, known_symbols@)
                        =~= text::texts(symbols@));
                }
            },
            Analysis::NotPushdownable => {},
        }
        k += 1;
    }
    assert(filters@.take(k as int) =~= filters@);
    PushdownPlan {
        symbols: if saw_sym {
            Some(SymbolSelection::Symbols(symbols))
        } else {
            None
        },
        time_range: if start == i64::MIN && end == i64::MAX {
            None
        } else {
            Some(TimeRange::new(start, end))
        },
        value_filters,
    }
}

/// Two numbers compare as asked.
pub open spec fn compares(op: Operator, a: int, b: int) -> bool {
    match op {
        Operator::Eq => a == b,
        Operator::NotEq => a != b,
        Operator::Lt => a < b,
        Operator::LtEq => a <= b,
        Operator::Gt => a > b,
        Operator::GtEq => a >= b,
        Operator::Other => false,
    }
}

/// Texts compare as asked.
pub open spec fn texts_compare(op: Operator, a: Seq<char>, b: Seq<char>) -> bool {
    match op {
        Operator::Eq => a == b,
        Operator::NotEq => a != b,
        Operator::Lt => text::text_before(a, b),
        Operator::LtEq => !text::text_before(b, a),
        Operator::Gt => text::text_before(b, a),
        Operator::GtEq => !text::text_before(a, b),
        Operator::Other => false,
    }
}

/// How floating-point numbers compare, given by their bits.
pub struct FloatOrder {
    pub single: spec_fn(Operator, u32, u32) -> bool,
    pub double: spec_fn(Operator, u64, u64) -> bool,
}

/// The number that a value is; none for texts and for floating-point numbers.
pub open spec fn number_of(v: FilterValue) -> Option<int> {
    match v {
        FilterValue::Bool(b) => Some(
            if b {
                1
            } else {
                0
            },
        ),
        FilterValue::Int8(x) => Some(x as int),
        FilterValue::Int16(x) => Some(x as int),
        FilterValue::Int32(x) => Some(x as int),
        FilterValue::Int64(x) => Some(x as int),
        FilterValue::UInt8(x) => Some(x as int),
        FilterValue::UInt16(x) => Some(x as int),
        FilterValue::UInt32(x) => Some(x as int),
        FilterValue::UInt64(x) => Some(x as int),
        FilterValue::Date32(x) => Some(x as int),
        FilterValue::Date64(x) => Some(x as int),
        FilterValue::TimestampUs(x) => Some(x as int),
        FilterValue::Float32(_) | FilterValue::Float64(_) | FilterValue::String(_) => None,
    }
}

/// Values compare as asked: numbers as numbers, texts as texts.  Others do not compare.
pub open spec fn values_compare(
    op: Operator,
    a: FilterValue,
    b: FilterValue,
    floats: FloatOrder,
) -> bool {
    match (a, b) {
        (FilterValue::Float32(x), FilterValue::Float32(y)) => (floats.single)(op, x, y),
        (FilterValue::Float64(x), FilterValue::Float64(y)) => (floats.double)(op, x, y),
        (FilterValue::String(x), FilterValue::String(y)) => texts_compare(op, x@, y@),
        _ => match (number_of(a), number_of(b)) {
            (Some(x), Some(y)) => compares(op, x, y),
            _ => false,
        },
    }
}

/// The value of a field, if there is one, passes a test.
pub open spec fn value_passes(value: Option<FilterValue>, test: Test, floats: FloatOrder) -> bool {
    match test {
        Test::Compare(op, b) => value matches Some(a) && values_compare(op, a, b, floats),
        Test::Missing => value is None,
        Test::Present => value is Some,
    }
}

/// The sides of a comparison can be exchanged.
pub proof fn law_sides_exchanged(op: Operator, a: int, b: int, s: Seq<char>, t: Seq<char>)
    ensures
        compares(inverted(op), a, b) == compares(op, b, a),
        texts_compare(inverted(op), s, t) == texts_compare(op, t, s),
{
}

/// The number that a constant is; none where it is missing, a text or a floating-point
/// number.
pub open spec fn literal_number(literal: Literal) -> Option<int> {
    match literal {
        Literal::Boolean(Some(b)) => Some(
            if b {
                1
            } else {
                0
            },
        ),
        Literal::Int8(Some(v)) => Some(v as int),
        Literal::Int16(Some(v)) => Some(v as int),
        Literal::Int32(Some(v)) => Some(v as int),
        Literal::Int64(Some(v)) => Some(v as int),
        Literal::UInt8(Some(v)) => Some(v as int),
        Literal::UInt16(Some(v)) => Some(v as int),
        Literal::UInt32(Some(v)) => Some(v as int),
        Literal::UInt64(Some(v)) => Some(v as int),
        Literal::Date32(Some(v)) => Some(v as int),
        Literal::Date64(Some(v)) => Some(v as int),
        Literal::TimestampMicrosecond(Some(v)) => Some(v as int),
        _ => None,
    }
}

/// The test that a comparison becomes asks of a field what the comparison says: that its
/// number compares with the constant's, on the sides on which they stand.
pub proof fn law_test_says_comparison(
    expr: Expr,
    schema: Seq<FilterField>,
    a: FilterValue,
    floats: FloatOrder,
)
    requires
        null_check_of(expr, schema) is None,
        test_of(expr, schema) is Some,
        number_of(a) is Some,
        comparison_of(expr, schema) matches Some((_, v, _, _)) && literal_number(v) is Some,
    ensures
        ({
            let (_, v, swapped, op) = comparison_of(expr, schema)->0;
            let (x, n) = (number_of(a)->0, literal_number(v)->0);
            let (_, test) = test_of(expr, schema)->0;
            value_passes(Some(a), test, floats) == if swapped {
                compares(op, n, x)
            } else {
                compares(op, x, n)
            }
        }),
{
    let (c, v, swapped, op) = comparison_of(expr, schema)->0;
    law_sides_exchanged(op, number_of(a)->0, literal_number(v)->0, Seq::empty(), Seq::empty());
}

/// A row, given by its symbol, its time and the tests that its fields pass, meets a
/// condition that a scan can use.
pub open spec fn meets(
    expr: Expr,
    schema: Seq<FilterField>,
    sym: Seq<char>,
    time: int,
    passes: spec_fn((Seq<char>, Test)) -> bool,
) -> bool {
    match symbols_of(expr, schema) {
        Some(list) => list.contains(sym),
        None => match test_of(expr, schema) {
            Some(test) => passes(test),
            None => match comparison_of(expr, schema) {
                Some((_, v, swapped, op)) => {
                    let t = literal_number(v)->0;
                    if swapped {
                        compares(op, t, time)
                    } else {
                        compares(op, time, t)
                    }
                },
                None => true,
            },
        },
    }
}

/// A scan with this plan yields the row.
pub open spec fn admits(
    plan: PushdownPlan,
    sym: Seq<char>,
    time: int,
    passes: spec_fn((Seq<char>, Test)) -> bool,
) -> bool {
    &&& match plan.symbols {
        Some(SymbolSelection::Symbols(v)) => text::texts(v@).contains(sym),
        _ => true,
    }
    &&& plan.time_range matches Some(r) ==> r.start <= time < r.end
    &&& forall|i: int|
        0 <= i < plan.value_filters@.len() ==> passes(#[trigger] tests_in(plan.value_filters@)[i])
}

/// A scan can use the condition.
pub open spec fn usable(expr: Expr, schema: Seq<FilterField>) -> bool {
    symbols_of(expr, schema) is Some || test_of(expr, schema) is Some || times_of(expr, schema)
        is Some
}

proof fn lemma_known_among(list: Seq<Seq<char>>, known: Seq<String>, sym: Seq<char>)
    ensures
        known_among(list, known).contains(sym) == (list.contains(sym) && text::texts(
            known,
        ).contains(sym)),
    decreases list.len(),
{
    if list.len() > 0 {
        let front = list.drop_last();
        lemma_known_among(front, known, sym);
        let kept = known_among(list, known);
        let fewer = known_among(front, known);
        if list.contains(sym) && text::texts(known).contains(sym) {
            let i = list.index_of(sym);
            if i < front.len() {
                assert(front[i] == sym);
                let j = fewer.index_of(sym);
                assert(kept[j] == sym);
            } else {
                assert(kept[kept.len() - 1] == sym);
            }
        }
        if kept.contains(sym) {
            let j = kept.index_of(sym);
            if j < fewer.len() {
                assert(fewer[j] == sym);
                let i = front.index_of(sym);
                assert(list[i] == sym);
            } else {
                assert(list[list.len() - 1] == sym);
            }
        }
    }
}

/// The symbols of a plan are those of its conditions.
proof fn lemma_symbols_asked(
    filters: Seq<Expr>,
    schema: Seq<FilterField>,
    known: Seq<String>,
    sym: Seq<char>,
    time: int,
    passes: spec_fn((Seq<char>, Test)) -> bool,
)
    requires
        text::texts(known).contains(sym),
    ensures
        symbols_asked(filters, schema, known).contains(sym) == (exists|i: int|
            0 <= i < filters.len() && symbols_of(#[trigger] filters[i], schema) is Some && meets(
                filters[i],
                schema,
                sym,
                time,
                passes,
            )),
        (symbol_filters(filters, schema) == 0) == (forall|i: int|
            0 <= i < filters.len() ==> symbols_of(#[trigger] filters[i], schema) is None),
        symbol_filters(filters, schema) <= 1 ==> forall|i: int, j: int|
            0 <= i < filters.len() && 0 <= j < filters.len() && symbols_of(
                #[trigger] filters[i],
                schema,
            ) is Some && symbols_of(#[trigger] filters[j], schema) is Some ==> i == j,
    decreases filters.len(),
{
    if filters.len() > 0 {
        let front = filters.drop_last();
        let last = filters.last();
        lemma_symbols_asked(front, schema, known, sym, time, passes);
        assert(filters[filters.len() - 1] == last);
        assert(forall|i: int| 0 <= i < front.len() ==> #[trigger] filters[i] == front[i]);
        let asked = symbols_asked(filters, schema, known);
        let before = symbols_asked(front, schema, known);
        if let Some(list) = symbols_of(last, schema) {
            lemma_known_among(list, known, sym);
            let more = known_among(list, known);
            assert(asked.contains(sym) == (before.contains(sym) || more.contains(sym))) by {
                if before.contains(sym) {
                    let i = before.index_of(sym);
                    assert(asked[i] == sym);
                }
                if more.contains(sym) {
                    let i = more.index_of(sym);
                    assert(asked[before.len() + i] == sym);
                }
                if asked.contains(sym) {
                    let i = asked.index_of(sym);
                    if i < before.len() {
                        assert(before[i] == sym);
                    } else {
                        assert(more[i - before.len()] == sym);
                    }
                }
            }
        }
        if exists|i: int|
            0 <= i < front.len() && symbols_of(#[trigger] front[i], schema) is Some && meets(
                front[i],
                schema,
                sym,
                time,
                passes,
            ) {
            let i = choose|i: int|
                0 <= i < front.len() && symbols_of(#[trigger] front[i], schema) is Some && meets(
                    front[i],
                    schema,
                    sym,
                    time,
                    passes,
                );
            assert(filters[i] == front[i]);
        }
        if exists|i: int|
            0 <= i < filters.len() && symbols_of(#[trigger] filters[i], schema) is Some && meets(
                filters[i],
                schema,
                sym,
                time,
                passes,
            ) {
            let i = choose|i: int|
                0 <= i < filters.len() && symbols_of(#[trigger] filters[i], schema) is Some
                    && meets(filters[i], schema, sym, time, passes);
            if i < front.len() {
                assert(front[i] == filters[i]);
            }
        }
        if forall|i: int|
            0 <= i < filters.len() ==> symbols_of(#[trigger] filters[i], schema) is None {
            assert forall|i: int| 0 <= i < front.len() implies symbols_of(
                #[trigger] front[i],
                schema,
            ) is None by {
                assert(filters[i] == front[i]);
            }
        }
    }
}

/// The tests of a plan are those of its conditions.
proof fn lemma_tests_asked(
    filters: Seq<Expr>,
    schema: Seq<FilterField>,
    sym: Seq<char>,
    time: int,
    passes: spec_fn((Seq<char>, Test)) -> bool,
)
    ensures
        (forall|k: int|
            0 <= k < tests_asked(filters, schema).len() ==> passes(
                #[trigger] tests_asked(filters, schema)[k],
            )) == (forall|i: int|
            0 <= i < filters.len() && symbols_of(#[trigger] filters[i], schema) is None && test_of(
                filters[i],
                schema,
            ) is Some ==> meets(filters[i], schema, sym, time, passes)),
    decreases filters.len(),
{
    if filters.len() > 0 {
        let front = filters.drop_last();
        let last = filters.last();
        lemma_tests_asked(front, schema, sym, time, passes);
        assert(filters[filters.len() - 1] == last);
        assert(forall|i: int| 0 <= i < front.len() ==> #[trigger] filters[i] == front[i]);
        let asked = tests_asked(filters, schema);
        let before = tests_asked(front, schema);
        assert(forall|k: int| 0 <= k < before.len() ==> #[trigger] asked[k] == before[k]);
        if forall|k: int| 0 <= k < asked.len() ==> passes(#[trigger] asked[k]) {
            assert forall|k: int| 0 <= k < before.len() implies passes(#[trigger] before[k]) by {
                assert(asked[k] == before[k]);
            }
            if before.len() < asked.len() {
                assert(passes(asked[before.len() as int]));
            }
            assert forall|i: int|
                0 <= i < filters.len() && symbols_of(#[trigger] filters[i], schema) is None
                    && test_of(filters[i], schema) is Some implies meets(
                filters[i],
                schema,
                sym,
                time,
                passes,
            ) by {
                if i < front.len() {
                    assert(front[i] == filters[i]);
                }
            }
        }
        if forall|i: int|
            0 <= i < filters.len() && symbols_of(#[trigger] filters[i], schema) is None && test_of(
                filters[i],
                schema,
            ) is Some ==> meets(filters[i], schema, sym, time, passes) {
            assert forall|i: int|
                0 <= i < front.len() && symbols_of(#[trigger] front[i], schema) is None && test_of(
                    front[i],
                    schema,
                ) is Some implies meets(front[i], schema, sym, time, passes) by {
                assert(filters[i] == front[i]);
            }
            assert forall|k: int| 0 <= k < asked.len() implies passes(#[trigger] asked[k]) by {
                if k < before.len() {
                    assert(passes(before[k]));
                }
            }
        }
    }
}

/// A condition on the time allows the times that meet it, the very last left out.
proof fn lemma_times_meet(
    expr: Expr,
    schema: Seq<FilterField>,
    sym: Seq<char>,
    time: int,
    passes: spec_fn((Seq<char>, Test)) -> bool,
)
    requires
        i64::MIN <= time < i64::MAX,
        symbols_of(expr, schema) is None,
        test_of(expr, schema) is None,
        times_of(expr, schema) is Some,
    ensures
        meets(expr, schema, sym, time, passes) == (times_of(expr, schema) matches Some((start, end))
            && start <= time < end),
{
}

/// The times of a plan are those of its conditions.
proof fn lemma_times_asked(
    filters: Seq<Expr>,
    schema: Seq<FilterField>,
    sym: Seq<char>,
    time: int,
    passes: spec_fn((Seq<char>, Test)) -> bool,
)
    requires
        i64::MIN <= time < i64::MAX,
    ensures
        (times_asked(filters, schema).0 <= time < times_asked(filters, schema).1) == (forall|i: int|
            0 <= i < filters.len() && symbols_of(#[trigger] filters[i], schema) is None && test_of(
                filters[i],
                schema,
            ) is None && times_of(filters[i], schema) is Some ==> meets(
                filters[i],
                schema,
                sym,
                time,
                passes,
            )),
    decreases filters.len(),
{
    if filters.len() > 0 {
        let front = filters.drop_last();
        let last = filters.last();
        lemma_times_asked(front, schema, sym, time, passes);
        assert(filters[filters.len() - 1] == last);
        assert(forall|i: int| 0 <= i < front.len() ==> #[trigger] filters[i] == front[i]);
        if symbols_of(last, schema) is None && test_of(last, schema) is None && times_of(
            last,
            schema,
        ) is Some {
            lemma_times_meet(last, schema, sym, time, passes);
        }
        if forall|i: int|
            0 <= i < filters.len() && symbols_of(#[trigger] filters[i], schema) is None && test_of(
                filters[i],
                schema,
            ) is None && times_of(filters[i], schema) is Some ==> meets(
                filters[i],
                schema,
                sym,
                time,
                passes,
            ) {
            assert forall|i: int|
                0 <= i < front.len() && symbols_of(#[trigger] front[i], schema) is None && test_of(
                    front[i],
                    schema,
                ) is None && times_of(front[i], schema) is Some implies meets(
                front[i],
                schema,
                sym,
                time,
                passes,
            ) by {
                assert(filters[i] == front[i]);
            }
        }
        if times_asked(filters, schema).0 <= time < times_asked(filters, schema).1 {
            assert forall|i: int|
                0 <= i < filters.len() && symbols_of(#[trigger] filters[i], schema) is None
                    && test_of(filters[i], schema) is None && times_of(filters[i], schema)
                    is Some implies meets(filters[i], schema, sym, time, passes) by {
                if i < front.len() {
                    assert(front[i] == filters[i]);
                }
            }
        }
    }
}

/// A scan yields every row that meets all conditions that it can use.
pub proof fn law_no_row_lost(
    plan: PushdownPlan,
    filters: Seq<Expr>,
    schema: Seq<FilterField>,
    known: Seq<String>,
    sym: Seq<char>,
    time: int,
    passes: spec_fn((Seq<char>, Test)) -> bool,
)
    requires
        plans(plan, filters, schema, known),
        text::texts(known).contains(sym),
        i64::MIN <= time < i64::MAX,
        forall|i: int|
            0 <= i < filters.len() && usable(#[trigger] filters[i], schema) ==> meets(
                filters[i],
                schema,
                sym,
                time,
                passes,
            ),
    ensures
        admits(plan, sym, time, passes),
{
    lemma_symbols_asked(filters, schema, known, sym, time, passes);
    lemma_tests_asked(filters, schema, sym, time, passes);
    lemma_times_asked(filters, schema, sym, time, passes);
    assert forall|i: int|
        0 <= i < filters.len() && symbols_of(#[trigger] filters[i], schema) is None && test_of(
            filters[i],
            schema,
        ) is Some implies meets(filters[i], schema, sym, time, passes) by {
        assert(usable(filters[i], schema));
    }
    assert forall|i: int|
        0 <= i < filters.len() && symbols_of(#[trigger] filters[i], schema) is None && test_of(
            filters[i],
            schema,
        ) is None && times_of(filters[i], schema) is Some implies meets(
        filters[i],
        schema,
        sym,
        time,
        passes,
    ) by {
        assert(usable(filters[i], schema));
    }
    if symbol_filters(filters, schema) > 0 {
        let i = choose|i: int|
            0 <= i < filters.len() && symbols_of(#[trigger] filters[i], schema) is Some;
        assert(usable(filters[i], schema));
    }
    assert forall|i: int| 0 <= i < plan.value_filters@.len() implies passes(
        #[trigger] tests_in(plan.value_filters@)[i],
    ) by {
        assert(passes(tests_asked(filters, schema)[i]));
    }
}

/// Where conditions are said to be applied exactly, a scan yields exactly the rows that
/// meet them.
pub proof fn law_exact_filters_applied(
    plan: PushdownPlan,
    filters: Seq<Expr>,
    schema: Seq<FilterField>,
    known: Seq<String>,
    sym: Seq<char>,
    time: int,
    passes: spec_fn((Seq<char>, Test)) -> bool,
    i: int,
)
    requires
        plans(plan, filters, schema, known),
        text::texts(known).contains(sym),
        i64::MIN <= time < i64::MAX,
        admits(plan, sym, time, passes),
        0 <= i < filters.len(),
        pushdown(filters[i], schema, symbol_filters(filters, schema) > 1) is Exact,
    ensures
        meets(filters[i], schema, sym, time, passes),
{
    lemma_symbols_asked(filters, schema, known, sym, time, passes);
    lemma_tests_asked(filters, schema, sym, time, passes);
    lemma_times_asked(filters, schema, sym, time, passes);
    let f = filters[i];
    if symbols_of(f, schema) is Some {
        assert(symbol_filters(filters, schema) > 0);
        let j = choose|j: int|
            0 <= j < filters.len() && symbols_of(#[trigger] filters[j], schema) is Some && meets(
                filters[j],
                schema,
                sym,
                time,
                passes,
            );
        assert(i == j);
    } else if test_of(f, schema) is Some {
        assert forall|k: int| 0 <= k < tests_asked(filters, schema).len() implies passes(
            #[trigger] tests_asked(filters, schema)[k],
        ) by {
            assert(passes(tests_in(plan.value_filters@)[k]));
        }
    }
}

/// A comparison of the time with a constant allows exactly the times that compare with the
/// constant's own number, on the sides on which they stand; a constant that is no date, no
/// time and no number of 4 or 8 signed bytes, or that is missing, allows none to be told
/// apart, and neither does an operator that bounds nothing.
pub proof fn law_time_condition(
    expr: Expr,
    schema: Seq<FilterField>,
    swapped: bool,
    v: Literal,
    n: i64,
    t: i64,
    sym: Seq<char>,
    passes: spec_fn((Seq<char>, Test)) -> bool,
)
    requires
        expr matches Expr::Binary { left, op: _, right } && if swapped {
            *left == Expr::Literal(v) && (*right matches Expr::Column(c) && c@ == "time"@)
        } else {
            *right == Expr::Literal(v) && (*left matches Expr::Column(c) && c@ == "time"@)
        },
    ensures
        (v matches Literal::Int32(Some(x)) && x == n) || (v matches Literal::Date32(Some(x)) && x
            == n) || v == Literal::Int64(Some(n)) || v == Literal::Date64(Some(n)) || v
            == Literal::TimestampMicrosecond(Some(n)) ==> {
            let op = expr->op;
            &&& symbols_of(expr, schema) is None
            &&& test_of(expr, schema) is None
            &&& usable(expr, schema) <==> op is Eq || op is Lt || op is LtEq || op is Gt || op
                is GtEq
            &&& times_of(expr, schema) matches Some((start, end)) ==> {
                &&& t < i64::MAX && op is Eq ==> (start <= t < end <==> t == n)
                &&& t < i64::MAX && op is Lt && !swapped ==> (start <= t < end <==> t < n)
                &&& t < i64::MAX && op is LtEq && !swapped ==> (start <= t < end <==> t <= n)
                &&& t < i64::MAX && op is Gt && !swapped ==> (start <= t < end <==> t > n)
                &&& t < i64::MAX && op is GtEq && !swapped ==> (start <= t < end <==> t >= n)
                &&& t < i64::MAX && op is Lt && swapped ==> (start <= t < end <==> n < t)
                &&& t < i64::MAX && op is LtEq && swapped ==> (start <= t < end <==> n <= t)
                &&& t < i64::MAX && op is Gt && swapped ==> (start <= t < end <==> n > t)
                &&& t < i64::MAX && op is GtEq && swapped ==> (start <= t < end <==> n >= t)
            }
            &&& op is Eq ==> (meets(expr, schema, sym, t as int, passes) <==> t == n)
            &&& op is Lt ==> (meets(expr, schema, sym, t as int, passes) <==> if swapped {
                n < t
            } else {
                t < n
            })
            &&& op is LtEq ==> (meets(expr, schema, sym, t as int, passes) <==> if swapped {
                n <= t
            } else {
                t <= n
            })
            &&& op is Gt ==> (meets(expr, schema, sym, t as int, passes) <==> if swapped {
                n > t
            } else {
                t > n
            })
            &&& op is GtEq ==> (meets(expr, schema, sym, t as int, passes) <==> if swapped {
                n >= t
            } else {
                t >= n
            })
        },
        !(v matches Literal::Int32(Some(_)) || v matches Literal::Date32(Some(_)) || v
            matches Literal::Int64(Some(_)) || v matches Literal::Date64(Some(_)) || v
            matches Literal::TimestampMicrosecond(Some(_))) ==> !usable(expr, schema),
{
    reveal_strlit("sym");
    reveal_strlit("time");
    assert("sym"@.len() != "time"@.len());
}

/// A row meets a comparison of the symbol with a text exactly where its symbol is that text;
/// another comparison of the symbol is of no use to a scan.
pub proof fn law_symbol_condition(
    expr: Expr,
    schema: Seq<FilterField>,
    swapped: bool,
    v: Literal,
    sym: Seq<char>,
    time: int,
    passes: spec_fn((Seq<char>, Test)) -> bool,
)
    requires
        expr matches Expr::Binary { left, op: _, right } && if swapped {
            *left == Expr::Literal(v) && (*right matches Expr::Column(c) && c@ == "sym"@)
        } else {
            *right == Expr::Literal(v) && (*left matches Expr::Column(c) && c@ == "sym"@)
        },
    ensures
        expr->op is Eq && ((v matches Literal::Utf8(Some(s)) && s@ == sym) || (v matches Literal::LargeUtf8(Some(s)) && s@ == sym)) ==> usable(expr, schema) && meets(
            expr,
            schema,
            sym,
            time,
            passes,
        ),
        expr->op is Eq && ((v matches Literal::Utf8(Some(s)) && s@ != sym) || (v matches Literal::LargeUtf8(Some(s)) && s@ != sym)) ==> usable(expr, schema) && !meets(
            expr,
            schema,
            sym,
            time,
            passes,
        ),
        !(expr->op is Eq) || !(v matches Literal::Utf8(Some(_)) || v
            matches Literal::LargeUtf8(Some(_))) ==> !usable(expr, schema),
{
    reveal_strlit("sym");
    reveal_strlit("time");
    assert("sym"@.len() != "time"@.len());
    if symbols_of(expr, schema) is Some {
        let list = symbols_of(expr, schema)->0;
        assert(list.len() == 1);
        assert(list[0] == literal_text(v)->0);
        if list.contains(sym) {
            assert(list[0] == sym);
        }
    }
}

/// The texts of a list are those of its constants, one for one.
proof fn lemma_list_texts(list: Seq<Expr>)
    ensures
        list_texts(list) matches Some(texts) ==> texts.len() == list.len() && forall|i: int|
            0 <= i < list.len() ==> ((#[trigger] list[i]) matches Expr::Literal(v) && ((v matches Literal::Utf8(Some(s)) && s@ == texts[i]) || (v matches Literal::LargeUtf8(Some(s)) && s@ == texts[i]))),
        list_texts(list) is None ==> exists|i: int|
            0 <= i < list.len() && !((#[trigger] list[i]) matches Expr::Literal(v) && (v
                matches Literal::Utf8(Some(_)) || v matches Literal::LargeUtf8(Some(_)))),
    decreases list.len(),
{
    if list.len() > 0 {
        let front = list.drop_last();
        lemma_list_texts(front);
        assert forall|i: int| 0 <= i < front.len() implies #[trigger] list[i] == front[i] by {}
        if list_texts(front) is None {
            let i = choose|i: int|
                0 <= i < front.len() && !((#[trigger] front[i]) matches Expr::Literal(v) && (v
                    matches Literal::Utf8(Some(_)) || v matches Literal::LargeUtf8(Some(_))));
            assert(list[i] == front[i]);
        }
    }
}

/// A row meets a condition that its symbol is in a list of texts exactly where its symbol is
/// one of them; a condition that it is not in a list, or a list that holds anything else, is
/// of no use to a scan.
pub proof fn law_symbol_list(
    expr: Expr,
    schema: Seq<FilterField>,
    sym: Seq<char>,
    time: int,
    passes: spec_fn((Seq<char>, Test)) -> bool,
)
    requires
        expr matches Expr::InList { expr: inner, list: _, negated: _ } && (*inner
            matches Expr::Column(c) && c@ == "sym"@),
    ensures
        usable(expr, schema) <==> !expr->negated && forall|i: int|
            0 <= i < expr->list@.len() ==> ((#[trigger] expr->list@[i]) matches Expr::Literal(v) && (
            v matches Literal::Utf8(Some(_)) || v matches Literal::LargeUtf8(Some(_)))),
        usable(expr, schema) ==> (meets(expr, schema, sym, time, passes) <==> exists|i: int|
            0 <= i < expr->list@.len() && ((#[trigger] expr->list@[i]) matches Expr::Literal(v) && (
            (v matches Literal::Utf8(Some(s)) && s@ == sym) || (v matches Literal::LargeUtf8(Some(s)) && s@ == sym)))),
{
    lemma_list_texts(expr->list@);
    if symbols_of(expr, schema) is Some {
        let texts = symbols_of(expr, schema)->0;
        if texts.contains(sym) {
            let i = choose|i: int| 0 <= i < texts.len() && texts[i] == sym;
            assert(expr->list@[i] is Literal);
        }
        if exists|i: int|
            0 <= i < expr->list@.len() && ((#[trigger] expr->list@[i]) matches Expr::Literal(v) && (
            (v matches Literal::Utf8(Some(s)) && s@ == sym) || (v matches Literal::LargeUtf8(Some(s)) && s@ == sym))) {
            let i = choose|i: int|
                0 <= i < expr->list@.len() && ((#[trigger] expr->list@[i]) matches Expr::Literal(v)
                    && ((v matches Literal::Utf8(Some(s)) && s@ == sym) || (v matches Literal::LargeUtf8(Some(s)) && s@ == sym)));
            assert(texts[i] == sym);
        }
    }
}

/// A condition that a field is missing, or is not, asks just that of the field; symbol, time
/// and a field that is not there cannot be asked.
pub proof fn law_missing_condition(
    expr: Expr,
    schema: Seq<FilterField>,
    sym: Seq<char>,
    time: int,
    passes: spec_fn((Seq<char>, Test)) -> bool,
)
    requires
        (expr matches Expr::IsNull(inner) && *inner is Column) || (expr matches Expr::IsNotNull(
            inner,
        ) && *inner is Column),
    ensures
        expr matches Expr::IsNull(inner) ==> (*inner matches Expr::Column(c) && {
            &&& usable(expr, schema) <==> c@ != "sym"@ && c@ != "time"@ && exists|i: int|
                0 <= i < schema.len() && (#[trigger] schema[i]).name@ == c@
            &&& usable(expr, schema) ==> (meets(expr, schema, sym, time, passes) <==> passes(
                (c@, Test::Missing),
            ))
        }),
        expr matches Expr::IsNotNull(inner) ==> (*inner matches Expr::Column(c) && {
            &&& usable(expr, schema) <==> c@ != "sym"@ && c@ != "time"@ && exists|i: int|
                0 <= i < schema.len() && (#[trigger] schema[i]).name@ == c@
            &&& usable(expr, schema) ==> (meets(expr, schema, sym, time, passes) <==> passes(
                (c@, Test::Present),
            ))
        }),
{
    let name = match expr {
        Expr::IsNull(inner) => (*inner)->Column_0@,
        Expr::IsNotNull(inner) => (*inner)->Column_0@,
        _ => Seq::empty(),
    };
    law_first_field_named(schema, name);
}

/// The column of a name is the first that has it.
pub proof fn law_first_field_named(schema: Seq<FilterField>, name: Seq<char>)
    ensures
        field_named(schema, name) is None <==> forall|i: int|
            0 <= i < schema.len() ==> (#[trigger] schema[i]).name@ != name,
        forall|i: int|
            0 <= i < schema.len() && (#[trigger] schema[i]).name@ == name && (forall|j: int|
                0 <= j < i ==> (#[trigger] schema[j]).name@ != name) ==> field_named(schema, name)
                == Some(schema[i]),
    decreases schema.len(),
{
    if schema.len() > 0 {
        let rest = schema.drop_first();
        law_first_field_named(rest, name);
        assert forall|i: int| 1 <= i < schema.len() implies #[trigger] schema[i] == rest[i - 1] by {}
        assert forall|i: int| 0 <= i < rest.len() implies #[trigger] rest[i] == schema[i + 1] by {}
        assert forall|i: int|
            0 <= i < schema.len() && (#[trigger] schema[i]).name@ == name && (forall|j: int|
                0 <= j < i ==> (#[trigger] schema[j]).name@ != name) implies field_named(
            schema,
            name,
        ) == Some(schema[i]) by {
            if i > 0 {
                assert(schema[0].name@ != name);
                assert(rest[i - 1] == schema[i]);
                assert forall|j: int| 0 <= j < i - 1 implies (#[trigger] rest[j]).name@ != name by {
                    assert(rest[j] == schema[j + 1]);
                }
            }
        }
        if field_named(schema, name) is None {
            assert forall|i: int| 0 <= i < schema.len() implies (#[trigger] schema[i]).name@
                != name by {
                if i > 0 {
                    assert(rest[i - 1] == schema[i]);
                }
            }
        }
        if forall|i: int| 0 <= i < schema.len() ==> (#[trigger] schema[i]).name@ != name {
            assert(schema[0].name@ != name);
            assert forall|i: int| 0 <= i < rest.len() implies (#[trigger] rest[i]).name@ != name by {
                assert(rest[i] == schema[i + 1]);
            }
        }
    }
}

/// A column that is converted to the type it has anyway counts as the column; one that is
/// converted to another type does not.
pub proof fn law_conversion_to_own_type(expr: Expr, schema: Seq<FilterField>, i: int)
    requires
        expr matches Expr::Cast { expr: inner, to: _ } && (*inner matches Expr::Column(c) && 0 <= i
            < schema.len() && schema[i].name@ == c@ && forall|j: int|
            0 <= j < i ==> (#[trigger] schema[j]).name@ != c@),
    ensures
        expr matches Expr::Cast { expr: inner, to } && {
            &&& to == schema[i].type_id ==> column_of(expr, schema) == column_of(*inner, schema)
            &&& to != schema[i].type_id ==> column_of(expr, schema) is None
            &&& column_of(*inner, schema) matches Some(name) && (*inner matches Expr::Column(c)
                && name == c@)
        },
{
    if let Expr::Cast { expr: inner, to } = expr {
        law_first_field_named(schema, (*inner)->Column_0@);
    }
}

/// A constant becomes a value of a stored type only where it keeps its own number, and only
/// a value of that type; a missing constant becomes none.
pub proof fn law_constant_keeps_number(literal: Literal, stored: DataType)
    ensures
        match as_stored(literal, stored) {
            Some(value) => match stored {
                DataType::Bool => value matches FilterValue::Bool(x) && literal
                    == Literal::Boolean(Some(x)),
                DataType::Int8 => value matches FilterValue::Int8(x) && literal == Literal::Int8(
                    Some(x),
                ),
                DataType::Int16 => value matches FilterValue::Int16(x) && literal == Literal::Int16(
                    Some(x),
                ),
                DataType::Int32 => value matches FilterValue::Int32(x) && literal == Literal::Int32(
                    Some(x),
                ),
                DataType::Int64 => value matches FilterValue::Int64(x) && literal == Literal::Int64(
                    Some(x),
                ),
                DataType::UInt8 => value matches FilterValue::UInt8(x) && literal == Literal::UInt8(
                    Some(x),
                ),
                DataType::UInt16 => value matches FilterValue::UInt16(x) && literal == Literal::UInt16(
                    Some(x),
                ),
                DataType::UInt32 => value matches FilterValue::UInt32(x) && literal == Literal::UInt32(
                    Some(x),
                ),
                DataType::UInt64 => value matches FilterValue::UInt64(x) && literal == Literal::UInt64(
                    Some(x),
                ),
                DataType::Float32 => value matches FilterValue::Float32(x) && literal == Literal::Float32(
                    Some(x),
                ),
                DataType::Float64 => value matches FilterValue::Float64(x) && literal == Literal::Float64(
                    Some(x),
                ),
                DataType::Date32 => value matches FilterValue::Date32(x) && (literal
                    == Literal::Date32(Some(x)) || literal == Literal::Int32(Some(x))),
                DataType::Date64 => value matches FilterValue::Date64(x) && (literal
                    == Literal::Date64(Some(x)) || literal == Literal::Int64(Some(x))),
                DataType::TimestampUs => value matches FilterValue::TimestampUs(x) && (literal
                    == Literal::TimestampMicrosecond(Some(x)) || literal == Literal::Int64(
                    Some(x),
                )),
                DataType::Utf8 => false,
            },
            None => match (literal, stored) {
                (Literal::Boolean(x), DataType::Bool) => x is None,
                (Literal::Int8(x), DataType::Int8) => x is None,
                (Literal::Int16(x), DataType::Int16) => x is None,
                (Literal::Int32(x), DataType::Int32) => x is None,
                (Literal::Int64(x), DataType::Int64) => x is None,
                (Literal::UInt8(x), DataType::UInt8) => x is None,
                (Literal::UInt16(x), DataType::UInt16) => x is None,
                (Literal::UInt32(x), DataType::UInt32) => x is None,
                (Literal::UInt64(x), DataType::UInt64) => x is None,
                (Literal::Float32(x), DataType::Float32) => x is None,
                (Literal::Float64(x), DataType::Float64) => x is None,
                (Literal::Date32(x), DataType::Date32) => x is None,
                (Literal::Date64(x), DataType::Date64) => x is None,
                (Literal::TimestampMicrosecond(x), DataType::TimestampUs) => x is None,
                (Literal::Int32(x), DataType::Date32) => x is None,
                (Literal::Int64(x), DataType::Date64) => x is None,
                (Literal::Int64(x), DataType::TimestampUs) => x is None,
                _ => true,
            },
        },
{
}

/// A comparison of another column with a constant asks of the column's value what it says:
/// that the value compares with the constant's, on the sides on which they stand, by the
/// operators' usual meaning.
pub proof fn law_field_condition(
    expr: Expr,
    schema: Seq<FilterField>,
    swapped: bool,
    v: Literal,
    i: int,
    sym: Seq<char>,
    time: int,
    passes: spec_fn((Seq<char>, Test)) -> bool,
)
    requires
        expr matches Expr::Binary { left, op: _, right } && if swapped {
            *left == Expr::Literal(v) && (*right matches Expr::Column(c) && c@ == schema[i].name@)
        } else {
            *right == Expr::Literal(v) && (*left matches Expr::Column(c) && c@ == schema[i].name@)
        },
        0 <= i < schema.len(),
        forall|j: int| 0 <= j < i ==> (#[trigger] schema[j]).name@ != schema[i].name@,
        schema[i].name@ != "sym"@,
        schema[i].name@ != "time"@,
    ensures
        schema[i].stored is None || expr->op is Other ==> !usable(expr, schema),
        schema[i].stored matches Some(t) ==> {
            let op = expr->op;
            let name = schema[i].name@;
            &&& usable(expr, schema) <==> op !is Other && as_stored(v, t) is Some
            &&& as_stored(v, t) matches Some(b) ==> {
                &&& op is Eq ==> (meets(expr, schema, sym, time, passes) <==> passes(
                    (name, Test::Compare(Operator::Eq, b)),
                ))
                &&& op is NotEq ==> (meets(expr, schema, sym, time, passes) <==> passes(
                    (name, Test::Compare(Operator::NotEq, b)),
                ))
                &&& op is Lt ==> (meets(expr, schema, sym, time, passes) <==> passes(
                    (
                        name,
                        Test::Compare(
                            if swapped {
                                Operator::Gt
                            } else {
                                Operator::Lt
                            },
                            b,
                        ),
                    ),
                ))
                &&& op is LtEq ==> (meets(expr, schema, sym, time, passes) <==> passes(
                    (
                        name,
                        Test::Compare(
                            if swapped {
                                Operator::GtEq
                            } else {
                                Operator::LtEq
                            },
                            b,
                        ),
                    ),
                ))
                &&& op is Gt ==> (meets(expr, schema, sym, time, passes) <==> passes(
                    (
                        name,
                        Test::Compare(
                            if swapped {
                                Operator::Lt
                            } else {
                                Operator::Gt
                            },
                            b,
                        ),
                    ),
                ))
                &&& op is GtEq ==> (meets(expr, schema, sym, time, passes) <==> passes(
                    (
                        name,
                        Test::Compare(
                            if swapped {
                                Operator::LtEq
                            } else {
                                Operator::GtEq
                            },
                            b,
                        ),
                    ),
                ))
            }
        },
{
    law_first_field_named(schema, schema[i].name@);
}

/// A filter passes a number exactly where the number compares with the filter's as the
/// filter's name says; a missing value passes only where it is asked for.
pub proof fn law_filter_meaning(
    f: Filter,
    name: Seq<char>,
    a: FilterValue,
    x: int,
    b: FilterValue,
    y: int,
    floats: FloatOrder,
)
    requires
        match a {
            FilterValue::Bool(v) => x == if v {
                1int
            } else {
                0int
            },
            FilterValue::Int8(v) => x == v,
            FilterValue::Int16(v) => x == v,
            FilterValue::Int32(v) => x == v,
            FilterValue::Int64(v) => x == v,
            FilterValue::UInt8(v) => x == v,
            FilterValue::UInt16(v) => x == v,
            FilterValue::UInt32(v) => x == v,
            FilterValue::UInt64(v) => x == v,
            FilterValue::Date32(v) => x == v,
            FilterValue::Date64(v) => x == v,
            FilterValue::TimestampUs(v) => x == v,
            _ => false,
        },
        match b {
            FilterValue::Bool(v) => y == if v {
                1int
            } else {
                0int
            },
            FilterValue::Int8(v) => y == v,
            FilterValue::Int16(v) => y == v,
            FilterValue::Int32(v) => y == v,
            FilterValue::Int64(v) => y == v,
            FilterValue::UInt8(v) => y == v,
            FilterValue::UInt16(v) => y == v,
            FilterValue::UInt32(v) => y == v,
            FilterValue::UInt64(v) => y == v,
            FilterValue::Date32(v) => y == v,
            FilterValue::Date64(v) => y == v,
            FilterValue::TimestampUs(v) => y == v,
            _ => false,
        },
    ensures
        f matches Filter::Equal { field, value } && field@ == name && value == b ==> f.test().0
            == name && (value_passes(Some(a), f.test().1, floats) <==> x == y),
        f matches Filter::NotEqual { field, value } && field@ == name && value == b ==> f.test().0
            == name && (value_passes(Some(a), f.test().1, floats) <==> x != y),
        f matches Filter::LessThan { field, value } && field@ == name && value == b ==> f.test().0
            == name && (value_passes(Some(a), f.test().1, floats) <==> x < y),
        f matches Filter::LessOrEqual { field, value } && field@ == name && value == b ==> f.test().0
            == name && (value_passes(Some(a), f.test().1, floats) <==> x <= y),
        f matches Filter::GreaterThan { field, value } && field@ == name && value == b ==> f.test().0
            == name && (value_passes(Some(a), f.test().1, floats) <==> x > y),
        f matches Filter::GreaterOrEqual { field, value } && field@ == name && value == b ==> f.test(
        ).0 == name && (value_passes(Some(a), f.test().1, floats) <==> x >= y),
        f matches Filter::IsNull { field } && field@ == name ==> f.test().0 == name
            && value_passes(None, f.test().1, floats) && !value_passes(
            Some(a),
            f.test().1,
            floats,
        ),
        f matches Filter::IsNotNull { field } && field@ == name ==> f.test().0 == name
            && !value_passes(None, f.test().1, floats) && value_passes(
            Some(a),
            f.test().1,
            floats,
        ),
        !(f is IsNull) ==> !value_passes(None, f.test().1, floats),
{
}

/// The known symbols among two lists are those among the one and, after them, those among
/// the other; one symbol is kept just where it is known.
pub proof fn law_known_kept_in_order(
    a: Seq<Seq<char>>,
    b: Seq<Seq<char>>,
    known: Seq<String>,
    k: int,
    one: Seq<char>,
)
    ensures
        known_among(a + b, known) == known_among(a, known) + known_among(b, known),
        0 <= k < known.len() && known[k]@ == one ==> known_among(seq![one], known) == seq![one],
        (forall|i: int| 0 <= i < known.len() ==> (#[trigger] known[i])@ != one) ==> known_among(
            seq![one],
            known,
        ) == Seq::<Seq<char>>::empty(),
    decreases b.len(),
{
    reveal_with_fuel(known_among, 2);
    assert(seq![one].drop_last() =~= Seq::<Seq<char>>::empty());
    if 0 <= k < known.len() && known[k]@ == one {
        assert(text::texts(known)[k] == one);
        assert(known_among(seq![one], known) =~= seq![one]);
    }
    if forall|i: int| 0 <= i < known.len() ==> (#[trigger] known[i])@ != one {
        if text::texts(known).contains(one) {
            let i = choose|i: int|
                0 <= i < text::texts(known).len() && text::texts(known)[i] == one;
            assert(known[i]@ == one);
        }
    }
    if b.len() == 0 {
        assert(a + b =~= a);
        assert(known_among(a, known) + known_among(b, known) =~= known_among(a, known));
    } else {
        law_known_kept_in_order(a, b.drop_last(), known, k, one);
        assert((a + b).drop_last() =~= a + b.drop_last());
        assert(known_among(a + b, known) =~= known_among(a, known) + known_among(b, known));
    }
}

/// What several conditions ask for is what the first of them ask for together with what the
/// others ask for: the symbols and tests of the one after those of the other, and the times
/// that both allow.
pub proof fn law_conditions_add(
    a: Seq<Expr>,
    b: Seq<Expr>,
    schema: Seq<FilterField>,
    known: Seq<String>,
    t: i64,
)
    ensures
        symbols_asked(a + b, schema, known) == symbols_asked(a, schema, known) + symbols_asked(
            b,
            schema,
            known,
        ),
        tests_asked(a + b, schema) == tests_asked(a, schema) + tests_asked(b, schema),
        symbol_filters(a + b, schema) == symbol_filters(a, schema) + symbol_filters(b, schema),
        ({
            let ((all, end), (s, e), (u, v)) = (
                times_asked(a + b, schema),
                times_asked(a, schema),
                times_asked(b, schema),
            );
            all <= t < end <==> s <= t < e && u <= t < v
        }),
    decreases b.len(),
{
    if b.len() == 0 {
        assert(a + b =~= a);
        assert(symbols_asked(a, schema, known) + symbols_asked(b, schema, known)
            =~= symbols_asked(a, schema, known));
        assert(tests_asked(a, schema) + tests_asked(b, schema) =~= tests_asked(a, schema));
    } else {
        law_conditions_add(a, b.drop_last(), schema, known, t);
        assert((a + b).drop_last() =~= a + b.drop_last());
        assert(symbols_asked(a + b, schema, known) =~= symbols_asked(a, schema, known)
            + symbols_asked(b, schema, known));
        assert(tests_asked(a + b, schema) =~= tests_asked(a, schema) + tests_asked(b, schema));
    }
}

/// A condition that a scan can use is either applied exactly or, where it is one of several
/// on the symbol, in part; no other condition is said to be applied.
pub proof fn law_said_of_condition(expr: Expr, schema: Seq<FilterField>, several: bool)
    ensures
        pushdown(expr, schema, several) is Unsupported <==> !usable(expr, schema),
        pushdown(expr, schema, several) is Inexact <==> several && symbols_of(expr, schema) is Some,
{
}

/// What becomes of a condition: one that a scan cannot use is left to be applied later; one on
/// the symbol keeps those of its symbols that are known, and none of them being known no row
/// meets it; one on the time keeps its times, and one on a field its test.
pub proof fn law_condition_analysed(
    a: Analysis,
    expr: Expr,
    schema: Seq<FilterField>,
    known: Seq<String>,
    s: Seq<char>,
)
    requires
        analyzes(a, expr, schema, known),
    ensures
        a is NotPushdownable <==> !usable(expr, schema),
        a matches Analysis::Applied(Fragment::Symbols(v)) ==> v@.len() > 0 && (symbols_of(
            expr,
            schema,
        ) matches Some(list) && (text::texts(v@).contains(s) <==> list.contains(s) && text::texts(
            known,
        ).contains(s))),
        a is SymUnknown ==> (symbols_of(expr, schema) matches Some(list) && !(list.contains(s)
            && text::texts(known).contains(s))),
        a matches Analysis::Applied(Fragment::Time(r)) ==> times_of(expr, schema) == Some(
            (r.start, r.end),
        ),
        a matches Analysis::Applied(Fragment::Value(f)) ==> test_of(expr, schema) == Some(f.test()),
{
    if let Some(list) = symbols_of(expr, schema) {
        lemma_known_among(list, known, s);
    }
}

/// Of one condition on the time a scan is planned for exactly the times that compare with the
/// constant's own number, on the sides on which they stand, and for all symbols.
pub proof fn law_time_planned(
    plan: PushdownPlan,
    expr: Expr,
    schema: Seq<FilterField>,
    known: Seq<String>,
    swapped: bool,
    v: Literal,
    n: i64,
    t: i64,
)
    requires
        plans(plan, seq![expr], schema, known),
        t < i64::MAX,
        expr matches Expr::Binary { left, op: _, right } && if swapped {
            *left == Expr::Literal(v) && (*right matches Expr::Column(c) && c@ == "time"@)
        } else {
            *right == Expr::Literal(v) && (*left matches Expr::Column(c) && c@ == "time"@)
        },
        (v matches Literal::Int32(Some(x)) && x == n) || (v matches Literal::Date32(Some(x)) && x
            == n) || v == Literal::Int64(Some(n)) || v == Literal::Date64(Some(n)) || v
            == Literal::TimestampMicrosecond(Some(n)),
        expr->op is Eq || expr->op is Lt || expr->op is LtEq || expr->op is Gt || expr->op is GtEq,
    ensures
        (plan.time_range matches Some(r) ==> r.start <= t < r.end) <==> match (expr->op, swapped) {
            (Operator::Eq, _) => t == n,
            (Operator::Lt, false) => t < n,
            (Operator::LtEq, false) => t <= n,
            (Operator::Gt, false) => t > n,
            (Operator::GtEq, false) => t >= n,
            (Operator::Lt, true) => n < t,
            (Operator::LtEq, true) => n <= t,
            (Operator::Gt, true) => n > t,
            (Operator::GtEq, true) => n >= t,
            _ => false,
        },
        plan.symbols is None,
        plan.value_filters@.len() == 0,
{
    let filters = seq![expr];
    law_time_condition(expr, schema, swapped, v, n, t, Seq::empty(), |x: (Seq<char>, Test)| true);
    reveal_with_fuel(times_asked, 2);
    reveal_with_fuel(tests_asked, 2);
    reveal_with_fuel(symbol_filters, 2);
    assert(filters.drop_last() =~= Seq::<Expr>::empty());
    assert(filters.last() == expr);
    assert(tests_in(plan.value_filters@).len() == plan.value_filters@.len());
}

} // verus!
