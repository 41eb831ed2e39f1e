//! Conditions of a lazy query that a scan can use to skip rows.  The query applies all its
//! conditions to the rows that are left, so a hint may keep too many rows, but must not
//! lose one.

use vstd::prelude::*;
use vstd::string::*;
use crate::filter;
use crate::filter::{Filter, FilterValue, FloatOrder, Operator, SymbolSelection, Test, TimeRange};
use crate::text;

verus! {

/// A constant of a query.
#[derive(Debug)]
pub enum HintLiteral {
    Text(String),
    Int64(i64),
    Int32(i32),
    UInt64(u64),
    UInt32(u32),
    /// A floating-point number, and the integer that it is, if it is one.
    Float { whole: Option<i64> },
    Other,
}

/// A constant, with the bits of the floating-point numbers that equal it, where there are
/// any.
#[derive(Debug)]
pub struct HintValue {
    pub literal: HintLiteral,
    pub double: Option<u64>,
    pub single: Option<u32>,
}

/// A condition of a query.
#[derive(Debug)]
pub enum HintExpr {
    Column(String),
    Literal(HintValue),
    And(Box<HintExpr>, Box<HintExpr>),
    Compare { left: Box<HintExpr>, op: Operator, right: Box<HintExpr> },
    Other,
}

/// The type of a column of a query.
#[derive(Debug, Clone, Copy, PartialEq, Eq, Structural)]
pub enum HintType {
    Boolean,
    Int8,
    Int16,
    Int32,
    Int64,
    UInt8,
    UInt16,
    UInt32,
    UInt64,
    Float32,
    Float64,
    Text,
    Date,
    Datetime,
}

/// A column of a query.
#[derive(Debug)]
pub struct HintColumn {
    pub name: String,
    pub kind: HintType,
}

/// What a scan can use.
#[derive(Debug)]
pub struct Hint {
    pub symbols: Option<SymbolSelection>,
    pub time_range: Option<TimeRange>,
    /// Tests of fields.
    pub filters: Vec<Filter>,
    /// Tests of columns that name partitions.
    pub partition_filters: Vec<Filter>,
}

impl Default for Hint {
    fn default() -> (hint: Self)
        ensures
            hint.symbols is None,
            hint.time_range is None,
            hint.filters@.len() == 0,
            hint.partition_filters@.len() == 0,
    {
        Hint {
            symbols: None,
            time_range: None,
            filters: Vec::new(),
            partition_filters: Vec::new(),
        }
    }
}

/// The integer that a constant is.
pub open spec fn whole_of(literal: HintLiteral) -> Option<i64> {
    match literal {
        HintLiteral::Int64(v) => Some(v),
        HintLiteral::Int32(v) => Some(v as i64),
        HintLiteral::UInt64(v) => if v <= i64::MAX {
            Some(v as i64)
        } else {
            None
        },
        HintLiteral::UInt32(v) => Some(v as i64),
        HintLiteral::Float { whole } => whole,
        _ => None,
    }
}

fn as_i64(literal: &HintLiteral) -> (r: Option<i64>)
    ensures
        r == whole_of(*literal),
{
    match literal {
        HintLiteral::Int64(v) => Some(*v),
        HintLiteral::Int32(v) => Some(*v as i64),
        HintLiteral::UInt64(v) => if *v <= i64::MAX as u64 {
            Some(*v as i64)
        } else {
            None
        },
        HintLiteral::UInt32(v) => Some(*v as i64),
        HintLiteral::Float { whole } => *whole,
        _ => None,
    }
}

/// The natural number that a constant is.
pub open spec fn natural_of(literal: HintLiteral) -> Option<u64> {
    match literal {
        HintLiteral::UInt64(v) => Some(v),
        _ => match whole_of(literal) {
            Some(v) if v >= 0 => Some(v as u64),
            _ => None,
        },
    }
}

fn as_u64(literal: &HintLiteral) -> (r: Option<u64>)
    ensures
        r == natural_of(*literal),
{
    match literal {
        HintLiteral::UInt64(v) => Some(*v),
        _ => match as_i64(literal) {
            Some(v) => if v >= 0 {
                Some(v as u64)
            } else {
                None
            },
            None => None,
        },
    }
}

/// The constant as a value of a column.
pub open spec fn value_for(kind: HintType, v: HintValue) -> Option<FilterValue> {
    match kind {
        HintType::Float64 => match v.double {
            Some(bits) => Some(FilterValue::Float64(bits)),
            None => None,
        },
        HintType::Float32 => match v.single {
            Some(bits) => Some(FilterValue::Float32(bits)),
            None => None,
        },
        HintType::Int64 => match whole_of(v.literal) {
            Some(n) => Some(FilterValue::Int64(n)),
            None => None,
        },
        HintType::Int32 => match whole_of(v.literal) {
            Some(n) if i32::MIN <= n <= i32::MAX => Some(FilterValue::Int32(n as i32)),
            _ => None,
        },
        HintType::UInt64 => match natural_of(v.literal) {
            Some(n) => Some(FilterValue::UInt64(n)),
            None => None,
        },
        HintType::UInt32 => match natural_of(v.literal) {
            Some(n) if n <= u32::MAX => Some(FilterValue::UInt32(n as u32)),
            _ => None,
        },
        HintType::Date => match whole_of(v.literal) {
            Some(n) if i32::MIN <= n <= i32::MAX => Some(FilterValue::Date32(n as i32)),
            _ => None,
        },
        HintType::Datetime => match whole_of(v.literal) {
            Some(n) => Some(FilterValue::TimestampUs(n)),
            None => None,
        },
        _ => None,
    }
}

fn filter_value(kind: HintType, v: &HintValue) -> (r: Option<FilterValue>)
    ensures
        r == value_for(kind, *v),
{
    match kind {
        HintType::Float64 => match v.double {
            Some(bits) => Some(FilterValue::Float64(bits)),
            None => None,
        },
        HintType::Float32 => match v.single {
            Some(bits) => Some(FilterValue::Float32(bits)),
            None => None,
        },
        HintType::Int64 => match as_i64(&v.literal) {
            Some(n) => Some(FilterValue::Int64(n)),
            None => None,
        },
        HintType::Int32 => match as_i64(&v.literal) {
            Some(n) => if i32::MIN as i64 <= n && n <= i32::MAX as i64 {
                Some(FilterValue::Int32(n as i32))
            } else {
                None
            },
            None => None,
        },
        HintType::UInt64 => match as_u64(&v.literal) {
            Some(n) => Some(FilterValue::UInt64(n)),
            None => None,
        },
        HintType::UInt32 => match as_u64(&v.literal) {
            Some(n) => if n <= u32::MAX as u64 {
                Some(FilterValue::UInt32(n as u32))
            } else {
                None
            },
            None => None,
        },
        HintType::Date => match as_i64(&v.literal) {
            Some(n) => if i32::MIN as i64 <= n && n <= i32::MAX as i64 {
                Some(FilterValue::Date32(n as i32))
            } else {
                None
            },
            None => None,
        },
        HintType::Datetime => match as_i64(&v.literal) {
            Some(n) => Some(FilterValue::TimestampUs(n)),
            None => None,
        },
        _ => None,
    }
}

/// The constant as the value of a column that names partitions: a text or an integer.
pub open spec fn partition_value(v: HintValue) -> Option<FilterValue> {
    match v.literal {
        HintLiteral::Text(s) => Some(FilterValue::String(s)),
        other => match whole_of(other) {
            Some(n) => Some(FilterValue::Int64(n)),
            None => None,
        },
    }
}

/// The type of the column with that name.
pub open spec fn kind_of(columns: Seq<HintColumn>, name: Seq<char>) -> Option<HintType>
    decreases columns.len(),
{
    if columns.len() == 0 {
        None
    } else if columns[0].name@ == name {
        Some(columns[0].kind)
    } else {
        kind_of(columns.drop_first(), name)
    }
}

fn find_kind(columns: &[HintColumn], name: &str) -> (r: Option<HintType>)
    ensures
        r == kind_of(columns@, name@),
{
    let mut k: usize = 0;
    assert(columns@.skip(0) =~= columns@);
    while k < columns.len()
        invariant
            k <= columns@.len(),
            kind_of(columns@, name@) == kind_of(columns@.skip(k as int), name@),
        decreases columns.len() - k,
    {
        assert(columns@.skip(k as int)[0] == columns@[k as int]);
        assert(columns@.skip(k as int).drop_first() =~= columns@.skip(k + 1));
        if text::same(columns[k].name.as_str(), name) {
            return Some(columns[k].kind);
        }
        k += 1;
    }
    None
}

/// A comparison of a column with a constant, the column on the left.
pub type Comparison = (Seq<char>, Operator, HintValue);

/// The comparisons that a condition asks for, all of which must hold.
pub open spec fn comparisons(expr: HintExpr) -> Seq<Comparison>
    decreases expr,
{
    match expr {
        HintExpr::And(a, b) => comparisons(*a) + comparisons(*b),
        HintExpr::Compare { left, op, right } => match (*left, *right) {
            (HintExpr::Column(c), HintExpr::Literal(v)) => seq![(c@, op, v)],
            (HintExpr::Literal(v), HintExpr::Column(c)) => seq![(c@, filter::inverted(op), v)],
            _ => Seq::empty(),
        },
        _ => Seq::empty(),
    }
}

/// What a hint says: symbol, times, tests of fields and of partitions.
pub type HintSpec = (
    Option<Seq<char>>,
    Option<(i64, i64)>,
    Seq<(Seq<char>, Test)>,
    Seq<(Seq<char>, Test)>,
);

impl Hint {
    /// The hint picks no symbols, or one.
    pub open spec fn wf(self) -> bool {
        self.symbols matches Some(s) ==> (s matches SymbolSelection::Symbols(v) && v@.len() == 1)
    }

    pub open spec fn says(self) -> HintSpec {
        (
            match self.symbols {
                Some(SymbolSelection::Symbols(v)) => Some(v@[0]@),
                _ => None,
            },
            match self.time_range {
                Some(r) => Some((r.start, r.end)),
                None => None,
            },
            filter::tests_in(self.filters@),
            filter::tests_in(self.partition_filters@),
        )
    }
}

impl Hint {
    /// The symbols and times to scan: all of them where the hint says nothing.
    pub fn selection(self) -> (s: (SymbolSelection, TimeRange))
        requires
            self.wf(),
        ensures
            match self.says().0 {
                Some(sym) => s.0 matches SymbolSelection::Symbols(v) && text::texts(v@) == seq![sym],
                None => s.0 is All,
            },
            (s.1.start, s.1.end) == match self.says().1 {
                Some(r) => r,
                None => (i64::MIN, i64::MAX),
            },
    {
        let symbols = match self.symbols {
            Some(symbols) => {
                proof {
                    let v = symbols->Symbols_0;
                    assert(text::texts(v@) =~= seq![v@[0]@]);
                }
                symbols
            },
            None => SymbolSelection::All,
        };
        let time_range = match self.time_range {
            Some(r) => r,
            None => TimeRange::new(i64::MIN, i64::MAX),
        };
        (symbols, time_range)
    }
}

/// The times that compare as asked; all of them where the operator tells nothing.
pub open spec fn range_of(op: Operator, t: i64) -> (i64, i64) {
    match filter::times_that(op, t) {
        Some(r) => r,
        None => (i64::MIN, i64::MAX),
    }
}

/// Times in both ranges.
pub open spec fn both(prev: Option<(i64, i64)>, r: (i64, i64)) -> (i64, i64) {
    match prev {
        Some(p) => (
            if p.0 > r.0 {
                p.0
            } else {
                r.0
            },
            if p.1 < r.1 {
                p.1
            } else {
                r.1
            },
        ),
        None => r,
    }
}

/// A test, where there is a value to compare with and the operator compares.
pub open spec fn test_for(name: Seq<char>, op: Operator, value: Option<FilterValue>) -> Option<
    (Seq<char>, Test),
> {
    match value {
        Some(v) if op !is Other => Some((name, Test::Compare(op, v))),
        _ => None,
    }
}

/// One more test.
pub open spec fn and_test(list: Seq<(Seq<char>, Test)>, test: Option<(Seq<char>, Test)>) -> Seq<
    (Seq<char>, Test),
> {
    match test {
        Some(t) => list.push(t),
        None => list,
    }
}

/// A hint after one more comparison.
pub open spec fn absorbed(
    h: HintSpec,
    c: Comparison,
    columns: Seq<HintColumn>,
    partitions: Seq<String>,
) -> HintSpec {
    let (name, op, v) = c;
    if text::texts(partitions).contains(name) {
        (h.0, h.1, h.2, and_test(h.3, test_for(name, op, partition_value(v))))
    } else if name == "sym"@ && op is Eq {
        match v.literal {
            HintLiteral::Text(s) => (Some(s@), h.1, h.2, h.3),
            _ => h,
        }
    } else if name == "time"@ {
        match whole_of(v.literal) {
            Some(t) => (h.0, Some(both(h.1, range_of(op, t))), h.2, h.3),
            None => h,
        }
    } else {
        match kind_of(columns, name) {
            Some(kind) => (h.0, h.1, and_test(h.2, test_for(name, op, value_for(kind, v))), h.3),
            None => h,
        }
    }
}

/// A hint after several comparisons.
pub open spec fn absorbed_all(
    h: HintSpec,
    list: Seq<Comparison>,
    columns: Seq<HintColumn>,
    partitions: Seq<String>,
) -> HintSpec
    decreases list.len(),
{
    if list.len() == 0 {
        h
    } else {
        absorbed(
            absorbed_all(h, list.drop_last(), columns, partitions),
            list.last(),
            columns,
            partitions,
        )
    }
}

proof fn lemma_absorbed_add(
    h: HintSpec,
    a: Seq<Comparison>,
    b: Seq<Comparison>,
    columns: Seq<HintColumn>,
    partitions: Seq<String>,
)
    ensures
        absorbed_all(h, a + b, columns, partitions) == absorbed_all(
            absorbed_all(h, a, columns, partitions),
            b,
            columns,
            partitions,
        ),
    decreases b.len(),
{
    if b.len() > 0 {
        assert((a + b).drop_last() =~= a + b.drop_last());
        lemma_absorbed_add(h, a, b.drop_last(), columns, partitions);
    } else {
        assert(a + b =~= a);
    }
}

/// The hint that says nothing.
pub open spec fn no_hint() -> HintSpec {
    (None, None, Seq::empty(), Seq::empty())
}

fn add_test(list: &mut Vec<Filter>, name: &str, op: Operator, value: Option<FilterValue>)
    ensures
        filter::tests_in(final(list)@) == and_test(
            filter::tests_in(old(list)@),
            test_for(name@, op, value),
        ),
{
    if let Some(v) = value {
        if let Some(f) = Filter::compare(name, op, v) {
            list.push(f);
            assert(filter::tests_in(list@) =~= filter::tests_in(old(list)@).push(f.test()));
        }
    }
}

/// Takes one comparison into a hint.
fn apply(
    name: &str,
    op: Operator,
    v: HintValue,
    columns: &[HintColumn],
    partitions: &[String],
    hint: &mut Hint,
)
    requires
        old(hint).wf(),
    ensures
        final(hint).wf(),
        final(hint).says() == absorbed(
            old(hint).says(),
            (name@, op, v),
            columns@,
            partitions@,
        ),
{
    if text::is_listed(partitions, name) {
        let value = match v.literal {
            HintLiteral::Text(s) => Some(FilterValue::String(s)),
            other => match as_i64(&other) {
                Some(n) => Some(FilterValue::Int64(n)),
                None => None,
            },
        };
        add_test(&mut hint.partition_filters, name, op, value);
        return;
    }
    if text::same(name, "sym") && op == Operator::Eq {
        if let HintLiteral::Text(s) = v.literal {
            let mut picked: Vec<String> = Vec::new();
            picked.push(s);
            hint.symbols = Some(SymbolSelection::Symbols(picked));
        }
        return;
    }
    if text::same(name, "time") {
        if let Some(t) = as_i64(&v.literal) {
            let r = match filter::time_fragment(op, t) {
                Some(r) => r,
                None => TimeRange::new(i64::MIN, i64::MAX),
            };
            hint.time_range = Some(
                match hint.time_range {
                    Some(p) => TimeRange::new(
                        if p.start > r.start {
                            p.start
                        } else {
                            r.start
                        },
                        if p.end < r.end {
                            p.end
                        } else {
                            r.end
                        },
                    ),
                    None => r,
                },
            );
        }
        return;
    }
    if let Some(kind) = find_kind(columns, name) {
        add_test(&mut hint.filters, name, op, filter_value(kind, &v));
    }
}

fn collect(expr: HintExpr, columns: &[HintColumn], partitions: &[String], hint: &mut Hint)
    requires
        old(hint).wf(),
    ensures
        final(hint).wf(),
        final(hint).says() == absorbed_all(
            old(hint).says(),
            comparisons(expr),
            columns@,
            partitions@,
        ),
    decreases expr,
{
    let ghost start = hint.says();
    match expr {
        HintExpr::And(a, b) => {
            let ghost (la, lb) = (comparisons(*a), comparisons(*b));
            collect(*a, columns, partitions, hint);
            collect(*b, columns, partitions, hint);
            proof {
                lemma_absorbed_add(start, la, lb, columns@, partitions@);
            }
        },
        HintExpr::Compare { left, op, right } => match (*left, *right) {
            (HintExpr::Column(c), HintExpr::Literal(v)) => {
                proof {
                    lemma_absorbed_one(start, (c@, op, v), columns@, partitions@);
                }
                apply(c.as_str(), op, v, columns, partitions, hint);
            },
            (HintExpr::Literal(v), HintExpr::Column(c)) => {
                proof {
                    lemma_absorbed_one(
                        start,
                        (c@, filter::inverted(op), v),
                        columns@,
                        partitions@,
                    );
                }
                apply(c.as_str(), filter::invert_op(op), v, columns, partitions, hint);
            },
            _ => {},
        },
        _ => {},
    }
}

proof fn lemma_absorbed_one(
    h: HintSpec,
    c: Comparison,
    columns: Seq<HintColumn>,
    partitions: Seq<String>,
)
    ensures
        absorbed_all(h, seq![c], columns, partitions) == absorbed(h, c, columns, partitions),
{
    assert(seq![c].drop_last() =~= Seq::empty());
    reveal_with_fuel(absorbed_all, 2);
}

/// Turns the condition of a query into a hint.
pub fn translate(expr: Option<HintExpr>, columns: &[HintColumn], partitions: &[String]) -> (hint:
    Hint)
    ensures
        hint.wf(),
        hint.says() == match expr {
            Some(e) => absorbed_all(no_hint(), comparisons(e), columns@, partitions@),
            None => no_hint(),
        },
{
    let mut hint = Hint::default();
    proof {
        assert(filter::tests_in(hint.filters@) =~= Seq::empty());
        assert(filter::tests_in(hint.partition_filters@) =~= Seq::empty());
    }
    if let Some(e) = expr {
        collect(e, columns, partitions, &mut hint);
    }
    hint
}

/// A row that a query looks at: its symbol, its time, the values of its fields and of the
/// columns that name its partition, and how floating-point numbers compare.
pub struct QueryRow {
    pub sym: Seq<char>,
    pub time: int,
    pub fields: spec_fn(Seq<char>) -> Option<FilterValue>,
    pub partition: spec_fn(Seq<char>) -> Option<FilterValue>,
    pub floats: FloatOrder,
}

/// A value of a column of that type.
pub open spec fn of_kind(kind: HintType, v: FilterValue) -> bool {
    match kind {
        HintType::Boolean => v is Bool,
        HintType::Int8 => v is Int8,
        HintType::Int16 => v is Int16,
        HintType::Int32 => v is Int32,
        HintType::Int64 => v is Int64,
        HintType::UInt8 => v is UInt8,
        HintType::UInt16 => v is UInt16,
        HintType::UInt32 => v is UInt32,
        HintType::UInt64 => v is UInt64,
        HintType::Float32 => v is Float32,
        HintType::Float64 => v is Float64,
        HintType::Text => v is String,
        HintType::Date => v is Date32,
        HintType::Datetime => v is TimestampUs,
    }
}

/// The values of the row have the types of their columns; those that name partitions are
/// texts or integers.
pub open spec fn fits(row: QueryRow, columns: Seq<HintColumn>) -> bool {
    &&& forall|name: Seq<char>|
        kind_of(columns, name) matches Some(kind) ==> (#[trigger] (row.fields)(name) matches Some(v)
            ==> of_kind(kind, v))
    &&& forall|name: Seq<char>| #[trigger]
        (row.partition)(name) matches Some(v) ==> v is String || v is Int64
}

/// The number that a constant is.
pub open spec fn literal_number(literal: HintLiteral) -> Option<int> {
    match literal {
        HintLiteral::Int64(v) => Some(v as int),
        HintLiteral::Int32(v) => Some(v as int),
        HintLiteral::UInt64(v) => Some(v as int),
        HintLiteral::UInt32(v) => Some(v as int),
        HintLiteral::Float { whole: Some(v) } => Some(v as int),
        _ => None,
    }
}

/// A value compares as asked with a constant, as far as can be told: texts compare with
/// texts, and numbers by what they are, whatever their types.
pub open spec fn compares_with(
    op: Operator,
    a: FilterValue,
    v: HintValue,
    floats: FloatOrder,
) -> bool {
    match a {
        FilterValue::Float64(x) => v.double matches Some(y) ==> (floats.double)(op, x, y),
        FilterValue::Float32(x) => v.single matches Some(y) ==> (floats.single)(op, x, y),
        FilterValue::String(s) => match v.literal {
            HintLiteral::Text(t) => filter::texts_compare(op, s@, t@),
            _ => literal_number(v.literal) is None,
        },
        _ => match v.literal {
            HintLiteral::Text(_) => false,
            _ => literal_number(v.literal) matches Some(n) ==> filter::compares(
                op,
                filter::number_of(a)->0,
                n,
            ),
        },
    }
}

/// The row meets a comparison, as far as can be told.  A missing value meets none.
pub open spec fn holds(
    row: QueryRow,
    c: Comparison,
    columns: Seq<HintColumn>,
    partitions: Seq<String>,
) -> bool {
    let (name, op, v) = c;
    if op is Other {
        true
    } else if text::texts(partitions).contains(name) {
        (row.partition)(name) matches Some(a) && compares_with(op, a, v, row.floats)
    } else if name == "sym"@ && op is Eq {
        v.literal matches HintLiteral::Text(s) ==> row.sym == s@
    } else if name == "time"@ {
        literal_number(v.literal) matches Some(t) ==> filter::compares(op, row.time, t)
    } else {
        kind_of(columns, name) is Some ==> ((row.fields)(name) matches Some(a) && compares_with(
            op,
            a,
            v,
            row.floats,
        ))
    }
}

/// The row meets a condition, as far as a scan can tell.
pub open spec fn meets(
    row: QueryRow,
    expr: HintExpr,
    columns: Seq<HintColumn>,
    partitions: Seq<String>,
) -> bool
    decreases expr,
{
    match expr {
        HintExpr::And(a, b) => meets(row, *a, columns, partitions) && meets(
            row,
            *b,
            columns,
            partitions,
        ),
        HintExpr::Compare { left, op, right } => match (*left, *right) {
            (HintExpr::Column(c), HintExpr::Literal(v)) => holds(
                row,
                (c@, op, v),
                columns,
                partitions,
            ),
            (HintExpr::Literal(v), HintExpr::Column(c)) => holds(
                row,
                (c@, filter::inverted(op), v),
                columns,
                partitions,
            ),
            _ => true,
        },
        _ => true,
    }
}

/// A scan with this hint yields the row.
pub open spec fn admits(h: HintSpec, row: QueryRow) -> bool {
    &&& h.0 matches Some(s) ==> row.sym == s
    &&& h.1 matches Some(r) ==> r.0 <= row.time < r.1
    &&& forall|i: int|
        0 <= i < h.2.len() ==> filter::value_passes(
            (row.fields)((#[trigger] h.2[i]).0),
            h.2[i].1,
            row.floats,
        )
    &&& forall|i: int|
        0 <= i < h.3.len() ==> filter::value_passes(
            (row.partition)((#[trigger] h.3[i]).0),
            h.3[i].1,
            row.floats,
        )
}

/// A constant turned into a value of a field compares as the constant does.
proof fn lemma_value_for(
    kind: HintType,
    op: Operator,
    a: FilterValue,
    v: HintValue,
    floats: FloatOrder,
)
    requires
        of_kind(kind, a),
        compares_with(op, a, v, floats),
    ensures
        value_for(kind, v) matches Some(b) ==> filter::values_compare(op, a, b, floats),
{
}

/// A constant turned into a value that names a partition compares as the constant does.
proof fn lemma_partition_value(op: Operator, a: FilterValue, v: HintValue, floats: FloatOrder)
    requires
        a is String || a is Int64,
        compares_with(op, a, v, floats),
    ensures
        partition_value(v) matches Some(b) ==> filter::values_compare(op, a, b, floats),
{
}

proof fn lemma_meets_comparisons(
    row: QueryRow,
    expr: HintExpr,
    columns: Seq<HintColumn>,
    partitions: Seq<String>,
)
    requires
        meets(row, expr, columns, partitions),
    ensures
        forall|i: int|
            0 <= i < comparisons(expr).len() ==> holds(
                row,
                #[trigger] comparisons(expr)[i],
                columns,
                partitions,
            ),
    decreases expr,
{
    if let HintExpr::And(a, b) = expr {
        lemma_meets_comparisons(row, *a, columns, partitions);
        lemma_meets_comparisons(row, *b, columns, partitions);
        let (la, lb) = (comparisons(*a), comparisons(*b));
        assert forall|i: int| 0 <= i < comparisons(expr).len() implies holds(
            row,
            #[trigger] comparisons(expr)[i],
            columns,
            partitions,
        ) by {
            if i < la.len() {
                assert(comparisons(expr)[i] == la[i]);
            } else {
                assert(comparisons(expr)[i] == lb[i - la.len()]);
            }
        }
    }
}

proof fn lemma_admitted(
    row: QueryRow,
    list: Seq<Comparison>,
    columns: Seq<HintColumn>,
    partitions: Seq<String>,
)
    requires
        i64::MIN <= row.time < i64::MAX,
        fits(row, columns),
        forall|i: int| 0 <= i < list.len() ==> holds(row, #[trigger] list[i], columns, partitions),
    ensures
        admits(absorbed_all(no_hint(), list, columns, partitions), row),
    decreases list.len(),
{
    if list.len() > 0 {
        let front = list.drop_last();
        assert forall|i: int| 0 <= i < front.len() implies holds(
            row,
            #[trigger] front[i],
            columns,
            partitions,
        ) by {
            assert(front[i] == list[i]);
        }
        lemma_admitted(row, front, columns, partitions);
        assert(holds(row, list[list.len() - 1], columns, partitions));
        let (name, op, v) = list.last();
        if let Some(a) = (row.fields)(name) {
            if let Some(kind) = kind_of(columns, name) {
                if compares_with(op, a, v, row.floats) {
                    lemma_value_for(kind, op, a, v, row.floats);
                }
            }
        }
        if let Some(a) = (row.partition)(name) {
            if compares_with(op, a, v, row.floats) {
                lemma_partition_value(op, a, v, row.floats);
            }
        }
    }
}

/// A scan with the hint for a condition yields every row that meets the condition.
pub proof fn law_hint_loses_no_row(
    row: QueryRow,
    expr: HintExpr,
    columns: Seq<HintColumn>,
    partitions: Seq<String>,
)
    requires
        i64::MIN <= row.time < i64::MAX,
        fits(row, columns),
        meets(row, expr, columns, partitions),
    ensures
        admits(absorbed_all(no_hint(), comparisons(expr), columns, partitions), row),
{
    lemma_meets_comparisons(row, expr, columns, partitions);
    lemma_admitted(row, comparisons(expr), columns, partitions);
}

/// A constant has a whole number exactly where it is one of 64 bits, and it is its own.
pub proof fn law_whole_number(literal: HintLiteral)
    ensures
        match literal {
            HintLiteral::Int64(v) => whole_of(literal) == Some(v) && (natural_of(literal) is Some
                <==> v >= 0) && (natural_of(literal) matches Some(n) ==> n == v),
            HintLiteral::Int32(v) => (whole_of(literal) matches Some(n) && n == v) && (natural_of(
                literal,
            ) is Some <==> v >= 0) && (natural_of(literal) matches Some(n) ==> n == v),
            HintLiteral::UInt32(v) => (whole_of(literal) matches Some(n) && n == v) && (natural_of(
                literal,
            ) matches Some(n) && n == v),
            HintLiteral::UInt64(v) => natural_of(literal) == Some(v) && (whole_of(literal) is Some
                <==> v <= i64::MAX) && (whole_of(literal) matches Some(n) ==> n == v),
            HintLiteral::Float { whole } => whole_of(literal) == whole && (natural_of(literal)
                is Some <==> (whole matches Some(v) && v >= 0)) && (natural_of(literal) matches Some(
                n,
            ) ==> (whole matches Some(v) && n == v)),
            _ => whole_of(literal) is None && natural_of(literal) is None,
        },
{
}

/// A constant becomes a value of a field's type exactly where it is a number that fits the
/// type, and keeps its number; small numbers, truth values and texts get none.
pub proof fn law_constant_fits_type(kind: HintType, v: HintValue, n: int)
    ensures
        kind is Float64 ==> match v.double {
            Some(bits) => value_for(kind, v) == Some(FilterValue::Float64(bits)),
            None => value_for(kind, v) is None,
        },
        kind is Float32 ==> match v.single {
            Some(bits) => value_for(kind, v) == Some(FilterValue::Float32(bits)),
            None => value_for(kind, v) is None,
        },
        kind is Boolean || kind is Int8 || kind is Int16 || kind is UInt8 || kind is UInt16 || kind
            is Text ==> value_for(kind, v) is None,
        (v.literal matches HintLiteral::Int64(x) && x == n) || (v.literal matches HintLiteral::Int32(
            x,
        ) && x == n) || (v.literal matches HintLiteral::UInt64(x) && x == n) || (v.literal
            matches HintLiteral::UInt32(x) && x == n) || (v.literal matches HintLiteral::Float {
            whole: Some(x),
        } && x == n) ==> {
            &&& kind is Int64 ==> if i64::MIN <= n <= i64::MAX {
                value_for(kind, v) == Some(FilterValue::Int64(n as i64))
            } else {
                value_for(kind, v) is None
            }
            &&& kind is Int32 ==> if i32::MIN <= n <= i32::MAX {
                value_for(kind, v) == Some(FilterValue::Int32(n as i32))
            } else {
                value_for(kind, v) is None
            }
            &&& kind is UInt64 ==> if 0 <= n <= u64::MAX {
                value_for(kind, v) == Some(FilterValue::UInt64(n as u64))
            } else {
                value_for(kind, v) is None
            }
            &&& kind is UInt32 ==> if 0 <= n <= u32::MAX {
                value_for(kind, v) == Some(FilterValue::UInt32(n as u32))
            } else {
                value_for(kind, v) is None
            }
            &&& kind is Date ==> if i32::MIN <= n <= i32::MAX {
                value_for(kind, v) == Some(FilterValue::Date32(n as i32))
            } else {
                value_for(kind, v) is None
            }
            &&& kind is Datetime ==> if i64::MIN <= n <= i64::MAX {
                value_for(kind, v) == Some(FilterValue::TimestampUs(n as i64))
            } else {
                value_for(kind, v) is None
            }
            &&& if i64::MIN <= n <= i64::MAX {
                partition_value(v) == Some(FilterValue::Int64(n as i64))
            } else {
                partition_value(v) is None
            }
        },
        v.literal matches HintLiteral::Text(s) ==> partition_value(v) == Some(
            FilterValue::String(s),
        ),
        v.literal is Text && kind !is Float64 && kind !is Float32 ==> value_for(kind, v) is None,
{
}

/// A comparison of the time narrows the times that a hint allows to those that compare with
/// the constant as said, and changes nothing else.
pub proof fn law_hint_time(
    h: HintSpec,
    v: HintValue,
    op: Operator,
    n: i64,
    t: i64,
    columns: Seq<HintColumn>,
    partitions: Seq<String>,
)
    requires
        !text::texts(partitions).contains("time"@),
        t < i64::MAX,
        (v.literal matches HintLiteral::Int64(x) && x == n) || (v.literal matches HintLiteral::Int32(
            x,
        ) && x == n) || (v.literal matches HintLiteral::UInt64(x) && x == n) || (v.literal
            matches HintLiteral::UInt32(x) && x == n) || (v.literal matches HintLiteral::Float {
            whole: Some(x),
        } && x == n),
    ensures
        ({
            let after = absorbed(h, ("time"@, op, v), columns, partitions);
            &&& after.0 == h.0 && after.2 == h.2 && after.3 == h.3
            &&& after.1 matches Some((start, end)) && (start <= t < end <==> (h.1 matches Some(
                (from, to),
            ) ==> from <= t < to) && (op is Eq ==> t == n) && (op is Lt ==> t < n) && (op is LtEq
                ==> t <= n) && (op is Gt ==> t > n) && (op is GtEq ==> t >= n))
        }),
{
    reveal_strlit("sym");
    reveal_strlit("time");
    assert("sym"@.len() != "time"@.len());
}

/// A comparison of the symbol with a text asks for that symbol; one of a column of the
/// directories, or of another column, adds one test of that column where its constant has a
/// value and nothing where it has none.
pub proof fn law_hint_column(
    h: HintSpec,
    name: Seq<char>,
    v: HintValue,
    op: Operator,
    columns: Seq<HintColumn>,
    partitions: Seq<String>,
    i: int,
)
    ensures
        ({
            let after = absorbed(h, (name, op, v), columns, partitions);
            &&& text::texts(partitions).contains(name) ==> {
                &&& after.0 == h.0 && after.1 == h.1 && after.2 == h.2
                &&& match partition_value(v) {
                    Some(b) if op !is Other => after.3 == h.3 + seq![(name, Test::Compare(op, b))],
                    _ => after.3 == h.3,
                }
            }
            &&& !text::texts(partitions).contains(name) ==> after.3 == h.3
            &&& !text::texts(partitions).contains(name) && name == "sym"@ && op is Eq ==> {
                &&& after.1 == h.1 && after.2 == h.2
                &&& match v.literal {
                    HintLiteral::Text(s) => after.0 == Some(s@),
                    _ => after.0 == h.0,
                }
            }
            &&& !text::texts(partitions).contains(name) && name != "time"@ && (name != "sym"@ || op
                !is Eq) && 0 <= i < columns.len() && columns[i].name@ == name && (forall|j: int|
                0 <= j < i ==> (#[trigger] columns[j]).name@ != name) ==> {
                &&& after.0 == h.0 && after.1 == h.1
                &&& match value_for(columns[i].kind, v) {
                    Some(b) if op !is Other => after.2 == h.2 + seq![(name, Test::Compare(op, b))],
                    _ => after.2 == h.2,
                }
            }
            &&& !text::texts(partitions).contains(name) && name != "time"@ && (name != "sym"@ || op
                !is Eq) && (forall|j: int|
                0 <= j < columns.len() ==> (#[trigger] columns[j]).name@ != name) ==> after == h
        }),
{
    reveal_strlit("sym");
    reveal_strlit("time");
    assert("sym"@.len() != "time"@.len());
    lemma_kind_of(columns, name);
    let after = absorbed(h, (name, op, v), columns, partitions);
    if let Some(b) = partition_value(v) {
        assert(h.3.push((name, Test::Compare(op, b))) =~= h.3 + seq![(name, Test::Compare(op, b))]);
    }
    if 0 <= i < columns.len() {
        if let Some(b) = value_for(columns[i].kind, v) {
            assert(h.2.push((name, Test::Compare(op, b))) =~= h.2 + seq![
                (name, Test::Compare(op, b)),
            ]);
        }
    }
}

/// The type of a column is that of the first with its name.
proof fn lemma_kind_of(columns: Seq<HintColumn>, name: Seq<char>)
    ensures
        forall|i: int|
            0 <= i < columns.len() && (#[trigger] columns[i]).name@ == name && (forall|j: int|
                0 <= j < i ==> (#[trigger] columns[j]).name@ != name) ==> kind_of(columns, name)
                == Some(columns[i].kind),
        (forall|j: int| 0 <= j < columns.len() ==> (#[trigger] columns[j]).name@ != name)
            ==> kind_of(columns, name) is None,
    decreases columns.len(),
{
    if columns.len() > 0 {
        let rest = columns.drop_first();
        lemma_kind_of(rest, name);
        assert forall|i: int|
            0 <= i < columns.len() && (#[trigger] columns[i]).name@ == name && (forall|j: int|
                0 <= j < i ==> (#[trigger] columns[j]).name@ != name) implies kind_of(columns, name)
            == Some(columns[i].kind) by {
            if i > 0 {
                assert(columns[0].name@ != name);
                assert(rest[i - 1] == columns[i]);
                assert forall|j: int| 0 <= j < i - 1 implies (#[trigger] rest[j]).name@ != name by {
                    assert(rest[j] == columns[j + 1]);
                }
            }
        }
        if forall|j: int| 0 <= j < columns.len() ==> (#[trigger] columns[j]).name@ != name {
            assert(columns[0].name@ != name);
            assert forall|j: int| 0 <= j < rest.len() implies (#[trigger] rest[j]).name@ != name by {
                assert(rest[j] == columns[j + 1]);
            }
        }
    }
}

/// What a condition compares: of two conditions that must both hold, what the one compares
/// and what the other compares; of a column and a constant the two, with the column on the
/// left; of anything else nothing.
pub proof fn law_compared(expr: HintExpr, c: String, op: Operator, v: HintValue)
    ensures
        expr matches HintExpr::And(a, b) ==> comparisons(expr) == comparisons(*a) + comparisons(*b),
        expr matches HintExpr::Compare { left, op: o, right } && *left == HintExpr::Column(c)
            && *right == HintExpr::Literal(v) && o == op ==> comparisons(expr) == seq![(c@, op, v)],
        expr matches HintExpr::Compare { left, op: o, right } && *left == HintExpr::Literal(v)
            && *right == HintExpr::Column(c) && o == op ==> comparisons(expr).len() == 1
            && comparisons(expr)[0].0 == c@ && comparisons(expr)[0].2 == v && match op {
            Operator::Lt => comparisons(expr)[0].1 is Gt,
            Operator::LtEq => comparisons(expr)[0].1 is GtEq,
            Operator::Gt => comparisons(expr)[0].1 is Lt,
            Operator::GtEq => comparisons(expr)[0].1 is LtEq,
            _ => comparisons(expr)[0].1 == op,
        },
        !(expr is And || expr is Compare) ==> comparisons(expr).len() == 0,
        expr matches HintExpr::Compare { left, op: _, right } && !(*left is Column && *right
            is Literal || *left is Literal && *right is Column) ==> comparisons(expr).len() == 0,
{
}

/// What a hint says is what it holds: its one symbol, its times and its tests.
pub proof fn law_hint_says(hint: Hint)
    requires
        hint.wf(),
    ensures
        hint.symbols is None <==> hint.says().0 is None,
        hint.symbols matches Some(SymbolSelection::Symbols(v)) ==> v@.len() == 1 && hint.says().0
            == Some(v@[0]@),
        hint.time_range matches Some(r) ==> hint.says().1 == Some((r.start, r.end)),
        hint.time_range is None ==> hint.says().1 is None,
        hint.says().2.len() == hint.filters@.len(),
        hint.says().3.len() == hint.partition_filters@.len(),
        forall|i: int|
            0 <= i < hint.filters@.len() ==> hint.says().2[i] == (#[trigger] hint.filters@[i]).test(),
        forall|i: int|
            0 <= i < hint.partition_filters@.len() ==> hint.says().3[i] == (
            #[trigger] hint.partition_filters@[i]).test(),
{
}

} // verus!
