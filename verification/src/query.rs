//! Single-column queries: an optional filter compared against a literal,
//! and one aggregate.
use crate::aggregate::{sum_seq, AggKind};
use crate::block::{
    lemma_name_index_bounds, lemma_name_index_prefix, lemma_name_index_step, name_index, Block,
};
use crate::column::{filtered_from, Column};
use crate::mask::{count_true, filter_seq};
use crate::data_type::DataType;
use crate::error::StorageError;
use crate::schema::Schema;
use crate::text::{str_is, string_of};
use crate::value::Value;
use vstd::prelude::*;
use vstd::string::StringSliceAdditionalSpecFns;

verus! {

/// How a filter compares a column with its literal.
#[derive(Debug, Clone, Copy, PartialEq, Eq, Structural)]
pub enum CmpOp {
    Gt,
    Lt,
    Eq,
}

/// A query: an optional filter `(column, comparison, literal)` and the
/// aggregate `(column, kind)`.
#[derive(Debug)]
pub struct SimpleQuery<'a> {
    pub filter: Option<(&'a str, CmpOp, Value)>,
    pub aggregate: (&'a str, AggKind),
}

/// Whether a filter with `op` and `value` can be evaluated on a column of
/// type `dt` here: the types agree, strings are only compared for equality,
/// and floats are compared by the caller.
pub open spec fn predicate_ok(dt: DataType, op: CmpOp, value: Value) -> bool {
    &&& value.dtype() == dt
    &&& dt != DataType::Float64
    &&& dt == DataType::String ==> op == CmpOp::Eq
}

/// How a filter stands against the column it reads: it can be evaluated
/// here, its literal has another type than the column, it orders strings,
/// or it compares floats, which the caller does.
#[derive(Debug, Clone, Copy, PartialEq, Eq, Structural)]
pub enum FilterCheck {
    Evaluable,
    TypeMismatch,
    UnsupportedStringOp,
    FloatCompare,
}

/// How a filter with `op` and `value` stands against a column of type
/// `dt`, the type check coming first.
pub open spec fn filter_check_spec(dt: DataType, op: CmpOp, value: Value) -> FilterCheck {
    if value.dtype() != dt {
        FilterCheck::TypeMismatch
    } else if dt == DataType::String && op != CmpOp::Eq {
        FilterCheck::UnsupportedStringOp
    } else if dt == DataType::Float64 {
        FilterCheck::FloatCompare
    } else {
        FilterCheck::Evaluable
    }
}

/// Checks a filter with `op` and `value` against a column of type `dt`.
pub fn check_filter(dt: DataType, op: CmpOp, value: &Value) -> (r: FilterCheck)
    ensures
        r == filter_check_spec(dt, op, *value),
        r == FilterCheck::Evaluable <==> predicate_ok(dt, op, *value),
{
    let vt = value.data_type();
    if vt != dt {
        FilterCheck::TypeMismatch
    } else if dt == DataType::String && op != CmpOp::Eq {
        FilterCheck::UnsupportedStringOp
    } else if dt == DataType::Float64 {
        FilterCheck::FloatCompare
    } else {
        FilterCheck::Evaluable
    }
}

/// How filters are classified: a literal of another type than the column
/// is a type mismatch; on a string column only `=` can be evaluated; a
/// float filter is left to the caller with every operator; an integer
/// filter is evaluated here with every operator.
pub proof fn lemma_filter_check_cases(dt: DataType, op: CmpOp, value: Value)
    ensures
        value.dtype() != dt ==> filter_check_spec(dt, op, value) == FilterCheck::TypeMismatch,
        value.dtype() == dt && dt == DataType::Float64 ==> filter_check_spec(dt, op, value)
            == FilterCheck::FloatCompare,
        value.dtype() == dt && dt == DataType::Int64 ==> filter_check_spec(dt, op, value)
            == FilterCheck::Evaluable,
        value.dtype() == dt && dt == DataType::String ==> (filter_check_spec(dt, op, value)
            == FilterCheck::Evaluable <==> op == CmpOp::Eq),
        value.dtype() == dt && dt == DataType::String && op != CmpOp::Eq ==> filter_check_spec(
            dt,
            op,
            value,
        ) == FilterCheck::UnsupportedStringOp,
{
}

/// Whether `a` compares to `x` as `op` says.
pub open spec fn int_cmp(op: CmpOp, a: i64, x: i64) -> bool {
    match op {
        CmpOp::Gt => a > x,
        CmpOp::Lt => a < x,
        CmpOp::Eq => a == x,
    }
}

/// Whether row `i` of `col` passes the filter `op value`.
pub open spec fn row_passes(col: Column, op: CmpOp, value: Value, i: int) -> bool {
    match (col, value) {
        (Column::Int64(v), Value::Int64(x)) => int_cmp(op, v@[i], x),
        (Column::String(c), Value::String(x)) => c@[i] == vstd::utf8::encode_utf8(x@),
        _ => false,
    }
}

/// Applies `f` to every element of `v`.
pub fn cmp_loop<T, F: Fn(&T) -> bool>(v: &[T], f: F) -> (r: Vec<bool>)
    requires
        forall|i: int| 0 <= i < v@.len() ==> f.requires((&v@[i],)),
    ensures
        r@.len() == v@.len(),
        forall|i: int| 0 <= i < v@.len() ==> f.ensures((&v@[i],), #[trigger] r@[i]),
{
    let mut r: Vec<bool> = Vec::with_capacity(v.len());
    let mut i: usize = 0;
    while i < v.len()
        invariant
            i <= v@.len(),
            r@.len() == i,
            forall|k: int| 0 <= k < v@.len() ==> f.requires((&v@[k],)),
            forall|k: int| 0 <= k < i ==> f.ensures((&v@[k],), #[trigger] r@[k]),
        decreases v@.len() - i,
    {
        let b = f(&v[i]);
        r.push(b);
        i = i + 1;
    }
    r
}

fn bytes_eq(a: &[u8], b: &[u8]) -> (r: bool)
    ensures
        r == (a@ == b@),
{
    if a.len() != b.len() {
        return false;
    }
    let mut i: usize = 0;
    while i < a.len()
        invariant
            a@.len() == b@.len(),
            i <= a@.len(),
            forall|k: int| 0 <= k < i ==> a@[k] == b@[k],
        decreases a@.len() - i,
    {
        if a[i] != b[i] {
            return false;
        }
        i = i + 1;
    }
    assert(a@ =~= b@);
    true
}

/// The filter mask of `col`: one entry per row, `true` where the row passes
/// `op value`.
pub fn eval_predicate(col: &Column, op: CmpOp, value: &Value) -> (mask: Vec<bool>)
    requires
        col.wf(),
        predicate_ok(col.dtype(), op, *value),
    ensures
        mask@.len() == col.rows(),
        forall|i: int| 0 <= i < mask@.len() ==> #[trigger] mask@[i] == row_passes(*col, op, *value, i),
{
    match (col, value) {
        (Column::Int64(v), Value::Int64(x)) => {
            let x = *x;
            let m = match op {
                CmpOp::Gt => cmp_loop(v.as_slice(), |a: &i64| -> (b: bool) ensures b == (*a > x) { *a > x }),
                CmpOp::Lt => cmp_loop(v.as_slice(), |a: &i64| -> (b: bool) ensures b == (*a < x) { *a < x }),
                CmpOp::Eq => cmp_loop(v.as_slice(), |a: &i64| -> (b: bool) ensures b == (*a == x) { *a == x }),
            };
            m
        },
        (Column::String(c), Value::String(x)) => {
            let xb = x.as_str().as_bytes();
            let n = c.len();
            let mut m: Vec<bool> = Vec::with_capacity(n);
            let mut i: usize = 0;
            while i < n
                invariant
                    c.wf(),
                    n == c@.len(),
                    i <= n,
                    m@.len() == i,
                    xb@ == vstd::utf8::encode_utf8(x@),
                    forall|k: int| 0 <= k < i ==> #[trigger] m@[k] == (c@[k] == xb@),
                decreases n - i,
            {
                m.push(bytes_eq(c.bytes_at(i), xb));
                i = i + 1;
            }
            m
        },
        _ => {
            proof {
                assert(false);
            }
            Vec::new()
        },
    }
}

/// The rows of `col` that pass `op value`.
pub open spec fn passing_rows(col: Column, op: CmpOp, value: Value) -> Seq<bool> {
    Seq::new(col.rows(), |i: int| row_passes(col, op, value, i))
}

/// The column of `block` called `name`; meaningful when there is one.
pub open spec fn named_column(block: Block, name: Seq<char>) -> Column {
    block.cols()[name_index(block.cols(), name).unwrap()].1
}

/// Whether `q` can be evaluated here on `block`: the block has the
/// aggregate column and, with a filter, the filter column, and the filter
/// can be evaluated on it.
pub open spec fn query_applies(block: Block, q: SimpleQuery) -> bool {
    &&& block.wf()
    &&& name_index(block.cols(), q.aggregate.0@) is Some
    &&& match q.filter {
        Some((f, op, v)) => name_index(block.cols(), f@) is Some && predicate_ok(
            named_column(block, f@).dtype(),
            op,
            v,
        ),
        None => true,
    }
}

/// The rows of `block` that `q` aggregates: those that pass the filter, or
/// all of them without one.
pub open spec fn query_mask(block: Block, q: SimpleQuery) -> Seq<bool> {
    match q.filter {
        Some((f, op, v)) => passing_rows(named_column(block, f@), op, v),
        None => Seq::new(block.rows(), |i: int| true),
    }
}

/// The values of an `Int64` column; nothing for other types.
pub open spec fn int_values(c: Column) -> Seq<i64> {
    match c {
        Column::Int64(v) => v@,
        _ => Seq::empty(),
    }
}

/// What a sum over `q` adds up from `block`: the values of the aggregate
/// column on the rows that pass the filter.
pub open spec fn block_sum(block: Block, q: SimpleQuery) -> int {
    sum_seq(filter_seq(int_values(named_column(block, q.aggregate.0@)), query_mask(block, q)))
}

/// How many rows of `block` a count over `q` counts.
pub open spec fn block_count(block: Block, q: SimpleQuery) -> nat {
    count_true(query_mask(block, q))
}

/// The sum over `q` of `blocks`, folded block by block.
pub open spec fn blocks_sum(blocks: Seq<Block>, q: SimpleQuery) -> int
    decreases blocks.len(),
{
    if blocks.len() == 0 {
        0
    } else {
        blocks_sum(blocks.drop_last(), q) + block_sum(blocks.last(), q)
    }
}

/// The count over `q` of `blocks`, folded block by block.
pub open spec fn blocks_count(blocks: Seq<Block>, q: SimpleQuery) -> nat
    decreases blocks.len(),
{
    if blocks.len() == 0 {
        0
    } else {
        blocks_count(blocks.drop_last(), q) + block_count(blocks.last(), q)
    }
}

/// What `q` feeds its aggregate from `block`: the rows of the aggregate
/// column that pass the filter, in order. A count adds its rows, a sum its
/// values.
pub fn aggregate_input(block: &Block, q: &SimpleQuery) -> (r: Column)
    requires
        query_applies(*block, *q),
    ensures
        r.wf(),
        r.rows() == count_true(query_mask(*block, *q)),
        r.rows() == block_count(*block, *q),
        filtered_from(named_column(*block, q.aggregate.0@), query_mask(*block, *q), r),
        r matches Column::Int64(w) ==> sum_seq(w@) == block_sum(*block, *q),
{
    proof {
        lemma_name_index_bounds(block.cols(), q.aggregate.0@);
        let ia = name_index(block.cols(), q.aggregate.0@).unwrap();
        assert(block.cols()[ia].1.wf());
        if let Some((f, _, _)) = q.filter {
            lemma_name_index_bounds(block.cols(), f@);
            let jf = name_index(block.cols(), f@).unwrap();
            assert(block.cols()[jf].1.wf());
        }
    }
    let agg = match block.column(q.aggregate.0) {
        Some(c) => c,
        None => {
            proof {
                assert(false);
            }
            return Column::new(DataType::Int64);
        },
    };
    let mask = match &q.filter {
        Some((f, op, v)) => {
            let fc = match block.column(f) {
                Some(c) => c,
                None => {
                    proof {
                        assert(false);
                    }
                    return Column::new(DataType::Int64);
                },
            };
            let m = eval_predicate(fc, *op, v);
            assert(m@ =~= query_mask(*block, *q));
            m
        },
        None => {
            let n = block.num_rows();
            let mut m: Vec<bool> = Vec::with_capacity(n);
            let mut i: usize = 0;
            while i < n
                invariant
                    i <= n,
                    m@.len() == i,
                    forall|k: int| 0 <= k < i ==> #[trigger] m@[k],
                decreases n - i,
            {
                m.push(true);
                i = i + 1;
            }
            assert(m@ =~= query_mask(*block, *q));
            m
        },
    };
    agg.filter(mask.as_slice())
}

/// The columns a query reads: the aggregate column, then the filter column
/// when it is another one.
pub open spec fn projection_spec(q: SimpleQuery) -> Seq<Seq<char>> {
    match q.filter {
        Some((f, _, _)) => if f@ != q.aggregate.0@ {
            seq![q.aggregate.0@, f@]
        } else {
            seq![q.aggregate.0@]
        },
        None => seq![q.aggregate.0@],
    }
}

/// The columns a query reads: the aggregate column first; with a filter
/// on another column (names compared in full), that column second; with a
/// filter on the aggregate column itself, or none, nothing more. No column
/// is read twice.
pub proof fn lemma_projection_reads_what_the_query_needs(q: SimpleQuery)
    ensures
        projection_spec(q).len() >= 1,
        projection_spec(q)[0] == q.aggregate.0@,
        match q.filter {
            Some((f, _, _)) => projection_spec(q).contains(f@) && if f@ != q.aggregate.0@ {
                projection_spec(q).len() == 2 && projection_spec(q)[1] == f@
            } else {
                projection_spec(q).len() == 1
            },
            None => projection_spec(q).len() == 1,
        },
        forall|i: int, j: int|
            0 <= i < j < projection_spec(q).len() ==> projection_spec(q)[i] != projection_spec(
                q,
            )[j],
{
    if let Some((f, _, _)) = q.filter {
        if f@ != q.aggregate.0@ {
            assert(projection_spec(q)[1] == f@);
        } else {
            assert(projection_spec(q)[0] == f@);
        }
    }
}

/// The columns a query reads.
pub fn projection<'a>(q: &SimpleQuery<'a>) -> (cols: Vec<&'a str>)
    ensures
        cols@.map_values(|c: &str| c@) == projection_spec(*q),
{
    let mut cols: Vec<&'a str> = Vec::new();
    cols.push(q.aggregate.0);
    match &q.filter {
        Some((f, _, _)) => {
            if !str_is(f, q.aggregate.0) {
                cols.push(*f);
            }
        },
        None => {},
    }
    assert(cols@.map_values(|c: &str| c@) =~= projection_spec(*q));
    cols
}

/// The type of the aggregate column, or `ColumnNotFound` when the table
/// has no such column.
pub fn aggregate_column_type(schema: &Schema, q: &SimpleQuery) -> (r: Result<
    DataType,
    StorageError,
>)
    ensures
        match name_index(schema.entries(), q.aggregate.0@) {
            Some(i) => r == Ok::<DataType, StorageError>(schema.entries()[i].1),
            None => r matches Err(StorageError::ColumnNotFound(n)) && n@ == q.aggregate.0@,
        },
{
    let cols = schema.columns();
    let mut i: usize = 0;
    while i < cols.len()
        invariant
            cols@ == schema.entries(),
            i <= cols@.len(),
            name_index(cols@.take(i as int), q.aggregate.0@) is None,
        decreases cols@.len() - i,
    {
        proof {
            lemma_name_index_step(cols@, q.aggregate.0@, i as int);
        }
        if str_is(cols[i].0.as_str(), q.aggregate.0) {
            proof {
                lemma_name_index_step(cols@, q.aggregate.0@, i as int);
                lemma_name_index_prefix(cols@, q.aggregate.0@, i + 1, i as int);
            }
            return Ok(cols[i].1);
        }
        i = i + 1;
    }
    assert(cols@.take(cols@.len() as int) =~= cols@);
    Err(StorageError::ColumnNotFound(string_of(q.aggregate.0)))
}

} // verus!
