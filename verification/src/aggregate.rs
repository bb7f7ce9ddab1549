//! Aggregates over integer columns and row counts, folded block by block.
use crate::column::Column;
use crate::data_type::DataType;
use crate::value::Value;
use vstd::prelude::*;

verus! {

/// The aggregate a query computes.
#[derive(Debug, Clone, Copy, PartialEq, Eq, Structural)]
pub enum AggKind {
    Count,
    Sum,
    Min,
    Max,
}

/// The aggregator a query needs, by kind and column type.
#[derive(Debug, Clone, Copy, PartialEq, Eq, Structural)]
pub enum AggPlan {
    Count,
    SumI64,
    SumF64,
    MinI64,
    MinF64,
    MaxI64,
    MaxF64,
}

/// Whether `kind` is defined over columns of type `dt`: every kind over
/// numbers, only `Count` over strings.
pub open spec fn agg_defined(kind: AggKind, dt: DataType) -> bool {
    dt != DataType::String || kind == AggKind::Count
}

/// The aggregator for `kind` over a column of type `dt`.
pub open spec fn plan_spec(kind: AggKind, dt: DataType) -> AggPlan {
    match (kind, dt) {
        (AggKind::Count, _) => AggPlan::Count,
        (AggKind::Sum, DataType::Float64) => AggPlan::SumF64,
        (AggKind::Sum, _) => AggPlan::SumI64,
        (AggKind::Min, DataType::Float64) => AggPlan::MinF64,
        (AggKind::Min, _) => AggPlan::MinI64,
        (AggKind::Max, DataType::Float64) => AggPlan::MaxF64,
        (AggKind::Max, _) => AggPlan::MaxI64,
    }
}

/// Chooses the aggregator for `kind` over a column of type `dt`. Sum, min
/// and max are not defined over strings.
pub fn plan_aggregate(kind: AggKind, dt: DataType) -> (p: AggPlan)
    requires
        agg_defined(kind, dt),
    ensures
        p == plan_spec(kind, dt),
{
    match (kind, dt) {
        (AggKind::Count, _) => AggPlan::Count,
        (AggKind::Sum, DataType::Int64) => AggPlan::SumI64,
        (AggKind::Sum, _) => AggPlan::SumF64,
        (AggKind::Min, DataType::Int64) => AggPlan::MinI64,
        (AggKind::Min, _) => AggPlan::MinF64,
        (AggKind::Max, DataType::Int64) => AggPlan::MaxI64,
        (AggKind::Max, _) => AggPlan::MaxF64,
    }
}

/// Counts rows.
#[derive(Debug, Clone, PartialEq, Default)]
pub struct Count {
    count: usize,
}

impl Count {
    /// The rows counted so far.
    pub closed spec fn total(self) -> nat {
        self.count as nat
    }

    /// A count of zero.
    pub fn new() -> (c: Count)
        ensures
            c.total() == 0,
    {
        Count { count: 0 }
    }

    /// The rows counted so far.
    pub fn count(&self) -> (n: usize)
        ensures
            n == self.total(),
    {
        self.count
    }

    /// Adds the rows of `col`, of any type.
    pub fn update(&mut self, col: &Column)
        requires
            col.wf(),
            old(self).total() + col.rows() <= usize::MAX,
        ensures
            final(self).total() == old(self).total() + col.rows(),
    {
        self.count = self.count + col.len();
    }

    /// The count as an `Int64` value.
    pub fn result(&self) -> (r: Option<Value>)
        requires
            self.total() <= i64::MAX,
        ensures
            r == Some(Value::Int64(self.total() as i64)),
    {
        Some(Value::Int64(self.count as i64))
    }
}

/// The sum of a run of values.
pub open spec fn sum_seq(s: Seq<i64>) -> int
    decreases s.len(),
{
    if s.len() == 0 {
        0
    } else {
        sum_seq(s.drop_last()) + s.last()
    }
}

/// Whether every partial sum of `s`, started at `start`, fits an `i64`.
pub open spec fn sums_fit(start: int, s: Seq<i64>) -> bool {
    forall|k: int| 0 <= k <= s.len() ==> i64::MIN <= start + sum_seq(#[trigger] s.take(k)) <= i64::MAX
}

/// Sums an `Int64` column.
#[derive(Debug, Clone, Default)]
pub struct SumI64 {
    sum: i64,
}

impl SumI64 {
    /// The sum so far.
    pub closed spec fn total(self) -> int {
        self.sum as int
    }

    /// A sum of zero.
    pub fn new() -> (s: SumI64)
        ensures
            s.total() == 0,
    {
        SumI64 { sum: 0 }
    }

    /// Adds the values of an `Int64` column, value by value. If a partial
    /// sum leaves the `i64` range the sum is left unchanged and `false`
    /// comes back: an overflowing sum is reported to the caller, which
    /// decides what to do with it, rather than ending the program here.
    /// Successive updates fold as `lemma_sum_updates_fold` states.
    pub fn update(&mut self, col: &Column) -> (ok: bool)
        requires
            *col is Int64,
        ensures
            col matches Column::Int64(v) && ok == sums_fit(old(self).total(), v@),
            ok ==> (col matches Column::Int64(v) && final(self).total() == old(self).total()
                + sum_seq(v@)),
            !ok ==> final(self).total() == old(self).total(),
    {
        let v = match col {
            Column::Int64(v) => v,
            _ => {
                return false;
            },
        };
        let mut acc: i64 = self.sum;
        let mut i: usize = 0;
        while i < v.len()
            invariant
                i <= v@.len(),
                self.sum == old(self).sum,
                col matches Column::Int64(w) && w@ == v@,
                acc as int == self.sum as int + sum_seq(v@.take(i as int)),
                forall|k: int|
                    0 <= k <= i ==> i64::MIN <= self.sum + sum_seq(#[trigger] v@.take(k))
                        <= i64::MAX,
            decreases v@.len() - i,
        {
            assert(v@.take(i + 1).drop_last() =~= v@.take(i as int));
            match acc.checked_add(v[i]) {
                Some(a) => {
                    acc = a;
                },
                None => {
                    assert(!sums_fit(self.sum as int, v@)) by {
                        assert(!(i64::MIN <= self.sum + sum_seq(v@.take(i + 1)) <= i64::MAX));
                    }
                    return false;
                },
            }
            i = i + 1;
        }
        assert(v@.take(v@.len() as int) =~= v@);
        self.sum = acc;
        true
    }

    /// The sum as an `Int64` value.
    pub fn result(&self) -> (r: Option<Value>)
        ensures
            r == Some(Value::Int64(self.total() as i64)),
    {
        Some(Value::Int64(self.sum))
    }
}

/// The smallest of a run of values, if any.
pub open spec fn min_seq(s: Seq<i64>) -> Option<i64>
    decreases s.len(),
{
    if s.len() == 0 {
        None
    } else {
        match min_seq(s.drop_last()) {
            None => Some(s.last()),
            Some(m) => Some(if m <= s.last() {
                m
            } else {
                s.last()
            }),
        }
    }
}

/// The largest of a run of values, if any.
pub open spec fn max_seq(s: Seq<i64>) -> Option<i64>
    decreases s.len(),
{
    if s.len() == 0 {
        None
    } else {
        match max_seq(s.drop_last()) {
            None => Some(s.last()),
            Some(m) => Some(if m >= s.last() {
                m
            } else {
                s.last()
            }),
        }
    }
}

/// The smaller of two optional values; nothing only when both are
/// missing.
pub open spec fn min_opt(a: Option<i64>, b: Option<i64>) -> Option<i64> {
    match (a, b) {
        (None, m) => m,
        (m, None) => m,
        (Some(x), Some(y)) => Some(if x <= y {
            x
        } else {
            y
        }),
    }
}

/// The larger of two optional values; nothing only when both are missing.
pub open spec fn max_opt(a: Option<i64>, b: Option<i64>) -> Option<i64> {
    match (a, b) {
        (None, m) => m,
        (m, None) => m,
        (Some(x), Some(y)) => Some(if x >= y {
            x
        } else {
            y
        }),
    }
}

fn block_min(v: &[i64]) -> (m: Option<i64>)
    ensures
        m == min_seq(v@),
{
    let mut m: Option<i64> = None;
    let mut i: usize = 0;
    while i < v.len()
        invariant
            i <= v@.len(),
            m == min_seq(v@.take(i as int)),
        decreases v@.len() - i,
    {
        assert(v@.take(i + 1).drop_last() =~= v@.take(i as int));
        m = match m {
            None => Some(v[i]),
            Some(x) => Some(if x <= v[i] {
                x
            } else {
                v[i]
            }),
        };
        i = i + 1;
    }
    assert(v@.take(v@.len() as int) =~= v@);
    m
}

fn block_max(v: &[i64]) -> (m: Option<i64>)
    ensures
        m == max_seq(v@),
{
    let mut m: Option<i64> = None;
    let mut i: usize = 0;
    while i < v.len()
        invariant
            i <= v@.len(),
            m == max_seq(v@.take(i as int)),
        decreases v@.len() - i,
    {
        assert(v@.take(i + 1).drop_last() =~= v@.take(i as int));
        m = match m {
            None => Some(v[i]),
            Some(x) => Some(if x >= v[i] {
                x
            } else {
                v[i]
            }),
        };
        i = i + 1;
    }
    assert(v@.take(v@.len() as int) =~= v@);
    m
}

/// The smallest value of an `Int64` column.
#[derive(Debug, Clone, Default)]
pub struct MinI64 {
    min: Option<i64>,
}

impl MinI64 {
    /// The smallest value so far.
    pub closed spec fn current(self) -> Option<i64> {
        self.min
    }

    /// No value yet.
    pub fn new() -> (m: MinI64)
        ensures
            m.current() is None,
    {
        MinI64 { min: None }
    }

    /// Takes in the values of an `Int64` column.
    pub fn update(&mut self, col: &Column)
        requires
            *col is Int64,
        ensures
            col matches Column::Int64(v) && final(self).current() == min_opt(
                old(self).current(),
                min_seq(v@),
            ),
    {
        match col {
            Column::Int64(v) => {
                let block = block_min(v.as_slice());
                self.min = match (self.min, block) {
                    (None, m) => m,
                    (m, None) => m,
                    (Some(a), Some(b)) => Some(if a <= b {
                        a
                    } else {
                        b
                    }),
                };
            },
            _ => {},
        }
    }

    /// The smallest value, if any value was seen.
    pub fn result(&self) -> (r: Option<Value>)
        ensures
            match self.current() {
                None => r is None,
                Some(m) => r == Some(Value::Int64(m)),
            },
    {
        match self.min {
            None => None,
            Some(m) => Some(Value::Int64(m)),
        }
    }
}

/// The largest value of an `Int64` column.
#[derive(Debug, Clone, Default)]
pub struct MaxI64 {
    max: Option<i64>,
}

impl MaxI64 {
    /// The largest value so far.
    pub closed spec fn current(self) -> Option<i64> {
        self.max
    }

    /// No value yet.
    pub fn new() -> (m: MaxI64)
        ensures
            m.current() is None,
    {
        MaxI64 { max: None }
    }

    /// Takes in the values of an `Int64` column.
    pub fn update(&mut self, col: &Column)
        requires
            *col is Int64,
        ensures
            col matches Column::Int64(v) && final(self).current() == max_opt(
                old(self).current(),
                max_seq(v@),
            ),
    {
        match col {
            Column::Int64(v) => {
                let block = block_max(v.as_slice());
                self.max = match (self.max, block) {
                    (None, m) => m,
                    (m, None) => m,
                    (Some(a), Some(b)) => Some(if a >= b {
                        a
                    } else {
                        b
                    }),
                };
            },
            _ => {},
        }
    }

    /// The largest value, if any value was seen.
    pub fn result(&self) -> (r: Option<Value>)
        ensures
            match self.current() {
                None => r is None,
                Some(m) => r == Some(Value::Int64(m)),
            },
    {
        match self.max {
            None => None,
            Some(m) => Some(Value::Int64(m)),
        }
    }
}

/// Folding two runs one after the other gives the sum of their
/// concatenation: a sum aggregated block by block is the sum of all rows.
pub proof fn lemma_sum_concat(a: Seq<i64>, b: Seq<i64>)
    ensures
        sum_seq(a + b) == sum_seq(a) + sum_seq(b),
    decreases b.len(),
{
    if b.len() > 0 {
        lemma_sum_concat(a, b.drop_last());
        assert((a + b).drop_last() =~= a + b.drop_last());
    } else {
        assert(a + b =~= a);
    }
}

/// Successive sums: adding `a` and then `b` to `start` keeps every partial
/// sum in the `i64` range exactly when adding `a + b` does, and the total
/// is then `start` plus the sum of all values. So updates with the columns
/// `a` and then `b` both succeed exactly when one update with `a + b`
/// would, and leave the same total.
pub proof fn lemma_sum_updates_fold(start: int, a: Seq<i64>, b: Seq<i64>)
    ensures
        sums_fit(start, a + b) <==> (sums_fit(start, a) && sums_fit(start + sum_seq(a), b)),
        start + sum_seq(a + b) == (start + sum_seq(a)) + sum_seq(b),
{
    lemma_sum_concat(a, b);
    let ab = a + b;
    assert forall|k: int| 0 <= k <= a.len() implies #[trigger] ab.take(k) == a.take(k) by {
        assert(ab.take(k) =~= a.take(k));
    }
    assert forall|k: int| 0 <= k <= b.len() implies sum_seq(#[trigger] ab.take(a.len() + k))
        == sum_seq(a) + sum_seq(b.take(k)) by {
        assert(ab.take(a.len() + k) =~= a + b.take(k));
        lemma_sum_concat(a, b.take(k));
    }
    if sums_fit(start, ab) {
        assert forall|k: int| 0 <= k <= a.len() implies i64::MIN <= start + sum_seq(
            #[trigger] a.take(k),
        ) <= i64::MAX by {
            assert(ab.take(k) == a.take(k));
        }
        assert forall|k: int| 0 <= k <= b.len() implies i64::MIN <= start + sum_seq(a) + sum_seq(
            #[trigger] b.take(k),
        ) <= i64::MAX by {
            assert(sum_seq(ab.take(a.len() + k)) == sum_seq(a) + sum_seq(b.take(k)));
        }
    }
    if sums_fit(start, a) && sums_fit(start + sum_seq(a), b) {
        assert forall|k: int| 0 <= k <= ab.len() implies i64::MIN <= start + sum_seq(
            #[trigger] ab.take(k),
        ) <= i64::MAX by {
            if k <= a.len() {
                assert(ab.take(k) == a.take(k));
            } else {
                let j = k - a.len();
                assert(sum_seq(ab.take(a.len() + j)) == sum_seq(a) + sum_seq(b.take(j)));
                assert(start + sum_seq(a) + sum_seq(b.take(j)) <= i64::MAX);
            }
        }
    }
}

/// The minimum taken block by block is the minimum of all rows.
pub proof fn lemma_min_concat(a: Seq<i64>, b: Seq<i64>)
    ensures
        min_seq(a + b) == min_opt(min_seq(a), min_seq(b)),
    decreases b.len(),
{
    if b.len() > 0 {
        lemma_min_concat(a, b.drop_last());
        assert((a + b).drop_last() =~= a + b.drop_last());
    } else {
        assert(a + b =~= a);
    }
}

/// The maximum taken block by block is the maximum of all rows.
pub proof fn lemma_max_concat(a: Seq<i64>, b: Seq<i64>)
    ensures
        max_seq(a + b) == max_opt(max_seq(a), max_seq(b)),
    decreases b.len(),
{
    if b.len() > 0 {
        lemma_max_concat(a, b.drop_last());
        assert((a + b).drop_last() =~= a + b.drop_last());
    } else {
        assert(a + b =~= a);
    }
}

/// The minimum of a run of values is one of them and at most every one of
/// them, zero and negative values included; there is none only for an
/// empty run.
pub proof fn lemma_min_is_least(s: Seq<i64>)
    ensures
        s.len() == 0 <==> min_seq(s) is None,
        min_seq(s) matches Some(m) ==> s.contains(m) && forall|i: int|
            0 <= i < s.len() ==> m <= #[trigger] s[i],
    decreases s.len(),
{
    if s.len() > 0 {
        let t = s.drop_last();
        lemma_min_is_least(t);
        if let Some(m) = min_seq(t) {
            let k = choose|k: int| 0 <= k < t.len() && t[k] == m;
            assert(s[k] == m);
        }
        assert(s[s.len() - 1] == s.last());
        assert forall|i: int| 0 <= i < s.len() - 1 implies s[i] == t[i] by {}
    }
}

/// The maximum of a run of values is one of them and at least every one
/// of them; there is none only for an empty run.
pub proof fn lemma_max_is_greatest(s: Seq<i64>)
    ensures
        s.len() == 0 <==> max_seq(s) is None,
        max_seq(s) matches Some(m) ==> s.contains(m) && forall|i: int|
            0 <= i < s.len() ==> m >= #[trigger] s[i],
    decreases s.len(),
{
    if s.len() > 0 {
        let t = s.drop_last();
        lemma_max_is_greatest(t);
        if let Some(m) = max_seq(t) {
            let k = choose|k: int| 0 <= k < t.len() && t[k] == m;
            assert(s[k] == m);
        }
        assert(s[s.len() - 1] == s.last());
        assert forall|i: int| 0 <= i < s.len() - 1 implies s[i] == t[i] by {}
    }
}

/// Combining two partial minimums: there is none only when both are
/// missing, and otherwise the result is one of those present and at most
/// each of them. Likewise for maximums, at least each of them.
pub proof fn lemma_min_max_opt(a: Option<i64>, b: Option<i64>)
    ensures
        min_opt(a, b) is None <==> a is None && b is None,
        min_opt(a, b) matches Some(m) ==> (a == Some(m) || b == Some(m)) && (a matches Some(x)
            ==> m <= x) && (b matches Some(y) ==> m <= y),
        max_opt(a, b) is None <==> a is None && b is None,
        max_opt(a, b) matches Some(m) ==> (a == Some(m) || b == Some(m)) && (a matches Some(x)
            ==> m >= x) && (b matches Some(y) ==> m >= y),
{
}

/// The aggregate kind an aggregator computes.
pub open spec fn plan_kind(p: AggPlan) -> AggKind {
    match p {
        AggPlan::Count => AggKind::Count,
        AggPlan::SumI64 | AggPlan::SumF64 => AggKind::Sum,
        AggPlan::MinI64 | AggPlan::MinF64 => AggKind::Min,
        AggPlan::MaxI64 | AggPlan::MaxF64 => AggKind::Max,
    }
}

/// Whether an aggregator works on floats.
pub open spec fn plan_on_floats(p: AggPlan) -> bool {
    p == AggPlan::SumF64 || p == AggPlan::MinF64 || p == AggPlan::MaxF64
}

/// The aggregator planned for a kind computes that kind: a count is a
/// count over every column type, and the other kinds are computed on
/// floats exactly when the column holds floats.
pub proof fn lemma_plan_computes_kind(kind: AggKind, dt: DataType)
    requires
        agg_defined(kind, dt),
    ensures
        plan_kind(plan_spec(kind, dt)) == kind,
        kind == AggKind::Count ==> plan_spec(kind, dt) == AggPlan::Count,
        kind != AggKind::Count ==> (plan_on_floats(plan_spec(kind, dt)) <==> dt
            == DataType::Float64),
{
}

} // verus!
