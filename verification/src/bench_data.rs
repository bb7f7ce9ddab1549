//! Synthetic data for comparing the column store with a plain row store:
//! rows of an id, a timestamp, a URL and a duration drawn at random, the same
//! rows cut into blocks, and the row store's answers to the compared queries.
use crate::aggregate::{sum_seq, AggKind};
use crate::block::{name_index, Block};
use crate::column::Column;
use crate::data_type::DataType;
use crate::mask::{count_true, filter_seq};
use crate::query::{
    block_count, block_sum, blocks_count, blocks_sum, query_applies, query_mask, CmpOp, SimpleQuery,
};
use crate::string_column::StringColumn;
use crate::text::{decimal, is_digit, lemma_decimal_digits, push_decimal, str_is, string_of};
use crate::value::Value;
use rand::{RngExt, SeedableRng};
use vstd::prelude::*;
use vstd::string::StringSliceAdditionalSpecFns;
use vstd::utf8::{encode_utf8, encode_utf8_decode_utf8, is_ascii_chars, is_ascii_chars_encode_utf8};

verus! {

/// The smaller of `a` and `b`.
pub open spec fn min_len(a: int, b: int) -> int {
    if a < b {
        a
    } else {
        b
    }
}

/// The random number generator the data is drawn from.
#[verifier::external_type_specification]
#[verifier::external_body]
pub struct ExStdRng(rand::rngs::StdRng);

/// `StdRng::seed_from_u64`: a generator seeded from `seed`. Nothing is
/// stated of the values it will give.
#[verifier::external_body]
fn seeded_rng(seed: u64) -> rand::rngs::StdRng {
    rand::rngs::StdRng::seed_from_u64(seed)
}

/// `RngExt::random_range` over `lo..hi`: a value at least `lo` and below
/// `hi`; which one is chance. rand panics on an empty range, so the range
/// must not be empty.
#[verifier::external_body]
fn random_in(rng: &mut rand::rngs::StdRng, lo: i64, hi: i64) -> (r: i64)
    requires
        lo < hi,
    ensures
        lo <= r < hi,
{
    rng.random_range(lo..hi)
}

/// `RngExt::random_range` over `lo..hi` for `i32`: a value at least `lo`
/// and below `hi`; which one is chance. rand panics on an empty range, so
/// the range must not be empty.
#[verifier::external_body]
fn random_in_i32(rng: &mut rand::rngs::StdRng, lo: i32, hi: i32) -> (r: i32)
    requires
        lo < hi,
    ensures
        lo <= r < hi,
{
    rng.random_range(lo..hi)
}

/// One row of the row store.
#[derive(Debug)]
pub struct Row {
    pub id: i64,
    pub ts: i64,
    pub url: String,
    pub dur: i64,
}

/// The row store: rows in insertion order.
#[derive(Debug)]
pub struct RowTable {
    pub rows: Vec<Row>,
}

/// The URL of page `k`.
pub open spec fn url_of(k: int) -> Seq<char> {
    "/page/"@ + decimal(k as nat)
}

/// Whether `r` is a row the generator can give at position `i`: id `i`, a
/// timestamp below one million, one of a thousand URLs and a duration from
/// 1 to 9999.
pub open spec fn row_drawn(r: Row, i: int) -> bool {
    &&& r.id == i as i64
    &&& 0 <= r.ts < 1_000_000
    &&& exists|k: int| 0 <= k < 1000 && r.url@ == #[trigger] url_of(k)
    &&& 1 <= r.dur < 10_000
}

/// The ids of `rows`.
pub open spec fn ids_of(rows: Seq<Row>) -> Seq<i64> {
    rows.map_values(|r: Row| r.id)
}

/// The timestamps of `rows`.
pub open spec fn ts_of(rows: Seq<Row>) -> Seq<i64> {
    rows.map_values(|r: Row| r.ts)
}

/// The durations of `rows`.
pub open spec fn durs_of(rows: Seq<Row>) -> Seq<i64> {
    rows.map_values(|r: Row| r.dur)
}

/// The UTF-8 bytes of the URLs of `rows`.
pub open spec fn urls_of(rows: Seq<Row>) -> Seq<Seq<u8>> {
    rows.map_values(|r: Row| encode_utf8(r.url@))
}

/// Whether block `b` holds exactly `rows`, as the columns `id`, `ts`, `url`
/// and `dur`, in that order.
pub open spec fn block_holds(b: Block, rows: Seq<Row>) -> bool {
    &&& b.wf()
    &&& b.rows() == rows.len()
    &&& b.cols().len() == 4
    &&& b.cols()[0].0@ == "id"@
    &&& b.cols()[0].1 matches Column::Int64(v) && v@ == ids_of(rows)
    &&& b.cols()[1].0@ == "ts"@
    &&& b.cols()[1].1 matches Column::Int64(v) && v@ == ts_of(rows)
    &&& b.cols()[2].0@ == "url"@
    &&& b.cols()[2].1 matches Column::String(c) && c@ == urls_of(rows)
    &&& b.cols()[3].0@ == "dur"@
    &&& b.cols()[3].1 matches Column::Int64(v) && v@ == durs_of(rows)
}

/// The rows of block `j` when `n` rows are cut into blocks of `size`: from
/// `j * size` up to the next multiple of `size`, or `n` if that comes first.
pub open spec fn block_range(j: int, size: int, n: int) -> (int, int) {
    (j * size, if (j + 1) * size < n {
        (j + 1) * size
    } else {
        n
    })
}

/// Whether `blocks` are `rows` cut, in order, into blocks of `size` rows,
/// the last block holding what is left, possibly nothing.
pub open spec fn cut_from(blocks: Seq<Block>, rows: Seq<Row>, size: int) -> bool {
    &&& 0 < size
    &&& blocks.len() == rows.len() as int / size + 1
    &&& forall|j: int|
        0 <= j < blocks.len() ==> block_holds(
            #[trigger] blocks[j],
            rows.subrange(
                block_range(j, size, rows.len() as int).0,
                block_range(j, size, rows.len() as int).1,
            ),
        )
}

proof fn lemma_url_ascii(k: int)
    requires
        0 <= k < 1000,
    ensures
        is_ascii_chars(url_of(k)),
        encode_utf8(url_of(k)).len() == url_of(k).len(),
        url_of(k).len() <= 9,
{
    reveal_strlit("/page/");
    let d = decimal(k as nat);
    lemma_decimal_digits(k as nat);
    if k >= 10 {
        assert(decimal(k as nat).len() == decimal((k / 10) as nat).len() + 1);
        if k / 10 >= 10 {
            assert(decimal((k / 10) as nat).len() == decimal((k / 100) as nat).len() + 1);
            assert(decimal((k / 100) as nat).len() == 1);
        }
    }
    let u = url_of(k);
    assert forall|i: int| 0 <= i < u.len() implies '\0' <= #[trigger] u[i] <= '\u{7f}' by {
        if i >= 6 {
            assert(u[i] == d[i - 6]);
            assert(is_digit(d[i - 6]));
        }
    }
    is_ascii_chars_encode_utf8(u);
}

/// The URL of page `k`, built from its decimal digits.
fn page_url(k: i64) -> (s: String)
    requires
        0 <= k < 1000,
    ensures
        s@ == url_of(k as int),
{
    let mut s = string_of("/page/");
    push_decimal(&mut s, k as u64);
    s
}

/// Draws `n` rows, row `i` with id `i`, from a generator seeded with 42,
/// then cuts them, in order, into blocks of `block_size` rows; the last
/// block holds what is left, possibly nothing. The block size must be
/// positive (the block count is `n / block_size + 1`), and the URLs of one
/// block, at most nine bytes each, must fit a string column.
pub fn generate(n: usize, block_size: usize) -> (r: (Vec<Block>, RowTable))
    requires
        0 < block_size,
        9 * min_len(n as int, block_size as int) <= u32::MAX,
    ensures
        r.1.rows@.len() == n,
        forall|i: int| 0 <= i < n ==> row_drawn(#[trigger] r.1.rows@[i], i),
        cut_from(r.0@, r.1.rows@, block_size as int),
{
    let mut rng = seeded_rng(42);
    let mut rows: Vec<Row> = Vec::with_capacity(n);
    let mut i: usize = 0;
    while i < n
        invariant
            i <= n,
            rows@.len() == i,
            forall|k: int| 0 <= k < i ==> row_drawn(#[trigger] rows@[k], k),
        decreases n - i,
    {
        let id = #[verifier::truncate] (i as i64);
        let ts = random_in(&mut rng, 0, 1_000_000);
        let page = random_in_i32(&mut rng, 0, 1000);
        let url = page_url(page as i64);
        let dur = random_in(&mut rng, 1, 10_000);
        let row = Row { id, ts, url, dur };
        assert(row.url@ == url_of(page as int));
        rows.push(row);
        assert(row_drawn(rows@[i as int], i as int));
        i = i + 1;
    }
    let blocks = cut_into_blocks(rows.as_slice(), block_size);
    (blocks, RowTable { rows })
}

/// The rows of `rows` cut, in order, into blocks of `block_size` rows; the
/// last block holds what is left, possibly nothing.
pub fn cut_into_blocks(rows: &[Row], block_size: usize) -> (blocks: Vec<Block>)
    requires
        0 < block_size,
        9 * min_len(rows@.len() as int, block_size as int) <= u32::MAX,
        forall|i: int| 0 <= i < rows@.len() ==> row_drawn(#[trigger] rows@[i], i),
    ensures
        cut_from(blocks@, rows@, block_size as int),
{
    let n = rows.len();
    let mut blocks: Vec<Block> = Vec::new();
    let mut start: usize = 0;
    let ghost bs = block_size as int;
    assert(blocks@.len() == 0);
    assert(0 * bs == 0) by (nonlinear_arith);
    loop
        invariant
            n == rows@.len(),
            bs == block_size as int,
            0 < block_size,
            9 * min_len(n as int, block_size as int) <= u32::MAX,
            forall|i: int| 0 <= i < rows@.len() ==> row_drawn(#[trigger] rows@[i], i),
            start == blocks@.len() * bs,
            start <= n,
            forall|j: int|
                0 <= j < blocks@.len() ==> block_holds(
                    #[trigger] blocks@[j],
                    rows@.subrange(block_range(j, bs, n as int).0, block_range(j, bs, n as int).1),
                ),
        ensures
            blocks@.len() == n as int / block_size as int + 1,
            forall|j: int|
                0 <= j < blocks@.len() ==> block_holds(
                    #[trigger] blocks@[j],
                    rows@.subrange(block_range(j, bs, n as int).0, block_range(j, bs, n as int).1),
                ),
        decreases n - start,
    {
        let end = if n - start > block_size {
            start + block_size
        } else {
            n
        };
        let ghost j = blocks@.len() as int;
        proof {
            assert((j + 1) * bs == j * bs + bs) by (nonlinear_arith);
            assert(start == j * bs);
            assert(block_range(j, bs, n as int).0 == start as int);
            assert(block_range(j, bs, n as int).1 == end as int);
        }
        let b = block_of_rows(rows, start, end);
        blocks.push(b);
        if end == n && n - start < block_size {
            proof {
                assert(n as int / bs == j) by (nonlinear_arith)
                    requires
                        j * bs <= n,
                        n < j * bs + bs,
                        bs > 0,
                ;
            }
            return blocks;
        }
        start = end;
        proof {
            assert(start == blocks@.len() * bs) by (nonlinear_arith)
                requires
                    start == j * bs + bs,
                    blocks@.len() == j + 1,
            ;
        }
    }
}

/// The block holding `rows[start..end]`.
fn block_of_rows(rows: &[Row], start: usize, end: usize) -> (b: Block)
    requires
        start <= end <= rows@.len(),
        9 * (end - start) <= u32::MAX,
        forall|i: int| 0 <= i < rows@.len() ==> row_drawn(#[trigger] rows@[i], i),
    ensures
        block_holds(b, rows@.subrange(start as int, end as int)),
{
    let count = end - start;
    let mut ids: Vec<i64> = Vec::with_capacity(count);
    let mut ts: Vec<i64> = Vec::with_capacity(count);
    let mut urls = StringColumn::with_capacity(count, 0);
    let mut durs: Vec<i64> = Vec::with_capacity(count);
    let mut i: usize = start;
    while i < end
        invariant
            start <= i <= end <= rows@.len(),
            9 * (end - start) <= u32::MAX,
            forall|k: int| 0 <= k < rows@.len() ==> row_drawn(#[trigger] rows@[k], k),
            ids@ == ids_of(rows@.subrange(start as int, i as int)),
            ts@ == ts_of(rows@.subrange(start as int, i as int)),
            durs@ == durs_of(rows@.subrange(start as int, i as int)),
            urls.wf(),
            urls@ == urls_of(rows@.subrange(start as int, i as int)),
            urls.bytes().len() <= 9 * (i - start),
        decreases end - i,
    {
        let row = &rows[i];
        assert(row_drawn(rows@[i as int], i as int));
        proof {
            let k = choose|k: int| 0 <= k < 1000 && rows@[i as int].url@ == #[trigger] url_of(k);
            lemma_url_ascii(k);
        }
        let ghost before = rows@.subrange(start as int, i as int);
        let ghost after = rows@.subrange(start as int, i + 1);
        assert(after =~= before.push(rows@[i as int]));
        ids.push(row.id);
        ts.push(row.ts);
        durs.push(row.dur);
        urls.push(row.url.as_str());
        assert(ids@ =~= ids_of(after));
        assert(ts@ =~= ts_of(after));
        assert(durs@ =~= durs_of(after));
        assert(urls@ =~= urls_of(after));
        i = i + 1;
    }
    let columns = vec![
        (string_of("id"), Column::Int64(ids)),
        (string_of("ts"), Column::Int64(ts)),
        (string_of("url"), Column::String(urls)),
        (string_of("dur"), Column::Int64(durs)),
    ];
    proof {
        reveal_strlit("id");
        reveal_strlit("ts");
        reveal_strlit("url");
        reveal_strlit("dur");
        assert(columns@[0].0@[0] == 'i' && columns@[1].0@[0] == 't');
        assert(columns@[2].0@[0] == 'u' && columns@[3].0@[0] == 'd');
        assert(crate::helpers::unique_names(columns@));
    }
    Block::new(columns, count)
}

/// The rows whose timestamp is above `x`.
pub open spec fn ts_above(x: i64) -> spec_fn(Row) -> bool {
    |r: Row| r.ts > x
}

/// Every row.
pub open spec fn any_row() -> spec_fn(Row) -> bool {
    |r: Row| true
}

/// The rows whose URL is `url`.
pub open spec fn url_is(url: Seq<char>) -> spec_fn(Row) -> bool {
    |r: Row| r.url@ == url
}

/// The total duration of the rows that `p` selects.
pub open spec fn dur_where(rows: Seq<Row>, p: spec_fn(Row) -> bool) -> int
    decreases rows.len(),
{
    if rows.len() == 0 {
        0
    } else {
        dur_where(rows.drop_last(), p) + if p(rows.last()) {
            rows.last().dur as int
        } else {
            0
        }
    }
}

/// The number of rows that `p` selects.
pub open spec fn count_where(rows: Seq<Row>, p: spec_fn(Row) -> bool) -> nat
    decreases rows.len(),
{
    if rows.len() == 0 {
        0
    } else {
        count_where(rows.drop_last(), p) + if p(rows.last()) {
            1nat
        } else {
            0nat
        }
    }
}

/// The total duration of the rows whose timestamp is above `x`.
pub open spec fn dur_sum_where(rows: Seq<Row>, x: i64) -> int {
    dur_where(rows, ts_above(x))
}

/// The total duration of all rows.
pub open spec fn dur_sum(rows: Seq<Row>) -> int {
    dur_where(rows, any_row())
}

/// The number of rows whose timestamp is above `x`.
pub open spec fn count_ts_gt(rows: Seq<Row>, x: i64) -> nat {
    count_where(rows, ts_above(x))
}

/// The number of rows whose URL is `url`.
pub open spec fn count_url(rows: Seq<Row>, url: Seq<char>) -> nat {
    count_where(rows, url_is(url))
}

/// The total duration of the rows whose timestamp is above `x`; every
/// running total must fit an `i64`.
pub fn sum_dur_where_ts_gt(t: &RowTable, x: i64) -> (r: i64)
    requires
        forall|i: int|
            0 <= i <= t.rows@.len() ==> i64::MIN <= #[trigger] dur_sum_where(t.rows@.take(i), x)
                <= i64::MAX,
    ensures
        r == dur_sum_where(t.rows@, x),
{
    let mut acc: i64 = 0;
    let mut i: usize = 0;
    while i < t.rows.len()
        invariant
            i <= t.rows@.len(),
            acc == dur_sum_where(t.rows@.take(i as int), x),
            forall|k: int|
                0 <= k <= t.rows@.len() ==> i64::MIN <= #[trigger] dur_sum_where(t.rows@.take(k), x)
                    <= i64::MAX,
        decreases t.rows@.len() - i,
    {
        assert(t.rows@.take(i + 1).drop_last() =~= t.rows@.take(i as int));
        assert(dur_sum_where(t.rows@.take(i + 1), x) <= i64::MAX);
        if t.rows[i].ts > x {
            acc = acc + t.rows[i].dur;
        }
        i = i + 1;
    }
    assert(t.rows@.take(t.rows@.len() as int) =~= t.rows@);
    acc
}

/// The number of rows whose timestamp is above `x`, as an `i64`.
pub fn count_where_ts_gt(t: &RowTable, x: i64) -> (r: i64)
    ensures
        r == count_ts_gt(t.rows@, x) as i64,
{
    let mut c: usize = 0;
    let mut i: usize = 0;
    while i < t.rows.len()
        invariant
            i <= t.rows@.len(),
            c == count_ts_gt(t.rows@.take(i as int), x),
            c <= i,
        decreases t.rows@.len() - i,
    {
        assert(t.rows@.take(i + 1).drop_last() =~= t.rows@.take(i as int));
        if t.rows[i].ts > x {
            c = c + 1;
        }
        i = i + 1;
    }
    assert(t.rows@.take(t.rows@.len() as int) =~= t.rows@);
    #[verifier::truncate] (c as i64)
}

/// The number of rows whose URL is `url`, as an `i64`.
pub fn count_where_url_eq(t: &RowTable, url: &str) -> (r: i64)
    ensures
        r == count_url(t.rows@, url@) as i64,
{
    let mut c: usize = 0;
    let mut i: usize = 0;
    while i < t.rows.len()
        invariant
            i <= t.rows@.len(),
            c == count_url(t.rows@.take(i as int), url@),
            c <= i,
        decreases t.rows@.len() - i,
    {
        assert(t.rows@.take(i + 1).drop_last() =~= t.rows@.take(i as int));
        if str_is(t.rows[i].url.as_str(), url) {
            c = c + 1;
        }
        i = i + 1;
    }
    assert(t.rows@.take(t.rows@.len() as int) =~= t.rows@);
    #[verifier::truncate] (c as i64)
}

/// The total duration of all rows; every running total must fit an `i64`.
pub fn sum_dur(t: &RowTable) -> (r: i64)
    requires
        forall|i: int|
            0 <= i <= t.rows@.len() ==> i64::MIN <= #[trigger] dur_sum(t.rows@.take(i)) <= i64::MAX,
    ensures
        r == dur_sum(t.rows@),
{
    let mut acc: i64 = 0;
    let mut i: usize = 0;
    while i < t.rows.len()
        invariant
            i <= t.rows@.len(),
            acc == dur_sum(t.rows@.take(i as int)),
            forall|k: int|
                0 <= k <= t.rows@.len() ==> i64::MIN <= #[trigger] dur_sum(t.rows@.take(k))
                    <= i64::MAX,
        decreases t.rows@.len() - i,
    {
        assert(t.rows@.take(i + 1).drop_last() =~= t.rows@.take(i as int));
        assert(dur_sum(t.rows@.take(i + 1)) <= i64::MAX);
        acc = acc + t.rows[i].dur;
        i = i + 1;
    }
    assert(t.rows@.take(t.rows@.len() as int) =~= t.rows@);
    acc
}


/// The columns of the generated table: `id`, `ts`, `url` and `dur`.
pub fn schema() -> (r: Vec<(String, DataType)>)
    ensures
        r@.len() == 4,
        r@[0].0@ == "id"@ && r@[0].1 == DataType::Int64,
        r@[1].0@ == "ts"@ && r@[1].1 == DataType::Int64,
        r@[2].0@ == "url"@ && r@[2].1 == DataType::String,
        r@[3].0@ == "dur"@ && r@[3].1 == DataType::Int64,
{
    vec![
        (string_of("id"), DataType::Int64),
        (string_of("ts"), DataType::Int64),
        (string_of("url"), DataType::String),
        (string_of("dur"), DataType::Int64),
    ]
}

/// How many values the summing prototype adds up.
pub const SIZE: usize = 100_000_001;

/// The values the summing prototype adds up: 0, 1, 2, ... below `SIZE`.
pub fn generate_data() -> (v: Vec<i64>)
    ensures
        v@.len() == SIZE,
        forall|i: int| 0 <= i < SIZE ==> v@[i] == i,
{
    let size = SIZE;
    let mut v: Vec<i64> = Vec::with_capacity(size);
    let mut i: usize = 0;
    while i < size
        invariant
            i <= size <= i64::MAX,
            v@.len() == i,
            forall|k: int| 0 <= k < i ==> v@[k] == k,
        decreases size - i,
    {
        v.push(i as i64);
        i = i + 1;
    }
    v
}

/// Whether `q` is `sum(dur) WHERE ts > x`.
pub open spec fn is_sum_dur_where_ts_gt(q: SimpleQuery, x: i64) -> bool {
    &&& q.filter matches Some((f, op, v)) && f@ == "ts"@ && op == CmpOp::Gt && v == Value::Int64(x)
    &&& q.aggregate.0@ == "dur"@
    &&& q.aggregate.1 == AggKind::Sum
}

/// Whether `q` is `count(id) WHERE ts > x`.
pub open spec fn is_count_id_where_ts_gt(q: SimpleQuery, x: i64) -> bool {
    &&& q.filter matches Some((f, op, v)) && f@ == "ts"@ && op == CmpOp::Gt && v == Value::Int64(x)
    &&& q.aggregate.0@ == "id"@
    &&& q.aggregate.1 == AggKind::Count
}

/// Whether `q` is `count(id) WHERE url = url`.
pub open spec fn is_count_where_url_eq(q: SimpleQuery, url: Seq<char>) -> bool {
    &&& q.filter matches Some((f, op, Value::String(u))) && f@ == "url"@ && op == CmpOp::Eq && u@
        == url
    &&& q.aggregate.0@ == "id"@
    &&& q.aggregate.1 == AggKind::Count
}

/// Whether `q` is `sum(dur)` without a filter.
pub open spec fn is_sum_dur(q: SimpleQuery) -> bool {
    &&& q.filter is None
    &&& q.aggregate.0@ == "dur"@
    &&& q.aggregate.1 == AggKind::Sum
}

/// The query `sum(dur) WHERE ts > x`.
pub fn sum_dur_where_ts_gt_query(x: i64) -> (q: SimpleQuery<'static>)
    ensures
        is_sum_dur_where_ts_gt(q, x),
{
    SimpleQuery { filter: Some(("ts", CmpOp::Gt, Value::Int64(x))), aggregate: ("dur", AggKind::Sum) }
}

/// The query `count(id) WHERE ts > x`.
pub fn count_id_where_ts_gt_query(x: i64) -> (q: SimpleQuery<'static>)
    ensures
        is_count_id_where_ts_gt(q, x),
{
    SimpleQuery {
        filter: Some(("ts", CmpOp::Gt, Value::Int64(x))),
        aggregate: ("id", AggKind::Count),
    }
}

/// The query `count(id) WHERE url = url`.
pub fn count_where_url_eq_query(url: &str) -> (q: SimpleQuery<'static>)
    ensures
        is_count_where_url_eq(q, url@),
{
    SimpleQuery {
        filter: Some(("url", CmpOp::Eq, Value::String(string_of(url)))),
        aggregate: ("id", AggKind::Count),
    }
}

/// The query `sum(dur)` over all rows.
pub fn sum_dur_query() -> (q: SimpleQuery<'static>)
    ensures
        is_sum_dur(q),
{
    SimpleQuery { filter: None, aggregate: ("dur", AggKind::Sum) }
}

/// Where the four columns of a block that holds rows are found by name.
proof fn lemma_block_layout(b: Block, rows: Seq<Row>)
    requires
        block_holds(b, rows),
    ensures
        name_index(b.cols(), "id"@) == Some(0int),
        name_index(b.cols(), "ts"@) == Some(1int),
        name_index(b.cols(), "url"@) == Some(2int),
        name_index(b.cols(), "dur"@) == Some(3int),
{
    reveal_strlit("id");
    reveal_strlit("ts");
    reveal_strlit("url");
    reveal_strlit("dur");
    reveal_with_fuel(name_index, 5);
}

proof fn lemma_sum_push(s: Seq<i64>, v: i64)
    ensures
        sum_seq(s.push(v)) == sum_seq(s) + v,
{
    assert(s.push(v).drop_last() =~= s);
}

/// Filtering the durations by a row predicate keeps exactly the durations
/// of the rows it selects.
proof fn lemma_filtered_rows(rows: Seq<Row>, p: spec_fn(Row) -> bool)
    ensures
        sum_seq(filter_seq(durs_of(rows), rows.map_values(p))) == dur_where(rows, p),
        count_true(rows.map_values(p)) == count_where(rows, p),
    decreases rows.len(),
{
    if rows.len() > 0 {
        lemma_filtered_rows(rows.drop_last(), p);
        assert(durs_of(rows).drop_last() =~= durs_of(rows.drop_last()));
        assert(rows.map_values(p).drop_last() =~= rows.drop_last().map_values(p));
        lemma_sum_push(
            filter_seq(durs_of(rows.drop_last()), rows.drop_last().map_values(p)),
            rows.last().dur,
        );
    }
}

/// Totals over two runs of rows add up.
proof fn lemma_where_concat(a: Seq<Row>, b: Seq<Row>, p: spec_fn(Row) -> bool)
    ensures
        dur_where(a + b, p) == dur_where(a, p) + dur_where(b, p),
        count_where(a + b, p) == count_where(a, p) + count_where(b, p),
    decreases b.len(),
{
    if b.len() > 0 {
        lemma_where_concat(a, b.drop_last(), p);
        assert((a + b).drop_last() =~= a + b.drop_last());
    } else {
        assert(a + b =~= a);
    }
}

/// The rows of block `j` start where those of block `j - 1` end; the last
/// block ends at the last row.
proof fn lemma_block_ranges(j: int, size: int, n: int)
    requires
        0 < size,
        0 <= n,
        0 <= j <= n / size,
    ensures
        j * size <= n,
        block_range(j, size, n).0 == j * size,
        block_range(j, size, n).1 == if (j + 1) * size < n {
            (j + 1) * size
        } else {
            n
        },
        j * size <= block_range(j, size, n).1 <= n,
        j == n / size ==> n < (j + 1) * size,
{
    assert(j * size <= n && (j == n / size ==> n < (j + 1) * size) && (j + 1) * size == j * size
        + size) by (nonlinear_arith)
        requires
            0 < size,
            0 <= n,
            0 <= j <= n / size,
    ;
}

/// Block by block, the totals over the first `k` blocks are the totals
/// over the rows those blocks hold.
proof fn lemma_prefix_totals(
    blocks: Seq<Block>,
    rows: Seq<Row>,
    size: int,
    q: SimpleQuery,
    p: spec_fn(Row) -> bool,
    sums: bool,
    k: int,
)
    requires
        0 < size,
        blocks.len() == rows.len() as int / size + 1,
        0 <= k <= blocks.len(),
        forall|j: int|
            0 <= j < blocks.len() ==> (sums ==> block_sum(#[trigger] blocks[j], q) == dur_where(
                rows.subrange(
                    block_range(j, size, rows.len() as int).0,
                    block_range(j, size, rows.len() as int).1,
                ),
                p,
            )) && block_count(blocks[j], q) == count_where(
                rows.subrange(
                    block_range(j, size, rows.len() as int).0,
                    block_range(j, size, rows.len() as int).1,
                ),
                p,
            ),
    ensures
        sums ==> blocks_sum(blocks.take(k), q) == dur_where(
            rows.take(
                if k * size < rows.len() {
                    k * size
                } else {
                    rows.len() as int
                },
            ),
            p,
        ),
        blocks_count(blocks.take(k), q) == count_where(
            rows.take(
                if k * size < rows.len() {
                    k * size
                } else {
                    rows.len() as int
                },
            ),
            p,
        ),
    decreases k,
{
    let n = rows.len() as int;
    if k == 0 {
        assert(blocks.take(0) =~= Seq::<Block>::empty());
        assert(rows.take(0) =~= Seq::<Row>::empty());
    } else {
        let j = k - 1;
        lemma_prefix_totals(blocks, rows, size, q, p, sums, j);
        lemma_block_ranges(j, size, n);
        assert(blocks.take(k).drop_last() =~= blocks.take(j));
        assert(blocks.take(k).last() == blocks[j]);
        let lo = block_range(j, size, n).0;
        let hi = block_range(j, size, n).1;
        assert(lo == (if j * size < n {
            j * size
        } else {
            n
        }));
        assert(hi == (if k * size < n {
            k * size
        } else {
            n
        }));
        assert(rows.take(lo) + rows.subrange(lo, hi) =~= rows.take(hi));
        lemma_where_concat(rows.take(lo), rows.subrange(lo, hi), p);
    }
}

/// The totals over all the blocks cut from `rows` are the totals over
/// `rows`, when each block's total is that of the rows it holds.
proof fn lemma_cut_totals(
    blocks: Seq<Block>,
    rows: Seq<Row>,
    size: int,
    q: SimpleQuery,
    p: spec_fn(Row) -> bool,
    sums: bool,
)
    requires
        cut_from(blocks, rows, size),
        forall|j: int|
            0 <= j < blocks.len() ==> (sums ==> block_sum(#[trigger] blocks[j], q) == dur_where(
                rows.subrange(
                    block_range(j, size, rows.len() as int).0,
                    block_range(j, size, rows.len() as int).1,
                ),
                p,
            )) && block_count(blocks[j], q) == count_where(
                rows.subrange(
                    block_range(j, size, rows.len() as int).0,
                    block_range(j, size, rows.len() as int).1,
                ),
                p,
            ),
    ensures
        sums ==> blocks_sum(blocks, q) == dur_where(rows, p),
        blocks_count(blocks, q) == count_where(rows, p),
{
    let n = rows.len() as int;
    let k = blocks.len() as int;
    lemma_prefix_totals(blocks, rows, size, q, p, sums, k);
    lemma_block_ranges(k - 1, size, n);
    assert(blocks.take(k) =~= blocks);
    assert(rows.take(n) =~= rows);
}

/// On a block that holds `rows`, a query whose filter mask selects the
/// rows that `p` selects sums the durations and counts the rows that `p`
/// selects.
proof fn lemma_block_totals(b: Block, rows: Seq<Row>, q: SimpleQuery, p: spec_fn(Row) -> bool)
    requires
        block_holds(b, rows),
        q.aggregate.0@ == "dur"@ || q.aggregate.0@ == "id"@,
        query_mask(b, q) == rows.map_values(p),
    ensures
        q.aggregate.0@ == "dur"@ ==> block_sum(b, q) == dur_where(rows, p),
        block_count(b, q) == count_where(rows, p),
{
    lemma_block_layout(b, rows);
    lemma_filtered_rows(rows, p);
}

/// What the filter `ts > x` selects on a block that holds `rows`.
proof fn lemma_ts_mask(b: Block, rows: Seq<Row>, q: SimpleQuery, x: i64)
    requires
        block_holds(b, rows),
        q.filter matches Some((f, op, v)) && f@ == "ts"@ && op == CmpOp::Gt && v == Value::Int64(x),
        q.aggregate.0@ == "dur"@ || q.aggregate.0@ == "id"@,
    ensures
        query_applies(b, q),
        query_mask(b, q) == rows.map_values(ts_above(x)),
{
    lemma_block_layout(b, rows);
    assert(query_mask(b, q) =~= rows.map_values(ts_above(x)));
}

/// What the filter `url = url` selects on a block that holds `rows`: URLs
/// are compared by their UTF-8 bytes, which differ for different URLs.
proof fn lemma_url_mask(b: Block, rows: Seq<Row>, q: SimpleQuery, url: Seq<char>)
    requires
        block_holds(b, rows),
        is_count_where_url_eq(q, url),
    ensures
        query_applies(b, q),
        query_mask(b, q) == rows.map_values(url_is(url)),
{
    lemma_block_layout(b, rows);
    assert forall|i: int| 0 <= i < rows.len() implies #[trigger] query_mask(b, q)[i]
        == rows.map_values(url_is(url))[i] by {
        let r = rows[i];
        encode_utf8_decode_utf8(r.url@);
        encode_utf8_decode_utf8(url);
    }
    assert(query_mask(b, q) =~= rows.map_values(url_is(url)));
}

/// Cut into blocks as `generate` cuts them, the column store's
/// `sum(dur) WHERE ts > x` (the filtered durations of each block, summed
/// block by block) is the row store's `sum_dur_where_ts_gt`.
pub proof fn lemma_sum_where_agrees(
    blocks: Seq<Block>,
    rows: Seq<Row>,
    size: int,
    q: SimpleQuery,
    x: i64,
)
    requires
        cut_from(blocks, rows, size),
        is_sum_dur_where_ts_gt(q, x),
    ensures
        forall|j: int| 0 <= j < blocks.len() ==> query_applies(#[trigger] blocks[j], q),
        blocks_sum(blocks, q) == dur_sum_where(rows, x),
{
    let n = rows.len() as int;
    assert forall|j: int| 0 <= j < blocks.len() implies query_applies(#[trigger] blocks[j], q)
        && block_sum(blocks[j], q) == dur_where(
        rows.subrange(block_range(j, size, n).0, block_range(j, size, n).1),
        ts_above(x),
    ) && block_count(blocks[j], q) == count_where(
        rows.subrange(block_range(j, size, n).0, block_range(j, size, n).1),
        ts_above(x),
    ) by {
        let sub = rows.subrange(block_range(j, size, n).0, block_range(j, size, n).1);
        lemma_ts_mask(blocks[j], sub, q, x);
        lemma_block_totals(blocks[j], sub, q, ts_above(x));
    }
    lemma_cut_totals(blocks, rows, size, q, ts_above(x), true);
}

/// Cut into blocks as `generate` cuts them, the column store's
/// `count(id) WHERE ts > x` is the row store's `count_where_ts_gt`.
pub proof fn lemma_count_where_agrees(
    blocks: Seq<Block>,
    rows: Seq<Row>,
    size: int,
    q: SimpleQuery,
    x: i64,
)
    requires
        cut_from(blocks, rows, size),
        is_count_id_where_ts_gt(q, x),
    ensures
        forall|j: int| 0 <= j < blocks.len() ==> query_applies(#[trigger] blocks[j], q),
        blocks_count(blocks, q) == count_ts_gt(rows, x),
{
    let n = rows.len() as int;
    assert forall|j: int| 0 <= j < blocks.len() implies query_applies(#[trigger] blocks[j], q)
        && block_count(blocks[j], q) == count_where(
        rows.subrange(block_range(j, size, n).0, block_range(j, size, n).1),
        ts_above(x),
    ) by {
        let sub = rows.subrange(block_range(j, size, n).0, block_range(j, size, n).1);
        lemma_ts_mask(blocks[j], sub, q, x);
        lemma_block_totals(blocks[j], sub, q, ts_above(x));
    }
    lemma_cut_totals(blocks, rows, size, q, ts_above(x), false);
}

/// Cut into blocks as `generate` cuts them, the column store's
/// `count(id) WHERE url = url` is the row store's `count_where_url_eq`.
pub proof fn lemma_count_url_agrees(
    blocks: Seq<Block>,
    rows: Seq<Row>,
    size: int,
    q: SimpleQuery,
    url: Seq<char>,
)
    requires
        cut_from(blocks, rows, size),
        is_count_where_url_eq(q, url),
    ensures
        forall|j: int| 0 <= j < blocks.len() ==> query_applies(#[trigger] blocks[j], q),
        blocks_count(blocks, q) == count_url(rows, url),
{
    let n = rows.len() as int;
    assert forall|j: int| 0 <= j < blocks.len() implies query_applies(#[trigger] blocks[j], q)
        && block_count(blocks[j], q) == count_where(
        rows.subrange(block_range(j, size, n).0, block_range(j, size, n).1),
        url_is(url),
    ) by {
        let sub = rows.subrange(block_range(j, size, n).0, block_range(j, size, n).1);
        lemma_url_mask(blocks[j], sub, q, url);
        lemma_block_totals(blocks[j], sub, q, url_is(url));
    }
    lemma_cut_totals(blocks, rows, size, q, url_is(url), false);
}

/// Cut into blocks as `generate` cuts them, the column store's `sum(dur)`
/// is the row store's `sum_dur`.
pub proof fn lemma_sum_agrees(blocks: Seq<Block>, rows: Seq<Row>, size: int, q: SimpleQuery)
    requires
        cut_from(blocks, rows, size),
        is_sum_dur(q),
    ensures
        forall|j: int| 0 <= j < blocks.len() ==> query_applies(#[trigger] blocks[j], q),
        blocks_sum(blocks, q) == dur_sum(rows),
{
    let n = rows.len() as int;
    assert forall|j: int| 0 <= j < blocks.len() implies query_applies(#[trigger] blocks[j], q)
        && block_sum(blocks[j], q) == dur_where(
        rows.subrange(block_range(j, size, n).0, block_range(j, size, n).1),
        any_row(),
    ) && block_count(blocks[j], q) == count_where(
        rows.subrange(block_range(j, size, n).0, block_range(j, size, n).1),
        any_row(),
    ) by {
        let sub = rows.subrange(block_range(j, size, n).0, block_range(j, size, n).1);
        lemma_block_layout(blocks[j], sub);
        assert(query_mask(blocks[j], q) =~= sub.map_values(any_row()));
        lemma_block_totals(blocks[j], sub, q, any_row());
    }
    lemma_cut_totals(blocks, rows, size, q, any_row(), true);
}

} // verus!
