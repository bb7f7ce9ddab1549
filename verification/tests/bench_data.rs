use minihouse::aggregate::AggKind;
use minihouse::bench_data::{
    count_id_where_ts_gt_query, count_where_ts_gt, count_where_url_eq, count_where_url_eq_query,
    cut_into_blocks, generate, sum_dur, sum_dur_query, sum_dur_where_ts_gt,
    sum_dur_where_ts_gt_query, Row, RowTable,
};
use minihouse::query::CmpOp;
use minihouse::value::Value;
use minihouse::codec::Codec;
use minihouse::column::Column;
use minihouse::part_reader::PartReader;
use minihouse::part_writer::PartWriter;
use minihouse::data_type::DataType;

fn ints(block: &minihouse::block::Block, name: &str) -> Vec<i64> {
    match block.column(name) {
        Some(Column::Int64(v)) => v.clone(),
        other => panic!("column {name}: {other:?}"),
    }
}

#[test]
fn generated_rows_are_numbered_and_within_their_ranges() {
    let (_, rows) = generate(500, 64);
    assert_eq!(rows.rows.len(), 500);
    for (i, r) in rows.rows.iter().enumerate() {
        assert_eq!(r.id, i as i64);
        assert!((0..1_000_000).contains(&r.ts));
        assert!((1..10_000).contains(&r.dur));
        let page: u32 = r.url.strip_prefix("/page/").unwrap().parse().unwrap();
        assert!(page < 1000);
        assert_eq!(r.url, format!("/page/{page}"));
    }
}

#[test]
fn generated_blocks_cut_the_rows_in_order() {
    let (blocks, rows) = generate(100, 32);
    assert_eq!(blocks.len(), 100 / 32 + 1);
    let sizes: Vec<usize> = blocks.iter().map(|b| b.num_rows()).collect();
    assert_eq!(sizes, vec![32, 32, 32, 4]);
    let ids: Vec<i64> = blocks.iter().flat_map(|b| ints(b, "id")).collect();
    let durs: Vec<i64> = blocks.iter().flat_map(|b| ints(b, "dur")).collect();
    assert_eq!(ids, rows.rows.iter().map(|r| r.id).collect::<Vec<_>>());
    assert_eq!(durs, rows.rows.iter().map(|r| r.dur).collect::<Vec<_>>());
}

#[test]
fn an_exact_multiple_of_the_block_size_ends_with_an_empty_block() {
    let (blocks, _) = generate(64, 32);
    let sizes: Vec<usize> = blocks.iter().map(|b| b.num_rows()).collect();
    assert_eq!(sizes, vec![32, 32, 0]);
}

#[test]
fn the_same_seed_gives_the_same_rows() {
    let (_, a) = generate(50, 8);
    let (_, b) = generate(50, 8);
    let key = |t: &RowTable| -> Vec<(i64, i64, String, i64)> {
        t.rows.iter().map(|r| (r.id, r.ts, r.url.clone(), r.dur)).collect()
    };
    assert_eq!(key(&a), key(&b));
}

fn row(id: i64, ts: i64, url: &str, dur: i64) -> Row {
    Row {
        id,
        ts,
        url: url.to_string(),
        dur,
    }
}

#[test]
fn the_row_store_answers_the_compared_queries() {
    let t = RowTable {
        rows: vec![
            row(0, 10, "/page/1", 5),
            row(1, 20, "/page/2", 7),
            row(2, 30, "/page/1", 11),
        ],
    };
    assert_eq!(sum_dur_where_ts_gt(&t, 15), 18);
    assert_eq!(sum_dur_where_ts_gt(&t, 30), 0);
    assert_eq!(count_where_ts_gt(&t, 15), 2);
    assert_eq!(count_where_url_eq(&t, "/page/1"), 2);
    assert_eq!(count_where_url_eq(&t, "/page/3"), 0);
    assert_eq!(sum_dur(&t), 23);
}

#[test]
fn cut_into_blocks_of_no_rows_is_one_empty_block() {
    let blocks = cut_into_blocks(&[], 10);
    assert_eq!(blocks.len(), 1);
    assert_eq!(blocks[0].num_rows(), 0);
}

#[test]
fn the_column_store_agrees_with_the_row_store() {
    let (blocks, rows) = generate(3000, 512);
    let schema = vec![
        ("id".to_string(), DataType::Int64),
        ("ts".to_string(), DataType::Int64),
        ("url".to_string(), DataType::String),
        ("dur".to_string(), DataType::Int64),
    ];
    let mut writer = PartWriter::new(&schema, Codec::Lz4);
    for b in &blocks {
        writer.write_block(b);
    }
    let text = writer.schema_text();
    let files = writer.files();
    let mut reader = PartReader::open(&text, &["ts", "dur"], &files).unwrap();
    let mut sum = 0i64;
    let mut count = 0i64;
    while let Some(b) = reader.next_block().unwrap() {
        for (ts, dur) in ints(&b, "ts").into_iter().zip(ints(&b, "dur")) {
            if ts > 500_000 {
                sum += dur;
                count += 1;
            }
        }
    }
    assert_eq!(sum, sum_dur_where_ts_gt(&rows, 500_000));
    assert_eq!(count, count_where_ts_gt(&rows, 500_000));
}

fn column_sum(blocks: &[minihouse::block::Block], q: &minihouse::query::SimpleQuery) -> i64 {
    let mut agg = minihouse::aggregate::SumI64::new();
    for b in blocks {
        agg.update(&minihouse::query::aggregate_input(b, q));
    }
    match agg.result() {
        Some(minihouse::value::Value::Int64(v)) => v,
        other => panic!("sum result {other:?}"),
    }
}

fn column_count(blocks: &[minihouse::block::Block], q: &minihouse::query::SimpleQuery) -> i64 {
    let mut agg = minihouse::aggregate::Count::new();
    for b in blocks {
        agg.update(&minihouse::query::aggregate_input(b, q));
    }
    match agg.result() {
        Some(minihouse::value::Value::Int64(v)) => v,
        other => panic!("count result {other:?}"),
    }
}

#[test]
fn the_compared_queries_are_built_as_named() {
    let q = sum_dur_where_ts_gt_query(500);
    assert_eq!(q.filter, Some(("ts", CmpOp::Gt, Value::Int64(500))));
    assert_eq!(q.aggregate, ("dur", AggKind::Sum));
    let q = count_id_where_ts_gt_query(-3);
    assert_eq!(q.filter, Some(("ts", CmpOp::Gt, Value::Int64(-3))));
    assert_eq!(q.aggregate, ("id", AggKind::Count));
    let q = count_where_url_eq_query("/page/7");
    assert_eq!(q.filter, Some(("url", CmpOp::Eq, Value::String("/page/7".to_string()))));
    assert_eq!(q.aggregate, ("id", AggKind::Count));
    let q = sum_dur_query();
    assert_eq!(q.filter, None);
    assert_eq!(q.aggregate, ("dur", AggKind::Sum));
}

#[test]
fn the_column_store_and_the_row_store_agree_on_every_compared_query() {
    let (blocks, rows) = generate(3000, 256);
    for x in [0, 10_000, 500_000, 990_000, 1_000_000] {
        assert_eq!(
            column_sum(&blocks, &sum_dur_where_ts_gt_query(x)),
            sum_dur_where_ts_gt(&rows, x)
        );
        assert_eq!(
            column_count(&blocks, &count_id_where_ts_gt_query(x)),
            count_where_ts_gt(&rows, x)
        );
    }
    assert_eq!(column_sum(&blocks, &sum_dur_query()), sum_dur(&rows));
    let url = rows.rows[17].url.clone();
    let n = column_count(&blocks, &count_where_url_eq_query(&url));
    assert!(n >= 1);
    assert_eq!(n, count_where_url_eq(&rows, &url));
    assert_eq!(column_count(&blocks, &count_where_url_eq_query("/page/1000")), 0);
}

#[test]
fn generated_values_vary_from_row_to_row() {
    let (_, rows) = generate(200, 64);
    let first = &rows.rows[0];
    assert!(rows.rows.iter().any(|r| r.ts != first.ts));
    assert!(rows.rows.iter().any(|r| r.dur != first.dur));
    assert!(rows.rows.iter().any(|r| r.url != first.url));
}

#[test]
fn a_block_size_above_the_row_count_gives_one_block_of_every_row() {
    let (blocks, rows) = generate(10, 1_000_000_000);
    assert_eq!(blocks.len(), 1);
    assert_eq!(blocks[0].num_rows(), 10);
    assert_eq!(rows.rows.len(), 10);
}
