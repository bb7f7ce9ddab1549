use minihouse::block::Block;
use minihouse::codec::{write_block, Codec};
use minihouse::column::Column;
use minihouse::column_io::{write_f64_chunk, write_i64_chunk, write_str_chunk};
use minihouse::data_type::DataType;
use minihouse::error::StorageError;
use minihouse::part_reader::PartReader;
use minihouse::part_writer::PartWriter;
use minihouse::schema::Schema;
use minihouse::string_column::StringColumn;

/// A part held in memory: the text of its `schema.txt` and its column files.
struct Part {
    schema_text: String,
    files: Vec<(String, Vec<u8>)>,
}

impl Part {
    fn file_mut(&mut self, name: &str) -> &mut Vec<u8> {
        &mut self
            .files
            .iter_mut()
            .find(|(n, _)| n == name)
            .unwrap_or_else(|| panic!("no file {name}"))
            .1
    }

    fn remove_file(&mut self, name: &str) {
        self.files.retain(|(n, _)| n != name);
    }

    fn write(&mut self, name: &str, bytes: &[u8]) {
        *self.file_mut(name) = bytes.to_vec();
    }
}

fn col(name: &str, dt: DataType) -> (String, DataType) {
    (name.to_string(), dt)
}

fn sample_schema() -> Vec<(String, DataType)> {
    vec![
        col("id", DataType::Int64),
        col("name", DataType::String),
        col("score", DataType::Float64),
    ]
}

fn with_values(values: &[&str]) -> StringColumn {
    let mut c = StringColumn::new();
    for v in values {
        c.push(v);
    }
    c
}

fn floats(values: &[f64]) -> Column {
    Column::Float64(values.iter().map(|v| v.to_bits()).collect())
}

fn sample_block_at(start: i64, rows: usize) -> Block {
    let ids: Vec<i64> = (start..start + rows as i64).collect();
    let mut names = StringColumn::new();
    for id in &ids {
        names.push(&format!("n{id}"));
    }
    Block::new(
        vec![
            ("id".to_string(), Column::Int64(ids.clone())),
            ("name".to_string(), Column::String(names)),
            (
                "score".to_string(),
                Column::Float64(ids.iter().map(|&i| (i as f64).to_bits()).collect()),
            ),
        ],
        rows,
    )
}

fn finished(writer: &PartWriter) -> Part {
    Part {
        schema_text: writer.schema_text(),
        files: writer.files(),
    }
}

fn written_part_blocks(rows_per_block: &[usize]) -> Part {
    let mut writer = PartWriter::new(&sample_schema(), Codec::Lz4);
    let mut start = 0i64;
    for &rows in rows_per_block {
        writer.write_block(&sample_block_at(start, rows));
        start += rows as i64;
    }
    finished(&writer)
}

fn written_part(rows: usize) -> Part {
    if rows > 0 {
        written_part_blocks(&[rows])
    } else {
        written_part_blocks(&[])
    }
}

/// A part with a hand-written `schema.txt` and an empty file for every column.
fn hand_built_part(num_rows: usize, schema: &[(String, DataType)]) -> Part {
    let mut text = format!("version=1\nnum_rows={num_rows}\n");
    let mut files = Vec::new();
    for (name, dt) in schema {
        text.push_str(&format!("column={name}:{}\n", dt.as_str()));
        match dt {
            DataType::Int64 | DataType::Float64 => files.push((format!("{name}.bin"), Vec::new())),
            DataType::String => {
                files.push((format!("{name}.data.bin"), Vec::new()));
                files.push((format!("{name}.offsets.bin"), Vec::new()));
            }
        }
    }
    Part {
        schema_text: text,
        files,
    }
}

fn append_chunk(part: &mut Part, name: &str, column: &Column) {
    match column {
        Column::Int64(v) => write_i64_chunk(part.file_mut(&format!("{name}.bin")), v, Codec::Lz4),
        Column::Float64(v) => write_f64_chunk(part.file_mut(&format!("{name}.bin")), v, Codec::Lz4),
        Column::String(sc) => {
            let mut data = std::mem::take(part.file_mut(&format!("{name}.data.bin")));
            let mut offsets = std::mem::take(part.file_mut(&format!("{name}.offsets.bin")));
            write_str_chunk(&mut data, &mut offsets, sc, Codec::Lz4);
            *part.file_mut(&format!("{name}.data.bin")) = data;
            *part.file_mut(&format!("{name}.offsets.bin")) = offsets;
        }
    }
}

fn append_raw(part: &mut Part, file: &str, bytes: &[u8]) {
    part.file_mut(file).extend_from_slice(bytes);
}

fn framed(raw: &[u8]) -> Vec<u8> {
    let mut buf = Vec::new();
    write_block(&mut buf, raw, Codec::Lz4);
    buf
}

fn truncate_by(part: &mut Part, file: &str, bytes: usize) {
    let f = part.file_mut(file);
    let len = f.len();
    f.truncate(len - bytes);
}

fn numeric_part(num_rows: usize, ids: &[&[i64]], scores: &[&[f64]]) -> Part {
    let mut part = hand_built_part(
        num_rows,
        &[col("id", DataType::Int64), col("score", DataType::Float64)],
    );
    for chunk in ids {
        append_chunk(&mut part, "id", &Column::Int64(chunk.to_vec()));
    }
    for chunk in scores {
        append_chunk(&mut part, "score", &floats(chunk));
    }
    part
}

fn open(part: &Part, columns: &[&str]) -> Result<PartReader, StorageError> {
    PartReader::open(&part.schema_text, columns, &part.files)
}

fn open_error(part: &Part, columns: &[&str]) -> StorageError {
    match open(part, columns) {
        Ok(_) => panic!("expected opening with {columns:?} to fail"),
        Err(e) => e,
    }
}

fn open_err(part: &Part, columns: &[&str]) -> String {
    open_error(part, columns).to_string()
}

fn next_error(reader: &mut PartReader) -> StorageError {
    match reader.next_block() {
        Ok(block) => panic!("expected next_block to fail, got {block:?}"),
        Err(e) => e,
    }
}

fn next_err(reader: &mut PartReader) -> String {
    next_error(reader).to_string()
}

fn read_all(reader: &mut PartReader) -> Vec<Block> {
    let mut blocks = Vec::new();
    while let Some(block) = reader.next_block().unwrap() {
        blocks.push(block);
    }
    blocks
}

fn row_counts(blocks: &[Block]) -> Vec<usize> {
    blocks.iter().map(|b| b.num_rows()).collect()
}

fn strs(block: &Block, name: &str) -> Vec<String> {
    match block.column(name) {
        Some(Column::String(sc)) => (0..sc.len()).map(|i| sc.get(i).to_string()).collect(),
        other => panic!("column '{name}' is not a string column: {other:?}"),
    }
}

fn column_names(block: &Block) -> Vec<&str> {
    block.columns().iter().map(|(n, _)| n.as_str()).collect()
}

fn bits(values: &[f64]) -> Vec<u64> {
    values.iter().map(|v| v.to_bits()).collect()
}

#[test]
fn open_reads_a_part_written_by_part_writer() {
    let part = written_part(3);

    let reader = open(&part, &["id", "name", "score"]).unwrap();

    assert_eq!(*reader.schema(), Schema::new(sample_schema()).unwrap());
    assert_eq!(reader.num_rows(), 3);
    assert_eq!(reader.rows_read(), 0);
    assert_eq!(reader.column_indices(), vec![0, 1, 2]);
}

#[test]
fn opens_a_single_column_projection() {
    let part = written_part(2);

    let reader = open(&part, &["name"]).unwrap();

    assert_eq!(reader.column_indices(), vec![1]);
}

#[test]
fn schema_field_holds_the_whole_part_schema_not_the_projection() {
    let part = written_part(1);

    let reader = open(&part, &["score"]).unwrap();

    assert_eq!(*reader.schema(), Schema::new(sample_schema()).unwrap());
    assert_eq!(reader.column_indices(), vec![2]);
}

#[test]
fn readers_are_ordered_by_schema_index_not_by_projection_order() {
    let part = written_part(1);

    let reader = open(&part, &["score", "id"]).unwrap();

    assert_eq!(reader.column_indices(), vec![0, 2]);
}

#[test]
fn opens_a_part_with_zero_rows() {
    let part = written_part(0);

    let reader = open(&part, &["id", "name", "score"]).unwrap();

    assert_eq!(reader.num_rows(), 0);
    assert_eq!(reader.column_indices().len(), 3);
}

#[test]
fn two_readers_can_open_the_same_part_at_once() {
    let part = written_part(2);

    let first = open(&part, &["id"]).unwrap();
    let second = open(&part, &["id", "name"]).unwrap();

    assert_eq!(first.num_rows(), 2);
    assert_eq!(second.num_rows(), 2);
}

#[test]
fn schema_parse_errors_are_propagated() {
    let mut part = hand_built_part(0, &[col("id", DataType::Int64)]);
    part.schema_text = "version=2\nnum_rows=0\ncolumn=id:Int64\n".to_string();

    let e = open_error(&part, &["id"]);

    assert!(
        matches!(e, StorageError::UnsupportedVersion { ref found, .. } if found == "2"),
        "{e:?}"
    );
}

#[test]
fn an_unknown_column_is_column_not_found() {
    let part = written_part(1);

    let e = open_error(&part, &["nope"]);

    assert!(
        matches!(e, StorageError::ColumnNotFound(ref n) if n == "nope"),
        "{e:?}"
    );
    assert_eq!(e.to_string(), "column 'nope' not found");
}

#[test]
fn part_reader_column_lookup_is_case_sensitive() {
    let part = written_part(1);

    assert!(open_err(&part, &["ID"]).contains("column 'ID' not found"));
}

#[test]
fn the_first_unknown_column_in_projection_order_is_reported() {
    let part = written_part(1);

    assert!(open_err(&part, &["zzz", "aaa"]).contains("column 'zzz' not found"));
}

#[test]
fn a_missing_numeric_column_file_is_corrupt() {
    let mut part = written_part(1);
    part.remove_file("id.bin");

    let e = open_error(&part, &["id"]);

    assert!(matches!(e, StorageError::Corrupt(_)), "{e:?}");
    assert_eq!(e.to_string(), "corrupt: column file 'id.bin' missing");
}

#[test]
fn a_missing_string_data_file_is_corrupt() {
    let mut part = written_part(1);
    part.remove_file("name.data.bin");

    assert!(open_err(&part, &["name"]).contains("column file 'name.data.bin' missing"));
}

#[test]
fn a_missing_string_offsets_file_is_corrupt() {
    let mut part = written_part(1);
    part.remove_file("name.offsets.bin");

    assert!(open_err(&part, &["name"]).contains("column file 'name.offsets.bin' missing"));
}

#[test]
fn the_data_file_is_reported_when_both_string_files_are_missing() {
    let mut part = written_part(1);
    part.remove_file("name.data.bin");
    part.remove_file("name.offsets.bin");

    assert!(open_err(&part, &["name"]).contains("column file 'name.data.bin' missing"));
}

#[test]
fn only_projected_columns_are_opened() {
    let mut part = written_part(1);
    part.remove_file("score.bin");
    part.remove_file("name.data.bin");

    let reader = open(&part, &["id"]).unwrap();

    assert_eq!(reader.column_indices(), vec![0]);
}

#[test]
fn a_missing_file_is_reported_before_a_later_unknown_column() {
    let mut part = written_part(1);
    part.remove_file("id.bin");

    assert!(open_err(&part, &["id", "nope"]).contains("column file 'id.bin' missing"));
}

#[test]
fn open_does_not_validate_column_file_contents() {
    let mut part = written_part(2);
    part.write("id.bin", b"not a chunk");

    assert!(open(&part, &["id"]).is_ok());
}

#[test]
fn open_does_not_cross_check_num_rows_against_the_data() {
    let part = hand_built_part(7, &[col("id", DataType::Int64)]);

    let reader = open(&part, &["id"]).unwrap();

    assert_eq!(reader.num_rows(), 7);
}

#[test]
fn next_block_reads_back_the_block_part_writer_wrote() {
    let part = written_part(3);
    let mut reader = open(&part, &["id", "name", "score"]).unwrap();

    let block = reader.next_block().unwrap().unwrap();

    assert_eq!(block.num_rows(), 3);
    assert_eq!(block.column("id"), Some(&Column::Int64(vec![0, 1, 2])));
    assert_eq!(
        block.column("name"),
        Some(&Column::String(with_values(&["n0", "n1", "n2"])))
    );
    assert_eq!(block.column("score"), Some(&floats(&[0.0, 1.0, 2.0])));
    assert!(reader.next_block().unwrap().is_none());
}

#[test]
fn next_block_returns_one_block_per_written_block() {
    let part = written_part_blocks(&[2, 1, 3]);
    let mut reader = open(&part, &["id", "name", "score"]).unwrap();

    assert_eq!(row_counts(&read_all(&mut reader)), vec![2, 1, 3]);
}

#[test]
fn blocks_come_back_in_write_order() {
    let part = written_part_blocks(&[2, 2]);
    let mut reader = open(&part, &["id", "name"]).unwrap();

    let blocks = read_all(&mut reader);

    assert_eq!(blocks[0].column("id"), Some(&Column::Int64(vec![0, 1])));
    assert_eq!(strs(&blocks[0], "name"), vec!["n0", "n1"]);
    assert_eq!(blocks[1].column("id"), Some(&Column::Int64(vec![2, 3])));
    assert_eq!(strs(&blocks[1], "name"), vec!["n2", "n3"]);
}

#[test]
fn next_block_returns_none_after_the_last_block() {
    let part = written_part(1);
    let mut reader = open(&part, &["id"]).unwrap();

    assert!(reader.next_block().unwrap().is_some());
    assert!(reader.next_block().unwrap().is_none());
}

#[test]
fn next_block_keeps_returning_none_after_the_end() {
    let part = written_part(1);
    let mut reader = open(&part, &["id", "name"]).unwrap();

    assert!(reader.next_block().unwrap().is_some());
    for _ in 0..3 {
        assert!(reader.next_block().unwrap().is_none());
    }
}

#[test]
fn a_part_with_no_blocks_yields_none_immediately() {
    let part = written_part(0);
    let mut reader = open(&part, &["id", "name", "score"]).unwrap();

    assert!(reader.next_block().unwrap().is_none());
}

#[test]
fn a_zero_row_block_comes_back_as_an_empty_block() {
    let part = written_part_blocks(&[0]);
    let mut reader = open(&part, &["id", "name", "score"]).unwrap();

    let block = reader.next_block().unwrap().unwrap();

    assert_eq!(block.num_rows(), 0);
    assert_eq!(column_names(&block), vec!["id", "name", "score"]);
    assert!(block.columns().iter().all(|(_, c)| c.is_empty()));
    assert!(reader.next_block().unwrap().is_none());
}

#[test]
fn zero_row_blocks_between_data_blocks_are_preserved() {
    let part = written_part_blocks(&[2, 0, 1]);
    let mut reader = open(&part, &["id", "name", "score"]).unwrap();

    assert_eq!(row_counts(&read_all(&mut reader)), vec![2, 0, 1]);
}

#[test]
fn a_part_of_only_zero_row_blocks_yields_one_block_each() {
    let part = written_part_blocks(&[0, 0]);
    let mut reader = open(&part, &["id", "name", "score"]).unwrap();

    assert_eq!(row_counts(&read_all(&mut reader)), vec![0, 0]);
}

#[test]
fn string_values_survive_the_round_trip() {
    let names = with_values(&["", "日本語", "a"]);
    let mut writer = PartWriter::new(&sample_schema(), Codec::Lz4);
    writer.write_block(&Block::new(
        vec![
            ("id".to_string(), Column::Int64(vec![0, 1, 2])),
            ("name".to_string(), Column::String(names.clone())),
            ("score".to_string(), floats(&[0.0, 0.0, 0.0])),
        ],
        3,
    ));
    let part = finished(&writer);

    let mut reader = open(&part, &["name"]).unwrap();
    let block = reader.next_block().unwrap().unwrap();

    assert_eq!(block.column("name"), Some(&Column::String(names)));
}

#[test]
fn extreme_numeric_values_survive_the_round_trip() {
    let scores = vec![f64::NAN, f64::INFINITY, f64::NEG_INFINITY];
    let mut writer = PartWriter::new(&sample_schema(), Codec::Lz4);
    writer.write_block(&Block::new(
        vec![
            ("id".to_string(), Column::Int64(vec![i64::MIN, 0, i64::MAX])),
            ("name".to_string(), Column::String(with_values(&["a", "b", "c"]))),
            ("score".to_string(), floats(&scores)),
        ],
        3,
    ));
    let part = finished(&writer);

    let mut reader = open(&part, &["id", "score"]).unwrap();
    let block = reader.next_block().unwrap().unwrap();

    assert_eq!(
        block.column("id"),
        Some(&Column::Int64(vec![i64::MIN, 0, i64::MAX]))
    );
    let Some(Column::Float64(read)) = block.column("score") else {
        panic!("score is not a float column");
    };
    assert_eq!(*read, bits(&scores));
}

#[test]
fn a_block_holds_only_the_projected_columns() {
    let part = written_part(2);
    let mut reader = open(&part, &["id"]).unwrap();

    let block = reader.next_block().unwrap().unwrap();

    assert_eq!(column_names(&block), vec!["id"]);
    assert_eq!(block.num_rows(), 2);
    assert!(block.column("name").is_none());
}

#[test]
fn block_columns_are_in_schema_order_not_projection_order() {
    let part = written_part(2);
    let mut reader = open(&part, &["score", "id"]).unwrap();

    let block = reader.next_block().unwrap().unwrap();

    assert_eq!(column_names(&block), vec!["id", "score"]);
}

#[test]
fn projection_does_not_change_row_counts() {
    let part = written_part_blocks(&[2, 1]);
    let mut reader = open(&part, &["score"]).unwrap();

    assert_eq!(row_counts(&read_all(&mut reader)), vec![2, 1]);
}

#[test]
fn damage_to_an_unprojected_column_is_never_read() {
    let mut part = written_part(2);
    part.write("name.data.bin", b"garbage");
    let mut reader = open(&part, &["id", "score"]).unwrap();

    assert_eq!(row_counts(&read_all(&mut reader)), vec![2]);
}

#[test]
fn two_readers_over_one_part_advance_independently() {
    let part = written_part_blocks(&[1, 1]);
    let mut first = open(&part, &["id"]).unwrap();
    let mut second = open(&part, &["id"]).unwrap();

    first.next_block().unwrap().unwrap();

    assert_eq!(
        first.next_block().unwrap().unwrap().column("id"),
        Some(&Column::Int64(vec![1]))
    );
    assert_eq!(
        second.next_block().unwrap().unwrap().column("id"),
        Some(&Column::Int64(vec![0]))
    );
}

#[test]
fn a_string_only_projection_reads_to_the_end() {
    let part = written_part_blocks(&[2, 1]);
    let mut reader = open(&part, &["name"]).unwrap();

    let blocks = read_all(&mut reader);

    assert_eq!(row_counts(&blocks), vec![2, 1]);
    assert_eq!(strs(&blocks[0], "name"), vec!["n0", "n1"]);
    assert_eq!(strs(&blocks[1], "name"), vec!["n2"]);
}

#[test]
fn rows_read_accumulates_across_blocks() {
    let part = written_part_blocks(&[2, 1, 3]);
    let mut reader = open(&part, &["id"]).unwrap();

    assert_eq!(reader.rows_read(), 0);
    for expected in [2, 3, 6] {
        reader.next_block().unwrap().unwrap();
        assert_eq!(reader.rows_read(), expected);
    }
    assert!(reader.next_block().unwrap().is_none());
    assert_eq!(reader.rows_read(), 6);
}

#[test]
fn a_part_holding_fewer_rows_than_declared_is_corrupt() {
    let part = numeric_part(5, &[&[1, 2]], &[&[1.0, 2.0]]);
    let mut reader = open(&part, &["id", "score"]).unwrap();

    assert_eq!(reader.next_block().unwrap().unwrap().num_rows(), 2);
    let e = next_error(&mut reader);

    assert!(matches!(e, StorageError::Corrupt(_)), "{e:?}");
    assert_eq!(
        e.to_string(),
        "corrupt: part truncated: schema declares 5 rows, files contain 2"
    );
}

#[test]
fn the_truncation_check_runs_only_at_the_end_of_the_part() {
    let part = numeric_part(5, &[&[1, 2]], &[&[1.0, 2.0]]);
    let mut reader = open(&part, &["id", "score"]).unwrap();

    let block = reader.next_block().unwrap().unwrap();

    assert_eq!(block.column("id"), Some(&Column::Int64(vec![1, 2])));
}

#[test]
fn a_part_with_empty_files_but_declared_rows_is_corrupt() {
    let part = numeric_part(3, &[], &[]);
    let mut reader = open(&part, &["id", "score"]).unwrap();

    assert!(next_err(&mut reader).contains("schema declares 3 rows, files contain 0"));
}

#[test]
fn a_part_holding_more_rows_than_declared_is_corrupt() {
    let part = numeric_part(1, &[&[1, 2, 3]], &[&[1.0, 2.0, 3.0]]);
    let mut reader = open(&part, &["id", "score"]).unwrap();

    assert_eq!(reader.next_block().unwrap().unwrap().num_rows(), 3);

    assert!(
        next_err(&mut reader).contains("part truncated: schema declares 1 rows, files contain 3")
    );
}

#[test]
fn the_truncation_error_repeats_on_a_subsequent_call() {
    let part = numeric_part(5, &[&[1, 2]], &[&[1.0, 2.0]]);
    let mut reader = open(&part, &["id", "score"]).unwrap();
    reader.next_block().unwrap().unwrap();

    let first = next_err(&mut reader);
    let second = next_err(&mut reader);

    assert_eq!(first, second);
}

#[test]
fn a_shorter_chunk_in_a_later_column_is_out_of_sync() {
    let part = numeric_part(2, &[&[1, 2]], &[&[1.0]]);
    let mut reader = open(&part, &["id", "score"]).unwrap();

    let e = next_error(&mut reader);

    assert!(matches!(e, StorageError::Corrupt(_)), "{e:?}");
    assert_eq!(
        e.to_string(),
        "corrupt: column files out of sync: 'score' chunk has 1 rows, expected 2"
    );
}

#[test]
fn the_first_column_in_schema_order_defines_the_expected_length() {
    let part = numeric_part(2, &[&[1]], &[&[1.0, 2.0]]);
    let mut reader = open(&part, &["id", "score"]).unwrap();

    assert!(
        next_err(&mut reader).contains("'score' chunk has 2 rows, expected 1"),
        "the earlier column wins even when it is the broken one"
    );
}

#[test]
fn desync_between_a_numeric_and_a_string_column_is_detected() {
    let mut part = hand_built_part(
        2,
        &[col("id", DataType::Int64), col("name", DataType::String)],
    );
    append_chunk(&mut part, "id", &Column::Int64(vec![1, 2]));
    append_chunk(&mut part, "name", &Column::String(with_values(&["x"])));
    let mut reader = open(&part, &["id", "name"]).unwrap();

    assert!(next_err(&mut reader).contains("'name' chunk has 1 rows, expected 2"));
}

#[test]
fn the_first_disagreeing_column_is_the_one_reported() {
    let mut part = hand_built_part(3, &sample_schema());
    append_chunk(&mut part, "id", &Column::Int64(vec![1, 2, 3]));
    append_chunk(&mut part, "name", &Column::String(with_values(&["x"])));
    append_chunk(&mut part, "score", &floats(&[1.0, 2.0]));
    let mut reader = open(&part, &["id", "name", "score"]).unwrap();

    assert!(next_err(&mut reader).contains("'name' chunk has 1 rows, expected 3"));
}

#[test]
fn a_column_file_that_ends_early_is_out_of_sync() {
    let part = numeric_part(4, &[&[1, 2], &[3, 4]], &[&[1.0, 2.0]]);
    let mut reader = open(&part, &["id", "score"]).unwrap();

    assert_eq!(reader.next_block().unwrap().unwrap().num_rows(), 2);
    let e = next_error(&mut reader);

    assert!(matches!(e, StorageError::Corrupt(_)), "{e:?}");
    assert_eq!(
        e.to_string(),
        "corrupt: column files out of sync: some ended, some continue"
    );
}

#[test]
fn a_column_file_with_a_surplus_chunk_is_out_of_sync() {
    let part = numeric_part(2, &[&[1, 2]], &[&[1.0, 2.0], &[3.0]]);
    let mut reader = open(&part, &["id", "score"]).unwrap();

    assert_eq!(reader.next_block().unwrap().unwrap().num_rows(), 2);

    assert!(next_err(&mut reader).contains("some ended, some continue"));
}

#[test]
fn an_out_of_sync_part_is_reported_before_the_truncation_check() {
    let part = numeric_part(99, &[&[1, 2], &[3]], &[&[1.0, 2.0]]);
    let mut reader = open(&part, &["id", "score"]).unwrap();
    reader.next_block().unwrap().unwrap();

    let message = next_err(&mut reader);

    assert!(message.contains("some ended, some continue"), "{message}");
    assert!(!message.contains("part truncated"), "{message}");
}

#[test]
fn garbage_in_a_column_file_is_a_codec_error() {
    let mut part = numeric_part(0, &[], &[]);
    append_raw(&mut part, "id.bin", &[1, 2, 3, 4, 5]);
    let mut reader = open(&part, &["id"]).unwrap();

    let e = next_error(&mut reader);

    assert!(matches!(e, StorageError::Codec(_)), "{e:?}");
    assert!(e.to_string().contains("truncated header: got 5 of 9 bytes"));
}

#[test]
fn a_torn_final_chunk_is_a_codec_error() {
    let mut part = written_part(3);
    truncate_by(&mut part, "id.bin", 4);
    let mut reader = open(&part, &["id"]).unwrap();

    let e = next_error(&mut reader);

    assert!(matches!(e, StorageError::Codec(_)), "{e:?}");
    assert!(e.to_string().contains("truncated body"), "{e:?}");
    assert!(!e.to_string().contains("part truncated"), "{e:?}");
}

#[test]
fn codec_errors_render_as_corrupt_block_not_corrupt() {
    let mut part = numeric_part(0, &[], &[]);
    append_raw(&mut part, "id.bin", &[1, 2, 3, 4, 5]);
    let mut reader = open(&part, &["id"]).unwrap();

    let e = next_error(&mut reader);

    assert!(matches!(e, StorageError::Codec(_)), "{e:?}");
    assert!(e.to_string().starts_with("corrupt block: "), "{e:?}");
}

#[test]
fn a_chunk_of_the_wrong_element_width_is_a_codec_error() {
    let mut part = numeric_part(0, &[], &[]);
    append_raw(&mut part, "id.bin", &framed(&[0u8; 12]));
    let mut reader = open(&part, &["id"]).unwrap();

    let e = next_error(&mut reader);

    assert!(matches!(e, StorageError::Codec(_)), "{e:?}");
    assert!(
        e.to_string()
            .contains("i64 chunk of 12 bytes is not a multiple of 8")
    );
}

#[test]
fn string_stream_desync_surfaces_as_a_codec_error() {
    let mut part = hand_built_part(1, &[col("name", DataType::String)]);
    append_chunk(&mut part, "name", &Column::String(with_values(&["x"])));
    append_raw(&mut part, "name.data.bin", &framed(b"y"));
    let mut reader = open(&part, &["name"]).unwrap();

    assert_eq!(reader.next_block().unwrap().unwrap().num_rows(), 1);
    let e = next_error(&mut reader);

    assert!(matches!(e, StorageError::Codec(_)), "{e:?}");
    assert!(
        e.to_string()
            .contains("string streams out of sync: data present, offsets ended")
    );
}

#[test]
fn a_codec_error_outranks_the_out_of_sync_check() {
    let mut part = hand_built_part(
        1,
        &[col("id", DataType::Int64), col("name", DataType::String)],
    );
    append_chunk(&mut part, "id", &Column::Int64(vec![1]));
    append_chunk(&mut part, "name", &Column::String(with_values(&["x"])));
    append_raw(&mut part, "name.data.bin", &framed(b"y"));
    let mut reader = open(&part, &["id", "name"]).unwrap();
    reader.next_block().unwrap().unwrap();

    let e = next_error(&mut reader);

    assert!(matches!(e, StorageError::Codec(_)), "{e:?}");
    assert!(!e.to_string().contains("some ended"), "{e:?}");
}

#[test]
fn an_error_in_an_earlier_column_short_circuits_later_ones() {
    let mut part = numeric_part(0, &[], &[]);
    append_raw(&mut part, "id.bin", &framed(&[0u8; 12]));
    append_raw(&mut part, "score.bin", &framed(&[0u8; 12]));
    let mut reader = open(&part, &["id", "score"]).unwrap();

    let message = next_err(&mut reader);

    assert!(message.contains("i64 chunk"), "{message}");
    assert!(!message.contains("f64 chunk"), "{message}");
}

#[test]
fn a_block_read_after_an_error_can_mix_misaligned_chunks() {
    let mut part = hand_built_part(3, &sample_schema());
    append_chunk(&mut part, "id", &Column::Int64(vec![1, 2]));
    append_chunk(&mut part, "id", &Column::Int64(vec![3]));
    append_chunk(&mut part, "name", &Column::String(with_values(&["x"])));
    append_chunk(&mut part, "name", &Column::String(with_values(&["y"])));
    append_chunk(&mut part, "score", &floats(&[9.0]));
    let mut reader = open(&part, &["id", "name", "score"]).unwrap();

    assert!(next_err(&mut reader).contains("'name' chunk has 1 rows, expected 2"));
    let block = reader.next_block().unwrap().unwrap();

    assert_eq!(block.num_rows(), 1);
    assert_eq!(block.column("id"), Some(&Column::Int64(vec![3])));
    assert_eq!(strs(&block, "name"), vec!["y"]);
    assert_eq!(block.column("score"), Some(&floats(&[9.0])));
}

#[test]
fn a_part_round_trips_under_both_codecs() {
    for codec in [Codec::Uncompressed, Codec::Lz4] {
        let mut writer = PartWriter::new(&sample_schema(), codec);
        writer.write_block(&sample_block_at(0, 3));
        writer.write_block(&sample_block_at(3, 1));
        let part = finished(&writer);
        let mut reader = open(&part, &["name", "id", "score"]).unwrap();
        let blocks = read_all(&mut reader);
        assert_eq!(row_counts(&blocks), vec![3, 1]);
        assert_eq!(blocks[1].column("id"), Some(&Column::Int64(vec![3])));
        assert_eq!(strs(&blocks[0], "name"), vec!["n0", "n1", "n2"]);
        assert_eq!(blocks[1].column("score"), Some(&floats(&[3.0])));
    }
}

#[test]
fn a_reader_is_not_fused_after_an_out_of_sync_error() {
    let part = numeric_part(4, &[&[1, 2], &[3, 4]], &[&[1.0, 2.0]]);
    let mut reader = open(&part, &["id", "score"]).unwrap();
    reader.next_block().unwrap().unwrap();

    assert!(next_err(&mut reader).contains("some ended, some continue"));
    assert!(next_err(&mut reader).contains("part truncated"));
}

#[test]
fn the_row_counter_does_not_advance_on_a_failed_read() {
    let part = numeric_part(2, &[&[1, 2]], &[&[1.0]]);
    let mut reader = open(&part, &["id", "score"]).unwrap();

    next_error(&mut reader);

    assert_eq!(reader.rows_read(), 0);
}

#[test]
fn next_block_does_not_mutate_the_declared_row_count() {
    let part = written_part_blocks(&[2, 1]);
    let mut reader = open(&part, &["id"]).unwrap();

    while reader.next_block().unwrap().is_some() {
        assert_eq!(reader.num_rows(), 3);
    }
    assert_eq!(reader.num_rows(), 3);
}

#[test]
fn a_projection_loads_the_files_of_its_columns_in_schema_order() {
    let schema = Schema::new(sample_schema()).unwrap();
    let all = minihouse::part_reader::projected_files(&schema, &["score", "name", "id"]);
    assert_eq!(all, vec!["id.bin", "name.data.bin", "name.offsets.bin", "score.bin"]);
    let some = minihouse::part_reader::projected_files(&schema, &["name", "nope"]);
    assert_eq!(some, vec!["name.data.bin", "name.offsets.bin"]);
    let none = minihouse::part_reader::projected_files(&schema, &["nope"]);
    assert!(none.is_empty());
}

#[test]
fn a_failed_chunk_leaves_the_earlier_columns_past_their_chunk_and_the_failing_one_in_place() {
    // id has two good chunks; score's second chunk is a header cut short.
    let mut part = numeric_part(4, &[&[1, 2], &[3, 4]], &[&[1.0, 2.0]]);
    append_raw(&mut part, "score.bin", &[1, 2, 3]);
    let mut reader = open(&part, &["id", "score"]).unwrap();
    reader.next_block().unwrap().unwrap();

    let first = next_err(&mut reader);
    assert_eq!(first, "corrupt block: truncated header: got 3 of 9 bytes");

    // id moved past its second chunk; score did not move, so it fails again
    // after id reports its end.
    let second = next_err(&mut reader);
    assert_eq!(second, "corrupt block: truncated header: got 3 of 9 bytes");
    assert_eq!(reader.rows_read(), 2);
}
