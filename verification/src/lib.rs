//! A small columnar storage engine: typed columns, blocks, schemas, an on-disk
//! framing format with optional LZ4 compression, and single-column queries.
pub mod aggregate;
pub mod bench_data;
pub mod block;
pub mod bytes;
pub mod codec;
pub mod column;
pub mod column_io;
pub mod data_type;
pub mod error;
pub mod helpers;
pub mod mask;
pub mod part_reader;
pub mod part_writer;
pub mod query;
pub mod round_trip;
pub mod schema;
pub mod schema_files;
pub mod schema_text;
pub mod string_column;
pub mod table;
pub mod text;
pub mod value;
