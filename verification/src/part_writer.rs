//! Writing a part: the column files, built block by block, and the part's
//! `schema.txt`.
use crate::block::Block;
use crate::codec::{frame, frame_reads_back, Codec, MAX_BLOCK_SIZE};
use crate::column::Column;
use crate::column_io::{
    i64_chunk_bytes, offsets_bytes, words_bytes, write_f64_chunk, write_i64_chunk,
    write_str_chunk,
};
use crate::data_type::DataType;
use crate::schema::declared;
use crate::schema_text::{column_lines, push_column_lines};
use crate::text::{decimal, push_decimal, push_str, string_of};
use vstd::prelude::*;

verus! {

/// The bytes of the files of one column: one file for a numeric column,
/// a data file and an offsets file for a string column.
#[derive(Debug)]
pub enum ColumnFiles {
    Single(Vec<u8>),
    Pair { data: Vec<u8>, offsets: Vec<u8> },
}

impl ColumnFiles {
    /// The single file, or the data file.
    pub open spec fn first(self) -> Seq<u8> {
        match self {
            ColumnFiles::Single(b) => b@,
            ColumnFiles::Pair { data, .. } => data@,
        }
    }

    /// The offsets file of a string column; empty otherwise.
    pub open spec fn second(self) -> Seq<u8> {
        match self {
            ColumnFiles::Single(_) => Seq::empty(),
            ColumnFiles::Pair { offsets, .. } => offsets@,
        }
    }

    /// Whether the file shape suits a column of type `dt`.
    pub open spec fn suits(self, dt: DataType) -> bool {
        match dt {
            DataType::String => self is Pair,
            _ => self is Single,
        }
    }
}

/// The bytes one block adds to the files of a column: the framed chunk,
/// and for a string column the framed offsets too.
pub open spec fn chunk_frames(col: Column, codec: Codec) -> (Seq<u8>, Seq<u8>) {
    match col {
        Column::Int64(v) => (frame(i64_chunk_bytes(v@), codec), Seq::empty()),
        Column::Float64(v) => (frame(words_bytes(v@), codec), Seq::empty()),
        Column::String(c) => (frame(c.bytes(), codec), frame(offsets_bytes(c.offs()), codec)),
    }
}

/// Whether every chunk of `col` fits a block: numeric data and string
/// data at most `MAX_BLOCK_SIZE` bytes, string offsets too.
pub open spec fn chunk_fits(col: Column) -> bool {
    match col {
        Column::Int64(v) => 8 * v@.len() <= MAX_BLOCK_SIZE,
        Column::Float64(v) => 8 * v@.len() <= MAX_BLOCK_SIZE,
        Column::String(c) => c.bytes().len() <= MAX_BLOCK_SIZE && 4 * c.offs().len()
            <= MAX_BLOCK_SIZE,
    }
}

/// Whether every chunk of `col` fits a block.
pub fn column_fits(col: &Column) -> (b: bool)
    ensures
        b == chunk_fits(*col),
{
    match col {
        Column::Int64(v) => v.len() <= MAX_BLOCK_SIZE / 8,
        Column::Float64(v) => v.len() <= MAX_BLOCK_SIZE / 8,
        Column::String(c) => c.data_len() <= MAX_BLOCK_SIZE && c.offsets().len() <= MAX_BLOCK_SIZE
            / 4,
    }
}

/// Whether `block` lays out as the declarations `decls`: the same number
/// of columns, and at each position the same name and type.
pub open spec fn block_matches(decls: Seq<(Seq<char>, DataType)>, block: Block) -> bool {
    &&& block.cols().len() == decls.len()
    &&& forall|i: int|
        0 <= i < decls.len() ==> (#[trigger] block.cols()[i]).0@ == decls[i].0
            && block.cols()[i].1.dtype() == decls[i].1
}

/// The text of a part's `schema.txt`.
pub open spec fn part_schema_text(decls: Seq<(Seq<char>, DataType)>, num_rows: nat) -> Seq<char> {
    "version=1\n"@ + "num_rows="@ + decimal(num_rows) + "\n"@ + column_lines(decls)
}

/// The name of the single file of a numeric column.
pub open spec fn single_file_name(name: Seq<char>) -> Seq<char> {
    name + ".bin"@
}

/// The name of the data file of a string column.
pub open spec fn data_file_name(name: Seq<char>) -> Seq<char> {
    name + ".data.bin"@
}

/// The name of the offsets file of a string column.
pub open spec fn offsets_file_name(name: Seq<char>) -> Seq<char> {
    name + ".offsets.bin"@
}

/// Whether each framed chunk of `col` reads back as the bytes it framed.
pub open spec fn chunk_reads_back(col: Column, codec: Codec) -> bool {
    match col {
        Column::Int64(v) => frame_reads_back(i64_chunk_bytes(v@), codec),
        Column::Float64(v) => frame_reads_back(words_bytes(v@), codec),
        Column::String(c) => frame_reads_back(c.bytes(), codec) && frame_reads_back(
            offsets_bytes(c.offs()),
            codec,
        ),
    }
}

/// Whether `b` was fit to be written under `decls`: a well-formed block
/// laid out as `decls`, whose chunks fit and read back.
pub open spec fn block_written_ok(decls: Seq<(Seq<char>, DataType)>, b: Block, codec: Codec) -> bool {
    &&& b.wf()
    &&& block_matches(decls, b)
    &&& forall|i: int|
        0 <= i < b.cols().len() ==> chunk_fits(#[trigger] b.cols()[i].1) && chunk_reads_back(
            b.cols()[i].1,
            codec,
        )
}

/// Whether every block of `blocks` was fit to be written under `decls`.
pub open spec fn written_ok(decls: Seq<(Seq<char>, DataType)>, blocks: Seq<Block>, codec: Codec) -> bool {
    forall|j: int| 0 <= j < blocks.len() ==> block_written_ok(decls, #[trigger] blocks[j], codec)
}

/// The first stream of column `i` after writing `blocks`: their chunk
/// frames, in order.
pub open spec fn stream_first(blocks: Seq<Block>, i: int, codec: Codec) -> Seq<u8>
    decreases blocks.len(),
{
    if blocks.len() == 0 {
        Seq::empty()
    } else {
        chunk_frames(blocks[0].cols()[i].1, codec).0 + stream_first(blocks.drop_first(), i, codec)
    }
}

/// The second stream of column `i` (string offsets) after writing `blocks`.
pub open spec fn stream_second(blocks: Seq<Block>, i: int, codec: Codec) -> Seq<u8>
    decreases blocks.len(),
{
    if blocks.len() == 0 {
        Seq::empty()
    } else {
        chunk_frames(blocks[0].cols()[i].1, codec).1 + stream_second(blocks.drop_first(), i, codec)
    }
}

/// The rows of `blocks` together.
pub open spec fn total_rows(blocks: Seq<Block>) -> nat
    decreases blocks.len(),
{
    if blocks.len() == 0 {
        0
    } else {
        blocks[0].rows() + total_rows(blocks.drop_first())
    }
}

/// Appending a block appends its frames to every stream and its rows to
/// the total.
pub proof fn lemma_streams_push(blocks: Seq<Block>, b: Block, i: int, codec: Codec)
    ensures
        stream_first(blocks.push(b), i, codec) == stream_first(blocks, i, codec) + chunk_frames(
            b.cols()[i].1,
            codec,
        ).0,
        stream_second(blocks.push(b), i, codec) == stream_second(blocks, i, codec) + chunk_frames(
            b.cols()[i].1,
            codec,
        ).1,
        total_rows(blocks.push(b)) == total_rows(blocks) + b.rows(),
    decreases blocks.len(),
{
    if blocks.len() == 0 {
        let bb = blocks.push(b);
        assert(bb.drop_first() =~= Seq::<Block>::empty());
        assert(bb[0] == b);
        assert(stream_first(bb.drop_first(), i, codec) == Seq::<u8>::empty());
        assert(stream_second(bb.drop_first(), i, codec) == Seq::<u8>::empty());
        assert(stream_first(bb, i, codec) =~= chunk_frames(b.cols()[i].1, codec).0);
        assert(stream_second(bb, i, codec) =~= chunk_frames(b.cols()[i].1, codec).1);
        assert(stream_first(blocks, i, codec) == Seq::<u8>::empty());
        assert(stream_second(blocks, i, codec) == Seq::<u8>::empty());
        assert(total_rows(bb.drop_first()) == 0);
    } else {
        assert(blocks.push(b).drop_first() =~= blocks.drop_first().push(b));
        lemma_streams_push(blocks.drop_first(), b, i, codec);
        assert(stream_first(blocks.push(b), i, codec) =~= stream_first(blocks, i, codec)
            + chunk_frames(b.cols()[i].1, codec).0);
        assert(stream_second(blocks.push(b), i, codec) =~= stream_second(blocks, i, codec)
            + chunk_frames(b.cols()[i].1, codec).1);
    }
}

/// The files of one part, built in memory: one entry per declared column,
/// in declaration order.
pub struct PartWriter {
    schema: Vec<(String, DataType)>,
    files: Vec<ColumnFiles>,
    num_rows: usize,
    codec: Codec,
    written: Ghost<Seq<Block>>,
}

impl PartWriter {
    /// The declared columns.
    pub closed spec fn decls(self) -> Seq<(Seq<char>, DataType)> {
        declared(self.schema@)
    }

    /// The files of each column so far.
    pub closed spec fn files_spec(self) -> Seq<ColumnFiles> {
        self.files@
    }

    /// The rows written so far.
    pub closed spec fn rows(self) -> nat {
        self.num_rows as nat
    }

    /// The codec of the part's blocks.
    pub closed spec fn codec_spec(self) -> Codec {
        self.codec
    }

    /// The blocks written so far, in order.
    pub closed spec fn written(self) -> Seq<Block> {
        self.written@
    }

    /// Whether there is one file set per column, shaped for its type and
    /// holding the frames of the blocks written, which were fit to write,
    /// and whether the row count is theirs.
    pub closed spec fn wf(self) -> bool {
        &&& self.files@.len() == self.schema@.len()
        &&& forall|i: int|
            0 <= i < self.files@.len() ==> (#[trigger] self.files@[i]).suits(self.schema@[i].1)
                && self.files@[i].first() == stream_first(self.written@, i, self.codec)
                && self.files@[i].second() == stream_second(self.written@, i, self.codec)
        &&& written_ok(declared(self.schema@), self.written@, self.codec)
        &&& self.num_rows == total_rows(self.written@)
    }

    /// What a well-formed writer holds: one file set per declared column,
    /// holding the streams of the blocks written, which were fit to write,
    /// and their rows.
    pub proof fn lemma_wf_facts(self)
        requires
            self.wf(),
        ensures
            self.files_spec().len() == self.decls().len(),
            written_ok(self.decls(), self.written(), self.codec_spec()),
            self.rows() == total_rows(self.written()),
            forall|i: int|
                0 <= i < self.files_spec().len() ==> (#[trigger] self.files_spec()[i]).suits(
                    self.decls()[i].1,
                ) && self.files_spec()[i].first() == stream_first(self.written(), i, self.codec_spec())
                    && self.files_spec()[i].second() == stream_second(
                    self.written(),
                    i,
                    self.codec_spec(),
                ),
    {
    }

    /// A writer for a part with columns `schema`; every file starts empty.
    pub fn new(schema: &[(String, DataType)], codec: Codec) -> (w: Self)
        ensures
            w.wf(),
            w.decls() == declared(schema@),
            w.rows() == 0,
            w.codec_spec() == codec,
            w.written() == Seq::<Block>::empty(),
            forall|i: int|
                0 <= i < w.files_spec().len() ==> (#[trigger] w.files_spec()[i]).first().len() == 0
                    && w.files_spec()[i].second().len() == 0,
    {
        let mut names: Vec<(String, DataType)> = Vec::with_capacity(schema.len());
        let mut files: Vec<ColumnFiles> = Vec::with_capacity(schema.len());
        let mut i: usize = 0;
        while i < schema.len()
            invariant
                i <= schema@.len(),
                names@.len() == i,
                files@.len() == i,
                declared(names@) == declared(schema@.take(i as int)),
                forall|k: int| 0 <= k < i ==> (#[trigger] names@[k]).1 == schema@[k].1,
                forall|k: int|
                    0 <= k < i ==> (#[trigger] files@[k]).suits(schema@[k].1) && files@[k].first().len()
                        == 0 && files@[k].second().len() == 0,
            decreases schema@.len() - i,
        {
            let name = schema[i].0.clone();
            let dt = schema[i].1;
            names.push((name, dt));
            let f = match dt {
                DataType::Int64 | DataType::Float64 => ColumnFiles::Single(Vec::new()),
                DataType::String => ColumnFiles::Pair { data: Vec::new(), offsets: Vec::new() },
            };
            files.push(f);
            assert forall|k: int| 0 <= k < i + 1 implies #[trigger] declared(names@)[k] == declared(
                schema@.take(i + 1),
            )[k] by {
                if k < i {
                    assert(declared(names@)[k] == declared(schema@.take(i as int))[k]);
                }
            }
            assert(declared(names@) =~= declared(schema@.take(i + 1)));
            i = i + 1;
        }
        assert(schema@.take(schema@.len() as int) =~= schema@);
        let ghost none = Seq::<Block>::empty();
        assert forall|k: int| 0 <= k < files@.len() implies files@[k].first() =~= stream_first(
            none,
            k,
            codec,
        ) && files@[k].second() =~= stream_second(none, k, codec) by {}
        PartWriter { schema: names, files, num_rows: 0, codec, written: Ghost(none) }
    }

    /// Appends one block: each column's chunk goes to that column's files.
    /// The block must lay out exactly as the part's columns, and each chunk
    /// must fit a block.
    pub fn write_block(&mut self, block: &Block)
        requires
            old(self).wf(),
            block.wf(),
            block_matches(old(self).decls(), *block),
            forall|i: int| 0 <= i < block.cols().len() ==> chunk_fits(#[trigger] block.cols()[i].1),
            old(self).rows() + block.rows() <= usize::MAX,
        ensures
            final(self).wf(),
            final(self).decls() == old(self).decls(),
            final(self).codec_spec() == old(self).codec_spec(),
            final(self).rows() == old(self).rows() + block.rows(),
            final(self).written() == old(self).written().push(*block),
            final(self).files_spec().len() == old(self).files_spec().len(),
            forall|i: int|
                0 <= i < old(self).files_spec().len() ==> (#[trigger] final(self).files_spec()[i]).first()
                    == old(self).files_spec()[i].first() + chunk_frames(block.cols()[i].1, old(self).codec_spec()).0
                    && final(self).files_spec()[i].second() == old(self).files_spec()[i].second()
                    + chunk_frames(block.cols()[i].1, old(self).codec_spec()).1,
    {
        let cols = block.columns();
        let ghost old_files = self.files@;
        let mut rest: Vec<ColumnFiles> = Vec::new();
        std::mem::swap(&mut rest, &mut self.files);
        let mut new_files: Vec<ColumnFiles> = Vec::with_capacity(rest.len());
        let n = rest.len();
        let mut i: usize = 0;
        while i < n
            invariant
                self.schema@.len() == n,
                declared(self.schema@) == old(self).decls(),
                self.codec == old(self).codec_spec(),
                forall|k: int|
                    0 <= k < n ==> (#[trigger] old_files[k]).suits(self.schema@[k].1),
                n == old_files.len(),
                rest@ == old_files.subrange(i as int, n as int),
                cols@ == block.cols(),
                block.wf(),
                block_matches(declared(self.schema@), *block),
                forall|k: int| 0 <= k < block.cols().len() ==> chunk_fits(#[trigger] block.cols()[k].1),
                i <= n,
                new_files@.len() == i,
                forall|k: int| 0 <= k < i ==> chunk_reads_back(#[trigger] block.cols()[k].1, self.codec),
                forall|k: int|
                    0 <= k < i ==> (#[trigger] new_files@[k]).suits(self.schema@[k].1)
                        && new_files@[k].first() == old_files[k].first() + chunk_frames(
                        block.cols()[k].1,
                        self.codec,
                    ).0 && new_files@[k].second() == old_files[k].second() + chunk_frames(
                        block.cols()[k].1,
                        self.codec,
                    ).1,
            decreases n - i,
        {
            assert(self.schema@[i as int].1 == block.cols()[i as int].1.dtype());
            assert(chunk_fits(block.cols()[i as int].1));
            assert(rest@[0] == old_files[i as int]);
            let current = rest.remove(0);
            assert(rest@ =~= old_files.subrange(i + 1, n as int));
            let f = match (current, &cols[i].1) {
                (ColumnFiles::Single(mut out), Column::Int64(v)) => {
                    write_i64_chunk(&mut out, v.as_slice(), self.codec);
                    ColumnFiles::Single(out)
                },
                (ColumnFiles::Single(mut out), Column::Float64(v)) => {
                    write_f64_chunk(&mut out, v.as_slice(), self.codec);
                    ColumnFiles::Single(out)
                },
                (ColumnFiles::Pair { data: mut d, offsets: mut o }, Column::String(c)) => {
                    assert(c.wf());
                    write_str_chunk(&mut d, &mut o, c, self.codec);
                    ColumnFiles::Pair { data: d, offsets: o }
                },
                _ => {
                    proof {
                        assert(false);
                    }
                    ColumnFiles::Single(Vec::new())
                },
            };
            new_files.push(f);
            i = i + 1;
        }
        let ghost written = self.written@.push(*block);
        proof {
            assert forall|k: int| 0 <= k < n implies stream_first(written, k, self.codec)
                == new_files@[k].first() && stream_second(written, k, self.codec)
                == new_files@[k].second() by {
                lemma_streams_push(self.written@, *block, k, self.codec);
            }
            lemma_streams_push(self.written@, *block, 0, self.codec);
            assert(block_written_ok(declared(self.schema@), *block, self.codec));
            assert forall|j: int| 0 <= j < written.len() implies block_written_ok(
                declared(self.schema@),
                #[trigger] written[j],
                self.codec,
            ) by {
                if j < self.written@.len() {
                    assert(written[j] == self.written@[j]);
                }
            }
        }
        self.files = new_files;
        self.num_rows = self.num_rows + block.num_rows();
        self.written = Ghost(written);
    }

    /// The text of the part's `schema.txt`: `version=1`, the row count, and
    /// one line per column.
    pub fn schema_text(&self) -> (t: String)
        ensures
            t@ == part_schema_text(self.decls(), self.rows()),
    {
        let mut t = string_of("version=1\n");
        push_str(&mut t, "num_rows=");
        push_decimal(&mut t, self.num_rows as u64);
        push_str(&mut t, "\n");
        push_column_lines(&mut t, self.schema.as_slice());
        t
    }

    /// The rows written so far.
    pub fn num_rows(&self) -> (n: usize)
        ensures
            n == self.rows(),
    {
        self.num_rows
    }

    /// The files of the part, in column order: `<name>.bin` for a numeric
    /// column, `<name>.data.bin` then `<name>.offsets.bin` for a string
    /// column.
    pub fn files(&self) -> (r: Vec<(String, Vec<u8>)>)
        requires
            self.wf(),
        ensures
            r@.len() == file_count(self.decls()),
            forall|i: int|
                0 <= i < self.decls().len() ==> #[trigger] file_entry_ok(
                    self.decls(),
                    self.files_spec(),
                    r@,
                    i,
                ),
    {
        let mut r: Vec<(String, Vec<u8>)> = Vec::new();
        let mut i: usize = 0;
        while i < self.files.len()
            invariant
                self.wf(),
                i <= self.files@.len(),
                r@.len() == file_count(self.decls().take(i as int)),
                forall|j: int|
                    0 <= j < i ==> #[trigger] file_entry_ok(self.decls(), self.files_spec(), r@, j),
            decreases self.files@.len() - i,
        {
            let ghost before = r@;
            proof {
                lemma_file_count_step(self.decls(), i as int);
            }
            let name = self.schema[i].0.as_str();
            match &self.files[i] {
                ColumnFiles::Single(b) => {
                    let mut n = string_of(name);
                    push_str(&mut n, ".bin");
                    r.push((n, vstd::slice::slice_to_vec(b.as_slice())));
                },
                ColumnFiles::Pair { data, offsets } => {
                    let mut n = string_of(name);
                    push_str(&mut n, ".data.bin");
                    r.push((n, vstd::slice::slice_to_vec(data.as_slice())));
                    let mut m = string_of(name);
                    push_str(&mut m, ".offsets.bin");
                    r.push((m, vstd::slice::slice_to_vec(offsets.as_slice())));
                },
            }
            assert(file_entry_ok(self.decls(), self.files_spec(), r@, i as int));
            assert forall|j: int| 0 <= j < i + 1 implies #[trigger] file_entry_ok(
                self.decls(),
                self.files_spec(),
                r@,
                j,
            ) by {
                if j < i {
                    lemma_file_count_prefix(self.decls(), j, i as int);
                    assert(file_entry_ok(self.decls(), self.files_spec(), before, j));
                    let k = file_count(self.decls().take(j)) as int;
                    assert(r@[k] == before[k]);
                    if self.decls()[j].1 == DataType::String {
                        assert(r@[k + 1] == before[k + 1]);
                    }
                }
            }
            i = i + 1;
        }
        assert(self.decls().take(self.files@.len() as int) =~= self.decls());
        r
    }
}

/// Whether `r` lists the files of column `j` at their place: the column's
/// file names and contents, starting after the files of the earlier
/// columns.
pub open spec fn file_entry_ok(
    decls: Seq<(Seq<char>, DataType)>,
    files: Seq<ColumnFiles>,
    r: Seq<(String, Vec<u8>)>,
    j: int,
) -> bool {
    let k = file_count(decls.take(j)) as int;
    if decls[j].1 == DataType::String {
        &&& k + 1 < r.len()
        &&& r[k].0@ == data_file_name(decls[j].0)
        &&& r[k].1@ == files[j].first()
        &&& r[k + 1].0@ == offsets_file_name(decls[j].0)
        &&& r[k + 1].1@ == files[j].second()
    } else {
        &&& k < r.len()
        &&& r[k].0@ == single_file_name(decls[j].0)
        &&& r[k].1@ == files[j].first()
    }
}

/// The number of files the declarations `decls` need.
pub open spec fn file_count(decls: Seq<(Seq<char>, DataType)>) -> nat
    decreases decls.len(),
{
    if decls.len() == 0 {
        0
    } else {
        file_count(decls.drop_last()) + if decls.last().1 == DataType::String {
            2nat
        } else {
            1nat
        }
    }
}

proof fn lemma_file_count_step(decls: Seq<(Seq<char>, DataType)>, i: int)
    requires
        0 <= i < decls.len(),
    ensures
        file_count(decls.take(i + 1)) == file_count(decls.take(i)) + if decls[i].1
            == DataType::String {
            2nat
        } else {
            1nat
        },
{
    assert(decls.take(i + 1).drop_last() =~= decls.take(i));
}

proof fn lemma_file_count_prefix(decls: Seq<(Seq<char>, DataType)>, j: int, i: int)
    requires
        0 <= j < i <= decls.len(),
    ensures
        file_count(decls.take(j)) + if decls[j].1 == DataType::String {
            2nat
        } else {
            1nat
        } <= file_count(decls.take(i)),
    decreases i - j,
{
    lemma_file_count_step(decls, i - 1);
    if j < i - 1 {
        lemma_file_count_prefix(decls, j, i - 1);
    }
}

} // verus!
