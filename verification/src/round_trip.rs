//! What reading a part gives back of what was written to it: chunk by
//! chunk, and block by block over the whole part.
use crate::block::Block;
use crate::codec::{frame, read_block_spec, reads_block, Codec};
use crate::column::Column;
use crate::column_io::{
    bytes_offsets, bytes_words, i64_chunk_bytes, i64_words, lemma_i64_words_round_trip,
    lemma_offsets_round_trip, lemma_words_round_trip, offsets_bytes, str_chunk_spec,
    word_chunk_spec, words_bytes, words_i64,
};
use crate::data_type::DataType;
use crate::text::decimal;
use crate::block::{lemma_name_index_bounds, name_index};
use crate::part_reader::{
    chunk_spec, file_bytes, files_of, next_block_spec, opens_projection, scan_from, ChunkView,
    ReaderView,
};
use crate::part_writer::{
    block_written_ok, chunk_fits, chunk_frames, chunk_reads_back, file_count, file_entry_ok,
    stream_first, stream_second, total_rows, written_ok, ColumnFiles, PartWriter,
};
use crate::string_column::{lemma_valid_parts_no_problem, parts_problem, slots};

use vstd::prelude::*;

verus! {

/// The chunk a reader gives for a column holding `c`.
pub open spec fn chunk_view(c: Column) -> ChunkView {
    match c {
        Column::Int64(v) => ChunkView::Int64(v@),
        Column::Float64(v) => ChunkView::Float64(v@),
        Column::String(s) => ChunkView::Str(s@),
    }
}

/// Reading the frame of a run of words gives the words back.
proof fn lemma_word_chunk_round_trip(w: Seq<u64>, codec: Codec, tail: Seq<u8>, kind: Seq<char>)
    requires
        crate::codec::frame_reads_back(words_bytes(w), codec),
    ensures
        word_chunk_spec(frame(words_bytes(w), codec) + tail, kind) == Ok::<
            Option<(Seq<u64>, nat)>,
            Seq<char>,
        >(Some((w, frame(words_bytes(w), codec).len()))),
{
    let raw = words_bytes(w);
    assert(reads_block(frame(raw, codec) + tail, raw, frame(raw, codec).len()));
    lemma_words_round_trip(w);
    assert(raw.len() % 8 == 0);
}

/// Reading the frames of a string chunk gives its strings back.
proof fn lemma_str_chunk_round_trip(
    s: crate::string_column::StringColumn,
    codec: Codec,
    a_tail: Seq<u8>,
    b_tail: Seq<u8>,
)
    requires
        s.wf(),
        crate::codec::frame_reads_back(s.bytes(), codec),
        crate::codec::frame_reads_back(offsets_bytes(s.offs()), codec),
    ensures
        str_chunk_spec(
            frame(s.bytes(), codec) + a_tail,
            frame(offsets_bytes(s.offs()), codec) + b_tail,
        ) == Ok::<Option<(Seq<Seq<u8>>, nat, nat)>, Seq<char>>(
            Some(
                (
                    s@,
                    frame(s.bytes(), codec).len(),
                    frame(offsets_bytes(s.offs()), codec).len(),
                ),
            ),
        ),
{
    let data = s.bytes();
    let ob = offsets_bytes(s.offs());
    assert(reads_block(frame(data, codec) + a_tail, data, frame(data, codec).len()));
    assert(reads_block(frame(ob, codec) + b_tail, ob, frame(ob, codec).len()));
    lemma_offsets_round_trip(s.offs());
    assert(ob.len() % 4 == 0);
    s.lemma_view_is_slots();
    lemma_valid_parts_no_problem(data, s.offs());
}

/// Reading the frames one column chunk was written as gives the chunk
/// back, and leaves exactly what followed the frames in each stream.
pub proof fn lemma_chunk_round_trip(c: Column, codec: Codec, a_tail: Seq<u8>, b_tail: Seq<u8>)
    requires
        c.wf(),
        chunk_fits(c),
        chunk_reads_back(c, codec),
    ensures
        chunk_spec(c.dtype(), chunk_frames(c, codec).0 + a_tail, chunk_frames(c, codec).1 + b_tail)
            == Ok::<Option<(ChunkView, Seq<u8>, Seq<u8>)>, Seq<char>>(
            Some((chunk_view(c), a_tail, b_tail)),
        ),
{
    let (fa, fb) = chunk_frames(c, codec);
    let a = fa + a_tail;
    let b = fb + b_tail;
    assert(a.skip(fa.len() as int) =~= a_tail);
    assert(b.skip(fb.len() as int) =~= b_tail);
    match c {
        Column::Int64(v) => {
            lemma_word_chunk_round_trip(i64_words(v@), codec, a_tail, "i64"@);
            lemma_i64_words_round_trip(v@);
            assert(b =~= b_tail);
        },
        Column::Float64(v) => {
            lemma_word_chunk_round_trip(v@, codec, a_tail, "f64"@);
            assert(b =~= b_tail);
        },
        Column::String(s) => {
            lemma_str_chunk_round_trip(s, codec, a_tail, b_tail);
        },
    }
}

/// At the end of both streams a reader reports a clean end.
proof fn lemma_chunk_at_end(dt: DataType)
    ensures
        chunk_spec(dt, Seq::empty(), Seq::empty()) == Ok::<
            Option<(ChunkView, Seq<u8>, Seq<u8>)>,
            Seq<char>,
        >(None),
{
    assert(read_block_spec(Seq::empty()) == Ok::<Option<(Seq<u8>, nat)>, Seq<char>>(None));
}

/// Reading one chunk from each reader, when every reader has a chunk of
/// `r` rows, collects all of them in order and ends no stream.
proof fn lemma_scan_all_chunks(
    decls: Seq<(Seq<char>, DataType)>,
    rv: Seq<ReaderView>,
    res: Seq<(ChunkView, Seq<u8>, Seq<u8>)>,
    r: nat,
    i: int,
    chunks: Seq<(Seq<char>, ChunkView)>,
    out: Seq<ReaderView>,
)
    requires
        rv.len() > 0,
        0 <= i <= rv.len(),
        res.len() == rv.len(),
        forall|k: int|
            0 <= k < rv.len() ==> 0 <= (#[trigger] rv[k]).0 < decls.len() && chunk_spec(
                decls[rv[k].0].1,
                rv[k].1,
                rv[k].2,
            ) == Ok::<Option<(ChunkView, Seq<u8>, Seq<u8>)>, Seq<char>>(Some(res[k]))
                && res[k].0.len() == r,
    ensures
        scan_from(decls, rv, i, if i == 0 { None } else { Some(r) }, 0, chunks, out) == Ok::<
            (Option<nat>, nat, Seq<(Seq<char>, ChunkView)>, Seq<ReaderView>),
            (bool, Seq<char>),
        >(
            (
                Some(r),
                0,
                chunks + Seq::new(
                    (rv.len() - i) as nat,
                    |k: int| (decls[rv[i + k].0].0, res[i + k].0),
                ),
                out + Seq::new(
                    (rv.len() - i) as nat,
                    |k: int| (rv[i + k].0, res[i + k].1, res[i + k].2),
                ),
            ),
        ),
    decreases rv.len() - i,
{
    let tc = Seq::new((rv.len() - i) as nat, |k: int| (decls[rv[i + k].0].0, res[i + k].0));
    let to = Seq::new((rv.len() - i) as nat, |k: int| (rv[i + k].0, res[i + k].1, res[i + k].2));
    if i == rv.len() {
        assert(chunks + tc =~= chunks);
        assert(out + to =~= out);
    } else {
        let (idx, a, b) = rv[i];
        let name = decls[idx].0;
        let (c, a2, b2) = res[i];
        let c2 = chunks.push((name, c));
        let o2 = out.push((idx, a2, b2));
        lemma_scan_all_chunks(decls, rv, res, r, i + 1, c2, o2);
        let tc1 = Seq::new(
            (rv.len() - (i + 1)) as nat,
            |k: int| (decls[rv[i + 1 + k].0].0, res[i + 1 + k].0),
        );
        let to1 = Seq::new(
            (rv.len() - (i + 1)) as nat,
            |k: int| (rv[i + 1 + k].0, res[i + 1 + k].1, res[i + 1 + k].2),
        );
        assert(c2 + tc1 =~= chunks + tc);
        assert(o2 + to1 =~= out + to);
    }
}

/// When every stream has ended, reading collects nothing and every reader
/// reports its end.
proof fn lemma_scan_all_ended(
    decls: Seq<(Seq<char>, DataType)>,
    rv: Seq<ReaderView>,
    i: int,
)
    requires
        0 <= i <= rv.len(),
        forall|k: int|
            0 <= k < rv.len() ==> 0 <= (#[trigger] rv[k]).0 < decls.len() && chunk_spec(
                decls[rv[k].0].1,
                rv[k].1,
                rv[k].2,
            ) == Ok::<Option<(ChunkView, Seq<u8>, Seq<u8>)>, Seq<char>>(None),
    ensures
        scan_from(decls, rv, i, None, i as nat, Seq::empty(), rv.take(i)) == Ok::<
            (Option<nat>, nat, Seq<(Seq<char>, ChunkView)>, Seq<ReaderView>),
            (bool, Seq<char>),
        >((None, rv.len(), Seq::empty(), rv)),
    decreases rv.len() - i,
{
    if i == rv.len() {
        assert(rv.take(i) =~= rv);
    } else {
        assert(rv.take(i).push(rv[i]) =~= rv.take(i + 1));
        lemma_scan_all_ended(decls, rv, i + 1);
    }
}

/// The reader views of the projected columns `idxs` over the streams that
/// `blocks` were written as.
pub open spec fn stream_views(blocks: Seq<Block>, idxs: Seq<int>, codec: Codec) -> Seq<ReaderView> {
    Seq::new(
        idxs.len(),
        |k: int| (idxs[k], stream_first(blocks, idxs[k], codec), stream_second(blocks, idxs[k], codec)),
    )
}

/// The named chunks of the projected columns `idxs` of block `b`.
pub open spec fn block_chunks(
    decls: Seq<(Seq<char>, DataType)>,
    b: Block,
    idxs: Seq<int>,
) -> Seq<(Seq<char>, ChunkView)> {
    Seq::new(idxs.len(), |k: int| (decls[idxs[k]].0, chunk_view(b.cols()[idxs[k]].1)))
}

/// Whether `idxs` projects at least one declared column.
pub open spec fn projects(decls: Seq<(Seq<char>, DataType)>, idxs: Seq<int>) -> bool {
    &&& idxs.len() > 0
    &&& forall|k: int| 0 <= k < idxs.len() ==> 0 <= #[trigger] idxs[k] < decls.len()
}

/// The read of block `j` of a written part.
proof fn lemma_read_inner_block(
    decls: Seq<(Seq<char>, DataType)>,
    blocks: Seq<Block>,
    codec: Codec,
    idxs: Seq<int>,
    j: int,
    rows_read: nat,
    num_rows: nat,
)
    requires
        written_ok(decls, blocks, codec),
        projects(decls, idxs),
        0 <= j < blocks.len(),
    ensures
        next_block_spec(decls, stream_views(blocks.skip(j), idxs, codec), rows_read, num_rows)
            == Ok::<
            Option<(Seq<(Seq<char>, ChunkView)>, nat, Seq<ReaderView>)>,
            (bool, Seq<char>),
        >(
            Some(
                (
                    block_chunks(decls, blocks[j], idxs),
                    blocks[j].rows(),
                    stream_views(blocks.skip(j + 1), idxs, codec),
                ),
            ),
        ),
{
    let rv = stream_views(blocks.skip(j), idxs, codec);
    let bs = blocks.skip(j);
    let b = blocks[j];
    assert(bs[0] == b);
    assert(bs.drop_first() =~= blocks.skip(j + 1));
    assert(block_written_ok(decls, b, codec));
    let res = Seq::new(
        idxs.len(),
        |k: int|
            (
                chunk_view(b.cols()[idxs[k]].1),
                stream_first(blocks.skip(j + 1), idxs[k], codec),
                stream_second(blocks.skip(j + 1), idxs[k], codec),
            ),
    );
    assert forall|k: int| 0 <= k < rv.len() implies 0 <= (#[trigger] rv[k]).0 < decls.len()
        && chunk_spec(decls[rv[k].0].1, rv[k].1, rv[k].2) == Ok::<
        Option<(ChunkView, Seq<u8>, Seq<u8>)>,
        Seq<char>,
    >(Some(res[k])) && res[k].0.len() == b.rows() by {
        let idx = idxs[k];
        let c = b.cols()[idx].1;
        assert(c.wf() && c.rows() == b.rows());
        assert(chunk_fits(c) && chunk_reads_back(c, codec));
        assert(c.dtype() == decls[idx].1);
        lemma_chunk_round_trip(
            c,
            codec,
            stream_first(blocks.skip(j + 1), idx, codec),
            stream_second(blocks.skip(j + 1), idx, codec),
        );
    }
    lemma_scan_all_chunks(decls, rv, res, b.rows(), 0, Seq::empty(), Seq::empty());
    let tc = Seq::new((rv.len() - 0) as nat, |k: int| (decls[rv[0 + k].0].0, res[0 + k].0));
    let to = Seq::new((rv.len() - 0) as nat, |k: int| (rv[0 + k].0, res[0 + k].1, res[0 + k].2));
    assert(Seq::<(Seq<char>, ChunkView)>::empty() + tc =~= block_chunks(decls, b, idxs));
    assert(Seq::<ReaderView>::empty() + to =~= stream_views(blocks.skip(j + 1), idxs, codec));
}

/// The read after the last block of a written part.
proof fn lemma_read_past_end(
    decls: Seq<(Seq<char>, DataType)>,
    blocks: Seq<Block>,
    codec: Codec,
    idxs: Seq<int>,
    num_rows: nat,
)
    requires
        projects(decls, idxs),
    ensures
        next_block_spec(decls, stream_views(blocks.skip(blocks.len() as int), idxs, codec), num_rows, num_rows)
            == Ok::<
            Option<(Seq<(Seq<char>, ChunkView)>, nat, Seq<ReaderView>)>,
            (bool, Seq<char>),
        >(None),
{
    let rv = stream_views(blocks.skip(blocks.len() as int), idxs, codec);
    assert(blocks.skip(blocks.len() as int) =~= Seq::<Block>::empty());
    assert forall|k: int| 0 <= k < rv.len() implies 0 <= (#[trigger] rv[k]).0 < decls.len()
        && chunk_spec(decls[rv[k].0].1, rv[k].1, rv[k].2) == Ok::<
        Option<(ChunkView, Seq<u8>, Seq<u8>)>,
        Seq<char>,
    >(None) by {
        lemma_chunk_at_end(decls[idxs[k]].1);
    }
    lemma_scan_all_ended(decls, rv, 0);
    assert(rv.take(0) =~= Seq::<ReaderView>::empty());
}

/// Reading a part back gives what was written to it. With the readers of
/// any projection placed after the first `j` blocks, and the rows of those
/// blocks counted as read, the next read gives block `j`'s projected chunks
/// with its row count and moves every reader past it, and the rows read
/// are then those of the first `j + 1` blocks; after the last block the
/// read reports the end of the part.
pub proof fn lemma_written_blocks_read_back(
    decls: Seq<(Seq<char>, DataType)>,
    blocks: Seq<Block>,
    codec: Codec,
    idxs: Seq<int>,
    j: int,
)
    requires
        written_ok(decls, blocks, codec),
        projects(decls, idxs),
        0 <= j <= blocks.len(),
    ensures
        j < blocks.len() ==> next_block_spec(
            decls,
            stream_views(blocks.skip(j), idxs, codec),
            total_rows(blocks.take(j)),
            total_rows(blocks),
        ) == Ok::<
            Option<(Seq<(Seq<char>, ChunkView)>, nat, Seq<ReaderView>)>,
            (bool, Seq<char>),
        >(
            Some(
                (
                    block_chunks(decls, blocks[j], idxs),
                    blocks[j].rows(),
                    stream_views(blocks.skip(j + 1), idxs, codec),
                ),
            ),
        ),
        j < blocks.len() ==> total_rows(blocks.take(j)) + blocks[j].rows() == total_rows(
            blocks.take(j + 1),
        ),
        j == blocks.len() ==> next_block_spec(
            decls,
            stream_views(blocks.skip(j), idxs, codec),
            total_rows(blocks.take(j)),
            total_rows(blocks),
        ) == Ok::<
            Option<(Seq<(Seq<char>, ChunkView)>, nat, Seq<ReaderView>)>,
            (bool, Seq<char>),
        >(None),
{
    if j < blocks.len() {
        assert(blocks.take(j + 1) =~= blocks.take(j).push(blocks[j]));
        crate::part_writer::lemma_streams_push(blocks.take(j), blocks[j], 0, codec);
        lemma_read_inner_block(decls, blocks, codec, idxs, j, total_rows(blocks.take(j)), total_rows(blocks));
    } else {
        assert(blocks.take(j) =~= blocks);
        lemma_read_past_end(decls, blocks, codec, idxs, total_rows(blocks));
    }
}


/// Whether no two files of a part share a name.
pub open spec fn file_names_distinct(files: Seq<(String, Vec<u8>)>) -> bool {
    forall|a: int, b: int| 0 <= a < b < files.len() ==> (#[trigger] files[a]).0@ != (
    #[trigger] files[b]).0@
}

proof fn lemma_distinct_name_found(files: Seq<(String, Vec<u8>)>, k: int)
    requires
        file_names_distinct(files),
        0 <= k < files.len(),
    ensures
        name_index(files, files[k].0@) == Some(k),
    decreases files.len(),
{
    let n = files[k].0@;
    let front = files.drop_last();
    assert forall|a: int, b: int| 0 <= a < b < front.len() implies (#[trigger] front[a]).0@ != (
    #[trigger] front[b]).0@ by {
        assert(front[a] == files[a] && front[b] == files[b]);
    }
    if k < files.len() - 1 {
        assert(front[k] == files[k]);
        lemma_distinct_name_found(front, k);
    } else {
        lemma_name_index_bounds(front, n);
        if let Some(i) = name_index(front, n) {
            assert(front[i] == files[i]);
            assert(files[i].0@ != files[k].0@);
        }
    }
}

/// The files listed for a written part hold, under each column's file
/// names, the streams of the blocks written, when no two files share a name.
pub proof fn lemma_files_hold_streams(w: PartWriter, files: Seq<(String, Vec<u8>)>, j: int)
    requires
        w.wf(),
        files.len() == file_count(w.decls()),
        forall|i: int| 0 <= i < w.decls().len() ==> #[trigger] file_entry_ok(
            w.decls(),
            w.files_spec(),
            files,
            i,
        ),
        file_names_distinct(files),
        0 <= j < w.decls().len(),
    ensures
        file_bytes(files, files_of(w.decls()[j].0, w.decls()[j].1)[0]) == Some(
            stream_first(w.written(), j, w.codec_spec()),
        ),
        files_of(w.decls()[j].0, w.decls()[j].1).len() > 1 ==> file_bytes(
            files,
            files_of(w.decls()[j].0, w.decls()[j].1)[1],
        ) == Some(stream_second(w.written(), j, w.codec_spec())),
        files_of(w.decls()[j].0, w.decls()[j].1).len() == 1 ==> stream_second(
            w.written(),
            j,
            w.codec_spec(),
        ).len() == 0,
{
    w.lemma_wf_facts();
    assert(file_entry_ok(w.decls(), w.files_spec(), files, j));
    let k = file_count(w.decls().take(j)) as int;
    lemma_distinct_name_found(files, k);
    if w.decls()[j].1 == DataType::String {
        lemma_distinct_name_found(files, k + 1);
    } else {
        assert(w.files_spec()[j] is Single);
    }
}

/// The indexes of the columns that reader views read.
pub open spec fn view_columns(rv: Seq<ReaderView>) -> Seq<int> {
    rv.map_values(|r: ReaderView| r.0)
}

/// A reader opened on the files of a written part sees, for every column
/// it reads, exactly the streams those blocks were written as; so reading
/// it back gives the blocks written, as `lemma_written_blocks_read_back`
/// states.
pub proof fn lemma_reader_sees_writer(
    w: PartWriter,
    files: Seq<(String, Vec<u8>)>,
    cols: Seq<Seq<char>>,
    rv: Seq<ReaderView>,
)
    requires
        w.wf(),
        files.len() == file_count(w.decls()),
        forall|i: int| 0 <= i < w.decls().len() ==> #[trigger] file_entry_ok(
            w.decls(),
            w.files_spec(),
            files,
            i,
        ),
        file_names_distinct(files),
        opens_projection(w.decls(), cols, files, rv),
        rv.len() > 0,
        forall|k: int| 0 <= k < rv.len() ==> 0 <= (#[trigger] rv[k]).0 < w.decls().len(),
    ensures
        rv == stream_views(w.written(), view_columns(rv), w.codec_spec()),
        projects(w.decls(), view_columns(rv)),
        written_ok(w.decls(), w.written(), w.codec_spec()),
        w.rows() == total_rows(w.written()),
{
    w.lemma_wf_facts();
    let idxs = view_columns(rv);
    let sv = stream_views(w.written(), idxs, w.codec_spec());
    assert forall|k: int| 0 <= k < rv.len() implies #[trigger] rv[k] == sv[k] by {
        let (idx, a, b) = rv[k];
        lemma_files_hold_streams(w, files, idx);
        let names = files_of(w.decls()[idx].0, w.decls()[idx].1);
        assert(file_bytes(files, names[0]) == Some(a));
        if names.len() > 1 {
            assert(file_bytes(files, names[1]) == Some(b));
        } else {
            assert(b =~= stream_second(w.written(), idx, w.codec_spec()));
        }
    }
    assert(rv =~= sv);
    assert forall|k: int| 0 <= k < idxs.len() implies 0 <= #[trigger] idxs[k] < w.decls().len() by {
        assert(idxs[k] == rv[k].0);
    }
}

/// Whether reader `k` of `rv` has a next chunk of `r` rows or has ended.
pub open spec fn chunk_or_end(decls: Seq<(Seq<char>, DataType)>, rv: Seq<ReaderView>, k: int, r: nat) -> bool {
    match chunk_spec(decls[rv[k].0].1, rv[k].1, rv[k].2) {
        Ok(None) => true,
        Ok(Some((c, _, _))) => c.len() == r,
        Err(_) => false,
    }
}

/// How many of the readers `rv[i..]` have ended.
pub open spec fn ended_from(decls: Seq<(Seq<char>, DataType)>, rv: Seq<ReaderView>, i: int) -> nat
    decreases rv.len() - i,
{
    if i < 0 || i >= rv.len() {
        0
    } else {
        ended_from(decls, rv, i + 1) + if chunk_spec(decls[rv[i].0].1, rv[i].1, rv[i].2) matches Ok(
            None,
        ) {
            1nat
        } else {
            0nat
        }
    }
}

/// When every reader from `i` on has ended or has a chunk of `r` rows, the
/// scan does not fail and counts the ended ones.
proof fn lemma_scan_counts_ends(
    decls: Seq<(Seq<char>, DataType)>,
    rv: Seq<ReaderView>,
    r: nat,
    i: int,
    len: Option<nat>,
    ended: nat,
    chunks: Seq<(Seq<char>, ChunkView)>,
    out: Seq<ReaderView>,
)
    requires
        0 <= i <= rv.len(),
        len is None || len == Some(r),
        forall|k: int| 0 <= k < rv.len() ==> 0 <= (#[trigger] rv[k]).0 < decls.len(),
        forall|k: int| i <= k < rv.len() ==> #[trigger] chunk_or_end(decls, rv, k, r),
    ensures
        scan_from(decls, rv, i, len, ended, chunks, out) matches Ok(res) && res.1 == ended
            + ended_from(decls, rv, i),
    decreases rv.len() - i,
{
    if i < rv.len() {
        assert(chunk_or_end(decls, rv, i, r));
        let (idx, a, b) = rv[i];
        match chunk_spec(decls[idx].1, a, b) {
            Ok(None) => {
                lemma_scan_counts_ends(decls, rv, r, i + 1, len, ended + 1, chunks, out.push((idx, a, b)));
            },
            Ok(Some((c, a2, b2))) => {
                lemma_scan_counts_ends(
                    decls,
                    rv,
                    r,
                    i + 1,
                    Some(r),
                    ended,
                    chunks.push((decls[idx].0, c)),
                    out.push((idx, a2, b2)),
                );
            },
            Err(_) => {},
        }
    }
}

/// When every projected column's next chunk decodes and all have `r` rows,
/// `next_block` gives the block of those chunks, each named by its column,
/// in reader order (which an open reader keeps in schema order, see
/// `PartReader::lemma_wf_views`), with `r` rows, and moves every reader
/// past its chunk.
pub proof fn lemma_next_block_of_agreeing_chunks(
    decls: Seq<(Seq<char>, DataType)>,
    rv: Seq<ReaderView>,
    res: Seq<(ChunkView, Seq<u8>, Seq<u8>)>,
    r: nat,
    rows_read: nat,
    num_rows: nat,
)
    requires
        rv.len() > 0,
        res.len() == rv.len(),
        forall|k: int|
            0 <= k < rv.len() ==> 0 <= (#[trigger] rv[k]).0 < decls.len() && chunk_spec(
                decls[rv[k].0].1,
                rv[k].1,
                rv[k].2,
            ) == Ok::<Option<(ChunkView, Seq<u8>, Seq<u8>)>, Seq<char>>(Some(res[k]))
                && res[k].0.len() == r,
    ensures
        next_block_spec(decls, rv, rows_read, num_rows) == Ok::<
            Option<(Seq<(Seq<char>, ChunkView)>, nat, Seq<ReaderView>)>,
            (bool, Seq<char>),
        >(
            Some(
                (
                    Seq::new(rv.len(), |k: int| (decls[rv[k].0].0, res[k].0)),
                    r,
                    Seq::new(rv.len(), |k: int| (rv[k].0, res[k].1, res[k].2)),
                ),
            ),
        ),
{
    lemma_scan_all_chunks(decls, rv, res, r, 0, Seq::empty(), Seq::empty());
    assert(Seq::<(Seq<char>, ChunkView)>::empty() + Seq::new(
        (rv.len() - 0) as nat,
        |k: int| (decls[rv[0 + k].0].0, res[0 + k].0),
    ) =~= Seq::new(rv.len(), |k: int| (decls[rv[k].0].0, res[k].0)));
    assert(Seq::<ReaderView>::empty() + Seq::new(
        (rv.len() - 0) as nat,
        |k: int| (rv[0 + k].0, res[0 + k].1, res[0 + k].2),
    ) =~= Seq::new(rv.len(), |k: int| (rv[k].0, res[k].1, res[k].2)));
}

/// When every projected column (at least one) has ended, `next_block`
/// reports the end of the part if all the declared rows were read, and a
/// truncated part otherwise.
pub proof fn lemma_next_block_at_end(
    decls: Seq<(Seq<char>, DataType)>,
    rv: Seq<ReaderView>,
    rows_read: nat,
    num_rows: nat,
)
    requires
        rv.len() > 0,
        forall|k: int|
            0 <= k < rv.len() ==> 0 <= (#[trigger] rv[k]).0 < decls.len() && chunk_spec(
                decls[rv[k].0].1,
                rv[k].1,
                rv[k].2,
            ) == Ok::<Option<(ChunkView, Seq<u8>, Seq<u8>)>, Seq<char>>(None),
    ensures
        rows_read == num_rows ==> next_block_spec(decls, rv, rows_read, num_rows) == Ok::<
            Option<(Seq<(Seq<char>, ChunkView)>, nat, Seq<ReaderView>)>,
            (bool, Seq<char>),
        >(None),
        rows_read != num_rows ==> next_block_spec(decls, rv, rows_read, num_rows) == Err::<
            Option<(Seq<(Seq<char>, ChunkView)>, nat, Seq<ReaderView>)>,
            (bool, Seq<char>),
        >(
            (
                false,
                "part truncated: schema declares "@ + decimal(num_rows) + " rows, files contain "@
                    + decimal(rows_read),
            ),
        ),
{
    lemma_scan_all_ended(decls, rv, 0);
    assert(rv.take(0) =~= Seq::<ReaderView>::empty());
}

/// When no projected column's next chunk fails and those present agree on
/// their row count, but some columns have ended and others have not,
/// `next_block` reports columns out of sync.
pub proof fn lemma_next_block_partly_ended(
    decls: Seq<(Seq<char>, DataType)>,
    rv: Seq<ReaderView>,
    r: nat,
    rows_read: nat,
    num_rows: nat,
)
    requires
        forall|k: int| 0 <= k < rv.len() ==> 0 <= (#[trigger] rv[k]).0 < decls.len(),
        forall|k: int| 0 <= k < rv.len() ==> #[trigger] chunk_or_end(decls, rv, k, r),
        0 < ended_from(decls, rv, 0) < rv.len(),
    ensures
        next_block_spec(decls, rv, rows_read, num_rows) == Err::<
            Option<(Seq<(Seq<char>, ChunkView)>, nat, Seq<ReaderView>)>,
            (bool, Seq<char>),
        >((false, "column files out of sync: some ended, some continue"@)),
{
    lemma_scan_counts_ends(decls, rv, r, 0, None, 0, Seq::empty(), Seq::empty());
}

/// With the row count `l` already set, a scan from `i` fails at reader `m`
/// when the readers before it have ended or have chunks of `l` rows and
/// reader `m`'s chunk has another count, whatever was collected so far.
proof fn lemma_scan_meets_mismatch(
    decls: Seq<(Seq<char>, DataType)>,
    rv: Seq<ReaderView>,
    l: nat,
    m: int,
    i: int,
    ended: nat,
    chunks: Seq<(Seq<char>, ChunkView)>,
    out: Seq<ReaderView>,
)
    requires
        0 <= i <= m < rv.len(),
        forall|k: int| 0 <= k < rv.len() ==> 0 <= (#[trigger] rv[k]).0 < decls.len(),
        forall|k: int| i <= k < m ==> #[trigger] chunk_or_end(decls, rv, k, l),
        chunk_spec(decls[rv[m].0].1, rv[m].1, rv[m].2) matches Ok(Some((c, _, _))) && c.len()
            != l,
    ensures
        scan_from(decls, rv, i, Some(l), ended, chunks, out) == Err::<
            (Option<nat>, nat, Seq<(Seq<char>, ChunkView)>, Seq<ReaderView>),
            (bool, Seq<char>),
        >(
            (
                false,
                "column files out of sync: '"@ + decls[rv[m].0].0 + "' chunk has "@ + decimal(
                    chunk_spec(decls[rv[m].0].1, rv[m].1, rv[m].2)->Ok_0->Some_0.0.len(),
                ) + " rows, expected "@ + decimal(l),
            ),
        ),
    decreases m - i,
{
    if i < m {
        assert(chunk_or_end(decls, rv, i, l));
        let (idx, a, b) = rv[i];
        match chunk_spec(decls[idx].1, a, b) {
            Ok(None) => {
                lemma_scan_meets_mismatch(decls, rv, l, m, i + 1, ended + 1, chunks, out.push((idx, a, b)));
            },
            Ok(Some((c, a2, b2))) => {
                lemma_scan_meets_mismatch(
                    decls,
                    rv,
                    l,
                    m,
                    i + 1,
                    ended,
                    chunks.push((decls[idx].0, c)),
                    out.push((idx, a2, b2)),
                );
            },
            Err(_) => {},
        }
    }
}

/// When the first projected column with a chunk, `f`, has `l` rows, the
/// columns after it up to `m` have ended or have chunks of `l` rows, and
/// column `m`'s chunk has another count, `next_block` reports that column
/// out of sync, naming it, its count and `l`.
pub proof fn lemma_next_block_out_of_sync(
    decls: Seq<(Seq<char>, DataType)>,
    rv: Seq<ReaderView>,
    f: int,
    m: int,
    rows_read: nat,
    num_rows: nat,
)
    requires
        0 <= f < m < rv.len(),
        forall|k: int| 0 <= k < rv.len() ==> 0 <= (#[trigger] rv[k]).0 < decls.len(),
        forall|k: int|
            0 <= k < f ==> chunk_spec(decls[(#[trigger] rv[k]).0].1, rv[k].1, rv[k].2) == Ok::<
                Option<(ChunkView, Seq<u8>, Seq<u8>)>,
                Seq<char>,
            >(None),
        chunk_spec(decls[rv[f].0].1, rv[f].1, rv[f].2) is Ok,
        chunk_spec(decls[rv[f].0].1, rv[f].1, rv[f].2)->Ok_0 is Some,
        forall|k: int|
            f < k < m ==> #[trigger] chunk_or_end(
                decls,
                rv,
                k,
                chunk_spec(decls[rv[f].0].1, rv[f].1, rv[f].2)->Ok_0->Some_0.0.len(),
            ),
        chunk_spec(decls[rv[m].0].1, rv[m].1, rv[m].2) matches Ok(Some((c, _, _))) && c.len()
            != chunk_spec(decls[rv[f].0].1, rv[f].1, rv[f].2)->Ok_0->Some_0.0.len(),
    ensures
        next_block_spec(decls, rv, rows_read, num_rows) == Err::<
            Option<(Seq<(Seq<char>, ChunkView)>, nat, Seq<ReaderView>)>,
            (bool, Seq<char>),
        >(
            (
                false,
                "column files out of sync: '"@ + decls[rv[m].0].0 + "' chunk has "@ + decimal(
                    chunk_spec(decls[rv[m].0].1, rv[m].1, rv[m].2)->Ok_0->Some_0.0.len(),
                ) + " rows, expected "@ + decimal(
                    chunk_spec(decls[rv[f].0].1, rv[f].1, rv[f].2)->Ok_0->Some_0.0.len(),
                ),
            ),
        ),
{
    let (cf, af, bf) = chunk_spec(decls[rv[f].0].1, rv[f].1, rv[f].2)->Ok_0->Some_0;
    let l = cf.len();
    assert(rv.take(0) =~= Seq::<ReaderView>::empty());
    lemma_scan_reaches_first(decls, rv, f, 0, Seq::empty());
    lemma_scan_meets_mismatch(
        decls,
        rv,
        l,
        m,
        f + 1,
        f as nat,
        seq![(decls[rv[f].0].0, cf)],
        rv.take(f).push((rv[f].0, af, bf)),
    );
}

/// Before the first reader with a chunk, every reader has ended: the scan
/// from `i` reaches reader `f` having counted them and collected nothing.
proof fn lemma_scan_reaches_first(
    decls: Seq<(Seq<char>, DataType)>,
    rv: Seq<ReaderView>,
    f: int,
    i: int,
    out: Seq<ReaderView>,
)
    requires
        0 <= i <= f < rv.len(),
        out == rv.take(i),
        forall|k: int| 0 <= k < rv.len() ==> 0 <= (#[trigger] rv[k]).0 < decls.len(),
        forall|k: int|
            0 <= k < f ==> chunk_spec(decls[(#[trigger] rv[k]).0].1, rv[k].1, rv[k].2) == Ok::<
                Option<(ChunkView, Seq<u8>, Seq<u8>)>,
                Seq<char>,
            >(None),
    ensures
        scan_from(decls, rv, i, None, i as nat, Seq::empty(), out) == scan_from(
            decls,
            rv,
            f,
            None,
            f as nat,
            Seq::empty(),
            rv.take(f),
        ),
    decreases f - i,
{
    if i < f {
        assert(rv.take(i).push(rv[i]) =~= rv.take(i + 1));
        lemma_scan_reaches_first(decls, rv, f, i + 1, rv.take(i + 1));
    }
}

} // verus!
