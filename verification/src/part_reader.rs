//! Reading a part back: its `schema.txt` and, block by block, the column
//! files of a projection.
use crate::block::{
    lemma_name_index_bounds, lemma_name_index_prefix, lemma_name_index_step, name_index, Block,
};
use crate::codec::{block_len, read_block_spec, ByteCursor, MAX_BLOCK_SIZE};
use crate::column::Column;
use crate::column_io::{
    read_f64_chunk, read_i64_chunk, read_str_chunk, str_chunk_spec, word_chunk_spec, words_i64,
};
use crate::data_type::DataType;
use crate::helpers::unique_names;
use crate::part_writer::{data_file_name, offsets_file_name, single_file_name};
use crate::schema::declared;
use crate::text::{decimal, push_decimal, push_str};
use crate::error::StorageError;
use crate::schema::Schema;
use crate::schema_text::{
    check_schema, checked_decls, decls_from, lines_of, parse_column_lines, split_lines,
    strip_prefix, strip_prefix_chars,
};
use crate::text::{chars_of, parse_usize, parse_usize_spec, push_chars, str_is, string_of};
use vstd::prelude::*;

verus! {

/// A failed read of a schema file: `(true, found)` for an unsupported
/// version `found`, `(false, message)` for a corrupt file.
pub type SchemaFileFailure = (bool, Seq<char>);

/// Whether `e` is the error that `f` describes.
pub open spec fn is_schema_failure(e: StorageError, f: SchemaFileFailure) -> bool {
    if f.0 {
        e matches StorageError::UnsupportedVersion { found, expected } && found@ == f.1 && expected
            == 1
    } else {
        e.corrupt_message() == Some(f.1)
    }
}

/// The version line check shared by both schema files: the first line must
/// be `version=1`.
pub open spec fn version_check(ls: Seq<Seq<char>>) -> Option<SchemaFileFailure> {
    if ls.len() == 0 {
        Some((false, "missing version line"@))
    } else {
        match strip_prefix(ls[0], "version="@) {
            None => Some((false, "invalid version line"@)),
            Some(v) => if v != "1"@ {
                Some((true, v))
            } else {
                None
            },
        }
    }
}

/// What a part's `schema.txt` holds: its column declarations and declared
/// row count, or why it cannot be read.
pub open spec fn part_schema_spec(text: Seq<char>) -> Result<
    (Seq<(Seq<char>, DataType)>, usize),
    SchemaFileFailure,
> {
    let ls = lines_of(text);
    if text.len() == 0 {
        Err((false, "empty schema"@))
    } else if version_check(ls) is Some {
        Err(version_check(ls)->0)
    } else if ls.len() < 2 {
        Err((false, "missing num rows line"@))
    } else {
        match strip_prefix(ls[1], "num_rows="@) {
            None => Err((false, "invalid num rows line"@)),
            Some(nr) => match parse_usize_spec(nr) {
                None => Err((false, "invalid num rows"@)),
                Some(n) => match decls_from(ls, 2) {
                    Err(m) => Err((false, m)),
                    Ok(d) => match checked_decls(d) {
                        Err(m) => Err((false, m)),
                        Ok(c) => Ok((c, n)),
                    },
                },
            },
        }
    }
}

/// Checks the version line.
pub fn check_version(ls: &[Vec<char>]) -> (r: Result<(), StorageError>)
    ensures
        match version_check(ls@.map_values(|l: Vec<char>| l@)) {
            None => r is Ok,
            Some(f) => r matches Err(e) && is_schema_failure(e, f),
        },
{
    let ghost lv = ls@.map_values(|l: Vec<char>| l@);
    if ls.len() == 0 {
        return Err(StorageError::Corrupt(string_of("missing version line")));
    }
    assert(lv[0] == ls@[0]@);
    let v = match strip_prefix_chars(ls[0].as_slice(), "version=") {
        None => return Err(StorageError::Corrupt(string_of("invalid version line"))),
        Some(v) => v,
    };
    proof {
        reveal_strlit("1");
    }
    if v.len() == 1 && v[0] == '1' {
        assert(v@ =~= "1"@);
        Ok(())
    } else {
        let mut found = String::new();
        push_chars(&mut found, v.as_slice());
        Err(StorageError::UnsupportedVersion { found, expected: 1 })
    }
}

/// Reads a part's `schema.txt`: `version=1`, then `num_rows=<n>`, then
/// one `column=<name>:<type>` line per column. Lines are numbered from 1 in
/// messages.
pub fn parse_schema(text: &str) -> (r: Result<(Schema, usize), StorageError>)
    ensures
        match part_schema_spec(text@) {
            Ok((d, n)) => r matches Ok(p) && p.0@ == d && p.1 == n,
            Err(f) => r matches Err(e) && is_schema_failure(e, f),
        },
{
    let cs = chars_of(text);
    if cs.len() == 0 {
        return Err(StorageError::Corrupt(string_of("empty schema")));
    }
    let ls = split_lines(cs.as_slice());
    let ghost lv = ls@.map_values(|l: Vec<char>| l@);
    assert(lv =~= lines_of(text@));
    check_version(ls.as_slice())?;
    if ls.len() < 2 {
        return Err(StorageError::Corrupt(string_of("missing num rows line")));
    }
    assert(lv[1] == ls@[1]@);
    let nr = match strip_prefix_chars(ls[1].as_slice(), "num_rows=") {
        None => return Err(StorageError::Corrupt(string_of("invalid num rows line"))),
        Some(nr) => nr,
    };
    let num_rows = match parse_usize(nr.as_slice()) {
        None => return Err(StorageError::Corrupt(string_of("invalid num rows"))),
        Some(n) => n,
    };
    let decls = match parse_column_lines(ls.as_slice(), 2) {
        Err(m) => return Err(StorageError::Corrupt(m)),
        Ok(d) => d,
    };
    match check_schema(decls) {
        Err(m) => Err(StorageError::Corrupt(m)),
        Ok(s) => Ok((s, num_rows)),
    }
}



/// The position of the declaration called `name`, if any.
pub open spec fn decl_index(decls: Seq<(Seq<char>, DataType)>, name: Seq<char>) -> Option<int>
    decreases decls.len(),
{
    if decls.len() == 0 {
        None
    } else {
        match decl_index(decls.drop_last(), name) {
            Some(i) => Some(i),
            None => if decls.last().0 == name {
                Some(decls.len() - 1)
            } else {
                None
            },
        }
    }
}

/// The files a column of type `dt` called `name` is stored in.
pub open spec fn files_of(name: Seq<char>, dt: DataType) -> Seq<Seq<char>> {
    if dt == DataType::String {
        seq![data_file_name(name), offsets_file_name(name)]
    } else {
        seq![single_file_name(name)]
    }
}

/// The files of the declared columns that `columns` names, in declaration
/// order: what a part must provide to be opened for that projection.
pub open spec fn projected_files_spec(
    decls: Seq<(Seq<char>, DataType)>,
    columns: Seq<Seq<char>>,
) -> Seq<Seq<char>>
    decreases decls.len(),
{
    if decls.len() == 0 {
        Seq::empty()
    } else {
        projected_files_spec(decls.drop_last(), columns) + if columns.contains(decls.last().0) {
            files_of(decls.last().0, decls.last().1)
        } else {
            Seq::empty()
        }
    }
}

/// Whether `name` is one of `columns`.
fn names_column(columns: &[&str], name: &str) -> (r: bool)
    ensures
        r == projection_names(columns@).contains(name@),
{
    let mut i: usize = 0;
    while i < columns.len()
        invariant
            i <= columns@.len(),
            forall|k: int| 0 <= k < i ==> columns@[k]@ != name@,
        decreases columns@.len() - i,
    {
        if str_is(columns[i], name) {
            assert(projection_names(columns@)[i as int] == name@);
            return true;
        }
        i = i + 1;
    }
    assert forall|k: int| 0 <= k < projection_names(columns@).len() implies projection_names(
        columns@,
    )[k] != name@ by {
        assert(projection_names(columns@)[k] == columns@[k]@);
    }
    false
}

/// The files to load to open a part that declares `schema` for the
/// projection `columns`, in declaration order.
pub fn projected_files(schema: &Schema, columns: &[&str]) -> (r: Vec<String>)
    ensures
        r@.map_values(|f: String| f@) == projected_files_spec(schema@, projection_names(columns@)),
{
    let cols = schema.columns();
    let ghost decls = schema@;
    proof {
        schema.lemma_view_is_declared();
    }
    let ghost names = projection_names(columns@);
    let mut r: Vec<String> = Vec::new();
    let mut i: usize = 0;
    while i < cols.len()
        invariant
            cols@ == schema.entries(),
            decls == declared(cols@),
            names == projection_names(columns@),
            i <= cols@.len(),
            r@.map_values(|f: String| f@) == projected_files_spec(decls.take(i as int), names),
        decreases cols@.len() - i,
    {
        let ghost before = r@;
        assert(decls.take(i + 1).drop_last() =~= decls.take(i as int));
        let name = cols[i].0.as_str();
        if names_column(columns, name) {
            match cols[i].1 {
                DataType::String => {
                    let mut f = string_of(name);
                    push_str(&mut f, ".data.bin");
                    let mut g = string_of(name);
                    push_str(&mut g, ".offsets.bin");
                    r.push(f);
                    r.push(g);
                },
                _ => {
                    let mut f = string_of(name);
                    push_str(&mut f, ".bin");
                    r.push(f);
                },
            }
        }
        assert(r@.map_values(|f: String| f@) =~= projected_files_spec(decls.take(i + 1), names));
        i = i + 1;
    }
    assert(decls.take(cols@.len() as int) =~= decls);
    r
}

/// The contents of the file called `name` among `files`, if present.
pub open spec fn file_bytes(files: Seq<(String, Vec<u8>)>, name: Seq<char>) -> Option<Seq<u8>> {
    match name_index(files, name) {
        Some(k) => Some(files[k].1@),
        None => None,
    }
}

/// The problem with opening the column called `name`, if any: `(true,
/// name)` when the part does not declare it, `(false, message)` when one of
/// its files is missing (for a string column, the data file is checked
/// before the offsets file).
pub open spec fn column_problem(
    decls: Seq<(Seq<char>, DataType)>,
    name: Seq<char>,
    files: Seq<(String, Vec<u8>)>,
) -> Option<(bool, Seq<char>)> {
    match decl_index(decls, name) {
        None => Some((true, name)),
        Some(idx) => {
            let needed = files_of(name, decls[idx].1);
            if file_bytes(files, needed[0]) is None {
                Some((false, "column file '"@ + needed[0] + "' missing"@))
            } else if needed.len() > 1 && file_bytes(files, needed[1]) is None {
                Some((false, "column file '"@ + needed[1] + "' missing"@))
            } else {
                None
            }
        },
    }
}

/// The first problem with opening the projection `cols[j..]` against the
/// part's declarations and files, in projection order.
pub open spec fn projection_problem(
    decls: Seq<(Seq<char>, DataType)>,
    cols: Seq<Seq<char>>,
    files: Seq<(String, Vec<u8>)>,
    j: int,
) -> Option<(bool, Seq<char>)>
    decreases cols.len() - j,
{
    if j < 0 || j >= cols.len() {
        None
    } else {
        match column_problem(decls, cols[j], files) {
            Some(p) => Some(p),
            None => projection_problem(decls, cols, files, j + 1),
        }
    }
}

/// Whether `e` is the error that a projection problem `p` describes.
pub open spec fn is_projection_failure(e: StorageError, p: (bool, Seq<char>)) -> bool {
    if p.0 {
        e matches StorageError::ColumnNotFound(n) && n@ == p.1
    } else {
        e.corrupt_message() == Some(p.1)
    }
}

/// The open streams of one projected column.
pub enum ColumnReaders {
    Single(ByteCursor),
    Pair { data: ByteCursor, offsets: ByteCursor },
}

impl ColumnReaders {
    /// The unread bytes of the single stream, or of the data stream.
    pub open spec fn first_rest(self) -> Seq<u8> {
        match self {
            ColumnReaders::Single(c) => c.rest(),
            ColumnReaders::Pair { data, .. } => data.rest(),
        }
    }

    /// The unread bytes of the offsets stream; empty for a numeric column.
    pub open spec fn second_rest(self) -> Seq<u8> {
        match self {
            ColumnReaders::Single(_) => Seq::empty(),
            ColumnReaders::Pair { offsets, .. } => offsets.rest(),
        }
    }

    /// Whether the streams are valid and shaped for type `dt`.
    pub open spec fn suits(self, dt: DataType) -> bool {
        match self {
            ColumnReaders::Single(c) => c.wf() && dt != DataType::String,
            ColumnReaders::Pair { data, offsets } => data.wf() && offsets.wf() && dt
                == DataType::String,
        }
    }
}

/// The values of one chunk read from a column.
pub enum ChunkView {
    Int64(Seq<i64>),
    Float64(Seq<u64>),
    Str(Seq<Seq<u8>>),
}

impl ChunkView {
    /// The number of rows of the chunk.
    pub open spec fn len(self) -> nat {
        match self {
            ChunkView::Int64(v) => v.len(),
            ChunkView::Float64(v) => v.len(),
            ChunkView::Str(v) => v.len(),
        }
    }
}

/// Whether `c` holds exactly the chunk `v`.
pub open spec fn column_holds(c: Column, v: ChunkView) -> bool {
    match (c, v) {
        (Column::Int64(a), ChunkView::Int64(b)) => a@ == b,
        (Column::Float64(a), ChunkView::Float64(b)) => a@ == b,
        (Column::String(a), ChunkView::Str(b)) => a.wf() && a@ == b,
        _ => false,
    }
}

/// What reading the next chunk of a column of type `dt` gives, from the
/// unread bytes `a` of its first stream and `b` of its second: the chunk
/// and what then remains of both streams, a clean end, or a message.
pub open spec fn chunk_spec(dt: DataType, a: Seq<u8>, b: Seq<u8>) -> Result<
    Option<(ChunkView, Seq<u8>, Seq<u8>)>,
    Seq<char>,
> {
    match dt {
        DataType::Int64 => match word_chunk_spec(a, "i64"@) {
            Err(m) => Err(m),
            Ok(None) => Ok(None),
            Ok(Some((w, n))) => Ok(Some((ChunkView::Int64(words_i64(w)), a.skip(n as int), b))),
        },
        DataType::Float64 => match word_chunk_spec(a, "f64"@) {
            Err(m) => Err(m),
            Ok(None) => Ok(None),
            Ok(Some((w, n))) => Ok(Some((ChunkView::Float64(w), a.skip(n as int), b))),
        },
        DataType::String => match str_chunk_spec(a, b) {
            Err(m) => Err(m),
            Ok(None) => Ok(None),
            Ok(Some((s, dn, on))) => Ok(Some((ChunkView::Str(s), a.skip(dn as int), b.skip(on as int)))),
        },
    }
}

/// Where the streams of a column of type `dt` stand after one chunk read
/// from `a` and `b`, whatever the read gave: a stream moves past each block
/// read from it, a failed or final block read leaves it where it was, and
/// the offsets stream of a string column is not read when its data stream
/// fails.
pub open spec fn chunk_after(dt: DataType, a: Seq<u8>, b: Seq<u8>) -> (Seq<u8>, Seq<u8>) {
    if dt == DataType::String {
        (a.skip(block_len(a) as int), if read_block_spec(a) is Err {
            b
        } else {
            b.skip(block_len(b) as int)
        })
    } else {
        (a.skip(block_len(a) as int), b)
    }
}

/// A reader's schema index and unread streams.
pub type ReaderView = (int, Seq<u8>, Seq<u8>);

/// A failed block read: `(true, m)` for a corrupt chunk (a codec error),
/// `(false, m)` for a part whose column files disagree.
pub type ReadFailure = (bool, Seq<char>);

/// Whether `e` is the error that `f` describes.
pub open spec fn is_read_failure(e: StorageError, f: ReadFailure) -> bool {
    if f.0 {
        e matches StorageError::Codec(c) && c.corrupt_message() == Some(f.1)
    } else {
        e.corrupt_message() == Some(f.1)
    }
}

/// The state after reading one chunk from each of `rv[i..]`: the row count
/// of the first chunk read, how many streams had ended, the chunks read (with
/// column names), and the new reader views.
pub open spec fn scan_from(
    decls: Seq<(Seq<char>, DataType)>,
    rv: Seq<ReaderView>,
    i: int,
    len: Option<nat>,
    ended: nat,
    chunks: Seq<(Seq<char>, ChunkView)>,
    out: Seq<ReaderView>,
) -> Result<(Option<nat>, nat, Seq<(Seq<char>, ChunkView)>, Seq<ReaderView>), ReadFailure>
    decreases rv.len() - i,
{
    if i < 0 || i >= rv.len() {
        Ok((len, ended, chunks, out))
    } else {
        let (idx, a, b) = rv[i];
        let name = decls[idx].0;
        match chunk_spec(decls[idx].1, a, b) {
            Err(m) => Err((true, m)),
            Ok(None) => scan_from(decls, rv, i + 1, len, ended + 1, chunks, out.push((idx, a, b))),
            Ok(Some((c, a2, b2))) => if len is Some && len->0 != c.len() {
                Err(
                    (
                        false,
                        "column files out of sync: '"@ + name + "' chunk has "@ + decimal(c.len())
                            + " rows, expected "@ + decimal(len->0),
                    ),
                )
            } else {
                scan_from(
                    decls,
                    rv,
                    i + 1,
                    if len is None {
                        Some(c.len())
                    } else {
                        len
                    },
                    ended,
                    chunks.push((name, c)),
                    out.push((idx, a2, b2)),
                )
            },
        }
    }
}

/// Where the readers `rv[i..]` stand after `next_block` has read one chunk
/// from each of them, the views of `rv[..i]` being `out`: each reader read
/// moves as `chunk_after` says, and a failure stops the reading, leaving
/// the readers after the failing one untouched.
pub open spec fn scan_views(
    decls: Seq<(Seq<char>, DataType)>,
    rv: Seq<ReaderView>,
    i: int,
    len: Option<nat>,
    out: Seq<ReaderView>,
) -> Seq<ReaderView>
    decreases rv.len() - i,
{
    if i < 0 || i >= rv.len() {
        out
    } else {
        let (idx, a, b) = rv[i];
        let moved = out.push((idx, chunk_after(decls[idx].1, a, b).0, chunk_after(decls[idx].1, a, b).1));
        match chunk_spec(decls[idx].1, a, b) {
            Err(_) => moved + rv.skip(i + 1),
            Ok(None) => scan_views(decls, rv, i + 1, len, moved),
            Ok(Some((c, _, _))) => if len is Some && len->0 != c.len() {
                moved + rv.skip(i + 1)
            } else {
                scan_views(
                    decls,
                    rv,
                    i + 1,
                    if len is None {
                        Some(c.len())
                    } else {
                        len
                    },
                    moved,
                )
            },
        }
    }
}

/// What the next `next_block` call gives: a block of named chunks with its
/// row count and the new reader views, the end of the part, or why the part
/// is corrupt.
pub open spec fn next_block_spec(
    decls: Seq<(Seq<char>, DataType)>,
    rv: Seq<ReaderView>,
    rows_read: nat,
    num_rows: nat,
) -> Result<Option<(Seq<(Seq<char>, ChunkView)>, nat, Seq<ReaderView>)>, ReadFailure> {
    match scan_from(decls, rv, 0, None, 0, Seq::empty(), Seq::empty()) {
        Err(f) => Err(f),
        Ok((len, ended, chunks, out)) => if ended == 0 {
            Ok(Some((chunks, if len is Some { len->0 } else { 0 }, out)))
        } else if ended == rv.len() {
            if rows_read != num_rows {
                Err(
                    (
                        false,
                        "part truncated: schema declares "@ + decimal(num_rows)
                            + " rows, files contain "@ + decimal(rows_read),
                    ),
                )
            } else {
                Ok(None)
            }
        } else {
            Err((false, "column files out of sync: some ended, some continue"@))
        },
    }
}

/// An open part: its schema, the rows it declares, the rows read so far,
/// and one reader per projected column, in schema order.
pub struct PartReader {
    schema: Schema,
    num_rows: usize,
    rows_read: usize,
    readers: Vec<(usize, ColumnReaders)>,
}

impl PartReader {
    /// The declared columns of the part.
    pub closed spec fn decls(self) -> Seq<(Seq<char>, DataType)> {
        self.schema@
    }

    /// The rows the part declares.
    pub closed spec fn declared_rows(self) -> nat {
        self.num_rows as nat
    }

    /// The rows read so far.
    pub closed spec fn read_rows(self) -> nat {
        self.rows_read as nat
    }

    /// The readers: schema index and unread streams, in schema order.
    pub closed spec fn readers_view(self) -> Seq<ReaderView> {
        Seq::new(
            self.readers@.len(),
            |i: int|
                (
                    self.readers@[i].0 as int,
                    self.readers@[i].1.first_rest(),
                    self.readers@[i].1.second_rest(),
                ),
        )
    }

    /// Whether every reader names a declared column, with streams suiting
    /// its type, in strictly increasing schema order, and at least one.
    pub closed spec fn wf(self) -> bool {
        &&& self.readers@.len() > 0
        &&& forall|i: int|
            0 <= i < self.readers@.len() ==> (#[trigger] self.readers@[i]).0 < self.schema@.len()
                && self.readers@[i].1.suits(self.schema@[self.readers@[i].0 as int].1)
        &&& forall|i: int, j: int|
            0 <= i < j < self.readers@.len() ==> (#[trigger] self.readers@[i]).0 < (
            #[trigger] self.readers@[j]).0
    }

    /// An open reader reads at least one column, each a declared one, in
    /// schema order.
    pub proof fn lemma_wf_views(self)
        requires
            self.wf(),
        ensures
            self.readers_view().len() > 0,
            forall|k: int|
                0 <= k < self.readers_view().len() ==> 0 <= (#[trigger] self.readers_view()[k]).0
                    < self.decls().len(),
            forall|a: int, b: int|
                0 <= a < b < self.readers_view().len() ==> (#[trigger] self.readers_view()[a]).0 < (
                #[trigger] self.readers_view()[b]).0,
    {
        assert forall|k: int| 0 <= k < self.readers_view().len() implies 0 <= (
        #[trigger] self.readers_view()[k]).0 < self.decls().len() by {
            assert(self.readers@[k].0 < self.schema@.len());
        }
        assert forall|a: int, b: int| 0 <= a < b < self.readers_view().len() implies (
        #[trigger] self.readers_view()[a]).0 < (#[trigger] self.readers_view()[b]).0 by {
            assert(self.readers@[a].0 < self.readers@[b].0);
        }
    }
}


/// The names of a projection.
pub open spec fn projection_names(columns: Seq<&str>) -> Seq<Seq<char>> {
    columns.map_values(|c: &str| c@)
}

/// Whether the reader views `rv` open exactly the projected columns `cols`
/// of `decls`, each on the contents of its files in `files`.
pub open spec fn opens_projection(
    decls: Seq<(Seq<char>, DataType)>,
    cols: Seq<Seq<char>>,
    files: Seq<(String, Vec<u8>)>,
    rv: Seq<ReaderView>,
) -> bool {
    &&& rv.len() == cols.len()
    &&& forall|j: int|
        0 <= j < cols.len() ==> exists|k: int|
            0 <= k < rv.len() && decl_index(decls, #[trigger] cols[j]) == Some(rv[k].0)
    &&& forall|k: int|
        0 <= k < rv.len() ==> {
            let (idx, a, b) = #[trigger] rv[k];
            let names = files_of(decls[idx].0, decls[idx].1);
            &&& file_bytes(files, names[0]) == Some(a)
            &&& if names.len() > 1 {
                file_bytes(files, names[1]) == Some(b)
            } else {
                b.len() == 0
            }
        }
}

proof fn lemma_decl_index_step(decls: Seq<(Seq<char>, DataType)>, name: Seq<char>, i: int)
    requires
        0 <= i < decls.len(),
    ensures
        decl_index(decls.take(i + 1), name) == match decl_index(decls.take(i), name) {
            Some(k) => Some(k),
            None => if decls[i].0 == name {
                Some(i)
            } else {
                None
            },
        },
{
    assert(decls.take(i + 1).drop_last() =~= decls.take(i));
}

proof fn lemma_decl_index_prefix(decls: Seq<(Seq<char>, DataType)>, name: Seq<char>, k: int, j: int)
    requires
        0 < k <= decls.len(),
        decl_index(decls.take(k), name) == Some(j),
    ensures
        decl_index(decls, name) == Some(j),
    decreases decls.len() - k,
{
    if k < decls.len() {
        lemma_decl_index_step(decls, name, k);
        lemma_decl_index_prefix(decls, name, k + 1, j);
    } else {
        assert(decls.take(k) =~= decls);
    }
}

proof fn lemma_decl_index_bounds(decls: Seq<(Seq<char>, DataType)>, name: Seq<char>)
    ensures
        decl_index(decls, name) matches Some(i) ==> 0 <= i < decls.len() && decls[i].0 == name,
    decreases decls.len(),
{
    if decls.len() > 0 {
        lemma_decl_index_bounds(decls.drop_last(), name);
    }
}

/// The position of the column called `name` in `schema`.
fn find_column(schema: &Schema, name: &str) -> (r: Option<usize>)
    ensures
        r matches Some(i) ==> decl_index(schema@, name@) == Some(i as int),
        r is None ==> decl_index(schema@, name@) is None,
{
    let cols = schema.columns();
    proof {
        schema.lemma_view_is_declared();
    }
    let mut i: usize = 0;
    while i < cols.len()
        invariant
            schema@ == declared(cols@),
            i <= cols@.len(),
            decl_index(schema@.take(i as int), name@) is None,
        decreases cols@.len() - i,
    {
        proof {
            lemma_decl_index_step(schema@, name@, i as int);
        }
        if str_is(cols[i].0.as_str(), name) {
            proof {
                lemma_decl_index_prefix(schema@, name@, i + 1, i as int);
            }
            return Some(i);
        }
        i = i + 1;
    }
    assert(schema@.take(cols@.len() as int) =~= schema@);
    None
}

/// A copy of the contents of the file called `name`, if present.
fn find_file(files: &Vec<(String, Vec<u8>)>, name: &String) -> (r: Option<Vec<u8>>)
    ensures
        match file_bytes(files@, name@) {
            Some(b) => r matches Some(v) && v@ == b,
            None => r is None,
        },
{
    let mut k: usize = 0;
    while k < files.len()
        invariant
            k <= files@.len(),
            name_index(files@.take(k as int), name@) is None,
        decreases files@.len() - k,
    {
        proof {
            lemma_name_index_step(files@, name@, k as int);
        }
        if files[k].0 == *name {
            proof {
                lemma_name_index_prefix(files@, name@, k + 1, k as int);
            }
            return Some(vstd::slice::slice_to_vec(files[k].1.as_slice()));
        }
        k = k + 1;
    }
    assert(files@.take(files@.len() as int) =~= files@);
    None
}

fn missing_file(name: &String) -> (e: StorageError)
    ensures
        e.corrupt_message() == Some("column file '"@ + name@ + "' missing"@),
{
    let mut m = string_of("column file '");
    push_str(&mut m, name.as_str());
    push_str(&mut m, "' missing");
    StorageError::Corrupt(m)
}

/// Whether `reader` reads the files of declaration `idx` of `decls`.
pub open spec fn reads_files_of(
    decls: Seq<(Seq<char>, DataType)>,
    files: Seq<(String, Vec<u8>)>,
    idx: int,
    reader: ColumnReaders,
) -> bool {
    let names = files_of(decls[idx].0, decls[idx].1);
    &&& reader.suits(decls[idx].1)
    &&& file_bytes(files, names[0]) == Some(reader.first_rest())
    &&& if names.len() > 1 {
        file_bytes(files, names[1]) == Some(reader.second_rest())
    } else {
        reader.second_rest().len() == 0
    }
}

/// Opens the files of the column called `name`.
fn open_column(schema: &Schema, name: &str, files: &Vec<(String, Vec<u8>)>) -> (r: Result<
    (usize, ColumnReaders),
    StorageError,
>)
    ensures
        match column_problem(schema@, name@, files@) {
            Some(p) => r matches Err(e) && is_projection_failure(e, p),
            None => r matches Ok((idx, reader)) && decl_index(schema@, name@) == Some(idx as int)
                && idx < schema@.len() && reads_files_of(schema@, files@, idx as int, reader),
        },
{
    let idx = match find_column(schema, name) {
        None => return Err(StorageError::ColumnNotFound(string_of(name))),
        Some(idx) => idx,
    };
    proof {
        lemma_decl_index_bounds(schema@, name@);
    }
    let dt = schema.index(idx).1;
    match dt {
        DataType::Int64 | DataType::Float64 => {
            let mut f = string_of(name);
            push_str(&mut f, ".bin");
            match find_file(files, &f) {
                None => Err(missing_file(&f)),
                Some(b) => Ok((idx, ColumnReaders::Single(ByteCursor::new(b)))),
            }
        },
        DataType::String => {
            let mut f = string_of(name);
            push_str(&mut f, ".data.bin");
            let data = match find_file(files, &f) {
                None => return Err(missing_file(&f)),
                Some(b) => b,
            };
            let mut g = string_of(name);
            push_str(&mut g, ".offsets.bin");
            let offsets = match find_file(files, &g) {
                None => return Err(missing_file(&g)),
                Some(b) => b,
            };
            Ok((idx, ColumnReaders::Pair { data: ByteCursor::new(data), offsets: ByteCursor::new(offsets) }))
        },
    }
}

/// Distinct projected names that are declared sit at distinct positions.
proof fn lemma_distinct_positions(
    decls: Seq<(Seq<char>, DataType)>,
    a: Seq<char>,
    b: Seq<char>,
)
    requires
        a != b,
        decl_index(decls, a) is Some,
    ensures
        decl_index(decls, a) != decl_index(decls, b),
{
    lemma_decl_index_bounds(decls, a);
    lemma_decl_index_bounds(decls, b);
}

impl PartReader {
    /// Opens a part for the projection `columns`, given the text of its
    /// `schema.txt` and the files of its directory. The schema is read
    /// first; then each projected column, in projection order, must be
    /// declared and have its files. The readers are kept in schema order.
    pub fn open(schema_text: &str, columns: &[&str], files: &Vec<(String, Vec<u8>)>) -> (r:
        Result<PartReader, StorageError>)
        requires
            columns@.len() > 0,
            forall|i: int, j: int|
                0 <= i < j < columns@.len() ==> (#[trigger] columns@[i])@ != (
                #[trigger] columns@[j])@,
        ensures
            match part_schema_spec(schema_text@) {
                Err(f) => r matches Err(e) && is_schema_failure(e, f),
                Ok((decls, n)) => match projection_problem(
                    decls,
                    projection_names(columns@),
                    files@,
                    0,
                ) {
                    Some(p) => r matches Err(e) && is_projection_failure(e, p),
                    None => r matches Ok(pr) && pr.wf() && pr.decls() == decls
                        && pr.declared_rows() == n && pr.read_rows() == 0 && opens_projection(
                        decls,
                        projection_names(columns@),
                        files@,
                        pr.readers_view(),
                    ),
                },
            },
    {
        let (schema, num_rows) = parse_schema(schema_text)?;
        let ghost decls = schema@;
        let ghost cols = projection_names(columns@);
        let mut readers: Vec<(usize, ColumnReaders)> = Vec::new();
        let mut j: usize = 0;
        while j < columns.len()
            invariant
                decls == schema@,
                part_schema_spec(schema_text@) == Ok::<
                    (Seq<(Seq<char>, DataType)>, usize),
                    SchemaFileFailure,
                >((decls, num_rows)),
                cols == projection_names(columns@),
                forall|a: int, b: int|
                    0 <= a < b < columns@.len() ==> (#[trigger] columns@[a])@ != (
                    #[trigger] columns@[b])@,
                j <= columns@.len(),
                projection_problem(decls, cols, files@, 0) == projection_problem(
                    decls,
                    cols,
                    files@,
                    j as int,
                ),
                readers_ok(decls, cols, files@, readers@, j as int),
            decreases columns@.len() - j,
        {
            let name = columns[j];
            assert(cols[j as int] == name@);
            let (idx, reader) = open_column(&schema, name, files)?;
            let ghost before = readers@;
            let pos = insert_position(&readers, idx);
            proof {
                lemma_new_index_fresh(decls, cols, files@, before, j as int, idx as int);
            }
            readers.insert(pos, (idx, reader));
            proof {
                lemma_readers_ok_step(decls, cols, files@, before, readers@, j as int, pos as int, idx, reader);
            }
            j = j + 1;
        }
        let pr = PartReader { schema, num_rows, rows_read: 0, readers };
        proof {
            lemma_readers_ok_done(decls, cols, files@, pr);
        }
        Ok(pr)
    }
}

/// The readers opened for `cols[..j]`: sorted by strictly increasing index,
/// each reading the files of a projected column, every projected column
/// opened.
pub open spec fn readers_ok(
    decls: Seq<(Seq<char>, DataType)>,
    cols: Seq<Seq<char>>,
    files: Seq<(String, Vec<u8>)>,
    readers: Seq<(usize, ColumnReaders)>,
    j: int,
) -> bool {
    &&& readers.len() == j
    &&& forall|k: int|
        0 <= k < readers.len() ==> (#[trigger] readers[k]).0 < decls.len() && reads_files_of(
            decls,
            files,
            readers[k].0 as int,
            readers[k].1,
        )
    &&& forall|a: int, b: int|
        0 <= a < b < readers.len() ==> (#[trigger] readers[a]).0 < (#[trigger] readers[b]).0
    &&& forall|a: int|
        0 <= a < j ==> exists|k: int|
            0 <= k < readers.len() && decl_index(decls, #[trigger] cols[a]) == Some(
                readers[k].0 as int,
            )
    &&& forall|k: int|
        0 <= k < readers.len() ==> exists|a: int|
            0 <= a < j && decl_index(decls, #[trigger] cols[a]) == Some(
                (#[trigger] readers[k]).0 as int,
            )
}

proof fn lemma_new_index_fresh(
    decls: Seq<(Seq<char>, DataType)>,
    cols: Seq<Seq<char>>,
    files: Seq<(String, Vec<u8>)>,
    readers: Seq<(usize, ColumnReaders)>,
    j: int,
    idx: int,
)
    requires
        0 <= j < cols.len(),
        readers_ok(decls, cols, files, readers, j),
        forall|a: int, b: int| 0 <= a < b < cols.len() ==> cols[a] != cols[b],
        decl_index(decls, cols[j]) == Some(idx),
    ensures
        forall|k: int| 0 <= k < readers.len() ==> (#[trigger] readers[k]).0 != idx,
{
    assert forall|k: int| 0 <= k < readers.len() implies (#[trigger] readers[k]).0 != idx by {
        let a = choose|a: int|
            0 <= a < j && decl_index(decls, #[trigger] cols[a]) == Some(readers[k].0 as int);
        lemma_distinct_positions(decls, cols[j], cols[a]);
    }
}

proof fn lemma_readers_ok_step(
    decls: Seq<(Seq<char>, DataType)>,
    cols: Seq<Seq<char>>,
    files: Seq<(String, Vec<u8>)>,
    before: Seq<(usize, ColumnReaders)>,
    after: Seq<(usize, ColumnReaders)>,
    j: int,
    pos: int,
    idx: usize,
    reader: ColumnReaders,
)
    requires
        0 <= j < cols.len(),
        readers_ok(decls, cols, files, before, j),
        0 <= pos <= before.len(),
        forall|k: int| 0 <= k < pos ==> (#[trigger] before[k]).0 < idx,
        forall|k: int| pos <= k < before.len() ==> (#[trigger] before[k]).0 >= idx,
        forall|k: int| 0 <= k < before.len() ==> (#[trigger] before[k]).0 != idx,
        after == before.insert(pos, (idx, reader)),
        decl_index(decls, cols[j]) == Some(idx as int),
        idx < decls.len(),
        reads_files_of(decls, files, idx as int, reader),
    ensures
        readers_ok(decls, cols, files, after, j + 1),
{
    lemma_insert_keeps(before, after, pos, (idx, reader));
    assert forall|k: int| 0 <= k < after.len() implies (#[trigger] after[k]).0 < decls.len()
        && reads_files_of(decls, files, after[k].0 as int, after[k].1) by {
        if k < pos {
            assert(after[k] == before[k]);
        } else if k > pos {
            assert(after[k] == before[k - 1]);
        }
    }
    assert forall|a: int, b: int| 0 <= a < b < after.len() implies (#[trigger] after[a]).0 < (
    #[trigger] after[b]).0 by {
        if b < pos {
            assert(after[a] == before[a] && after[b] == before[b]);
        } else if b == pos {
            assert(after[a] == before[a]);
        } else if a < pos {
            assert(after[a] == before[a] && after[b] == before[b - 1]);
        } else if a == pos {
            assert(after[b] == before[b - 1]);
        } else {
            assert(after[a] == before[a - 1] && after[b] == before[b - 1]);
        }
    }
    assert forall|a: int| 0 <= a < j + 1 implies exists|k: int|
        0 <= k < after.len() && decl_index(decls, #[trigger] cols[a]) == Some(after[k].0 as int) by {
        if a < j {
            let k = choose|k: int|
                0 <= k < before.len() && decl_index(decls, #[trigger] cols[a]) == Some(
                    before[k].0 as int,
                );
            if k < pos {
                assert(after[k] == before[k]);
            } else {
                assert(after[k + 1] == before[k]);
            }
        } else {
            assert(after[pos].0 == idx);
        }
    }
    assert forall|k: int| 0 <= k < after.len() implies exists|a: int|
        0 <= a < j + 1 && decl_index(decls, #[trigger] cols[a]) == Some(
            (#[trigger] after[k]).0 as int,
        ) by {
        if k < pos {
            assert(after[k] == before[k]);
        } else if k > pos {
            assert(after[k] == before[k - 1]);
        } else {
            assert(decl_index(decls, cols[j]) == Some(idx as int));
        }
    }
}

proof fn lemma_readers_ok_done(
    decls: Seq<(Seq<char>, DataType)>,
    cols: Seq<Seq<char>>,
    files: Seq<(String, Vec<u8>)>,
    pr: PartReader,
)
    requires
        cols.len() > 0,
        pr.decls() == decls,
        readers_ok(decls, cols, files, pr.readers@, cols.len() as int),
    ensures
        pr.wf(),
        opens_projection(decls, cols, files, pr.readers_view()),
{
    assert forall|j: int| 0 <= j < cols.len() implies exists|k: int|
        0 <= k < pr.readers_view().len() && decl_index(decls, #[trigger] cols[j]) == Some(
            pr.readers_view()[k].0,
        ) by {
        let k = choose|k: int|
            0 <= k < pr.readers@.len() && decl_index(decls, #[trigger] cols[j]) == Some(
                pr.readers@[k].0 as int,
            );
        assert(pr.readers_view()[k].0 == pr.readers@[k].0 as int);
    }
    assert forall|k: int| 0 <= k < pr.readers_view().len() implies {
        let (idx, a, b) = #[trigger] pr.readers_view()[k];
        let names = files_of(decls[idx].0, decls[idx].1);
        &&& file_bytes(files, names[0]) == Some(a)
        &&& if names.len() > 1 {
            file_bytes(files, names[1]) == Some(b)
        } else {
            b.len() == 0
        }
    } by {
        assert(reads_files_of(decls, files, pr.readers@[k].0 as int, pr.readers@[k].1));
    }
}

/// Where `idx` goes in readers sorted by strictly increasing index.
fn insert_position(readers: &Vec<(usize, ColumnReaders)>, idx: usize) -> (pos: usize)
    requires
        forall|a: int, b: int|
            0 <= a < b < readers@.len() ==> (#[trigger] readers@[a]).0 < (#[trigger] readers@[b]).0,
    ensures
        pos <= readers@.len(),
        forall|k: int| 0 <= k < pos ==> (#[trigger] readers@[k]).0 < idx,
        forall|k: int| pos <= k < readers@.len() ==> (#[trigger] readers@[k]).0 >= idx,
{
    let mut i: usize = 0;
    while i < readers.len() && readers[i].0 < idx
        invariant
            i <= readers@.len(),
            forall|a: int, b: int|
                0 <= a < b < readers@.len() ==> (#[trigger] readers@[a]).0 < (
                #[trigger] readers@[b]).0,
            forall|k: int| 0 <= k < i ==> (#[trigger] readers@[k]).0 < idx,
        decreases readers@.len() - i,
    {
        i = i + 1;
    }
    if i < readers.len() {
        assert forall|k: int| i <= k < readers@.len() implies (#[trigger] readers@[k]).0 >= idx by {
            if k > i {
                assert(readers@[i as int].0 < readers@[k].0);
            }
        }
    }
    i
}

proof fn lemma_insert_keeps<T>(before: Seq<(usize, T)>, after: Seq<(usize, T)>, pos: int, x: (usize, T))
    requires
        0 <= pos <= before.len(),
        after == before.insert(pos, x),
    ensures
        after.len() == before.len() + 1,
        after[pos] == x,
        forall|k: int| 0 <= k < pos ==> after[k] == before[k],
        forall|k: int| pos < k < after.len() ==> after[k] == before[k - 1],
{
}


/// Whether the named columns `cols` hold exactly the named chunks `chunks`.
pub open spec fn columns_hold(cols: Seq<(String, Column)>, chunks: Seq<(Seq<char>, ChunkView)>) -> bool {
    &&& cols.len() == chunks.len()
    &&& forall|i: int|
        0 <= i < cols.len() ==> (#[trigger] cols[i]).0@ == chunks[i].0 && column_holds(
            cols[i].1,
            chunks[i].1,
        )
}

/// The chunk a column holds.
pub open spec fn chunk_view_of(c: Column) -> ChunkView {
    match c {
        Column::Int64(v) => ChunkView::Int64(v@),
        Column::Float64(v) => ChunkView::Float64(v@),
        Column::String(s) => ChunkView::Str(s@),
    }
}

/// The view of one reader.
pub open spec fn reader_view(r: (usize, ColumnReaders)) -> ReaderView {
    (r.0 as int, r.1.first_rest(), r.1.second_rest())
}

/// The views of a list of readers.
pub open spec fn readers_views(rs: Seq<(usize, ColumnReaders)>) -> Seq<ReaderView> {
    Seq::new(rs.len(), |i: int| reader_view(rs[i]))
}

proof fn lemma_unique_by_index(decls: Seq<(Seq<char>, DataType)>, a: int, b: int)
    requires
        crate::schema::valid_schema(decls),
        0 <= a < b < decls.len(),
    ensures
        decls[a].0 != decls[b].0,
{
    assert(!crate::schema::bad_at(decls, b));
}

impl PartReader {
    /// The whole schema of the part, not only the projected columns.
    pub fn schema(&self) -> (r: &Schema)
        ensures
            r@ == self.decls(),
    {
        &self.schema
    }

    /// The rows the part's schema declares.
    pub fn num_rows(&self) -> (n: usize)
        ensures
            n == self.declared_rows(),
    {
        self.num_rows
    }

    /// The rows handed out so far.
    pub fn rows_read(&self) -> (n: usize)
        ensures
            n == self.read_rows(),
    {
        self.rows_read
    }

    /// The schema positions of the columns read, in the order they are read.
    pub fn column_indices(&self) -> (r: Vec<usize>)
        ensures
            r@.len() == self.readers_view().len(),
            forall|k: int| 0 <= k < r@.len() ==> r@[k] == #[trigger] self.readers_view()[k].0,
    {
        let mut r: Vec<usize> = Vec::with_capacity(self.readers.len());
        let mut k: usize = 0;
        while k < self.readers.len()
            invariant
                k <= self.readers@.len(),
                r@.len() == k,
                forall|j: int| 0 <= j < k ==> r@[j] == #[trigger] self.readers_view()[j].0,
            decreases self.readers@.len() - k,
        {
            r.push(self.readers[k].0);
            k = k + 1;
        }
        r
    }

    /// Puts the readers back after a failed read: those read so far, up to
    /// and including position `i`, then the ones not yet read.
    fn put_back(
        &mut self,
        done: Vec<(usize, ColumnReaders)>,
        pending: Vec<(usize, ColumnReaders)>,
        Ghost(orig): Ghost<Seq<(usize, ColumnReaders)>>,
        i: usize,
    )
        requires
            old(self).readers@.len() == 0,
            i < orig.len(),
            done@.len() == i + 1,
            pending@ == orig.skip(i + 1),
            forall|k: int|
                0 <= k < orig.len() ==> (#[trigger] orig[k]).0 < old(self).schema@.len()
                    && orig[k].1.suits(old(self).schema@[orig[k].0 as int].1),
            forall|a: int, b: int|
                0 <= a < b < orig.len() ==> (#[trigger] orig[a]).0 < (#[trigger] orig[b]).0,
            forall|k: int|
                0 <= k <= i ==> (#[trigger] done@[k]).0 == orig[k].0 && done@[k].1.suits(
                    old(self).schema@[orig[k].0 as int].1,
                ),
        ensures
            final(self).readers@ == done@ + pending@,
            final(self).wf(),
            final(self).schema == old(self).schema,
            final(self).num_rows == old(self).num_rows,
            final(self).rows_read == old(self).rows_read,
            final(self).readers@.len() == orig.len(),
            forall|k: int| 0 <= k < orig.len() ==> (#[trigger] final(self).readers@[k]).0 == orig[k].0,
    {
        let mut done = done;
        let mut pending = pending;
        done.append(&mut pending);
        let ghost all = done@;
        assert forall|k: int| 0 <= k < orig.len() implies (#[trigger] all[k]).0 == orig[k].0
            && all[k].1.suits(self.schema@[orig[k].0 as int].1) by {
            if k > i {
                assert(all[k] == orig.skip(i + 1)[k - i - 1]);
            }
        }
        self.readers = done;
        assert(self.readers@.len() > 0);
    }

    /// Reads the next block: one chunk from every projected column. All
    /// chunks must have the same row count; every column ending at once is
    /// the end of the part, which must then have given exactly the rows its
    /// schema declares. An error does not end the reader: each column keeps
    /// its position (see `scan_views`), so a later call reads on from
    /// there.
    pub fn next_block(&mut self) -> (r: Result<Option<Block>, StorageError>)
        requires
            old(self).wf(),
            old(self).read_rows() + MAX_BLOCK_SIZE <= usize::MAX,
        ensures
            match next_block_spec(
                old(self).decls(),
                old(self).readers_view(),
                old(self).read_rows(),
                old(self).declared_rows(),
            ) {
                Err(f) => r matches Err(e) && is_read_failure(e, f),
                Ok(None) => r matches Ok(None) && final(self).readers_view()
                    == old(self).readers_view() && final(self).read_rows() == old(self).read_rows(),
                Ok(Some((chunks, len, out))) => r matches Ok(Some(b)) && b.wf() && b.rows() == len
                    && columns_hold(b.cols(), chunks) && final(self).readers_view() == out
                    && final(self).read_rows() == old(self).read_rows() + len,
            },
            r is Err ==> final(self).read_rows() == old(self).read_rows(),
            final(self).readers_view() == scan_views(
                old(self).decls(),
                old(self).readers_view(),
                0,
                None,
                Seq::empty(),
            ),
            final(self).wf(),
            final(self).readers_view().len() == old(self).readers_view().len(),
            forall|k: int|
                0 <= k < old(self).readers_view().len() ==> (#[trigger] final(self).readers_view()[k]).0
                    == old(self).readers_view()[k].0,
            final(self).decls() == old(self).decls(),
            final(self).declared_rows() == old(self).declared_rows(),
    {
        self.schema.check_valid();
        let ghost decls = self.schema@;
        let ghost rv = self.readers_view();
        let mut pending: Vec<(usize, ColumnReaders)> = Vec::new();
        std::mem::swap(&mut pending, &mut self.readers);
        let ghost orig = pending@;
        assert(rv =~= readers_views(orig));
        let n = pending.len();
        let mut done: Vec<(usize, ColumnReaders)> = Vec::new();
        let mut columns: Vec<(String, Column)> = Vec::new();
        let mut len: Option<usize> = None;
        let mut ended: usize = 0;
        let ghost mut chunks: Seq<(Seq<char>, ChunkView)> = Seq::empty();
        let ghost mut col_idx: Seq<int> = Seq::empty();
        assert(readers_views(done@) =~= Seq::<ReaderView>::empty());
        let mut i: usize = 0;
        while i < n
            invariant
                decls == self.schema@,
                decls == old(self).decls(),
                rv == old(self).readers_view(),
                self.rows_read == old(self).rows_read,
                self.num_rows == old(self).num_rows,
                self.readers@.len() == 0,
                old(self).read_rows() + MAX_BLOCK_SIZE <= usize::MAX,
                crate::schema::valid_schema(decls),
                n == orig.len(),
                n > 0,
                i <= n,
                pending@ == orig.skip(i as int),
                rv == readers_views(orig),
                forall|k: int|
                    0 <= k < orig.len() ==> (#[trigger] orig[k]).0 < decls.len()
                        && orig[k].1.suits(decls[orig[k].0 as int].1),
                forall|a: int, b: int|
                    0 <= a < b < orig.len() ==> (#[trigger] orig[a]).0 < (#[trigger] orig[b]).0,
                done@.len() == i,
                forall|k: int|
                    0 <= k < i ==> (#[trigger] done@[k]).0 == orig[k].0 && done@[k].1.suits(
                        decls[orig[k].0 as int].1,
                    ),
                ended <= i,
                ended == i ==> readers_views(done@) == rv.take(i as int),
                columns_hold(columns@, chunks),
                columns@.len() + ended == i,
                col_idx.len() == columns@.len(),
                forall|k: int|
                    0 <= k < col_idx.len() ==> 0 <= #[trigger] col_idx[k] < decls.len()
                        && columns@[k].0@ == decls[col_idx[k]].0,
                forall|a: int, b: int|
                    0 <= a < b < col_idx.len() ==> #[trigger] col_idx[a] < #[trigger] col_idx[b],
                forall|k: int|
                    0 <= k < col_idx.len() ==> #[trigger] col_idx[k] <= (if i > 0 {
                        orig[i - 1].0 as int
                    } else {
                        -1
                    }),
                len is None <==> columns@.len() == 0,
                len matches Some(l) ==> l <= MAX_BLOCK_SIZE,
                forall|k: int|
                    0 <= k < columns@.len() ==> (#[trigger] columns@[k]).1.wf() && (len matches Some(
                        l,
                    ) && columns@[k].1.rows() == l),
                scan_from(decls, rv, 0, None, 0, Seq::empty(), Seq::empty()) == scan_from(
                    decls,
                    rv,
                    i as int,
                    if len is Some {
                        Some(len->0 as nat)
                    } else {
                        None
                    },
                    ended as nat,
                    chunks,
                    readers_views(done@),
                ),
                scan_views(decls, rv, 0, None, Seq::empty()) == scan_views(
                    decls,
                    rv,
                    i as int,
                    if len is Some {
                        Some(len->0 as nat)
                    } else {
                        None
                    },
                    readers_views(done@),
                ),
            decreases n - i,
        {
            assert(pending@.len() > 0);
            let (idx, reader) = pending.remove(0);
            assert(orig[i as int] == (idx, reader));
            assert(pending@ =~= orig.skip(i + 1));
            let entry = self.schema.index(idx);
            let dt = entry.1;
            assert(rv[i as int] == (idx as int, reader.first_rest(), reader.second_rest()));
            let ghost glen: Option<nat> = if len is Some {
                Some(len->0 as nat)
            } else {
                None
            };
            let (new_reader, chunk): (ColumnReaders, Option<Column>) = match reader {
                ColumnReaders::Single(mut c) => {
                    if dt == DataType::Int64 {
                        match read_i64_chunk(&mut c) {
                            Err(e) => {
                                done.push((idx, ColumnReaders::Single(c)));
                                self.put_back(done, pending, Ghost(orig), i);
                                return Err(StorageError::Codec(e));
                            },
                            Ok(v) => (ColumnReaders::Single(c), match v {
                                None => None,
                                Some(v) => Some(Column::Int64(v)),
                            }),
                        }
                    } else {
                        match read_f64_chunk(&mut c) {
                            Err(e) => {
                                done.push((idx, ColumnReaders::Single(c)));
                                self.put_back(done, pending, Ghost(orig), i);
                                return Err(StorageError::Codec(e));
                            },
                            Ok(v) => (ColumnReaders::Single(c), match v {
                                None => None,
                                Some(v) => Some(Column::Float64(v)),
                            }),
                        }
                    }
                },
                ColumnReaders::Pair { mut data, mut offsets } => {
                    match read_str_chunk(&mut data, &mut offsets) {
                        Err(e) => {
                            done.push((idx, ColumnReaders::Pair { data, offsets }));
                            self.put_back(done, pending, Ghost(orig), i);
                            return Err(StorageError::Codec(e));
                        },
                        Ok(v) => (ColumnReaders::Pair { data, offsets }, match v {
                            None => None,
                            Some(c) => Some(Column::String(c)),
                        }),
                    }
                },
            };
            let ghost before_done = done@;
            done.push((idx, new_reader));
            assert(readers_views(done@) =~= readers_views(before_done).push(
                reader_view((idx, new_reader)),
            ));
            match chunk {
                None => {
                    ended = ended + 1;
                },
                Some(c) => {
                    let clen = c.len();
                    match len {
                        Some(l) => {
                            if l != clen {
                                let mut m = string_of("column files out of sync: '");
                                push_str(&mut m, entry.0.as_str());
                                push_str(&mut m, "' chunk has ");
                                push_decimal(&mut m, clen as u64);
                                push_str(&mut m, " rows, expected ");
                                push_decimal(&mut m, l as u64);
                                self.put_back(done, pending, Ghost(orig), i);
                                return Err(StorageError::Corrupt(m));
                            }
                        },
                        None => {
                            len = Some(clen);
                        },
                    }
                    let nm = entry.0.clone();
                    let ghost view = chunk_view_of(c);
                    columns.push((nm, c));
                    proof {
                        chunks = chunks.push((entry.0@, view));
                        col_idx = col_idx.push(idx as int);
                    }
                },
            }
            i = i + 1;
        }
        self.readers = done;
        assert(self.readers_view() =~= readers_views(self.readers@));
        assert(rv.take(n as int) =~= rv);
        if ended == 0 {
            let l = match len {
                Some(l) => l,
                None => 0,
            };
            proof {
                assert forall|a: int, b: int| 0 <= a < b < columns@.len() implies (
                #[trigger] columns@[a]).0@ != (#[trigger] columns@[b]).0@ by {
                    lemma_unique_by_index(decls, col_idx[a], col_idx[b]);
                }
            }
            let block = Block::new(columns, l);
            self.rows_read = self.rows_read + l;
            Ok(Some(block))
        } else if ended == n {
            if self.rows_read != self.num_rows {
                let mut m = string_of("part truncated: schema declares ");
                push_decimal(&mut m, self.num_rows as u64);
                push_str(&mut m, " rows, files contain ");
                push_decimal(&mut m, self.rows_read as u64);
                Err(StorageError::Corrupt(m))
            } else {
                Ok(None)
            }
        } else {
            Err(StorageError::Corrupt(string_of("column files out of sync: some ended, some continue")))
        }
    }
}

} // verus!
