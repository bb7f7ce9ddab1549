//! Column chunks as framed blocks: numeric values as little-endian 8-byte
//! words, a string chunk as a data block plus an offsets block of
//! little-endian `u32` words.
use crate::bytes::{
    lemma_u32_le_round_trip, lemma_u64_le_round_trip, push_u32_le, push_u64_le, read_u32_le,
    read_u64_le, u32_from_le, u32_le, u64_from_le, u64_le,
};
use crate::codec::{block_len, frame, frame_reads_back, read_block, read_block_done, read_block_spec, write_block, ByteCursor,
    Codec, MAX_BLOCK_SIZE};
use crate::error::CodecError;
use crate::string_column::{parts_problem, slots, StringColumn};
use crate::text::{decimal, push_decimal, push_str, string_of};
use vstd::prelude::*;

verus! {

/// The bytes of a run of `u64` words, each little-endian.
pub open spec fn words_bytes(s: Seq<u64>) -> Seq<u8>
    decreases s.len(),
{
    if s.len() == 0 {
        Seq::empty()
    } else {
        words_bytes(s.drop_last()) + u64_le(s.last())
    }
}

/// The words stored in `b`, eight bytes each.
pub open spec fn bytes_words(b: Seq<u8>) -> Seq<u64> {
    Seq::new(b.len() / 8, |i: int| u64_from_le(b.subrange(8 * i, 8 * i + 8)))
}

/// The bytes of a run of `u32` offsets, each little-endian.
pub open spec fn offsets_bytes(s: Seq<u32>) -> Seq<u8>
    decreases s.len(),
{
    if s.len() == 0 {
        Seq::empty()
    } else {
        offsets_bytes(s.drop_last()) + u32_le(s.last())
    }
}

/// The offsets stored in `b`, four bytes each.
pub open spec fn bytes_offsets(b: Seq<u8>) -> Seq<u32> {
    Seq::new(b.len() / 4, |i: int| u32_from_le(b.subrange(4 * i, 4 * i + 4)))
}

/// The two's-complement words of signed values.
pub open spec fn i64_words(s: Seq<i64>) -> Seq<u64> {
    s.map_values(|v: i64| v as u64)
}

/// The signed values of two's-complement words.
pub open spec fn words_i64(s: Seq<u64>) -> Seq<i64> {
    s.map_values(|w: u64| w as i64)
}

proof fn lemma_words_bytes_len(s: Seq<u64>)
    ensures
        words_bytes(s).len() == 8 * s.len(),
    decreases s.len(),
{
    if s.len() > 0 {
        lemma_words_bytes_len(s.drop_last());
        lemma_u64_le_round_trip(s.last());
    }
}

/// Decoding the bytes of a run of words gives the words back.
pub proof fn lemma_words_round_trip(s: Seq<u64>)
    ensures
        bytes_words(words_bytes(s)) == s,
        words_bytes(s).len() == 8 * s.len(),
    decreases s.len(),
{
    lemma_words_bytes_len(s);
    if s.len() > 0 {
        let p = s.drop_last();
        lemma_words_round_trip(p);
        let b = words_bytes(s);
        lemma_u64_le_round_trip(s.last());
        assert(b == words_bytes(p) + u64_le(s.last()));
        assert forall|i: int| 0 <= i < s.len() implies bytes_words(b)[i] == s[i] by {
            if i < p.len() {
                assert(b.subrange(8 * i, 8 * i + 8) =~= words_bytes(p).subrange(8 * i, 8 * i + 8));
                assert(bytes_words(words_bytes(p))[i] == p[i]);
            } else {
                assert(b.subrange(8 * i, 8 * i + 8) =~= u64_le(s.last()));
            }
        }
        assert(bytes_words(b) =~= s);
    } else {
        assert(bytes_words(words_bytes(s)) =~= s);
    }
}

proof fn lemma_offsets_bytes_len(s: Seq<u32>)
    ensures
        offsets_bytes(s).len() == 4 * s.len(),
    decreases s.len(),
{
    if s.len() > 0 {
        lemma_offsets_bytes_len(s.drop_last());
        lemma_u32_le_round_trip(s.last());
    }
}

/// Decoding the bytes of a run of offsets gives the offsets back.
pub proof fn lemma_offsets_round_trip(s: Seq<u32>)
    ensures
        bytes_offsets(offsets_bytes(s)) == s,
        offsets_bytes(s).len() == 4 * s.len(),
    decreases s.len(),
{
    lemma_offsets_bytes_len(s);
    if s.len() > 0 {
        let p = s.drop_last();
        lemma_offsets_round_trip(p);
        let b = offsets_bytes(s);
        lemma_u32_le_round_trip(s.last());
        assert(b == offsets_bytes(p) + u32_le(s.last()));
        assert forall|i: int| 0 <= i < s.len() implies bytes_offsets(b)[i] == s[i] by {
            if i < p.len() {
                assert(b.subrange(4 * i, 4 * i + 4) =~= offsets_bytes(p).subrange(4 * i, 4 * i + 4));
                assert(bytes_offsets(offsets_bytes(p))[i] == p[i]);
            } else {
                assert(b.subrange(4 * i, 4 * i + 4) =~= u32_le(s.last()));
            }
        }
        assert(bytes_offsets(b) =~= s);
    } else {
        assert(bytes_offsets(offsets_bytes(s)) =~= s);
    }
}

/// Signed values survive the reinterpretation as words and back.
pub proof fn lemma_i64_words_round_trip(s: Seq<i64>)
    ensures
        words_i64(i64_words(s)) == s,
{
    assert forall|i: int| 0 <= i < s.len() implies words_i64(i64_words(s))[i] == s[i] by {
        crate::bytes::lemma_i64_bits_round_trip(s[i]);
    }
    assert(words_i64(i64_words(s)) =~= s);
}

fn push_words(out: &mut Vec<u8>, values: &[u64])
    ensures
        final(out)@ == old(out)@ + words_bytes(values@),
{
    let mut i: usize = 0;
    while i < values.len()
        invariant
            i <= values@.len(),
            out@ == old(out)@ + words_bytes(values@.take(i as int)),
        decreases values@.len() - i,
    {
        push_u64_le(out, values[i]);
        assert(values@.take(i + 1).drop_last() =~= values@.take(i as int));
        i = i + 1;
    }
    assert(values@.take(values@.len() as int) =~= values@);
}

fn read_words(b: &[u8]) -> (r: Vec<u64>)
    requires
        b@.len() % 8 == 0,
    ensures
        r@ == bytes_words(b@),
{
    let len = b.len();
    let n = len / 8;
    let mut out: Vec<u64> = Vec::with_capacity(n);
    let mut i: usize = 0;
    while i < n
        invariant
            len == b@.len(),
            n == b@.len() / 8,
            i <= n,
            out@ == bytes_words(b@).take(i as int),
        decreases n - i,
    {
        assert(8 * i + 8 <= b@.len());
        let w = read_u64_le(b, 8 * i);
        out.push(w);
        assert(out@ =~= bytes_words(b@).take(i + 1));
        i = i + 1;
    }
    assert(bytes_words(b@).take(n as int) =~= bytes_words(b@));
    out
}

/// The bytes of a signed chunk.
pub open spec fn i64_chunk_bytes(values: Seq<i64>) -> Seq<u8> {
    words_bytes(i64_words(values))
}

/// Appends the framed chunk of `values` to `out`.
pub fn write_i64_chunk(out: &mut Vec<u8>, values: &[i64], codec: Codec)
    requires
        8 * values@.len() <= MAX_BLOCK_SIZE,
    ensures
        final(out)@ == old(out)@ + frame(i64_chunk_bytes(values@), codec),
        frame_reads_back(i64_chunk_bytes(values@), codec),
{
    let mut bytes: Vec<u8> = Vec::with_capacity(values.len() * 8);
    let mut i: usize = 0;
    while i < values.len()
        invariant
            i <= values@.len(),
            bytes@ == words_bytes(i64_words(values@.take(i as int))),
        decreases values@.len() - i,
    {
        push_u64_le(&mut bytes, values[i] as u64);
        assert(i64_words(values@.take(i + 1)).drop_last() =~= i64_words(values@.take(i as int)));
        i = i + 1;
    }
    assert(values@.take(values@.len() as int) =~= values@);
    proof {
        lemma_words_bytes_len(i64_words(values@));
    }
    write_block(out, bytes.as_slice(), codec);
}

/// Appends the framed chunk of the float values whose bit patterns are
/// `values` to `out`.
pub fn write_f64_chunk(out: &mut Vec<u8>, values: &[u64], codec: Codec)
    requires
        8 * values@.len() <= MAX_BLOCK_SIZE,
    ensures
        final(out)@ == old(out)@ + frame(words_bytes(values@), codec),
        frame_reads_back(words_bytes(values@), codec),
{
    let mut bytes: Vec<u8> = Vec::with_capacity(values.len() * 8);
    push_words(&mut bytes, values);
    proof {
        lemma_words_bytes_len(values@);
    }
    write_block(out, bytes.as_slice(), codec);
}

/// What reading an 8-byte-word chunk from `rest` gives: the words and the
/// bytes consumed, a clean end, or the message of a corrupt chunk (`kind`
/// names the element type in it).
pub open spec fn word_chunk_spec(rest: Seq<u8>, kind: Seq<char>) -> Result<
    Option<(Seq<u64>, nat)>,
    Seq<char>,
> {
    match read_block_spec(rest) {
        Err(m) => Err(m),
        Ok(None) => Ok(None),
        Ok(Some((b, n))) => if b.len() % 8 != 0 {
            Err(kind + " chunk of "@ + decimal(b.len()) + " bytes is not a multiple of 8"@)
        } else {
            Ok(Some((bytes_words(b), n)))
        },
    }
}

/// Whether a chunk read from `old` that gave `r` followed `spec`.
pub open spec fn words_read_done(
    old: ByteCursor,
    new: ByteCursor,
    r: Result<Option<Vec<u64>>, CodecError>,
    spec: Result<Option<(Seq<u64>, nat)>, Seq<char>>,
) -> bool {
    new.wf() && new.rest() == old.rest().skip(block_len(old.rest()) as int) && match spec {
        Err(m) => r matches Err(e) && e.corrupt_message() == Some(m),
        Ok(None) => r matches Ok(None) && new.rest() == old.rest(),
        Ok(Some((w, n))) => r matches Ok(Some(v)) && v@ == w && new.rest() == old.rest().skip(
            n as int,
        ),
    }
}

/// Whether a signed chunk read from `old` that gave `r` followed `spec`.
pub open spec fn i64s_read_done(
    old: ByteCursor,
    new: ByteCursor,
    r: Result<Option<Vec<i64>>, CodecError>,
    spec: Result<Option<(Seq<u64>, nat)>, Seq<char>>,
) -> bool {
    new.wf() && new.rest() == old.rest().skip(block_len(old.rest()) as int) && match spec {
        Err(m) => r matches Err(e) && e.corrupt_message() == Some(m),
        Ok(None) => r matches Ok(None) && new.rest() == old.rest(),
        Ok(Some((w, n))) => r matches Ok(Some(v)) && v@ == words_i64(w) && new.rest()
            == old.rest().skip(n as int),
    }
}

fn read_word_chunk(r: &mut ByteCursor, kind: &str) -> (res: Result<Option<Vec<u64>>, CodecError>)
    requires
        old(r).wf(),
    ensures
        words_read_done(*old(r), *final(r), res, word_chunk_spec(old(r).rest(), kind@)),
        res matches Ok(Some(v)) ==> 8 * v@.len() <= MAX_BLOCK_SIZE,
{
    let ghost rest = r.rest();
    let bytes = match read_block(r) {
        Err(e) => return Err(e),
        Ok(None) => return Ok(None),
        Ok(Some(b)) => b,
    };
    if bytes.len() % 8 != 0 {
        let mut m = string_of(kind);
        push_str(&mut m, " chunk of ");
        push_decimal(&mut m, bytes.len() as u64);
        push_str(&mut m, " bytes is not a multiple of 8");
        return Err(CodecError::Corrupt(m));
    }
    let w = read_words(bytes.as_slice());
    Ok(Some(w))
}

/// Reads the next signed chunk from `r`.
pub fn read_i64_chunk(r: &mut ByteCursor) -> (res: Result<Option<Vec<i64>>, CodecError>)
    requires
        old(r).wf(),
    ensures
        i64s_read_done(*old(r), *final(r), res, word_chunk_spec(old(r).rest(), "i64"@)),
        res matches Ok(Some(v)) ==> 8 * v@.len() <= MAX_BLOCK_SIZE,
{
    match read_word_chunk(r, "i64") {
        Err(e) => Err(e),
        Ok(None) => Ok(None),
        Ok(Some(w)) => {
            let mut out: Vec<i64> = Vec::with_capacity(w.len());
            let mut i: usize = 0;
            while i < w.len()
                invariant
                    i <= w@.len(),
                    out@ == words_i64(w@.take(i as int)),
                decreases w@.len() - i,
            {
                out.push(#[verifier::truncate] (w[i] as i64));
                assert(out@ =~= words_i64(w@.take(i + 1)));
                i = i + 1;
            }
            assert(w@.take(w@.len() as int) =~= w@);
            Ok(Some(out))
        },
    }
}

/// Reads the next float chunk from `r`, as bit patterns.
pub fn read_f64_chunk(r: &mut ByteCursor) -> (res: Result<Option<Vec<u64>>, CodecError>)
    requires
        old(r).wf(),
    ensures
        words_read_done(*old(r), *final(r), res, word_chunk_spec(old(r).rest(), "f64"@)),
        res matches Ok(Some(v)) ==> 8 * v@.len() <= MAX_BLOCK_SIZE,
{
    read_word_chunk(r, "f64")
}

/// Appends the data block of `chunk` to `data_out` and its offsets block to
/// `offsets_out`. Each block must fit `MAX_BLOCK_SIZE`.
pub fn write_str_chunk(
    data_out: &mut Vec<u8>,
    offsets_out: &mut Vec<u8>,
    chunk: &StringColumn,
    codec: Codec,
)
    requires
        chunk.wf(),
        chunk.bytes().len() <= MAX_BLOCK_SIZE,
        4 * chunk.offs().len() <= MAX_BLOCK_SIZE,
    ensures
        final(data_out)@ == old(data_out)@ + frame(chunk.bytes(), codec),
        final(offsets_out)@ == old(offsets_out)@ + frame(offsets_bytes(chunk.offs()), codec),
        frame_reads_back(chunk.bytes(), codec),
        frame_reads_back(offsets_bytes(chunk.offs()), codec),
{
    write_block(data_out, chunk.data(), codec);
    let offs = chunk.offsets();
    let mut bytes: Vec<u8> = Vec::with_capacity(offs.len() * 4);
    let mut i: usize = 0;
    while i < offs.len()
        invariant
            i <= offs@.len(),
            bytes@ == offsets_bytes(offs@.take(i as int)),
        decreases offs@.len() - i,
    {
        push_u32_le(&mut bytes, offs[i]);
        assert(offs@.take(i + 1).drop_last() =~= offs@.take(i as int));
        i = i + 1;
    }
    assert(offs@.take(offs@.len() as int) =~= offs@);
    proof {
        lemma_offsets_bytes_len(offs@);
    }
    write_block(offsets_out, bytes.as_slice(), codec);
}

/// What reading a string chunk from the data stream `d` and the offsets
/// stream `o` gives: the strings with the bytes consumed from each stream, a
/// clean end of both, or the message of a corrupt chunk.
pub open spec fn str_chunk_spec(d: Seq<u8>, o: Seq<u8>) -> Result<
    Option<(Seq<Seq<u8>>, nat, nat)>,
    Seq<char>,
> {
    match read_block_spec(d) {
        Err(m) => Err(m),
        Ok(data) => match read_block_spec(o) {
            Err(m) => Err(m),
            Ok(offs) => match (data, offs) {
                (None, None) => Ok(None),
                (Some((db, dn)), Some((ob, on))) => if ob.len() % 4 != 0 {
                    Err(
                        "string offset chunk of "@ + decimal(ob.len())
                            + " bytes is not a multiple of 4"@,
                    )
                } else {
                    match parts_problem(db, bytes_offsets(ob)) {
                        Some(m) => Err("invalid string column in chunk: "@ + m),
                        None => Ok(Some((slots(db, bytes_offsets(ob)), dn, on))),
                    }
                },
                (Some(_), None) => Err(
                    "string streams out of sync: data present, offsets ended"@,
                ),
                (None, Some(_)) => Err(
                    "string streams out of sync: offsets present, data ended"@,
                ),
            },
        },
    }
}

fn read_offsets(b: &[u8]) -> (r: Vec<u32>)
    requires
        b@.len() % 4 == 0,
    ensures
        r@ == bytes_offsets(b@),
{
    let len = b.len();
    let n = len / 4;
    let mut out: Vec<u32> = Vec::with_capacity(n);
    let mut i: usize = 0;
    while i < n
        invariant
            len == b@.len(),
            n == b@.len() / 4,
            i <= n,
            out@ == bytes_offsets(b@).take(i as int),
        decreases n - i,
    {
        assert(4 * i + 4 <= b@.len());
        let w = read_u32_le(b, 4 * i);
        out.push(w);
        assert(out@ =~= bytes_offsets(b@).take(i + 1));
        i = i + 1;
    }
    assert(bytes_offsets(b@).take(n as int) =~= bytes_offsets(b@));
    out
}

/// Reads the next string chunk from the data stream `data_r` and the
/// offsets stream `offsets_r`. The data block is read first; an error there
/// leaves the offsets stream untouched.
pub fn read_str_chunk(data_r: &mut ByteCursor, offsets_r: &mut ByteCursor) -> (res: Result<
    Option<StringColumn>,
    CodecError,
>)
    requires
        old(data_r).wf(),
        old(offsets_r).wf(),
    ensures
        final(data_r).wf(),
        final(offsets_r).wf(),
        match str_chunk_spec(old(data_r).rest(), old(offsets_r).rest()) {
            Err(m) => res matches Err(e) && e.corrupt_message() == Some(m),
            Ok(None) => res matches Ok(None) && final(data_r).rest() == old(data_r).rest()
                && final(offsets_r).rest() == old(offsets_r).rest(),
            Ok(Some((strings, dn, on))) => res matches Ok(Some(c)) && c.wf() && c@ == strings
                && final(data_r).rest() == old(data_r).rest().skip(dn as int)
                && final(offsets_r).rest() == old(offsets_r).rest().skip(on as int),
        },
        res matches Ok(Some(c)) ==> 4 * c@.len() < MAX_BLOCK_SIZE,
        final(data_r).rest() == old(data_r).rest().skip(block_len(old(data_r).rest()) as int),
        final(offsets_r).rest() == if read_block_spec(old(data_r).rest()) is Err {
            old(offsets_r).rest()
        } else {
            old(offsets_r).rest().skip(block_len(old(offsets_r).rest()) as int)
        },
{
    let data = match read_block(data_r) {
        Err(e) => return Err(e),
        Ok(d) => d,
    };
    let offset_b = match read_block(offsets_r) {
        Err(e) => return Err(e),
        Ok(o) => o,
    };
    match (data, offset_b) {
        (None, None) => Ok(None),
        (Some(data), Some(offset_b)) => {
            if offset_b.len() % 4 != 0 {
                let mut m = string_of("string offset chunk of ");
                push_decimal(&mut m, offset_b.len() as u64);
                push_str(&mut m, " bytes is not a multiple of 4");
                return Err(CodecError::Corrupt(m));
            }
            let offsets = read_offsets(offset_b.as_slice());
            match StringColumn::try_from_parts(data, offsets) {
                Ok(c) => Ok(Some(c)),
                Err(e) => {
                    let mut m = string_of("invalid string column in chunk: ");
                    push_str(&mut m, e.as_str());
                    Err(CodecError::Corrupt(m))
                },
            }
        },
        (Some(_), None) => Err(
            CodecError::Corrupt(
                string_of("string streams out of sync: data present, offsets ended"),
            ),
        ),
        (None, Some(_)) => Err(
            CodecError::Corrupt(
                string_of("string streams out of sync: offsets present, data ended"),
            ),
        ),
    }
}

} // verus!
