//! The block framing of column files: one codec byte, the stored and raw
//! lengths as little-endian `u32`, then the body, LZ4-compressed when that
//! makes it smaller.
use crate::bytes::{
    lemma_u32_le_round_trip, push_u32_le, read_u32_le, u32_from_le, u32_le,
};
use crate::error::CodecError;
use crate::text::{decimal, push_decimal, push_str, str_is, string_of};
use vstd::prelude::*;
use vstd::slice::slice_subrange;

verus! {

/// How the blocks of a table are stored.
#[derive(Debug, Clone, Copy, PartialEq, Eq, Structural)]
pub enum Codec {
    Uncompressed,
    Lz4,
}

/// The largest raw block, in bytes.
pub const MAX_BLOCK_SIZE: usize = 16777216;

impl Codec {
    /// The header byte of this codec.
    pub open spec fn byte(self) -> u8 {
        match self {
            Codec::Uncompressed => 0,
            Codec::Lz4 => 1,
        }
    }

    /// The name of this codec in a table schema file.
    pub open spec fn name(self) -> Seq<char> {
        match self {
            Codec::Uncompressed => "none"@,
            Codec::Lz4 => "lz4"@,
        }
    }

    /// The codec whose name is exactly `cs`, if any.
    pub open spec fn from_name(cs: Seq<char>) -> Option<Codec> {
        if cs == Codec::Uncompressed.name() {
            Some(Codec::Uncompressed)
        } else if cs == Codec::Lz4.name() {
            Some(Codec::Lz4)
        } else {
            None
        }
    }

    /// The codec whose header byte is `b`, if any.
    pub open spec fn from_byte_spec(b: u8) -> Option<Codec> {
        if b == 0 {
            Some(Codec::Uncompressed)
        } else if b == 1 {
            Some(Codec::Lz4)
        } else {
            None
        }
    }

    /// The header byte of this codec.
    pub fn to_byte(&self) -> (b: u8)
        ensures
            b == self.byte(),
    {
        match self {
            Codec::Uncompressed => 0,
            Codec::Lz4 => 1,
        }
    }

    /// The name of this codec in a table schema file.
    pub fn as_str(&self) -> (r: &'static str)
        ensures
            r@ == self.name(),
    {
        match self {
            Codec::Uncompressed => "none",
            Codec::Lz4 => "lz4",
        }
    }

    /// Reads a codec name; the match is exact. An unknown name is reported
    /// as `invalid codec: <name>`.
    pub fn parse_name(s: &str) -> (r: Result<Codec, String>)
        ensures
            match r {
                Ok(c) => Codec::from_name(s@) == Some(c),
                Err(msg) => Codec::from_name(s@) is None && msg@ == "invalid codec: "@ + s@,
            },
    {
        if str_is(s, "none") {
            Ok(Codec::Uncompressed)
        } else if str_is(s, "lz4") {
            Ok(Codec::Lz4)
        } else {
            let mut msg = string_of("invalid codec: ");
            push_str(&mut msg, s);
            Err(msg)
        }
    }

    /// Reads a block's codec byte. An unknown byte is a corrupt block:
    /// `unknown codec byte <b>`.
    pub fn from_byte(b: u8) -> (r: Result<Codec, CodecError>)
        ensures
            match r {
                Ok(c) => Codec::from_byte_spec(b) == Some(c),
                Err(e) => Codec::from_byte_spec(b) is None && e.corrupt_message() == Some(
                    "unknown codec byte "@ + decimal(b as nat),
                ),
            },
    {
        if b == 0 {
            Ok(Codec::Uncompressed)
        } else if b == 1 {
            Ok(Codec::Lz4)
        } else {
            let mut msg = string_of("unknown codec byte ");
            push_decimal(&mut msg, b as u64);
            Err(CodecError::Corrupt(msg))
        }
    }
}

impl std::str::FromStr for Codec {
    type Err = String;

    fn from_str(s: &str) -> (r: Result<Self, Self::Err>)
        ensures
            match r {
                Ok(c) => Codec::from_name(s@) == Some(c),
                Err(msg) => Codec::from_name(s@) is None && msg@ == "invalid codec: "@ + s@,
            },
    {
        Codec::parse_name(s)
    }
}


/// Reading back a codec's header byte gives the same codec, and the two
/// codecs have distinct names that read back to themselves.
pub proof fn lemma_codec_round_trips(c: Codec)
    ensures
        Codec::from_byte_spec(c.byte()) == Some(c),
        Codec::from_name(c.name()) == Some(c),
{
    reveal_strlit("none");
    reveal_strlit("lz4");
    assert(Codec::Uncompressed.name().len() != Codec::Lz4.name().len());
}

/// What `lz4_flex::block::compress` produces for `input`.
pub uninterp spec fn lz4_compressed(input: Seq<u8>) -> Seq<u8>;

/// What `lz4_flex::block::decompress` gives for `input` with an output
/// buffer of `size` bytes: the decompressed bytes, or the text of its error.
pub uninterp spec fn lz4_decompressed(input: Seq<u8>, size: nat) -> Result<Seq<u8>, Seq<char>>;

/// A successful decompression giving `v`.
pub open spec fn decoded(v: Seq<u8>) -> Result<Seq<u8>, Seq<char>> {
    Ok(v)
}

/// A failed decompression with error text `t`.
pub open spec fn failed(t: Seq<char>) -> Result<Seq<u8>, Seq<char>> {
    Err(t)
}

/// The bound `lz4_flex::block::get_maximum_output_size` gives on the size
/// of a compressed block: `16 + 4 + len * 110 / 100`.
pub open spec fn lz4_max_output(len: nat) -> nat {
    20 + len * 110 / 100
}

/// Compresses `input` with `lz4_flex::block::compress`. Besides naming the
/// result, the contract states two facts the crate's source shows: the
/// output never exceeds `get_maximum_output_size(input.len())` (the output
/// buffer is allocated at that size and truncated), and decompressing it
/// into a buffer of `input.len()` bytes gives `input` back (the crate's
/// documented round trip).
#[verifier::external_body]
fn lz4_compress(input: &[u8]) -> (r: Vec<u8>)
    ensures
        r@ == lz4_compressed(input@),
        r@.len() <= lz4_max_output(input@.len()),
        lz4_decompressed(r@, input@.len()) == decoded(input@),
{
    lz4_flex::block::compress(input)
}

/// Decompresses `input` into a buffer of `size` bytes with
/// `lz4_flex::block::decompress`; an error becomes its `Display` text. In
/// the checked, safe decoder that the crate enables by default every
/// malformed input returns an error rather than panicking. A successful
/// result never exceeds the buffer.
#[verifier::external_body]
fn lz4_decompress(input: &[u8], size: usize) -> (r: Result<Vec<u8>, String>)
    ensures
        match r {
            Ok(v) => lz4_decompressed(input@, size as nat) == decoded(v@),
            Err(t) => lz4_decompressed(input@, size as nat) == failed(t@),
        },
        r matches Ok(v) ==> v@.len() <= size,
{
    match lz4_flex::block::decompress(input, size) {
        Ok(v) => Ok(v),
        Err(e) => Err(e.to_string()),
    }
}

/// `lz4_flex::block::get_maximum_output_size`, whose whole behaviour is the
/// formula `16 + 4 + (len as u64 * 110 / 100) as usize`, exact for the
/// block sizes this engine admits.
#[verifier::external_body]
fn lz4_max_output_size(len: usize) -> (r: usize)
    requires
        len <= MAX_BLOCK_SIZE,
    ensures
        r == lz4_max_output(len as nat),
{
    lz4_flex::block::get_maximum_output_size(len)
}

/// The codec and body that `write_block` stores for `raw` under `codec`:
/// LZ4 only when the compressed form is strictly smaller.
pub open spec fn stored_body(raw: Seq<u8>, codec: Codec) -> (Codec, Seq<u8>) {
    match codec {
        Codec::Lz4 => if lz4_compressed(raw).len() >= raw.len() {
            (Codec::Uncompressed, raw)
        } else {
            (Codec::Lz4, lz4_compressed(raw))
        },
        Codec::Uncompressed => (Codec::Uncompressed, raw),
    }
}

/// The framed bytes of one block: codec byte, stored length, raw length,
/// stored body.
pub open spec fn frame(raw: Seq<u8>, codec: Codec) -> Seq<u8> {
    let (used, body) = stored_body(raw, codec);
    seq![used.byte()] + u32_le(body.len() as u32) + u32_le(raw.len() as u32) + body
}

/// Whether the frame of `raw` under `codec` reads back as `raw`, taking
/// exactly its own bytes, whatever follows it.
pub open spec fn frame_reads_back(raw: Seq<u8>, codec: Codec) -> bool {
    forall|tail: Seq<u8>|
        reads_block(#[trigger] (frame(raw, codec) + tail), raw, frame(raw, codec).len())
}

/// Appends the frame of `raw` to `out`. Blocks larger than
/// `MAX_BLOCK_SIZE` are a caller error.
pub fn write_block(out: &mut Vec<u8>, raw: &[u8], codec: Codec)
    requires
        raw@.len() <= MAX_BLOCK_SIZE,
    ensures
        final(out)@ == old(out)@ + frame(raw@, codec),
        frame_reads_back(raw@, codec),
{
    let compressed;
    let (body, used): (&[u8], Codec) = match codec {
        Codec::Lz4 => {
            compressed = lz4_compress(raw);
            if compressed.len() >= raw.len() {
                (raw, Codec::Uncompressed)
            } else {
                (compressed.as_slice(), Codec::Lz4)
            }
        },
        Codec::Uncompressed => (raw, Codec::Uncompressed),
    };
    assert(stored_body(raw@, codec) == (used, body@));
    let ghost before = out@;
    out.push(used.to_byte());
    push_u32_le(out, body.len() as u32);
    push_u32_le(out, raw.len() as u32);
    out.extend_from_slice(body);
    assert(out@ =~= before + frame(raw@, codec));
    proof {
        if codec == Codec::Lz4 {
            assert forall|tail: Seq<u8>|
                reads_block(#[trigger] (frame(raw@, codec) + tail), raw@, frame(raw@, codec).len()) by {
                lemma_frame_round_trip(raw@, codec, tail);
            }
        } else {
            assert forall|tail: Seq<u8>|
                reads_block(#[trigger] (frame(raw@, codec) + tail), raw@, frame(raw@, codec).len()) by {
                lemma_frame_round_trip_uncompressed(raw@, tail);
            }
        }
    }
}

/// The uncompressed case of the frame round trip, which needs no LZ4 fact.
proof fn lemma_frame_round_trip_uncompressed(raw: Seq<u8>, tail: Seq<u8>)
    requires
        raw.len() <= MAX_BLOCK_SIZE,
    ensures
        reads_block(frame(raw, Codec::Uncompressed) + tail, raw, frame(raw, Codec::Uncompressed).len()),
{
    let f = frame(raw, Codec::Uncompressed);
    let s = f + tail;
    lemma_u32_le_round_trip(raw.len() as u32);
    assert(s[0] == 0);
    assert(s.subrange(1, 5) =~= u32_le(raw.len() as u32));
    assert(s.subrange(5, 9) =~= u32_le(raw.len() as u32));
    assert(s.subrange(9, 9 + raw.len() as int) =~= raw);
}

/// A read position over the bytes of one column file.
pub struct ByteCursor {
    bytes: Vec<u8>,
    pos: usize,
}

impl ByteCursor {
    /// The bytes not read yet.
    pub closed spec fn rest(self) -> Seq<u8> {
        self.bytes@.subrange(self.pos as int, self.bytes@.len() as int)
    }

    pub closed spec fn wf(self) -> bool {
        self.pos <= self.bytes@.len()
    }

    /// A cursor at the start of `bytes`.
    pub fn new(bytes: Vec<u8>) -> (c: ByteCursor)
        ensures
            c.wf(),
            c.rest() == bytes@,
    {
        let c = ByteCursor { bytes, pos: 0 };
        assert(c.rest() =~= c.bytes@);
        c
    }

    /// The number of bytes not read yet.
    pub fn remaining(&self) -> (n: usize)
        requires
            self.wf(),
        ensures
            n == self.rest().len(),
    {
        self.bytes.len() - self.pos
    }
}

/// What `read_block` gives for the unread bytes `rest`: `Ok(None)` at a
/// clean end, the raw bytes of the next block with the number of bytes its
/// frame takes, or the message of a corrupt block.
pub open spec fn read_block_spec(rest: Seq<u8>) -> Result<Option<(Seq<u8>, nat)>, Seq<char>> {
    if rest.len() == 0 {
        Ok(None)
    } else if rest.len() < 9 {
        Err("truncated header: got "@ + decimal(rest.len()) + " of 9 bytes"@)
    } else if Codec::from_byte_spec(rest[0]) is None {
        Err("unknown codec byte "@ + decimal(rest[0] as nat))
    } else {
        let c_len = u32_from_le(rest.subrange(1, 5)) as nat;
        let r_len = u32_from_le(rest.subrange(5, 9)) as nat;
        if r_len > MAX_BLOCK_SIZE {
            Err(
                "raw length "@ + decimal(r_len) + " exceeds MAX_BLOCK_SIZE "@ + decimal(
                    MAX_BLOCK_SIZE as nat,
                ),
            )
        } else if rest[0] == 1 {
            if c_len > lz4_max_output(r_len) {
                Err(
                    "compressed length "@ + decimal(c_len) + " implausible for raw length "@
                        + decimal(r_len),
                )
            } else if rest.len() - 9 < c_len {
                Err("truncated body: expected "@ + decimal(c_len) + " bytes"@)
            } else {
                match lz4_decompressed(rest.subrange(9, 9 + c_len as int), r_len) {
                    Ok(raw) => Ok(Some((raw, 9 + c_len))),
                    Err(t) => Err("lz4 decompress failed: "@ + t),
                }
            }
        } else {
            if r_len != c_len {
                Err(
                    "raw length "@ + decimal(r_len) + " not equals compressed length "@ + decimal(
                        c_len,
                    ),
                )
            } else if rest.len() - 9 < c_len {
                Err("truncated body: expected "@ + decimal(c_len) + " bytes"@)
            } else {
                Ok(Some((rest.subrange(9, 9 + c_len as int), 9 + c_len)))
            }
        }
    }
}

/// Whether reading `rest` gives the block `raw` from a frame of `n` bytes.
pub open spec fn reads_block(rest: Seq<u8>, raw: Seq<u8>, n: nat) -> bool {
    read_block_spec(rest) == Ok::<Option<(Seq<u8>, nat)>, Seq<char>>(Some((raw, n)))
}

/// How many bytes of `rest` a block read consumes: the whole frame when a
/// block is read, nothing at the end or on an error.
pub open spec fn block_len(rest: Seq<u8>) -> nat {
    match read_block_spec(rest) {
        Ok(Some((_, n))) => n,
        _ => 0,
    }
}

/// Whether a call of `read_block` on `old` that gave `r` left `new` where
/// `read_block_spec` says: a block read moves past its frame, a clean end
/// and an error leave the cursor where it was, and an error is the stated
/// message.
pub open spec fn read_block_done(
    old: ByteCursor,
    new: ByteCursor,
    r: Result<Option<Vec<u8>>, CodecError>,
) -> bool {
    new.wf() && new.rest() == old.rest().skip(block_len(old.rest()) as int) && match read_block_spec(
        old.rest(),
    ) {
        Ok(None) => r matches Ok(None) && new.rest() == old.rest(),
        Ok(Some((raw, n))) => r matches Ok(Some(v)) && v@ == raw && new.rest() == old.rest().skip(
            n as int,
        ),
        Err(m) => r matches Err(e) && e.corrupt_message() == Some(m) && new.rest() == old.rest(),
    }
}

fn corrupt_with_number(prefix: &str, n: u64, suffix: &str) -> (e: CodecError)
    ensures
        e.corrupt_message() == Some(prefix@ + decimal(n as nat) + suffix@),
{
    let mut m = string_of(prefix);
    push_decimal(&mut m, n);
    push_str(&mut m, suffix);
    CodecError::Corrupt(m)
}

fn corrupt_with_two_numbers(a: &str, n: u64, b: &str, k: u64) -> (e: CodecError)
    ensures
        e.corrupt_message() == Some(a@ + decimal(n as nat) + b@ + decimal(k as nat)),
{
    let mut m = string_of(a);
    push_decimal(&mut m, n);
    push_str(&mut m, b);
    push_decimal(&mut m, k);
    CodecError::Corrupt(m)
}

/// Reads the next framed block from `r`.
pub fn read_block(r: &mut ByteCursor) -> (res: Result<Option<Vec<u8>>, CodecError>)
    requires
        old(r).wf(),
    ensures
        read_block_done(*old(r), *final(r), res),
        res matches Ok(Some(v)) ==> v@.len() <= MAX_BLOCK_SIZE,
{
    let rest_len = r.remaining();
    let ghost rest = r.rest();
    assert(rest.skip(0) =~= rest);
    if rest_len == 0 {
        return Ok(None);
    }
    if rest_len < 9 {
        proof {
            reveal_strlit("");
            assert(""@ =~= Seq::<char>::empty());
        }
        let e = corrupt_with_number("truncated header: got ", rest_len as u64, " of 9 bytes");
        return Err(e);
    }
    let p = r.pos;
    assert(p + 9 <= r.bytes@.len());
    assert(rest[0] == r.bytes@[p as int]);
    let codec = match Codec::from_byte(r.bytes[p]) {
        Ok(c) => c,
        Err(e) => return Err(e),
    };
    let total = r.bytes.len();
    assert(p + 9 <= total);
    let c_len = read_u32_le(r.bytes.as_slice(), p + 1) as usize;
    let r_len = read_u32_le(r.bytes.as_slice(), p + 5) as usize;
    assert(rest.subrange(1, 5) =~= r.bytes@.subrange(p + 1, p + 5));
    assert(rest.subrange(5, 9) =~= r.bytes@.subrange(p + 5, p + 9));
    if r_len > MAX_BLOCK_SIZE {
        let e = corrupt_with_two_numbers(
            "raw length ",
            r_len as u64,
            " exceeds MAX_BLOCK_SIZE ",
            MAX_BLOCK_SIZE as u64,
        );
        return Err(e);
    }
    match codec {
        Codec::Lz4 => {
            if c_len > lz4_max_output_size(r_len) {
                let e = corrupt_with_two_numbers(
                    "compressed length ",
                    c_len as u64,
                    " implausible for raw length ",
                    r_len as u64,
                );
                return Err(e);
            }
            if rest_len - 9 < c_len {
                let e = corrupt_with_number("truncated body: expected ", c_len as u64, " bytes");
                return Err(e);
            }
            let body = slice_subrange(r.bytes.as_slice(), p + 9, p + 9 + c_len);
            assert(body@ =~= rest.subrange(9, 9 + c_len as int));
            match lz4_decompress(body, r_len) {
                Ok(raw) => {
                    r.pos = p + 9 + c_len;
                    assert(r.rest() =~= rest.skip(9 + c_len as int));
                    Ok(Some(raw))
                },
                Err(t) => {
                    let mut m = string_of("lz4 decompress failed: ");
                    push_str(&mut m, t.as_str());
                    Err(CodecError::Corrupt(m))
                },
            }
        },
        Codec::Uncompressed => {
            if r_len != c_len {
                let e = corrupt_with_two_numbers(
                    "raw length ",
                    r_len as u64,
                    " not equals compressed length ",
                    c_len as u64,
                );
                return Err(e);
            }
            if rest_len - 9 < c_len {
                let e = corrupt_with_number("truncated body: expected ", c_len as u64, " bytes");
                return Err(e);
            }
            let body = slice_subrange(r.bytes.as_slice(), p + 9, p + 9 + c_len);
            assert(body@ =~= rest.subrange(9, 9 + c_len as int));
            let raw = vstd::slice::slice_to_vec(body);
            r.pos = p + 9 + c_len;
            assert(r.rest() =~= rest.skip(9 + c_len as int));
            Ok(Some(raw))
        },
    }
}

/// Reading a frame back gives the block that was framed, whatever bytes
/// follow it, provided the LZ4 facts hold for `raw`.
proof fn lemma_frame_round_trip(raw: Seq<u8>, codec: Codec, tail: Seq<u8>)
    requires
        raw.len() <= MAX_BLOCK_SIZE,
        lz4_compressed(raw).len() <= lz4_max_output(raw.len()),
        lz4_decompressed(lz4_compressed(raw), raw.len()) == decoded(raw),
    ensures
        reads_block(frame(raw, codec) + tail, raw, frame(raw, codec).len()),
{
    let (used, body) = stored_body(raw, codec);
    let f = frame(raw, codec);
    let s = f + tail;
    lemma_u32_le_round_trip(body.len() as u32);
    lemma_u32_le_round_trip(raw.len() as u32);
    assert(body.len() <= raw.len());
    assert(s[0] == used.byte());
    assert(s.subrange(1, 5) =~= u32_le(body.len() as u32));
    assert(s.subrange(5, 9) =~= u32_le(raw.len() as u32));
    assert(s.subrange(9, 9 + body.len() as int) =~= body);
}

/// The frames of `raws`, framed under `codecs`, one after the other, as
/// successive `write_block` calls append them.
pub open spec fn frames(raws: Seq<Seq<u8>>, codecs: Seq<Codec>) -> Seq<u8>
    decreases raws.len(),
{
    if raws.len() == 0 || codecs.len() == 0 {
        Seq::empty()
    } else {
        frame(raws[0], codecs[0]) + frames(raws.drop_first(), codecs.drop_first())
    }
}

proof fn lemma_frames_split(raws: Seq<Seq<u8>>, codecs: Seq<Codec>, j: int)
    requires
        raws.len() == codecs.len(),
        0 <= j <= raws.len(),
    ensures
        frames(raws, codecs) == frames(raws.take(j), codecs.take(j)) + frames(
            raws.skip(j),
            codecs.skip(j),
        ),
    decreases j,
{
    if j == 0 {
        assert(raws.skip(0) =~= raws);
        assert(codecs.skip(0) =~= codecs);
        assert(frames(raws.take(0), codecs.take(0)) =~= Seq::<u8>::empty());
    } else {
        lemma_frames_split(raws.drop_first(), codecs.drop_first(), j - 1);
        assert(raws.take(j).drop_first() =~= raws.drop_first().take(j - 1));
        assert(codecs.take(j).drop_first() =~= codecs.drop_first().take(j - 1));
        assert(raws.drop_first().skip(j - 1) =~= raws.skip(j));
        assert(codecs.drop_first().skip(j - 1) =~= codecs.skip(j));
        assert(raws.take(j)[0] == raws[0]);
        assert(codecs.take(j)[0] == codecs[0]);
    }
}

/// Blocks written one after the other read back in order: in the bytes of
/// the frames of `raws`, the read at the end of the first `j` frames gives
/// block `j` and takes exactly its frame, and the read after the last frame
/// finds the end. Every block that `write_block` wrote reads back
/// (`frame_reads_back`), as its contract states.
pub proof fn lemma_frames_read_back(raws: Seq<Seq<u8>>, codecs: Seq<Codec>)
    requires
        raws.len() == codecs.len(),
        forall|i: int| 0 <= i < raws.len() ==> frame_reads_back(#[trigger] raws[i], codecs[i]),
    ensures
        forall|j: int|
            0 <= j < raws.len() ==> reads_block(
                frames(raws, codecs).skip(frames(raws.take(j), codecs.take(j)).len() as int),
                #[trigger] raws[j],
                frame(raws[j], codecs[j]).len(),
            ),
        read_block_spec(frames(raws, codecs).skip(frames(raws, codecs).len() as int))
            == Ok::<Option<(Seq<u8>, nat)>, Seq<char>>(None),
{
    let all = frames(raws, codecs);
    assert forall|j: int| 0 <= j < raws.len() implies reads_block(
        all.skip(frames(raws.take(j), codecs.take(j)).len() as int),
        #[trigger] raws[j],
        frame(raws[j], codecs[j]).len(),
    ) by {
        lemma_frames_split(raws, codecs, j);
        let front = frames(raws.take(j), codecs.take(j));
        let back = frames(raws.skip(j), codecs.skip(j));
        assert(all.skip(front.len() as int) =~= back);
        assert(raws.skip(j).drop_first() =~= raws.skip(j + 1));
        assert(codecs.skip(j).drop_first() =~= codecs.skip(j + 1));
        assert(back == frame(raws[j], codecs[j]) + frames(raws.skip(j + 1), codecs.skip(j + 1)));
        assert(frame_reads_back(raws[j], codecs[j]));
        assert(reads_block(
            frame(raws[j], codecs[j]) + frames(raws.skip(j + 1), codecs.skip(j + 1)),
            raws[j],
            frame(raws[j], codecs[j]).len(),
        ));
    }
    assert(all.skip(all.len() as int) =~= Seq::<u8>::empty());
}

} // verus!
