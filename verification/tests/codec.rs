use minihouse::codec::{read_block, write_block, ByteCursor, Codec, MAX_BLOCK_SIZE};
use minihouse::error::CodecError;

fn round_trip(raw: &[u8], codec: Codec) -> Vec<u8> {
    let mut out = Vec::new();
    write_block(&mut out, raw, codec);
    let mut cursor = ByteCursor::new(out);
    read_block(&mut cursor).unwrap().unwrap()
}

fn written(raw: &[u8], codec: Codec) -> Vec<u8> {
    let mut out = Vec::new();
    write_block(&mut out, raw, codec);
    out
}

fn header(codec: u8, c_len: u32, r_len: u32) -> Vec<u8> {
    let mut bytes = Vec::with_capacity(9);
    bytes.push(codec);
    bytes.extend_from_slice(&c_len.to_le_bytes());
    bytes.extend_from_slice(&r_len.to_le_bytes());
    bytes
}

fn read_err(bytes: Vec<u8>) -> String {
    let mut cursor = ByteCursor::new(bytes);
    read_block(&mut cursor).unwrap_err().to_string()
}

fn incompressible(n: usize) -> Vec<u8> {
    let mut state = 0x2545_f491_4f6c_dd1du64;
    (0..n)
        .map(|_| {
            state ^= state << 13;
            state ^= state >> 7;
            state ^= state << 17;
            (state >> 33) as u8
        })
        .collect()
}

#[test]
fn codec_names_each_variant() {
    assert_eq!(Codec::Uncompressed.as_str(), "none");
    assert_eq!(Codec::Lz4.as_str(), "lz4");
}

#[test]
fn codec_parses_back_from_its_own_name() {
    for codec in [Codec::Uncompressed, Codec::Lz4] {
        assert_eq!(codec.as_str().parse::<Codec>().unwrap(), codec);
    }
}

#[test]
fn codec_rejects_an_unknown_name() {
    assert_eq!(
        "zstd".parse::<Codec>().unwrap_err(),
        "invalid codec: zstd".to_string()
    );
}

#[test]
fn codec_names_are_case_sensitive() {
    assert!("LZ4".parse::<Codec>().is_err());
    assert!("None".parse::<Codec>().is_err());
}

#[test]
fn codec_discriminants_are_the_on_disk_byte_values() {
    assert_eq!(Codec::Uncompressed as u8, 0);
    assert_eq!(Codec::Lz4 as u8, 1);
    assert_eq!(Codec::Uncompressed.to_byte(), 0);
    assert_eq!(Codec::Lz4.to_byte(), 1);
}

#[test]
fn codec_converts_from_its_header_byte() {
    assert_eq!(Codec::from_byte(0u8).unwrap(), Codec::Uncompressed);
    assert_eq!(Codec::from_byte(1u8).unwrap(), Codec::Lz4);
}

#[test]
fn codec_rejects_an_unknown_header_byte() {
    for byte in [2u8, 255u8] {
        let e = Codec::from_byte(byte).unwrap_err();
        assert!(matches!(e, CodecError::Corrupt(_)), "{e:?}");
        assert_eq!(
            e.to_string(),
            format!("corrupt block: unknown codec byte {byte}")
        );
    }
}

#[test]
fn round_trip_empty_input() {
    for codec in [Codec::Uncompressed, Codec::Lz4] {
        assert_eq!(round_trip(&[], codec), Vec::<u8>::new(), "{codec:?}");
    }
}

#[test]
fn round_trip_small_input() {
    for codec in [Codec::Uncompressed, Codec::Lz4] {
        assert_eq!(round_trip(b"hello world", codec), b"hello world".to_vec());
    }
}

#[test]
fn round_trip_highly_compressible_input() {
    let raw = vec![0xABu8; 10_000];
    for codec in [Codec::Uncompressed, Codec::Lz4] {
        assert_eq!(round_trip(&raw, codec), raw, "{codec:?}");
    }
}

#[test]
fn round_trip_incompressible_input() {
    let raw = incompressible(4096);
    assert!(
        lz4_flex::block::compress(&raw).len() >= raw.len(),
        "fixture is meant to be incompressible"
    );
    for codec in [Codec::Uncompressed, Codec::Lz4] {
        assert_eq!(round_trip(&raw, codec), raw, "{codec:?}");
    }
}

#[test]
fn round_trip_at_max_block_size_boundary() {
    let raw = vec![0x7u8; MAX_BLOCK_SIZE];
    for codec in [Codec::Uncompressed, Codec::Lz4] {
        let got = round_trip(&raw, codec);
        assert_eq!(got.len(), MAX_BLOCK_SIZE, "{codec:?}");
        assert_eq!(got, raw, "{codec:?}");
    }
}

#[test]
fn write_block_emits_the_exact_frame_layout() {
    let expected: Vec<u8> = [0u8]
        .into_iter()
        .chain(7u32.to_le_bytes())
        .chain(7u32.to_le_bytes())
        .chain(*b"payload")
        .collect();

    assert_eq!(written(b"payload", Codec::Uncompressed), expected);
}

#[test]
fn write_block_stores_the_lz4_codec_byte_when_compression_helps() {
    let raw = vec![0xABu8; 10_000];
    let bytes = written(&raw, Codec::Lz4);

    assert_eq!(bytes[0], Codec::Lz4 as u8);
    let c_len = u32::from_le_bytes(bytes[1..5].try_into().unwrap()) as usize;
    let r_len = u32::from_le_bytes(bytes[5..9].try_into().unwrap()) as usize;
    assert_eq!(r_len, raw.len());
    assert!(c_len < r_len, "c_len {c_len} should undercut r_len {r_len}");
    assert_eq!(bytes.len(), 9 + c_len);
}

#[test]
fn write_block_falls_back_to_none_when_lz4_would_not_shrink() {
    let bytes = written(b"x", Codec::Lz4);

    let mut expected = header(Codec::Uncompressed as u8, 1, 1);
    expected.push(b'x');
    assert_eq!(bytes, expected);
    assert_eq!(round_trip(b"x", Codec::Lz4), b"x".to_vec());
}

#[test]
fn write_block_falls_back_to_none_for_empty_input() {
    assert_eq!(
        written(&[], Codec::Lz4),
        header(Codec::Uncompressed as u8, 0, 0)
    );
}

#[test]
fn write_block_never_compresses_under_the_none_codec() {
    let raw = vec![0xABu8; 10_000];
    let mut expected = header(
        Codec::Uncompressed as u8,
        raw.len() as u32,
        raw.len() as u32,
    );
    expected.extend_from_slice(&raw);

    assert_eq!(written(&raw, Codec::Uncompressed), expected);
}

#[test]
fn write_block_appends_after_existing_bytes() {
    let mut out = vec![1u8, 2, 3];
    write_block(&mut out, b"ab", Codec::Uncompressed);
    let mut expected = vec![1u8, 2, 3];
    expected.extend_from_slice(&header(0, 2, 2));
    expected.extend_from_slice(b"ab");
    assert_eq!(out, expected);
}

#[test]
fn read_block_returns_none_on_clean_eof() {
    let mut cursor = ByteCursor::new(Vec::new());
    assert!(matches!(read_block(&mut cursor), Ok(None)));
}

#[test]
fn read_block_errors_on_truncated_header() {
    let err = read_err(vec![1u8, 2, 3, 4, 5]);
    assert!(err.contains("truncated header: got 5 of 9 bytes"), "{err}");
}

#[test]
fn read_block_errors_on_an_unknown_codec_byte() {
    let err = read_err(header(7, 0, 0));
    assert!(err.contains("unknown codec byte 7"), "{err}");
}

#[test]
fn read_block_errors_when_raw_length_exceeds_max_block_size() {
    let mut bytes = header(Codec::Lz4 as u8, 1, MAX_BLOCK_SIZE as u32 + 1);
    bytes.push(0);

    let err = read_err(bytes);
    assert!(err.contains("exceeds MAX_BLOCK_SIZE"), "{err}");
}

#[test]
fn read_block_errors_when_compressed_length_implausible() {
    let err = read_err(header(Codec::Lz4 as u8, 100, 0));
    assert!(err.contains("implausible for raw length"), "{err}");
}

#[test]
fn read_block_errors_when_uncompressed_lengths_disagree() {
    let err = read_err(header(Codec::Uncompressed as u8, 100, 0));
    assert!(
        err.contains("raw length 0 not equals compressed length 100"),
        "{err}"
    );
    assert!(!err.contains("implausible"), "{err}");
}

#[test]
fn read_block_errors_on_truncated_lz4_body() {
    let mut bytes = header(Codec::Lz4 as u8, 10, 1);
    bytes.extend_from_slice(&[0u8; 3]);

    let err = read_err(bytes);
    assert!(err.contains("truncated body: expected 10 bytes"), "{err}");
}

#[test]
fn read_block_errors_on_truncated_uncompressed_body() {
    let mut bytes = header(Codec::Uncompressed as u8, 10, 10);
    bytes.extend_from_slice(&[0u8; 3]);

    let err = read_err(bytes);
    assert!(err.contains("truncated body: expected 10 bytes"), "{err}");
}

#[test]
fn read_block_errors_on_invalid_lz4_stream() {
    let mut bytes = header(Codec::Lz4 as u8, 1, 1);
    bytes.push(0xFF);

    let err = read_err(bytes);
    assert!(err.contains("lz4 decompress failed"), "{err}");
}

#[test]
fn read_block_reads_multiple_sequential_blocks_in_order() {
    let mut out = Vec::new();
    write_block(&mut out, b"first", Codec::Lz4);
    write_block(&mut out, b"", Codec::Uncompressed);
    let third = vec![9u8; 500];
    write_block(&mut out, &third, Codec::Lz4);
    let fourth = incompressible(64);
    write_block(&mut out, &fourth, Codec::Uncompressed);
    let mut cursor = ByteCursor::new(out);

    assert_eq!(read_block(&mut cursor).unwrap(), Some(b"first".to_vec()));
    assert_eq!(read_block(&mut cursor).unwrap(), Some(Vec::new()));
    assert_eq!(read_block(&mut cursor).unwrap(), Some(third));
    assert_eq!(read_block(&mut cursor).unwrap(), Some(fourth));
    assert!(matches!(read_block(&mut cursor), Ok(None)));
}

#[test]
fn read_block_consumes_exactly_one_frame() {
    let mut out = Vec::new();
    write_block(&mut out, b"abc", Codec::Uncompressed);
    let one = out.len();
    write_block(&mut out, b"defg", Codec::Uncompressed);
    let total = out.len();
    let mut cursor = ByteCursor::new(out);
    assert_eq!(cursor.remaining(), total);
    read_block(&mut cursor).unwrap();
    assert_eq!(cursor.remaining(), total - one);
}
