use termdict::checkpoint::CheckPoint;
use termdict::common::{deserialize_u32, deserialize_u64, read_le, serialize_u32, serialize_u64};
use termdict::common::{write_le, CountingWriter};
use termdict::delta_encoder::{DeltaTermInfo, TermDeltaDecoder, TermDeltaEncoder};
use termdict::delta_encoder::{TermInfoDeltaDecoder, TermInfoDeltaEncoder};
use termdict::error::DictError;
use termdict::order::{common_prefix_len, key_eq, key_lt};
use termdict::postings::TermInfo;
use termdict::record::{num_bytes_required, read_term_kv, record_len, write_term_kv};

#[test]
fn test_num_bytes_required() {
    assert_eq!(num_bytes_required(0), 1);
    assert_eq!(num_bytes_required(1), 1);
    assert_eq!(num_bytes_required(255), 1);
    assert_eq!(num_bytes_required(256), 2);
    assert_eq!(num_bytes_required(u32::max_value()), 4);
}

#[test]
fn test_num_bytes_required_at_each_width() {
    assert_eq!(num_bytes_required(65_535), 2);
    assert_eq!(num_bytes_required(65_536), 3);
    assert_eq!(num_bytes_required(16_777_215), 3);
    assert_eq!(num_bytes_required(16_777_216), 4);
}

#[test]
fn test_little_endian_codecs() {
    let mut out = vec![9u8];
    serialize_u32(0x0403_0201, &mut out);
    serialize_u64(0x0807_0605_0403_0201, &mut out);
    assert_eq!(out, vec![9, 1, 2, 3, 4, 1, 2, 3, 4, 5, 6, 7, 8]);
    assert_eq!(deserialize_u32(&out, 1), Ok(0x0403_0201));
    assert_eq!(deserialize_u64(&out, 5), Ok(0x0807_0605_0403_0201));
    assert_eq!(deserialize_u32(&out, 10), Err(DictError::Corrupted));
    assert_eq!(deserialize_u64(&out, 6), Err(DictError::Corrupted));
    assert_eq!(deserialize_u32(&out, usize::MAX), Err(DictError::Corrupted));
    let mut out = Vec::new();
    write_le(&mut out, 0x0012_3456, 3);
    assert_eq!(out, vec![0x56, 0x34, 0x12]);
    assert_eq!(read_le(&out, 0, 3), 0x0012_3456);
    assert_eq!(read_le(&out, 1, 2), 0x1234);
    assert_eq!(read_le(&out, 3, 0), 0);
}

#[test]
fn test_counting_writer() {
    let mut writer = CountingWriter::wrap(vec![1, 2, 3]);
    assert_eq!(writer.written_bytes(), 0);
    writer.write_all(b"ab");
    writer.write_all(b"");
    writer.write_all(b"cde");
    assert_eq!(writer.written_bytes(), 5);
    let (sink, count) = writer.finish();
    assert_eq!(sink, vec![1, 2, 3, b'a', b'b', b'c', b'd', b'e']);
    assert_eq!(count, 5);
}

#[test]
fn test_checkpoint_bytes() {
    let checkpoint = CheckPoint {
        stream_offset: 0x0102_0304,
        postings_offset: 5,
        positions_offset: 0xffff_ffff,
    };
    let mut out = vec![7u8];
    checkpoint.serialize(&mut out);
    assert_eq!(out, vec![7, 4, 3, 2, 1, 5, 0, 0, 0, 0xff, 0xff, 0xff, 0xff]);
    assert_eq!(CheckPoint::deserialize(&out, 1), Ok(checkpoint));
    assert_eq!(CheckPoint::deserialize(&out, 2), Err(DictError::Corrupted));
    assert_eq!(CheckPoint::deserialize(&out, 0).unwrap().stream_offset, 0x0203_0407);
}

#[test]
fn test_key_order() {
    assert_eq!(common_prefix_len(b"abcd", b"abxy"), 2);
    assert_eq!(common_prefix_len(b"", b"abxy"), 0);
    assert_eq!(common_prefix_len(b"ab", b"abxy"), 2);
    assert!(key_lt(b"", b"a"));
    assert!(key_lt(b"a", b"ab"));
    assert!(key_lt(b"ab", b"b"));
    assert!(key_lt(b"a\x7f", b"a\x80"));
    assert!(!key_lt(b"a", b"a"));
    assert!(!key_lt(b"b", b"ab"));
    assert!(!key_lt(b"", b""));
    assert!(key_eq(b"abc", b"abc"));
    assert!(!key_eq(b"abc", b"ab"));
    assert!(!key_eq(b"abc", b"abd"));
}

#[test]
fn test_term_delta_encoder() {
    let mut encoder = TermDeltaEncoder::default();
    encoder.encode(b"cat");
    assert_eq!(encoder.prefix_suffix(), (0, &b"cat"[..]));
    encoder.encode(b"cats");
    assert_eq!(encoder.prefix_suffix(), (3, &b"s"[..]));
    assert_eq!(encoder.term(), b"cats");
    encoder.encode(b"cow");
    assert_eq!(encoder.prefix_suffix(), (1, &b"ow"[..]));
    encoder.reset();
    assert_eq!(encoder.term(), b"");
    encoder.encode(b"cox");
    assert_eq!(encoder.prefix_suffix(), (0, &b"cox"[..]));
}

#[test]
fn test_term_info_delta_encoder() {
    let mut encoder = TermInfoDeltaEncoder::new(true);
    let first = TermInfo { doc_freq: 4, postings_offset: 10, positions_offset: 20, positions_inner_offset: 3 };
    assert_eq!(
        encoder.encode(first),
        Ok(DeltaTermInfo { doc_freq: 4, delta_postings_offset: 10, delta_positions_offset: 20, positions_inner_offset: 3 })
    );
    let second = TermInfo { doc_freq: 1, postings_offset: 15, positions_offset: 20, positions_inner_offset: 0 };
    assert_eq!(
        encoder.encode(second),
        Ok(DeltaTermInfo { doc_freq: 1, delta_postings_offset: 5, delta_positions_offset: 0, positions_inner_offset: 0 })
    );
    assert_eq!(*encoder.term_info(), second);
    let back = TermInfo { doc_freq: 1, postings_offset: 14, positions_offset: 20, positions_inner_offset: 0 };
    assert_eq!(encoder.encode(back), Err(DictError::InvalidArgument));
    assert_eq!(*encoder.term_info(), second);

    let mut plain = TermInfoDeltaEncoder::new(false);
    assert!(!plain.has_positions());
    assert_eq!(
        plain.encode(first),
        Ok(DeltaTermInfo { doc_freq: 4, delta_postings_offset: 10, delta_positions_offset: 0, positions_inner_offset: 0 })
    );
}

#[test]
fn test_record_round_trip() {
    let delta = DeltaTermInfo {
        doc_freq: 70_000,
        delta_postings_offset: 300,
        delta_positions_offset: 0x0100_0000,
        positions_inner_offset: 42,
    };
    let mut writer = CountingWriter::wrap(Vec::new());
    write_term_kv(2, b"llo", &delta, true, &mut writer);
    let (bytes, count) = writer.finish();
    assert_eq!(count, bytes.len());
    assert_eq!(
        bytes,
        vec![
            0b0110_1101, 0x32, b'l', b'l', b'o', //
            0x70, 0x11, 0x01, 0x2c, 0x01, 0x00, 0x00, 0x00, 0x01, 42,
        ]
    );
    let mut terms = TermDeltaDecoder::with_previous_term(b"hey".to_vec());
    let previous = TermInfo { doc_freq: 9, postings_offset: 1000, positions_offset: 5, positions_inner_offset: 1 };
    let mut infos = TermInfoDeltaDecoder::from_term_info(previous, true);
    assert_eq!(read_term_kv(&bytes, 0, &mut terms, &mut infos), Ok(bytes.len()));
    assert_eq!(terms.term(), b"hello");
    assert_eq!(
        *infos.term_info(),
        TermInfo { doc_freq: 70_000, postings_offset: 1300, positions_offset: 0x0100_0005, positions_inner_offset: 42 }
    );
}

#[test]
fn test_read_term_kv_refuses_malformed_records() {
    let zero = TermInfo { doc_freq: 0, postings_offset: 0, positions_offset: 0, positions_inner_offset: 0 };
    let read = |bytes: &[u8], previous: &[u8], start: TermInfo, positions: bool| {
        let mut terms = TermDeltaDecoder::with_previous_term(previous.to_vec());
        let mut infos = TermInfoDeltaDecoder::from_term_info(start, positions);
        read_term_kv(bytes, 0, &mut terms, &mut infos)
    };
    // Nothing to read.
    assert_eq!(read(&[], b"", zero, false), Err(DictError::Corrupted));
    // Bit 7 of the code byte is set.
    assert_eq!(read(&[0x81, 0x10, b'a', 1, 0], b"", zero, false), Err(DictError::Corrupted));
    // The record ends before its suffix does.
    assert_eq!(read(&[0x01, 0x30, b'a'], b"", zero, false), Err(DictError::Corrupted));
    // The record ends before its offsets do.
    assert_eq!(read(&[0x01, 0x10, b'a', 1], b"", zero, false), Err(DictError::Corrupted));
    assert_eq!(read(&[0x01, 0x10, b'a', 1, 0, 0], b"", zero, true), Err(DictError::Corrupted));
    // The key asks for more of the key before it than there is.
    assert_eq!(read(&[0x01, 0x12, b'a', 1, 0], b"x", zero, false), Err(DictError::Corrupted));
    // The postings offset leaves the range of u32.
    let high = TermInfo { doc_freq: 0, postings_offset: u32::MAX, positions_offset: 0, positions_inner_offset: 0 };
    assert_eq!(read(&[0x01, 0x10, b'a', 1, 1], b"", high, false), Err(DictError::Corrupted));
    // A well-formed record.
    assert_eq!(read(&[0x01, 0x10, b'a', 1, 0], b"", zero, false), Ok(5));
    assert_eq!(read(&[0x01, 0x10, b'a', 1, 0, 0, 0], b"", zero, true), Ok(7));
}

#[test]
fn test_decoders_resume_at_a_checkpoint() {
    let checkpoint = CheckPoint { stream_offset: 40, postings_offset: 1000, positions_offset: 2000 };
    let mut infos = TermInfoDeltaDecoder::from_checkpoint(&checkpoint, true);
    assert_eq!(
        *infos.term_info(),
        TermInfo { doc_freq: 0, postings_offset: 1000, positions_offset: 2000, positions_inner_offset: 0 }
    );
    // Widths of one, two and three bytes: code bits 0b0_10_01_00_0.
    let bytes = [5u8, 0x01, 0x02, 0x03, 0x00, 0x01, 9];
    assert_eq!(infos.decode(0b0100_1000, &bytes, 0), Ok(7));
    assert_eq!(
        *infos.term_info(),
        TermInfo { doc_freq: 5, postings_offset: 1000 + 0x0201, positions_offset: 2000 + 0x01_0003, positions_inner_offset: 9 }
    );
    let mut plain = TermInfoDeltaDecoder::from_checkpoint(&checkpoint, false);
    assert_eq!(plain.decode(0b0100_1000, &bytes, 0), Ok(3));
    assert_eq!(
        *plain.term_info(),
        TermInfo { doc_freq: 5, postings_offset: 1000 + 0x0201, positions_offset: 2000, positions_inner_offset: 0 }
    );
    let mut encoder = TermInfoDeltaEncoder::new(true);
    encoder.reset(&checkpoint);
    assert_eq!(
        *encoder.term_info(),
        TermInfo { doc_freq: 0, postings_offset: 1000, positions_offset: 2000, positions_inner_offset: 0 }
    );
}

#[test]
fn test_term_delta_decoder() {
    let mut terms = TermDeltaDecoder::default();
    assert_eq!(terms.term(), b"");
    // Short form: no prefix, three bytes of suffix.
    assert_eq!(terms.decode(1, &[0x30, b'c', b'a', b't', 0xee], 0), Ok(4));
    assert_eq!(terms.term(), b"cat");
    // Long form: three bytes of prefix, one of suffix.
    let long = [3u8, 0, 0, 0, 1, 0, 0, 0, b's'];
    assert_eq!(terms.decode(0, &long, 0), Ok(9));
    assert_eq!(terms.term(), b"cats");
    // A prefix longer than the key before it.
    assert_eq!(terms.decode(1, &[0x15, b'x'], 0), Err(DictError::Corrupted));
    assert_eq!(terms.term(), b"cats");
    // A suffix longer than what is left.
    assert_eq!(terms.decode(1, &[0x21, b'x'], 0), Err(DictError::Corrupted));
    assert_eq!(terms.decode(0, &long[..7], 0), Err(DictError::Corrupted));
    assert_eq!(terms.decode(1, &[], 0), Err(DictError::Corrupted));
    assert_eq!(terms.term(), b"cats");
}

#[test]
fn test_term_info_default() {
    assert_eq!(
        TermInfo::default(),
        TermInfo { doc_freq: 0, postings_offset: 0, positions_offset: 0, positions_inner_offset: 0 }
    );
}

#[test]
fn test_record_len() {
    let delta = DeltaTermInfo {
        doc_freq: 70_000,
        delta_postings_offset: 300,
        delta_positions_offset: 0x0100_0000,
        positions_inner_offset: 42,
    };
    assert_eq!(record_len(2, 3, &delta, true), 15);
    assert_eq!(record_len(2, 3, &delta, false), 10);
    assert_eq!(record_len(16, 3, &delta, false), 17);
    assert_eq!(record_len(0, 16, &delta, true), 35);
    let small = DeltaTermInfo {
        doc_freq: 0,
        delta_postings_offset: 0,
        delta_positions_offset: 0,
        positions_inner_offset: 0,
    };
    assert_eq!(record_len(0, 0, &small, false), 4);
    assert_eq!(record_len(0, 0, &small, true), 6);
}

#[test]
fn test_term_info_delta() {
    let mut encoder = TermInfoDeltaEncoder::new(true);
    let first = TermInfo { doc_freq: 4, postings_offset: 10, positions_offset: 20, positions_inner_offset: 3 };
    encoder.encode(first).unwrap();
    let second = TermInfo { doc_freq: 9, postings_offset: 17, positions_offset: 21, positions_inner_offset: 1 };
    assert_eq!(
        encoder.delta(&second),
        DeltaTermInfo { doc_freq: 9, delta_postings_offset: 7, delta_positions_offset: 1, positions_inner_offset: 1 }
    );
    assert_eq!(*encoder.term_info(), first);
    assert!(encoder.can_encode(&second));
    assert!(!encoder.can_encode(&TermInfo { doc_freq: 9, postings_offset: 9, positions_offset: 21, positions_inner_offset: 1 }));
}
