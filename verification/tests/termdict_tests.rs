use termdict::builder::{has_positions, TermDictionaryBuilderImpl};
use termdict::error::DictError;
use termdict::postings::TermInfo;
use termdict::schema::{FieldType, TextIndexingOptions, TextOptions};
use termdict::streamer::{prefix_successor, TermStreamerImpl};
use termdict::termdict::TermDictionaryImpl;

fn text_field(indexing: TextIndexingOptions) -> FieldType {
    FieldType::Str(TextOptions {
        indexing,
        stored: false,
    })
}

fn with_positions() -> FieldType {
    text_field(TextIndexingOptions::TokenizedWithFreqAndPosition)
}

fn without_positions() -> FieldType {
    text_field(TextIndexingOptions::TokenizedWithFreq)
}

fn info(doc_freq: u32, postings_offset: u32, positions_offset: u32, inner: u8) -> TermInfo {
    TermInfo {
        doc_freq,
        postings_offset,
        positions_offset,
        positions_inner_offset: inner,
    }
}

fn build(field_type: FieldType, entries: &[(Vec<u8>, TermInfo)]) -> Vec<u8> {
    let mut builder = TermDictionaryBuilderImpl::new(Vec::new(), field_type).unwrap();
    for (key, value) in entries {
        builder.insert(key, value).unwrap();
    }
    builder.finish().unwrap()
}

fn collect(dictionary: &TermDictionaryImpl) -> Vec<(Vec<u8>, TermInfo)> {
    let mut streamer = dictionary.range().into_stream();
    let mut found = Vec::new();
    while streamer.advance() {
        found.push((streamer.key().to_vec(), *streamer.value()));
    }
    found
}

fn numbered(n: usize, with_positions: bool) -> Vec<(Vec<u8>, TermInfo)> {
    (0..n)
        .map(|i| {
            let positions = if with_positions { (i as u32) * 7 } else { 0 };
            let inner = if with_positions { (i % 200) as u8 } else { 0 };
            (
                format!("key{:06}", i).into_bytes(),
                info((i as u32) % 300 + 1, (i as u32) * 10, positions, inner),
            )
        })
        .collect()
}

#[test]
fn test_has_positions_of_field_types() {
    assert!(has_positions(&with_positions()));
    assert!(!has_positions(&without_positions()));
    assert!(!has_positions(&text_field(TextIndexingOptions::Unindexed)));
    assert!(!has_positions(&text_field(TextIndexingOptions::Untokenized)));
    assert!(!has_positions(&text_field(TextIndexingOptions::TokenizedNoFreq)));
    assert!(!has_positions(&FieldType::U64));
    assert!(!has_positions(&FieldType::I64));
}

#[test]
fn test_single_entry_no_positions() {
    let value = info(1, 0, 0, 0);
    let file = build(without_positions(), &[(b"a".to_vec(), value)]);
    let dictionary = TermDictionaryImpl::from_source(file).unwrap();
    assert!(!dictionary.has_positions());
    assert_eq!(dictionary.get(b"a"), Some(value));
    assert_eq!(dictionary.get(b"b"), None);
    assert_eq!(collect(&dictionary), vec![(b"a".to_vec(), value)]);
}

#[test]
fn test_empty_dictionary() {
    let file = build(without_positions(), &[]);
    let dictionary = TermDictionaryImpl::from_source(file).unwrap();
    assert_eq!(dictionary.get(b"a"), None);
    assert_eq!(dictionary.get(b""), None);
    assert_eq!(collect(&dictionary), vec![]);
    assert_eq!(dictionary.num_checkpoints(), 1);
}

#[test]
fn test_short_form_records() {
    let file = build(
        without_positions(),
        &[
            (b"cat".to_vec(), info(3, 0, 0, 0)),
            (b"cats".to_vec(), info(1, 4, 0, 0)),
        ],
    );
    let dictionary = TermDictionaryImpl::from_source(file.clone()).unwrap();
    let stream = dictionary.stream_data();
    assert_eq!(
        stream,
        &[0x01, 0x30, b'c', b'a', b't', 3, 0, 0x01, 0x13, b's', 1, 4][..]
    );
    assert_eq!(stream[7] & 1, 1);
    assert_eq!(file[0], 0);
    assert_eq!(&file[1..13], stream);
    assert_eq!(&file[13..17], &[0u8, 0, 0, 0][..]);
    let total = file.len();
    assert_eq!(&file[total - 16..total - 8], &16u64.to_le_bytes()[..]);
    let checkpoints_addr = total as u64 - 1 - 16 - 24;
    assert_eq!(&file[total - 8..], &checkpoints_addr.to_le_bytes()[..]);
    let table = &file[total - 16 - 24..total - 16];
    assert_eq!(&table[..12], &[0u8; 12][..]);
    assert_eq!(&table[12..], &[12u8, 0, 0, 0, 4, 0, 0, 0, 0, 0, 0, 0][..]);
}

#[test]
fn test_long_form_record() {
    let first = b"abcdefghijklmnopqrst".to_vec();
    let mut second = first[..17].to_vec();
    second.extend_from_slice(b"xyz");
    assert_eq!(second.len(), 20);
    let file = build(
        without_positions(),
        &[
            (first.clone(), info(1, 0, 0, 0)),
            (second.clone(), info(2, 300, 0, 0)),
        ],
    );
    let dictionary = TermDictionaryImpl::from_source(file).unwrap();
    let stream = dictionary.stream_data();
    // The first key has no prefix and twenty bytes of suffix: long form.
    assert_eq!(stream[0], 0);
    assert_eq!(&stream[1..5], &0u32.to_le_bytes()[..]);
    assert_eq!(&stream[5..9], &20u32.to_le_bytes()[..]);
    assert_eq!(&stream[9..29], &first[..]);
    assert_eq!(&stream[29..31], &[1u8, 0][..]);
    // The second shares seventeen bytes: long form again, the postings
    // delta in two bytes.
    assert_eq!(stream[31], 0b0000_1000);
    assert_eq!(stream[31] & 1, 0);
    assert_eq!(&stream[32..36], &17u32.to_le_bytes()[..]);
    assert_eq!(&stream[36..40], &3u32.to_le_bytes()[..]);
    assert_eq!(&stream[40..43], b"xyz");
    assert_eq!(&stream[43..], &[2u8, 0x2c, 0x01][..]);
    assert_eq!(dictionary.get(&second), Some(info(2, 300, 0, 0)));
    assert_eq!(dictionary.get(&first), Some(info(1, 0, 0, 0)));
}

#[test]
fn test_block_boundary() {
    let entries = numbered(1500, false);
    let file = build(without_positions(), &entries);
    let dictionary = TermDictionaryImpl::from_source(file).unwrap();
    assert_eq!(dictionary.num_checkpoints(), 3);
    let (key, checkpoint) = dictionary.strictly_previous_key(&entries[1024].0);
    assert_eq!(key, entries[1024].0);
    assert_eq!(checkpoint.postings_offset, 10230);
    assert_eq!(checkpoint.positions_offset, 0);
    let (key, offset) = dictionary.strictly_previous_key_checkpoint_offset(&entries[1024].0);
    assert_eq!(key, entries[1024].0);
    assert_eq!(offset, 12);
    let (key, offset) = dictionary.strictly_previous_key_checkpoint_offset(&entries[1023].0);
    assert_eq!(key, entries[0].0);
    assert_eq!(offset, 0);
    let mut streamer = dictionary.range().ge(&entries[1024].0).into_stream();
    assert!(streamer.advance());
    assert_eq!(streamer.key(), &entries[1024].0[..]);
    assert_eq!(*streamer.value(), entries[1024].1);
    assert_eq!(collect(&dictionary), entries);
}

#[test]
fn test_checkpoint_cardinality() {
    for (n, expected) in [(0usize, 1usize), (1, 2), (1023, 2), (1024, 2), (1025, 3), (2048, 3), (2049, 4)] {
        let file = build(without_positions(), &numbered(n, false));
        let dictionary = TermDictionaryImpl::from_source(file).unwrap();
        assert_eq!(dictionary.num_checkpoints(), expected);
    }
}

#[test]
fn test_positions_field() {
    let entries = vec![
        (b"a".to_vec(), info(2, 5, 100, 3)),
        (b"b".to_vec(), info(1, 5, 70000, 9)),
    ];
    let with = build(with_positions(), &entries);
    let dictionary = TermDictionaryImpl::from_source(with.clone()).unwrap();
    assert!(dictionary.has_positions());
    assert_eq!(with[0], 255);
    assert_eq!(
        dictionary.stream_data(),
        &[
            0x01, 0x10, b'a', 2, 5, 100, 3, //
            0b0100_0001, 0x10, b'b', 1, 0, 0x0c, 0x11, 0x01, 9,
        ][..]
    );
    assert_eq!(collect(&dictionary), entries);
    assert_eq!(dictionary.get(b"b"), Some(info(1, 5, 70000, 9)));

    let plain = vec![
        (b"a".to_vec(), info(2, 5, 0, 0)),
        (b"b".to_vec(), info(1, 5, 0, 0)),
    ];
    let without = build(without_positions(), &plain);
    let dictionary = TermDictionaryImpl::from_source(without).unwrap();
    assert!(!dictionary.has_positions());
    assert_eq!(
        dictionary.stream_data(),
        &[0x01, 0x10, b'a', 2, 5, 0x01, 0x10, b'b', 1, 0][..]
    );
    assert_eq!(collect(&dictionary), plain);
}

#[test]
fn test_round_trip_get_and_ge() {
    for with in [false, true] {
        let entries = numbered(3000, with);
        let field_type = if with { with_positions() } else { without_positions() };
        let file = build(field_type, &entries);
        let dictionary = TermDictionaryImpl::from_source(file).unwrap();
        for (i, (key, value)) in entries.iter().enumerate() {
            if i % 7 != 0 && i % 1024 > 2 && i % 1024 < 1021 {
                continue;
            }
            assert_eq!(dictionary.get(key), Some(*value));
            let mut streamer = dictionary.range().ge(key).into_stream();
            assert!(streamer.advance());
            assert_eq!(streamer.key(), &key[..]);
            assert_eq!(streamer.value(), value);
        }
        assert_eq!(collect(&dictionary), entries);
    }
}

#[test]
fn test_missing_keys() {
    let entries: Vec<(Vec<u8>, TermInfo)> = (0..2500u32)
        .map(|i| (format!("k{:05}", i * 2).into_bytes(), info(i + 1, i * 3, 0, 0)))
        .collect();
    let file = build(without_positions(), &entries);
    let dictionary = TermDictionaryImpl::from_source(file).unwrap();
    for i in (0..2500usize).step_by(13) {
        let missing = format!("k{:05}", i * 2 + 1).into_bytes();
        assert_eq!(dictionary.get(&missing), None);
        let mut streamer = dictionary.range().ge(&missing).into_stream();
        if i + 1 < 2500 {
            assert!(streamer.advance());
            assert_eq!(streamer.key(), &entries[i + 1].0[..]);
            assert_eq!(*streamer.value(), entries[i + 1].1);
        } else {
            assert!(!streamer.advance());
        }
    }
    assert_eq!(dictionary.get(b""), None);
    assert_eq!(dictionary.get(b"a"), None);
    assert_eq!(dictionary.get(b"zzz"), None);
    let mut streamer = dictionary.range().ge(b"zzz").into_stream();
    assert!(!streamer.advance());
    let mut streamer = dictionary.range().ge(b"").into_stream();
    assert!(streamer.advance());
    assert_eq!(streamer.key(), &entries[0].0[..]);
}

#[test]
fn test_range_bounds() {
    let entries = numbered(2100, false);
    let file = build(without_positions(), &entries);
    let dictionary = TermDictionaryImpl::from_source(file).unwrap();
    let keys_of = |mut streamer: TermStreamerImpl| {
        let mut keys = Vec::new();
        while streamer.advance() {
            keys.push(streamer.key().to_vec());
        }
        keys
    };
    let expect = |from: usize, to: usize| -> Vec<Vec<u8>> {
        entries[from..to].iter().map(|(key, _)| key.clone()).collect()
    };
    let lo = &entries[1020].0;
    let hi = &entries[1030].0;
    assert_eq!(keys_of(dictionary.range().ge(lo).lt(hi).into_stream()), expect(1020, 1030));
    assert_eq!(keys_of(dictionary.range().gt(lo).lt(hi).into_stream()), expect(1021, 1030));
    assert_eq!(keys_of(dictionary.range().ge(lo).le(hi).into_stream()), expect(1020, 1031));
    assert_eq!(keys_of(dictionary.range().gt(lo).le(hi).into_stream()), expect(1021, 1031));
    assert_eq!(keys_of(dictionary.range().lt(lo).into_stream()), expect(0, 1020));
    assert_eq!(keys_of(dictionary.range().gt(hi).into_stream()), expect(1031, 2100));
    assert_eq!(keys_of(dictionary.range().ge(hi).lt(lo).into_stream()), expect(0, 0));
    assert_eq!(keys_of(dictionary.range().gt(b"key0010245").lt(hi).into_stream()), expect(1025, 1030));
    assert_eq!(keys_of(dictionary.range().le(b"key0010245").into_stream()), expect(0, 1025));
}

#[test]
fn test_prefix_streaming() {
    let mut keys: Vec<Vec<u8>> = vec![
        b"".to_vec(),
        b"a".to_vec(),
        b"ab".to_vec(),
        b"ab\xff".to_vec(),
        b"ab\xff\xff".to_vec(),
        b"ab\xff\xffz".to_vec(),
        b"abc".to_vec(),
        b"ac".to_vec(),
        b"b".to_vec(),
        b"\xff".to_vec(),
        b"\xff\x00".to_vec(),
        b"\xff\xff".to_vec(),
    ];
    keys.sort();
    let entries: Vec<(Vec<u8>, TermInfo)> = keys
        .iter()
        .enumerate()
        .map(|(i, key)| (key.clone(), info(1, i as u32, 0, 0)))
        .collect();
    let file = build(without_positions(), &entries);
    let dictionary = TermDictionaryImpl::from_source(file).unwrap();
    let prefixes: Vec<&[u8]> = vec![b"", b"a", b"ab", b"ab\xff", b"ab\xff\xff", b"abd", b"\xff", b"\xff\xff", b"c"];
    for prefix in prefixes {
        let mut streamer = dictionary.range().prefix(prefix).into_stream();
        let mut found = Vec::new();
        while streamer.advance() {
            found.push(streamer.key().to_vec());
        }
        let expected: Vec<Vec<u8>> = keys.iter().filter(|key| key.starts_with(prefix)).cloned().collect();
        assert_eq!(found, expected);
    }
}

#[test]
fn test_prefix_successor() {
    assert_eq!(prefix_successor(b""), None);
    assert_eq!(prefix_successor(b"\xff\xff"), None);
    assert_eq!(prefix_successor(b"a"), Some(b"b".to_vec()));
    assert_eq!(prefix_successor(b"ab\xff\xff"), Some(b"ac".to_vec()));
    assert_eq!(prefix_successor(b"\x00"), Some(b"\x01".to_vec()));
}

#[test]
fn test_insert_out_of_order_is_refused() {
    let mut builder = TermDictionaryBuilderImpl::new(Vec::new(), without_positions()).unwrap();
    assert_eq!(builder.insert(b"b", &info(1, 0, 0, 0)), Ok(()));
    assert_eq!(builder.insert(b"a", &info(1, 1, 0, 0)), Err(DictError::InvalidArgument));
    assert_eq!(builder.insert(b"b", &info(1, 1, 0, 0)), Err(DictError::InvalidArgument));
    assert_eq!(builder.insert(b"c", &info(1, 1, 0, 0)), Ok(()));
    let dictionary = TermDictionaryImpl::from_source(builder.finish().unwrap()).unwrap();
    assert_eq!(
        collect(&dictionary),
        vec![(b"b".to_vec(), info(1, 0, 0, 0)), (b"c".to_vec(), info(1, 1, 0, 0))]
    );
}

#[test]
fn test_insert_regressing_offsets_is_refused() {
    let mut builder = TermDictionaryBuilderImpl::new(Vec::new(), with_positions()).unwrap();
    assert_eq!(builder.insert(b"a", &info(1, 10, 10, 0)), Ok(()));
    assert_eq!(builder.insert(b"b", &info(1, 9, 10, 0)), Err(DictError::InvalidArgument));
    assert_eq!(builder.insert(b"b", &info(1, 10, 9, 0)), Err(DictError::InvalidArgument));
    assert_eq!(builder.insert(b"b", &info(1, 10, 10, 0)), Ok(()));
    let mut builder = TermDictionaryBuilderImpl::new(Vec::new(), without_positions()).unwrap();
    assert_eq!(builder.insert(b"a", &info(1, 10, 0, 0)), Ok(()));
    assert_eq!(builder.insert(b"b", &info(1, 9, 0, 0)), Err(DictError::InvalidArgument));
}

#[test]
fn test_builder_keeps_what_the_sink_held() {
    let builder = TermDictionaryBuilderImpl::new(b"head".to_vec(), without_positions()).unwrap();
    let file = builder.finish().unwrap();
    assert_eq!(&file[..4], b"head");
    assert_eq!(file[4..].to_vec(), build(without_positions(), &[]));
}

#[test]
fn test_from_source_refuses_corrupted_bytes() {
    assert!(matches!(TermDictionaryImpl::from_source(vec![]), Err(DictError::Corrupted)));
    assert!(matches!(TermDictionaryImpl::from_source(vec![0u8; 16]), Err(DictError::Corrupted)));
    // A footer whose first address is under the padding.
    assert!(matches!(TermDictionaryImpl::from_source(vec![0u8; 40]), Err(DictError::Corrupted)));
    let file = build(without_positions(), &numbered(10, false));
    let total = file.len();
    // A checkpoint address past the end.
    let mut broken = file.clone();
    broken[total - 8..].copy_from_slice(&(total as u64).to_le_bytes());
    assert!(matches!(TermDictionaryImpl::from_source(broken), Err(DictError::Corrupted)));
    // A block index address past the checkpoints.
    let mut broken = file.clone();
    broken[total - 16..total - 8].copy_from_slice(&(total as u64).to_le_bytes());
    assert!(matches!(TermDictionaryImpl::from_source(broken), Err(DictError::Corrupted)));
    // A block index that is too short to be one.
    let mut broken = file.clone();
    let fst_addr = u64::from_le_bytes(file[total - 16..total - 8].try_into().unwrap());
    broken[total - 8..].copy_from_slice(&(fst_addr + 3).to_le_bytes());
    assert!(matches!(TermDictionaryImpl::from_source(broken), Err(DictError::Corrupted)));
    assert!(TermDictionaryImpl::from_source(file).is_ok());
}

#[test]
fn test_strictly_previous_key_of_three_blocks() {
    let mut entries: Vec<(Vec<u8>, TermInfo)> = Vec::new();
    let mut offset = 0u32;
    for name in ["apple", "banana", "cherry"] {
        entries.push((name.as_bytes().to_vec(), info(1, offset, 0, 0)));
        for i in 0..1023 {
            offset += 2;
            entries.push((format!("{}{:04}", name, i).into_bytes(), info(1, offset, 0, 0)));
        }
        offset += 2;
    }
    let file = build(without_positions(), &entries);
    let dictionary = TermDictionaryImpl::from_source(file).unwrap();
    assert_eq!(dictionary.num_checkpoints(), 4);
    let (key, checkpoint) = dictionary.strictly_previous_key(b"blueberry");
    assert_eq!(key, b"banana".to_vec());
    assert_eq!(checkpoint.postings_offset, 2046);
    let (key, offset) = dictionary.strictly_previous_key_checkpoint_offset(b"blueberry");
    assert_eq!((key, offset), (b"banana".to_vec(), 12));
    let (key, offset) = dictionary.strictly_previous_key_checkpoint_offset(b"aardvark");
    assert_eq!((key, offset), (Vec::new(), 0));
    let (key, checkpoint) = dictionary.strictly_previous_key(b"aardvark");
    assert_eq!(key, Vec::<u8>::new());
    assert_eq!(
        (checkpoint.stream_offset, checkpoint.postings_offset, checkpoint.positions_offset),
        (0, 0, 0)
    );
    let (key, offset) = dictionary.strictly_previous_key_checkpoint_offset(b"zzz");
    assert_eq!((key, offset), (b"cherry".to_vec(), 24));
    assert_eq!(dictionary.get(b"blueberry"), None);
    assert_eq!(dictionary.get(b"banana0500"), Some(entries[1024 + 501].1));
}

#[test]
fn test_error_description() {
    assert_eq!(DictError::Io.description(), "an IO error occurred");
    assert_eq!(DictError::Corrupted.description(), "file contains corrupted data");
    assert_eq!(DictError::InvalidArgument.description(), "an invalid argument was passed");
}

#[test]
fn test_written_bytes_counts_the_stream() {
    let mut builder = TermDictionaryBuilderImpl::new(b"xx".to_vec(), without_positions()).unwrap();
    assert_eq!(builder.written_bytes(), 0);
    builder.insert(b"cat", &info(3, 0, 0, 0)).unwrap();
    assert_eq!(builder.written_bytes(), 7);
    builder.insert(b"cats", &info(1, 4, 0, 0)).unwrap();
    assert_eq!(builder.written_bytes(), 12);
    assert_eq!(builder.insert(b"cats", &info(1, 4, 0, 0)), Err(DictError::InvalidArgument));
    assert_eq!(builder.written_bytes(), 12);
}

#[test]
fn test_keys_restart_at_each_block() {
    let entries = numbered(1030, true);
    let file = build(with_positions(), &entries);
    let dictionary = TermDictionaryImpl::from_source(file).unwrap();
    let (_, checkpoint) = dictionary.strictly_previous_key(&entries[1024].0);
    let stream = dictionary.stream_data();
    let at = checkpoint.stream_offset as usize;
    // The first record of the second block holds its whole key.
    assert_eq!(stream[at] & 1, 1);
    assert_eq!(stream[at + 1], 0x90);
    assert_eq!(&stream[at + 2..at + 11], &entries[1024].0[..]);
    // Its offsets are counted from those of the entry before it.
    assert_eq!(checkpoint.postings_offset, entries[1023].1.postings_offset);
    assert_eq!(checkpoint.positions_offset, entries[1023].1.positions_offset);
    assert_eq!(&stream[at + 11..at + 15], &[125u8, 10, 7, 24][..]);
    assert_eq!(dictionary.checkpoints_data().len(), 36);
}

#[test]
fn test_from_source_checked_takes_what_a_builder_wrote() {
    for (n, with) in [(0usize, false), (1, true), (1500, false), (2100, true)] {
        let entries = numbered(n, with);
        let field_type = if with { with_positions() } else { without_positions() };
        let file = build(field_type, &entries);
        let dictionary = TermDictionaryImpl::from_source_checked(file.clone()).unwrap();
        assert_eq!(dictionary.has_positions(), with);
        assert_eq!(dictionary.as_bytes(), &file[..]);
        assert_eq!(collect(&dictionary), entries);
    }
}

#[test]
fn test_from_source_checked_refuses_what_no_builder_wrote() {
    let entries = numbered(1100, true);
    let file = build(with_positions(), &entries);
    let refused = |bytes: Vec<u8>| {
        matches!(TermDictionaryImpl::from_source_checked(bytes), Err(DictError::Corrupted))
    };
    assert!(refused(vec![]));
    assert!(refused(vec![0u8; 40]));
    // One byte of one key is another.
    let mut broken = file.clone();
    broken[5] ^= 1;
    assert!(refused(broken));
    // The flag tells of no positions.
    let mut broken = file.clone();
    broken[0] = 0;
    assert!(refused(broken));
    // A flag that is neither of the two.
    let mut broken = file.clone();
    broken[0] = 1;
    assert!(refused(broken));
    // A byte of the padding is not zero.
    let total = file.len();
    let fst_addr = u64::from_le_bytes(file[total - 16..total - 8].try_into().unwrap()) as usize;
    let mut broken = file.clone();
    broken[fst_addr] = 1;
    assert!(refused(broken));
    // A checkpoint holds another offset.
    let mut broken = file.clone();
    broken[total - 16 - 12] ^= 1;
    assert!(refused(broken));
    // The last byte of the block index, a byte of its checksum, is another.
    let checkpoints_addr = u64::from_le_bytes(file[total - 8..].try_into().unwrap()) as usize;
    let mut broken = file.clone();
    broken[checkpoints_addr] ^= 1;
    assert!(refused(broken));
    // A document frequency written in two bytes where one holds it opens
    // with `from_source`, but is not what a builder writes.
    let wide = vec![
        0u8, // no positions
        0x03, 0x10, b'a', 7, 0, 0, // one record, its document frequency in two bytes
        0, 0, 0, 0, // padding
    ];
    let plain = build(without_positions(), &[(b"a".to_vec(), info(7, 0, 0, 0))]);
    let mut odd = wide.clone();
    odd.extend_from_slice(&plain[1 + 5 + 4..plain.len() - 16]);
    let fst_len = plain.len() - 16 - 24 - (1 + 5 + 4);
    odd.extend_from_slice(&(10u64).to_le_bytes());
    odd.extend_from_slice(&(10u64 + fst_len as u64).to_le_bytes());
    assert!(TermDictionaryImpl::from_source(odd.clone()).is_ok());
    assert!(refused(odd));
    assert!(TermDictionaryImpl::from_source_checked(plain).is_ok());
    assert!(TermDictionaryImpl::from_source_checked(file).is_ok());
}

#[test]
fn test_accepts_and_fits() {
    let mut builder = TermDictionaryBuilderImpl::new(Vec::new(), with_positions()).unwrap();
    assert!(builder.accepts(b"", &info(0, 0, 0, 0)));
    assert!(builder.fits(b"", &info(0, 0, 0, 0)));
    builder.insert(b"b", &info(1, 5, 5, 0)).unwrap();
    assert!(builder.accepts(b"c", &info(1, 5, 5, 0)));
    assert!(builder.fits(b"c", &info(1, 5, 5, 0)));
    assert!(!builder.accepts(b"b", &info(1, 5, 5, 0)));
    assert!(!builder.accepts(b"a", &info(1, 6, 6, 0)));
    assert!(!builder.accepts(b"c", &info(1, 4, 5, 0)));
    assert!(!builder.accepts(b"c", &info(1, 5, 4, 0)));
}

#[test]
fn test_find_in_source() {
    let entries = numbered(1200, true);
    let file = build(with_positions(), &entries);
    assert_eq!(
        TermDictionaryImpl::find_in_source(file.clone(), &entries[1100].0),
        Ok(Some(entries[1100].1))
    );
    assert_eq!(TermDictionaryImpl::find_in_source(file.clone(), b"key"), Ok(None));
    let mut broken = file;
    broken[3] ^= 0x40;
    assert_eq!(
        TermDictionaryImpl::find_in_source(broken, &entries[1100].0),
        Err(DictError::Corrupted)
    );
}

#[test]
fn test_round_trip_of_keys_with_shared_prefixes_and_all_widths() {
    let mut state = 7u64;
    let mut step = |limit: u64| {
        state = state
            .wrapping_mul(6364136223846793005)
            .wrapping_add(1442695040888963407);
        (state >> 33) % limit
    };
    let mut keys: Vec<Vec<u8>> = Vec::new();
    for _ in 0..4000 {
        let len = step(40) as usize;
        let mut key: Vec<u8> = Vec::new();
        for _ in 0..len {
            key.push([b'a', b'b', 0x00, 0xff][step(4) as usize]);
        }
        keys.push(key);
    }
    keys.sort();
    keys.dedup();
    let mut postings = 0u32;
    let mut positions = 0u32;
    let mut entries = Vec::new();
    for key in keys {
        let widths = [1u64, 200, 60_000, 300_000];
        let postings_width = widths[step(4) as usize];
        postings += step(postings_width) as u32;
        let positions_width = widths[step(4) as usize];
        positions += step(positions_width) as u32;
        if entries.len() % 500 == 499 {
            // A delta that takes four bytes.
            postings += 17_000_000;
            positions += 16_777_216;
        }
        let doc_freq_width = widths[step(4) as usize] * 10_000;
        let doc_freq = step(doc_freq_width) as u32;
        let inner = step(256) as u8;
        entries.push((key, info(doc_freq, postings, positions, inner)));
    }
    let file = build(with_positions(), &entries);
    let dictionary = TermDictionaryImpl::from_source_checked(file).unwrap();
    assert_eq!(collect(&dictionary), entries);
    for (i, (key, value)) in entries.iter().enumerate().step_by(17) {
        assert_eq!(dictionary.get(key), Some(*value));
        let mut probe = key.clone();
        probe.push(0x01);
        let mut streamer = dictionary.range().ge(&probe).into_stream();
        let found = entries[i + 1..].iter().find(|(other, _)| other >= &probe);
        match found {
            Some((next_key, next_value)) => {
                assert!(streamer.advance());
                assert_eq!(streamer.key(), &next_key[..]);
                assert_eq!(streamer.value(), next_value);
            }
            None => assert!(!streamer.advance()),
        }
    }
}
