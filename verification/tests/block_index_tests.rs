use termdict::block_index::{addresses_fit, convert_fst_error, BlockIndex};
use termdict::error::DictError;

fn index_of(keys: &[(&str, u64)]) -> BlockIndex {
    let mut builder = fst::MapBuilder::memory();
    for (key, val) in keys {
        builder.insert(key, *val).unwrap();
    }
    BlockIndex::open(builder.into_inner().unwrap()).unwrap()
}

#[test]
fn test_strictly_previous_key_between_keys() {
    let index = index_of(&[("apple", 0), ("banana", 12), ("cherry", 24)]);
    let (key, offset) = index.strictly_previous_key_checkpoint_offset(b"blueberry");
    assert_eq!(key, b"banana".to_vec());
    assert_eq!(offset, 12);
}

#[test]
fn test_strictly_previous_key_before_all() {
    let index = index_of(&[("apple", 0), ("banana", 12), ("cherry", 24)]);
    let (key, offset) = index.strictly_previous_key_checkpoint_offset(b"aardvark");
    assert_eq!(key, Vec::<u8>::new());
    assert_eq!(offset, 0);
}

#[test]
fn test_strictly_previous_key_after_all() {
    let index = index_of(&[("apple", 0), ("banana", 12), ("cherry", 24)]);
    let (key, offset) = index.strictly_previous_key_checkpoint_offset(b"zzz");
    assert_eq!(key, b"cherry".to_vec());
    assert_eq!(offset, 24);
}

#[test]
fn test_strictly_previous_key_of_a_key() {
    let index = index_of(&[("apple", 0), ("banana", 12), ("cherry", 24)]);
    let (key, offset) = index.strictly_previous_key_checkpoint_offset(b"banana");
    assert_eq!(key, b"banana".to_vec());
    assert_eq!(offset, 12);
}

#[test]
fn test_strictly_previous_key_prefixes() {
    let index = index_of(&[("", 0), ("a", 12), ("ab", 24), ("abc", 36), ("b", 48)]);
    assert_eq!(
        index.strictly_previous_key_checkpoint_offset(b"abd"),
        (b"abc".to_vec(), 36)
    );
    assert_eq!(
        index.strictly_previous_key_checkpoint_offset(b"aba"),
        (b"ab".to_vec(), 24)
    );
    assert_eq!(
        index.strictly_previous_key_checkpoint_offset(b"aa"),
        (b"a".to_vec(), 12)
    );
    assert_eq!(
        index.strictly_previous_key_checkpoint_offset(b"\x00"),
        (Vec::new(), 0)
    );
    assert_eq!(
        index.strictly_previous_key_checkpoint_offset(b""),
        (Vec::new(), 0)
    );
    assert_eq!(
        index.strictly_previous_key_checkpoint_offset(b"c"),
        (b"b".to_vec(), 48)
    );
}

#[test]
fn test_strictly_previous_key_empty_index() {
    let index = index_of(&[]);
    assert_eq!(
        index.strictly_previous_key_checkpoint_offset(b"anything"),
        (Vec::new(), 0)
    );
    assert_eq!(
        index.strictly_previous_key_checkpoint_offset(b""),
        (Vec::new(), 0)
    );
}

#[test]
fn test_strictly_previous_key_takes_the_greatest_below() {
    let mut keys: Vec<(String, u64)> = Vec::new();
    for i in 0..300u64 {
        keys.push((format!("k{:05}", i * 3), i * 12));
    }
    let mut builder = fst::MapBuilder::memory();
    for (key, val) in &keys {
        builder.insert(key, *val).unwrap();
    }
    let index = BlockIndex::open(builder.into_inner().unwrap()).unwrap();
    for probe in 0..900u64 {
        let target = format!("k{:05}", probe);
        let expected = probe / 3;
        let (key, offset) = index.strictly_previous_key_checkpoint_offset(target.as_bytes());
        assert_eq!(key, format!("k{:05}", expected * 3).into_bytes());
        assert_eq!(offset, expected * 12);
    }
}

#[test]
fn test_block_index_get() {
    let index = index_of(&[("", 7), ("apple", 0), ("banana", 12), ("cherry", u64::MAX)]);
    assert_eq!(index.get(b""), Some(7));
    assert_eq!(index.get(b"apple"), Some(0));
    assert_eq!(index.get(b"banana"), Some(12));
    assert_eq!(index.get(b"cherry"), Some(u64::MAX));
    assert_eq!(index.get(b"app"), None);
    assert_eq!(index.get(b"apples"), None);
    assert_eq!(index.get(b"zebra"), None);
}

#[test]
fn test_block_index_open_refuses_what_is_no_index() {
    assert!(matches!(BlockIndex::open(vec![]), Err(DictError::Corrupted)));
    assert!(matches!(BlockIndex::open(vec![0u8; 35]), Err(DictError::Corrupted)));
    // A version that no builder writes.
    assert!(matches!(BlockIndex::open(vec![0u8; 36]), Err(DictError::Corrupted)));
    let mut bytes = vec![0u8; 64];
    bytes[0] = 9;
    assert!(matches!(BlockIndex::open(bytes), Err(DictError::Corrupted)));
    let written = fst::MapBuilder::memory().into_inner().unwrap();
    assert!(BlockIndex::open(written).is_ok());
}

#[test]
fn test_addresses_fit() {
    assert!(addresses_fit(&[]));
    assert!(addresses_fit(&[0u8; 36]));
    let mut builder = fst::MapBuilder::memory();
    builder.insert("a", 1).unwrap();
    let written = builder.into_inner().unwrap();
    assert!(addresses_fit(&written));
    // The same bytes with a root address that no machine of 64 bits or
    // fewer has, if its pointers are narrower than 64 bits.
    let mut wide = written.clone();
    let end = wide.len() - 4;
    for byte in &mut wide[end - 8..end] {
        *byte = 0xff;
    }
    assert_eq!(addresses_fit(&wide), usize::MAX as u64 == u64::MAX);
}

#[test]
fn test_convert_fst_error() {
    let error = fst::Map::new(Vec::<u8>::new()).err().unwrap();
    assert_eq!(convert_fst_error(error), DictError::Corrupted);
}

fn next_random(state: &mut u64) -> u64 {
    *state = state
        .wrapping_mul(6364136223846793005)
        .wrapping_add(1442695040888963407);
    *state >> 33
}

fn random_key(state: &mut u64) -> Vec<u8> {
    let alphabet: &[u8] = &[0x00, 0x01, b'a', b'b', b'c', 0x7f, 0x80, 0xfe, 0xff];
    let len = (next_random(state) % 7) as usize;
    (0..len)
        .map(|_| alphabet[(next_random(state) % alphabet.len() as u64) as usize])
        .collect()
}

#[test]
fn test_strictly_previous_key_agrees_with_a_search_of_the_sorted_keys() {
    let mut state = 42u64;
    let mut keys: Vec<Vec<u8>> = (0..3000).map(|_| random_key(&mut state)).collect();
    keys.sort();
    keys.dedup();
    let mut builder = fst::MapBuilder::memory();
    for (i, key) in keys.iter().enumerate() {
        builder.insert(key, 12 * i as u64).unwrap();
    }
    let index = BlockIndex::open(builder.into_inner().unwrap()).unwrap();
    for _ in 0..5000 {
        let probe = random_key(&mut state);
        let below = keys.partition_point(|key| key <= &probe);
        let expected = if below == 0 {
            (Vec::new(), 0)
        } else {
            (keys[below - 1].clone(), 12 * (below as u64 - 1))
        };
        assert_eq!(index.strictly_previous_key_checkpoint_offset(&probe), expected);
        let position = keys.binary_search(&probe).ok();
        assert_eq!(index.get(&probe), position.map(|i| 12 * i as u64));
    }
}
