use std::sync::Arc;

use mini_lsm::key::{compare_keys, KeyOrder};
use mini_lsm::{Block, BlockBuilder, BlockIterator, ErrorKind};

fn letters_block() -> Block {
    let mut builder = BlockBuilder::new(4096);
    for c in b'a'..=b'z' {
        assert!(builder.add(&[c], &[c.to_ascii_uppercase()]));
    }
    builder.build()
}

fn numbered_block(count: usize) -> Block {
    let mut builder = BlockBuilder::new(10000);
    for i in 0..count {
        let key = format!("key_{:03}", i * 5);
        let value = format!("value_{:010}", i);
        assert!(builder.add(key.as_bytes(), value.as_bytes()));
    }
    builder.build()
}

#[test]
fn compare_keys_orders_bytewise() {
    assert_eq!(compare_keys(b"a", b"b"), KeyOrder::Less);
    assert_eq!(compare_keys(b"b", b"a"), KeyOrder::Greater);
    assert_eq!(compare_keys(b"abc", b"abc"), KeyOrder::Equal);
    assert_eq!(compare_keys(b"", b""), KeyOrder::Equal);
}

#[test]
fn compare_keys_prefix_comes_first() {
    assert_eq!(compare_keys(b"m", b"m5"), KeyOrder::Less);
    assert_eq!(compare_keys(b"m5", b"m"), KeyOrder::Greater);
    assert_eq!(compare_keys(b"", b"a"), KeyOrder::Less);
}

#[test]
fn compare_keys_bytes_are_unsigned() {
    assert_eq!(compare_keys(&[0x7f], &[0x80]), KeyOrder::Less);
    assert_eq!(compare_keys(&[0xff], &[0x00, 0xff]), KeyOrder::Greater);
}

#[test]
fn compare_keys_agrees_with_slice_order() {
    let keys: [&[u8]; 6] = [b"", b"a", b"ab", b"abc", b"b", &[0xff, 0x01]];
    for a in keys {
        for b in keys {
            let expected = match a.cmp(b) {
                std::cmp::Ordering::Less => KeyOrder::Less,
                std::cmp::Ordering::Equal => KeyOrder::Equal,
                std::cmp::Ordering::Greater => KeyOrder::Greater,
            };
            assert_eq!(compare_keys(a, b), expected);
        }
    }
}

#[test]
fn builder_starts_empty() {
    let builder = BlockBuilder::new(16);
    assert!(builder.is_empty());
    let block = builder.build();
    assert_eq!(&block.encode()[..], &[0u8, 0][..]);
}

#[test]
fn builder_takes_one_entry() {
    let mut builder = BlockBuilder::new(16);
    assert!(builder.add(b"233", b"233333"));
    assert!(!builder.is_empty());
    let block = builder.build();
    let expected: [u8; 17] =
        [0, 3, b'2', b'3', b'3', 0, 6, b'2', b'3', b'3', b'3', b'3', b'3', 0, 0, 0, 1];
    assert_eq!(&block.encode()[..], &expected[..]);
}

#[test]
fn builder_refuses_when_full() {
    let mut builder = BlockBuilder::new(16);
    assert!(builder.add(b"11", b"11"));
    assert!(!builder.add(b"22", b"22"));
    let block = builder.build();
    let expected: [u8; 12] = [0, 2, b'1', b'1', 0, 2, b'1', b'1', 0, 0, 0, 1];
    assert_eq!(&block.encode()[..], &expected[..]);
}

#[test]
fn builder_takes_oversized_first_entry() {
    let mut builder = BlockBuilder::new(4);
    assert!(builder.add(b"a long key", b"a long value"));
    assert!(!builder.add(b"b", b""));
    let block = builder.build();
    assert_eq!(block.encode().len(), 4 + 10 + 12 + 2 + 2);
}

#[test]
fn builder_fills_budget_exactly() {
    // One entry of key "a" and value "1" is written as 6 bytes and one offset;
    // two of them make a block of 2 * (6 + 2) + 2 = 18 bytes.
    let mut exact = BlockBuilder::new(18);
    assert!(exact.add(b"a", b"1"));
    assert!(exact.add(b"b", b"2"));
    assert_eq!(exact.build().encode().len(), 18);

    let mut short = BlockBuilder::new(17);
    assert!(short.add(b"a", b"1"));
    assert!(!short.add(b"b", b"2"));
    assert_eq!(short.build().encode().len(), 10);
}

#[test]
fn builder_never_exceeds_budget_after_first_entry() {
    for budget in [0usize, 1, 10, 17, 18, 64, 100, 257] {
        let mut builder = BlockBuilder::new(budget);
        let mut taken = 0;
        for i in 0..40u8 {
            let key = [b'k', i];
            let value = vec![i; (i % 7) as usize];
            if builder.add(&key, &value) {
                taken += 1;
            }
        }
        assert!(taken >= 1);
        let size = builder.build().encode().len();
        assert!(taken == 1 || size <= budget);
    }
}

#[test]
fn builder_is_unchanged_by_refusal() {
    let mut refused = BlockBuilder::new(20);
    let mut untouched = BlockBuilder::new(20);
    assert!(refused.add(b"k1", b"v1"));
    assert!(untouched.add(b"k1", b"v1"));
    assert!(!refused.add(b"k2", b"a value that does not fit"));
    assert!(!refused.is_empty());
    assert_eq!(refused.build().encode(), untouched.build().encode());
}

#[test]
fn builder_takes_empty_value() {
    let mut builder = BlockBuilder::new(64);
    assert!(builder.add(b"k", b""));
    let expected: [u8; 9] = [0, 1, b'k', 0, 0, 0, 0, 0, 1];
    assert_eq!(&builder.build().encode()[..], &expected[..]);
}

#[test]
fn builder_refuses_entry_past_sixteen_bit_offset() {
    let mut builder = BlockBuilder::new(1 << 20);
    let value = vec![7u8; 0xFFFF];
    assert!(builder.add(b"a", &value));
    // The next entry begins at 4 + 1 + 65535 = 65540, which no offset holds.
    assert!(!builder.add(b"b", b"1"));
    let block = Block::decode(&builder.build().encode()).unwrap();
    let it = BlockIterator::create_and_seek_to_first(Arc::new(block));
    assert_eq!(it.key(), b"a");
    assert_eq!(it.value(), &value[..]);
}

#[test]
fn encode_writes_offsets_big_endian() {
    let mut builder = BlockBuilder::new(4096);
    let value = vec![9u8; 300];
    assert!(builder.add(b"a", &value));
    assert!(builder.add(b"b", b"x"));
    let encoded = builder.build().encode();
    let len = encoded.len();
    // Second entry begins at 2 + 1 + 2 + 300 = 305 = 0x0131.
    assert_eq!(&encoded[len - 6..], &[0u8, 0, 0x01, 0x31, 0, 2][..]);
    // The value length 300 = 0x012c follows the key.
    assert_eq!(&encoded[..5], &[0u8, 1, b'a', 0x01, 0x2c][..]);
}

#[test]
fn encode_two_entries() {
    let mut builder = BlockBuilder::new(64);
    assert!(builder.add(b"k1", b"v"));
    assert!(builder.add(b"k2", b"vv"));
    let expected: [u8; 21] = [
        0, 2, b'k', b'1', 0, 1, b'v', 0, 2, b'k', b'2', 0, 2, b'v', b'v', 0, 0, 0, 7, 0, 2,
    ];
    assert_eq!(&builder.build().encode()[..], &expected[..]);
}

#[test]
fn decode_gives_back_what_was_encoded() {
    let block = numbered_block(100);
    let encoded = block.encode();
    let decoded = Block::decode(&encoded).unwrap();
    assert_eq!(decoded.encode(), encoded);
    let mut it = BlockIterator::create_and_seek_to_first(Arc::new(decoded));
    for i in 0..100 {
        assert!(it.is_valid());
        assert_eq!(it.key(), format!("key_{:03}", i * 5).as_bytes());
        assert_eq!(it.value(), format!("value_{:010}", i).as_bytes());
        it.next();
    }
    assert!(!it.is_valid());
}

#[test]
fn decode_empty_block() {
    let block = Block::decode(&[0, 0]).unwrap();
    let it = BlockIterator::create_and_seek_to_first(Arc::new(block));
    assert!(!it.is_valid());
    assert_eq!(it.key(), b"");
    assert_eq!(it.value(), b"");
}

#[test]
fn decode_rejects_short_input() {
    assert_eq!(Block::decode(&[]).err(), Some(ErrorKind::CorruptBlock));
    assert_eq!(Block::decode(&[0]).err(), Some(ErrorKind::CorruptBlock));
}

#[test]
fn decode_rejects_count_beyond_input() {
    assert_eq!(Block::decode(&[0, 1]).err(), Some(ErrorKind::CorruptBlock));
    assert_eq!(Block::decode(&[0, 0, 0, 2]).err(), Some(ErrorKind::CorruptBlock));
    assert_eq!(Block::decode(&[0xff, 0xff]).err(), Some(ErrorKind::CorruptBlock));
}

#[test]
fn decode_rejects_data_without_entries() {
    assert_eq!(Block::decode(&[1, 2, 3, 0, 0]).err(), Some(ErrorKind::CorruptBlock));
}

#[test]
fn decode_rejects_first_offset_not_zero() {
    let bytes = [0, 1, b'k', 0, 1, b'v', 0, 1, 0, 1];
    assert_eq!(Block::decode(&bytes).err(), Some(ErrorKind::CorruptBlock));
}

#[test]
fn decode_rejects_empty_key() {
    let bytes = [0, 0, 0, 1, b'v', 0, 0, 0, 1];
    assert_eq!(Block::decode(&bytes).err(), Some(ErrorKind::CorruptBlock));
}

#[test]
fn decode_rejects_key_length_beyond_data() {
    let bytes = [0, 9, b'k', 0, 1, b'v', 0, 0, 0, 1];
    assert_eq!(Block::decode(&bytes).err(), Some(ErrorKind::CorruptBlock));
}

#[test]
fn decode_rejects_value_length_beyond_data() {
    let bytes = [0, 1, b'k', 0, 9, b'v', 0, 0, 0, 1];
    assert_eq!(Block::decode(&bytes).err(), Some(ErrorKind::CorruptBlock));
}

#[test]
fn decode_rejects_bytes_behind_last_entry() {
    let bytes = [0, 1, b'k', 0, 1, b'v', 0xaa, 0, 0, 0, 1];
    assert_eq!(Block::decode(&bytes).err(), Some(ErrorKind::CorruptBlock));
}

#[test]
fn decode_rejects_offset_inside_an_entry() {
    // Two entries of six bytes each; the second offset says 5, not 6.
    let bytes = [
        0, 1, b'a', 0, 1, b'1', 0, 1, b'b', 0, 1, b'2', 0, 0, 0, 5, 0, 2,
    ];
    assert_eq!(Block::decode(&bytes).err(), Some(ErrorKind::CorruptBlock));
    let good = [
        0, 1, b'a', 0, 1, b'1', 0, 1, b'b', 0, 1, b'2', 0, 0, 0, 6, 0, 2,
    ];
    assert!(Block::decode(&good).is_ok());
}

#[test]
fn decode_rejects_truncated_block() {
    let encoded = numbered_block(5).encode();
    for cut in 1..encoded.len() {
        assert_eq!(
            Block::decode(&encoded[..encoded.len() - cut]).err(),
            Some(ErrorKind::CorruptBlock)
        );
    }
}

#[test]
fn iterator_walks_in_order() {
    let mut it = BlockIterator::create_and_seek_to_first(Arc::new(letters_block()));
    for c in b'a'..=b'z' {
        assert!(it.is_valid());
        assert_eq!(it.key(), &[c]);
        assert_eq!(it.value(), &[c.to_ascii_uppercase()]);
        it.next();
    }
    assert!(!it.is_valid());
}

#[test]
fn iterator_stays_exhausted() {
    let mut it = BlockIterator::create_and_seek_to_first(Arc::new(numbered_block(3)));
    for _ in 0..3 {
        assert!(it.is_valid());
        it.next();
    }
    for _ in 0..10 {
        assert!(!it.is_valid());
        assert_eq!(it.key(), b"");
        assert_eq!(it.value(), b"");
        it.next();
    }
}

#[test]
fn iterator_stays_exhausted_after_seek_past_end() {
    let mut it = BlockIterator::create_and_seek_to_key(Arc::new(letters_block()), b"zz");
    assert!(!it.is_valid());
    it.next();
    assert!(!it.is_valid());
    it.next();
    assert!(!it.is_valid());
    it.seek_to_first();
    assert!(it.is_valid());
    assert_eq!(it.key(), b"a");
}

#[test]
fn iterator_seek_to_first_rewinds() {
    let mut it = BlockIterator::create_and_seek_to_first(Arc::new(letters_block()));
    it.next();
    it.next();
    assert_eq!(it.key(), b"c");
    it.seek_to_first();
    assert_eq!(it.key(), b"a");
    assert_eq!(it.value(), b"A");
}

#[test]
fn seek_to_key_finds_exact_key() {
    let block = Arc::new(letters_block());
    for c in b'a'..=b'z' {
        let it = BlockIterator::create_and_seek_to_key(block.clone(), &[c]);
        assert!(it.is_valid());
        assert_eq!(it.key(), &[c]);
        assert_eq!(it.value(), &[c.to_ascii_uppercase()]);
    }
}

#[test]
fn seek_to_key_example_letters() {
    let block = Arc::new(letters_block());
    assert_eq!(block.encode().len(), 26 * 8 + 2);
    let it = BlockIterator::create_and_seek_to_key(block.clone(), b"m");
    assert_eq!(it.key(), b"m");
    assert_eq!(it.value(), b"M");
    let it = BlockIterator::create_and_seek_to_key(block.clone(), b"m5");
    assert!(it.is_valid());
    assert_eq!(it.key(), b"n");
    assert_eq!(it.value(), b"N");
    let it = BlockIterator::create_and_seek_to_key(block, b"z5");
    assert!(!it.is_valid());
}

#[test]
fn seek_to_key_before_first_and_past_last() {
    let block = Arc::new(numbered_block(20));
    let it = BlockIterator::create_and_seek_to_key(block.clone(), b"a");
    assert_eq!(it.key(), b"key_000");
    let it = BlockIterator::create_and_seek_to_key(block.clone(), b"");
    assert_eq!(it.key(), b"key_000");
    let it = BlockIterator::create_and_seek_to_key(block, b"key_999");
    assert!(!it.is_valid());
}

#[test]
fn seek_to_key_agrees_with_linear_scan() {
    let count = 37;
    let block = Arc::new(numbered_block(count));
    let keys: Vec<Vec<u8>> =
        (0..count).map(|i| format!("key_{:03}", i * 5).into_bytes()).collect();
    let mut it = BlockIterator::create_and_seek_to_first(block);
    for probe in 0..200 {
        let target = format!("key_{:03}", probe).into_bytes();
        let expected = keys.iter().find(|k| k.as_slice() >= target.as_slice());
        it.seek_to_key(&target);
        match expected {
            Some(k) => {
                assert!(it.is_valid());
                assert_eq!(it.key(), k.as_slice());
            }
            None => assert!(!it.is_valid()),
        }
    }
}

#[test]
fn seek_to_key_on_empty_block() {
    let block = Arc::new(BlockBuilder::new(16).build());
    let mut it = BlockIterator::create_and_seek_to_key(block, b"k");
    assert!(!it.is_valid());
    it.next();
    assert!(!it.is_valid());
}

#[test]
fn seek_to_key_then_next() {
    let mut it = BlockIterator::create_and_seek_to_key(Arc::new(letters_block()), b"x");
    assert_eq!(it.key(), b"x");
    it.next();
    assert_eq!(it.key(), b"y");
    it.next();
    assert_eq!(it.key(), b"z");
    it.next();
    assert!(!it.is_valid());
}

#[test]
fn try_add_rejects_empty_key() {
    let mut builder = BlockBuilder::new(64);
    assert_eq!(builder.try_add(b"", b"value"), Err(ErrorKind::InvalidEntry));
    assert!(builder.is_empty());
    assert_eq!(builder.try_add(b"k", b"v"), Ok(true));
    assert_eq!(builder.try_add(b"", b""), Err(ErrorKind::InvalidEntry));
    let expected: [u8; 10] = [0, 1, b'k', 0, 1, b'v', 0, 0, 0, 1];
    assert_eq!(&builder.build().encode()[..], &expected[..]);
}

#[test]
fn try_add_rejects_lengths_beyond_sixteen_bits() {
    let long = vec![1u8; 0x1_0000];
    let longest = vec![1u8; 0xFFFF];
    let mut builder = BlockBuilder::new(64);
    assert_eq!(builder.try_add(&long, b"v"), Err(ErrorKind::InvalidEntry));
    assert_eq!(builder.try_add(b"k", &long), Err(ErrorKind::InvalidEntry));
    assert!(builder.is_empty());
    assert_eq!(builder.try_add(&longest, &longest), Ok(true));
    assert_eq!(builder.build().encode().len(), 4 + 2 * 0xFFFF + 4);
}

#[test]
fn try_add_refuses_like_add() {
    let mut builder = BlockBuilder::new(16);
    assert_eq!(builder.try_add(b"11", b"11"), Ok(true));
    assert_eq!(builder.try_add(b"22", b"22"), Ok(false));
    assert_eq!(builder.build().encode().len(), 12);
}
