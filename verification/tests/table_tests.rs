use std::sync::Arc;

use bytes::Bytes;
use mini_lsm::{
    Block, BlockBuilder, BlockFetch, BlockIterator, BlockMeta, ErrorKind, ReadRequest, SsTable,
    TableError,
};

fn meta(offset: usize, first_key: &'static [u8]) -> BlockMeta {
    BlockMeta { offset, first_key: Bytes::from_static(first_key) }
}

/// The bytes of a table file that holds `pairs` in blocks of `block_size`.
fn table_file(pairs: &[(Vec<u8>, Vec<u8>)], block_size: usize) -> Vec<u8> {
    let mut file: Vec<u8> = Vec::new();
    let mut metas: Vec<BlockMeta> = Vec::new();
    let mut builder = BlockBuilder::new(block_size);
    let mut first_key: Vec<u8> = Vec::new();
    for (key, value) in pairs {
        if builder.is_empty() {
            first_key = key.clone();
        }
        if !builder.add(key, value) {
            metas.push(BlockMeta { offset: file.len(), first_key: Bytes::from(first_key) });
            file.extend_from_slice(&builder.build().encode());
            builder = BlockBuilder::new(block_size);
            first_key = key.clone();
            assert!(builder.add(key, value));
        }
    }
    if !builder.is_empty() {
        metas.push(BlockMeta { offset: file.len(), first_key: Bytes::from(first_key) });
        file.extend_from_slice(&builder.build().encode());
    }
    let meta_offset = file.len() as u32;
    BlockMeta::encode_block_meta(&metas, &mut file);
    file.extend_from_slice(&meta_offset.to_be_bytes());
    file
}

fn read(file: &[u8], request: ReadRequest) -> &[u8] {
    &file[request.offset as usize..(request.offset + request.len) as usize]
}

fn open_table(id: usize, file: &[u8]) -> Result<SsTable, TableError> {
    let size = file.len() as u64;
    let footer = read(file, SsTable::footer_request(id, size)?);
    let index = read(file, SsTable::meta_request(id, size, footer)?);
    SsTable::open(id, size, footer, index)
}

fn numbered_pairs(count: usize) -> Vec<(Vec<u8>, Vec<u8>)> {
    (0..count)
        .map(|i| (format!("key_{:05}", i * 2).into_bytes(), format!("value_{}", i).into_bytes()))
        .collect()
}

#[test]
fn encode_block_meta_layout() {
    let metas = vec![meta(0, b"a"), meta(0x0102_0304, b"key")];
    let mut buf = vec![0xee];
    BlockMeta::encode_block_meta(&metas, &mut buf);
    let expected: [u8; 17] =
        [0xee, 0, 0, 0, 0, 0, 1, b'a', 1, 2, 3, 4, 0, 3, b'k', b'e', b'y'];
    assert_eq!(buf, expected);
}

#[test]
fn encode_block_meta_of_nothing_appends_nothing() {
    let mut buf = vec![1, 2, 3];
    BlockMeta::encode_block_meta(&[], &mut buf);
    assert_eq!(buf, vec![1, 2, 3]);
}

#[test]
fn decode_block_meta_gives_back_what_was_encoded() {
    let metas = vec![meta(0, b"apple"), meta(77, b""), meta(4096, b"pear"), meta(70000, b"zz")];
    let mut buf = Vec::new();
    BlockMeta::encode_block_meta(&metas, &mut buf);
    assert_eq!(BlockMeta::decode_block_meta(&buf), Ok(metas));
}

#[test]
fn decode_block_meta_reads_fields() {
    let bytes = [0, 0, 1, 0, 0, 2, b'h', b'i', 0xff, 0xff, 0xff, 0xff, 0, 0];
    let metas = BlockMeta::decode_block_meta(&bytes).unwrap();
    assert_eq!(metas.len(), 2);
    assert_eq!(metas[0].offset, 256);
    assert_eq!(&metas[0].first_key[..], b"hi");
    assert_eq!(metas[1].offset, 0xffff_ffff);
    assert_eq!(&metas[1].first_key[..], b"");
}

#[test]
fn decode_block_meta_of_nothing_is_empty() {
    assert_eq!(BlockMeta::decode_block_meta(&[]), Ok(vec![]));
}

#[test]
fn decode_block_meta_rejects_cut_header() {
    assert_eq!(BlockMeta::decode_block_meta(&[0, 0, 0]), Err(ErrorKind::CorruptFooter));
    assert_eq!(BlockMeta::decode_block_meta(&[0, 0, 0, 0, 0]), Err(ErrorKind::CorruptFooter));
}

#[test]
fn decode_block_meta_rejects_cut_key() {
    let bytes = [0, 0, 0, 0, 0, 3, b'a', b'b'];
    assert_eq!(BlockMeta::decode_block_meta(&bytes), Err(ErrorKind::CorruptFooter));
}

#[test]
fn decode_block_meta_rejects_cut_second_entry() {
    let metas = vec![meta(0, b"apple"), meta(77, b"pear")];
    let mut buf = Vec::new();
    BlockMeta::encode_block_meta(&metas, &mut buf);
    for cut in 1..10 {
        assert_eq!(
            BlockMeta::decode_block_meta(&buf[..buf.len() - cut]),
            Err(ErrorKind::CorruptFooter)
        );
    }
    assert_eq!(BlockMeta::decode_block_meta(&buf[..11]), Ok(vec![meta(0, b"apple")]));
}

#[test]
fn block_meta_clone_is_equal() {
    let first = meta(12, b"first");
    let copy = first.clone();
    assert_eq!(copy, first);
    assert_eq!(copy.offset, 12);
    assert_eq!(&copy.first_key[..], b"first");
}

#[test]
fn footer_request_is_last_four_bytes() {
    assert_eq!(SsTable::footer_request(1, 4), Ok(ReadRequest { offset: 0, len: 4 }));
    assert_eq!(SsTable::footer_request(1, 1000), Ok(ReadRequest { offset: 996, len: 4 }));
}

#[test]
fn footer_request_rejects_short_file() {
    for size in 0..4 {
        assert_eq!(
            SsTable::footer_request(9, size),
            Err(TableError { kind: ErrorKind::CorruptFooter, table_id: 9, offset: 0 })
        );
    }
}

#[test]
fn meta_request_is_between_offset_and_footer() {
    assert_eq!(
        SsTable::meta_request(1, 100, &[0, 0, 0, 40]),
        Ok(ReadRequest { offset: 40, len: 56 })
    );
    assert_eq!(
        SsTable::meta_request(1, 100, &[0, 0, 0, 96]),
        Ok(ReadRequest { offset: 96, len: 0 })
    );
    assert_eq!(
        SsTable::meta_request(1, 0x0001_0000, &[0, 0, 0x12, 0x34]),
        Ok(ReadRequest { offset: 0x1234, len: 0x0001_0000 - 4 - 0x1234 })
    );
}

#[test]
fn meta_request_rejects_offset_behind_footer() {
    assert_eq!(
        SsTable::meta_request(3, 100, &[0, 0, 0, 97]),
        Err(TableError { kind: ErrorKind::CorruptFooter, table_id: 3, offset: 96 })
    );
    assert_eq!(
        SsTable::meta_request(3, 100, &[0xff, 0xff, 0xff, 0xff]),
        Err(TableError { kind: ErrorKind::CorruptFooter, table_id: 3, offset: 96 })
    );
}

#[test]
fn meta_request_rejects_footer_of_wrong_length() {
    assert_eq!(
        SsTable::meta_request(3, 100, &[0, 0, 0]),
        Err(TableError { kind: ErrorKind::ShortRead, table_id: 3, offset: 96 })
    );
    assert_eq!(
        SsTable::meta_request(3, 100, &[0, 0, 0, 0, 0]),
        Err(TableError { kind: ErrorKind::ShortRead, table_id: 3, offset: 96 })
    );
}

#[test]
fn meta_request_rejects_short_file() {
    assert_eq!(
        SsTable::meta_request(3, 3, &[0, 0, 0, 0]),
        Err(TableError { kind: ErrorKind::CorruptFooter, table_id: 3, offset: 0 })
    );
}

#[test]
fn open_empty_table() {
    let table = open_table(5, &[0, 0, 0, 0]).unwrap();
    assert_eq!(table.num_of_blocks(), 0);
    assert_eq!(table.find_block_idx(b"any"), 0);
}

#[test]
fn open_reads_index() {
    let file = table_file(&numbered_pairs(100), 128);
    let table = open_table(5, &file).unwrap();
    assert!(table.num_of_blocks() > 1);
    assert_eq!(table.cache_key(3), (5, 3));
    assert_eq!(table.block_request(0).offset, 0);
    let mut end = 0;
    for idx in 0..table.num_of_blocks() {
        let request = table.block_request(idx);
        assert_eq!(request.offset, end);
        assert!(request.len <= 128);
        end = request.offset + request.len;
    }
    let footer = u32::from_be_bytes([
        file[file.len() - 4],
        file[file.len() - 3],
        file[file.len() - 2],
        file[file.len() - 1],
    ]);
    assert_eq!(end, footer as u64);
}

#[test]
fn open_rejects_index_of_wrong_length() {
    let file = table_file(&numbered_pairs(20), 64);
    let size = file.len() as u64;
    let footer = read(&file, SsTable::footer_request(2, size).unwrap());
    let request = SsTable::meta_request(2, size, footer).unwrap();
    let index = read(&file, request);
    let result = SsTable::open(2, size, footer, &index[..index.len() - 1]);
    assert_eq!(
        result.err(),
        Some(TableError { kind: ErrorKind::ShortRead, table_id: 2, offset: request.offset })
    );
}

#[test]
fn open_rejects_index_that_does_not_parse() {
    // An index region of five bytes cannot hold an entry.
    let file = [1, 2, 3, 4, 5, 0, 0, 0, 0];
    assert_eq!(
        open_table(8, &file).err(),
        Some(TableError { kind: ErrorKind::CorruptFooter, table_id: 8, offset: 0 })
    );
}

#[test]
fn open_rejects_blocks_out_of_order() {
    let mut file = vec![0u8; 40];
    let metas = vec![meta(0, b"a"), meta(30, b"b"), meta(20, b"c")];
    BlockMeta::encode_block_meta(&metas, &mut file);
    file.extend_from_slice(&40u32.to_be_bytes());
    assert_eq!(
        open_table(4, &file).err(),
        Some(TableError { kind: ErrorKind::CorruptFooter, table_id: 4, offset: 40 })
    );
}

#[test]
fn open_rejects_block_behind_index() {
    let mut file = vec![0u8; 40];
    let metas = vec![meta(0, b"a"), meta(41, b"b")];
    BlockMeta::encode_block_meta(&metas, &mut file);
    file.extend_from_slice(&40u32.to_be_bytes());
    assert_eq!(
        open_table(4, &file).err(),
        Some(TableError { kind: ErrorKind::CorruptFooter, table_id: 4, offset: 40 })
    );
}

#[test]
fn open_rejects_footer_behind_itself() {
    let file = [0, 0, 0, 0, 0, 0, 0, 5];
    assert_eq!(
        open_table(4, &file).err(),
        Some(TableError { kind: ErrorKind::CorruptFooter, table_id: 4, offset: 4 })
    );
}

#[test]
fn block_request_ends_at_next_block_or_index() {
    let mut file = vec![0u8; 100];
    let metas = vec![meta(0, b"a"), meta(30, b"b"), meta(30, b"c"), meta(75, b"d")];
    BlockMeta::encode_block_meta(&metas, &mut file);
    file.extend_from_slice(&100u32.to_be_bytes());
    let table = open_table(1, &file).unwrap();
    assert_eq!(table.num_of_blocks(), 4);
    assert_eq!(table.block_request(0), ReadRequest { offset: 0, len: 30 });
    assert_eq!(table.block_request(1), ReadRequest { offset: 30, len: 0 });
    assert_eq!(table.block_request(2), ReadRequest { offset: 30, len: 45 });
    assert_eq!(table.block_request(3), ReadRequest { offset: 75, len: 25 });
}

#[test]
fn read_block_decodes_bytes() {
    let file = table_file(&numbered_pairs(50), 100);
    let table = open_table(1, &file).unwrap();
    let raw = read(&file, table.block_request(1));
    let block = table.read_block(1, raw).unwrap();
    assert_eq!(&block.encode()[..], raw);
}

#[test]
fn read_block_rejects_wrong_length() {
    let file = table_file(&numbered_pairs(50), 100);
    let table = open_table(6, &file).unwrap();
    let request = table.block_request(1);
    let raw = read(&file, request);
    assert_eq!(
        table.read_block(1, &raw[..raw.len() - 1]).err(),
        Some(TableError { kind: ErrorKind::ShortRead, table_id: 6, offset: request.offset })
    );
    assert_eq!(
        table.read_block(1, &[]).err(),
        Some(TableError { kind: ErrorKind::ShortRead, table_id: 6, offset: request.offset })
    );
}

#[test]
fn read_block_rejects_corrupt_bytes() {
    let file = table_file(&numbered_pairs(50), 100);
    let table = open_table(6, &file).unwrap();
    let request = table.block_request(2);
    let mut raw = read(&file, request).to_vec();
    let last = raw.len() - 1;
    raw[last] = raw[last].wrapping_add(1);
    assert_eq!(
        table.read_block(2, &raw).err(),
        Some(TableError { kind: ErrorKind::CorruptBlock, table_id: 6, offset: request.offset })
    );
}

#[test]
fn read_block_cached_returns_what_the_cache_held() {
    let file = table_file(&numbered_pairs(50), 100);
    let table = open_table(1, &file).unwrap();
    let mut builder = BlockBuilder::new(64);
    assert!(builder.add(b"cached", b"block"));
    let cached = Arc::new(builder.build());
    match table.read_block_cached(0, Some(cached.clone())) {
        BlockFetch::Cached(block) => assert!(Arc::ptr_eq(&block, &cached)),
        BlockFetch::Read(_) => panic!("the cache held the block"),
    }
}

#[test]
fn read_block_cached_asks_for_the_block_on_a_miss() {
    let file = table_file(&numbered_pairs(50), 100);
    let table = open_table(1, &file).unwrap();
    for idx in 0..table.num_of_blocks() {
        match table.read_block_cached(idx, None) {
            BlockFetch::Cached(_) => panic!("the cache held nothing"),
            BlockFetch::Read(request) => assert_eq!(request, table.block_request(idx)),
        }
    }
}

#[test]
fn find_block_idx_is_floor_of_first_keys() {
    let mut file = vec![0u8; 40];
    let metas = vec![meta(0, b"b"), meta(10, b"d"), meta(20, b"f"), meta(30, b"h")];
    BlockMeta::encode_block_meta(&metas, &mut file);
    file.extend_from_slice(&40u32.to_be_bytes());
    let table = open_table(1, &file).unwrap();
    assert_eq!(table.find_block_idx(b""), 0);
    assert_eq!(table.find_block_idx(b"a"), 0);
    assert_eq!(table.find_block_idx(b"b"), 0);
    assert_eq!(table.find_block_idx(b"c"), 0);
    assert_eq!(table.find_block_idx(b"d"), 1);
    assert_eq!(table.find_block_idx(b"dz"), 1);
    assert_eq!(table.find_block_idx(b"f"), 2);
    assert_eq!(table.find_block_idx(b"g"), 2);
    assert_eq!(table.find_block_idx(b"h"), 3);
    assert_eq!(table.find_block_idx(b"zzz"), 3);
}

#[test]
fn find_block_idx_on_single_block() {
    let file = table_file(&numbered_pairs(3), 4096);
    let table = open_table(1, &file).unwrap();
    assert_eq!(table.num_of_blocks(), 1);
    assert_eq!(table.find_block_idx(b"a"), 0);
    assert_eq!(table.find_block_idx(b"key_00002"), 0);
    assert_eq!(table.find_block_idx(b"z"), 0);
}

#[test]
fn table_gives_back_its_pairs_in_order() {
    let pairs = numbered_pairs(300);
    let file = table_file(&pairs, 256);
    let table = open_table(1, &file).unwrap();
    let mut found: Vec<(Vec<u8>, Vec<u8>)> = Vec::new();
    for idx in 0..table.num_of_blocks() {
        let block = table.read_block(idx, read(&file, table.block_request(idx))).unwrap();
        let mut it = BlockIterator::create_and_seek_to_first(block);
        while it.is_valid() {
            found.push((it.key().to_vec(), it.value().to_vec()));
            it.next();
        }
    }
    assert_eq!(found, pairs);
}

#[test]
fn table_finds_each_key() {
    let pairs = numbered_pairs(300);
    let file = table_file(&pairs, 256);
    let table = open_table(1, &file).unwrap();
    for (key, value) in &pairs {
        let idx = table.find_block_idx(key);
        let block = table.read_block(idx, read(&file, table.block_request(idx))).unwrap();
        let it = BlockIterator::create_and_seek_to_key(block, key);
        assert!(it.is_valid());
        assert_eq!(it.key(), key.as_slice());
        assert_eq!(it.value(), value.as_slice());
    }
}

#[test]
fn table_finds_next_key_for_missing_key() {
    let pairs = numbered_pairs(300);
    let file = table_file(&pairs, 256);
    let table = open_table(1, &file).unwrap();
    for i in 0..299usize {
        let missing = format!("key_{:05}", i * 2 + 1).into_bytes();
        let idx = table.find_block_idx(&missing);
        let block: Arc<Block> =
            table.read_block(idx, read(&file, table.block_request(idx))).unwrap();
        let it = BlockIterator::create_and_seek_to_key(block, &missing);
        if it.is_valid() {
            assert_eq!(it.key(), pairs[i + 1].0.as_slice());
        } else {
            // The next key is the first key of the next block.
            assert!(idx + 1 < table.num_of_blocks());
            assert_eq!(table.find_block_idx(&pairs[i + 1].0), idx + 1);
        }
    }
}

#[test]
fn block_meta_fits_its_fields() {
    assert!(meta(0, b"").fits());
    assert!(meta(0xffff_ffff, b"key").fits());
    let longest = BlockMeta { offset: 1, first_key: Bytes::from(vec![0u8; 0xFFFF]) };
    assert!(longest.fits());
    let too_long = BlockMeta { offset: 1, first_key: Bytes::from(vec![0u8; 0x1_0000]) };
    assert!(!too_long.fits());
}

#[test]
fn try_encode_block_meta_appends_what_fits() {
    let metas = vec![meta(1, b"a"), meta(2, b"bc")];
    let mut buf = vec![9];
    assert!(BlockMeta::try_encode_block_meta(&metas, &mut buf));
    let expected: [u8; 16] = [9, 0, 0, 0, 1, 0, 1, b'a', 0, 0, 0, 2, 0, 2, b'b', b'c'];
    assert_eq!(buf, expected);
}

#[test]
fn try_encode_block_meta_leaves_buffer_on_refusal() {
    let too_long = BlockMeta { offset: 1, first_key: Bytes::from(vec![0u8; 0x1_0000]) };
    let metas = vec![meta(1, b"a"), too_long];
    let mut buf = vec![9, 8];
    assert!(!BlockMeta::try_encode_block_meta(&metas, &mut buf));
    assert_eq!(buf, vec![9, 8]);
}
