use std::collections::HashMap;

use locmap::container::{assemble_container, parse_container, Block, ContainerError};
use locmap::merge::merge_table;
use locmap::overrides::{load_overrides, overrides_or_empty};
use locmap::pipeline::{check_decoded, compress_tables, pack_container, unpack_container, BlockContent, CodecError};
use locmap::structs::{BlockHeader, MapHeader, TableEntry, TableHeader};
use locmap::table::{parse_table, TableError};
use locmap::texts::{insert_text, shard_bounds};

fn table_with(entries: &[(u64, &[u8])]) -> Vec<u8> {
    let n = entries.len() as u64;
    let mut out = Vec::new();
    TableHeader { entry_count: n, value_count: n, timestamp: 7 }.write(&mut out);
    let buckets = std::cmp::max(n as usize + 17, 24);
    for i in 0..buckets {
        out.push(i as u8);
    }
    let mut blob: Vec<u8> = Vec::new();
    for (k, (id, text)) in entries.iter().enumerate() {
        let rest = (entries.len() - k) as u32 * 16 - 8;
        let (offset, length) = if text.is_empty() {
            (rest + blob.len() as u32, 1)
        } else {
            (rest + blob.len() as u32, text.len() as u32)
        };
        TableEntry { id: *id, offset, length }.write(&mut out);
        if text.is_empty() {
            blob.push(0xFF);
        } else {
            blob.extend_from_slice(text);
        }
    }
    out.extend_from_slice(&blob);
    out
}

fn texts_of(container: &[u8]) -> Vec<(u64, Vec<u8>)> {
    unpack_container(container).unwrap().texts
}

#[test]
fn record_layouts_are_little_endian() {
    let bytes = [0xEF, 0xBE, 0xAD, 0xDE, 1, 0, 0, 0, 2, 0, 0, 0];
    let h = MapHeader::read(&bytes, 0);
    assert_eq!((h.magic, h.version, h.entry_count), (0xDEADBEEF, 1, 2));
    let mut out = Vec::new();
    BlockHeader { compression_type: 4, compressed_size: 0x0102, decompressed_size: 3 }.write(&mut out);
    assert_eq!(out, vec![4, 2, 1, 0, 0, 3, 0, 0, 0]);
    let mut e = Vec::new();
    TableEntry { id: 0x0807060504030201, offset: 9, length: 10 }.write(&mut e);
    assert_eq!(e, vec![1, 2, 3, 4, 5, 6, 7, 8, 9, 0, 0, 0, 10, 0, 0, 0]);
    let back = TableEntry::read(&e, 0);
    assert_eq!((back.id, back.offset, back.length), (0x0807060504030201, 9, 10));
}

#[test]
fn parse_reads_texts_and_empty_mark() {
    let t = table_with(&[(5, b"abc"), (0, b"zz"), (9, b"")]);
    let texts = parse_table(&t).unwrap();
    assert_eq!(texts, vec![(5, b"abc".to_vec()), (9, Vec::new())]);
}

#[test]
fn parse_rejects_truncated_table() {
    let t = table_with(&[(5, b"abc")]);
    assert_eq!(parse_table(&t[..t.len() - 1]), Err(TableError::Truncated));
    assert_eq!(parse_table(&t[..10]), Err(TableError::Truncated));
}

#[test]
fn merge_overrides_and_keeps_other_texts() {
    let t = table_with(&[(5, b"abc"), (6, b"keep"), (7, b"x")]);
    let mut ov = HashMap::new();
    ov.insert(5u64, b"longer text".to_vec());
    ov.insert(7u64, Vec::new());
    let m = merge_table(&t, &ov).unwrap();
    assert_eq!(
        parse_table(&m).unwrap(),
        vec![(5, b"longer text".to_vec()), (6, b"keep".to_vec()), (7, Vec::new())]
    );
    // header and bucket region are kept
    assert_eq!(&m[..24 + 24], &t[..24 + 24]);
}

#[test]
fn empty_override_is_stored_as_single_mark() {
    let t = table_with(&[(5, b"abc")]);
    let mut ov = HashMap::new();
    ov.insert(5u64, Vec::new());
    let m = merge_table(&t, &ov).unwrap();
    let e = TableEntry::read(&m, 48);
    assert_eq!(e.length, 1);
    assert_eq!(m[48 + 8 + e.offset as usize], 0xFF);
    assert_eq!(m.len(), 48 + 16 + 1);
}

#[test]
fn slot_without_value_gets_sentinel_offset() {
    let t = table_with(&[(0, b"abc"), (4, b"d")]);
    let m = merge_table(&t, &HashMap::new()).unwrap();
    let e = TableEntry::read(&m, 48);
    assert_eq!((e.id, e.offset, e.length), (0, 0xFFFF_FFFF, 3));
}

#[test]
fn remerging_without_overrides_is_identity() {
    let t = table_with(&[(5, b"abc"), (6, b"")]);
    let mut ov = HashMap::new();
    ov.insert(6u64, b"new".to_vec());
    let m = merge_table(&t, &ov).unwrap();
    let again = merge_table(&m, &HashMap::new()).unwrap();
    assert_eq!(again, m);
    // a table already laid out in slot order comes back unchanged
    assert_eq!(merge_table(&t, &HashMap::new()).unwrap(), t);
}

#[test]
fn merge_rejects_truncated_table() {
    let t = table_with(&[(5, b"abc")]);
    assert_eq!(merge_table(&t[..t.len() - 2], &HashMap::new()), Err(TableError::Truncated));
}

#[test]
fn hello_scenario_round_trip() {
    let raw0 = vec![1u8, 2, 3];
    let t1 = table_with(&[(7036874420, b"Hello")]);
    let packed = pack_container(&vec![raw0.clone(), t1], &HashMap::new()).unwrap();
    let u = unpack_container(&packed.container).unwrap();
    assert_eq!(u.texts, vec![(7036874420u64, b"Hello".to_vec())]);
    assert_eq!(u.tables[0], Some(raw0.clone()));

    let stored: Vec<Vec<u8>> = u.tables.into_iter().map(|t| t.unwrap()).collect();
    let mut ov = HashMap::new();
    ov.insert(7036874420u64, b"Hi".to_vec());
    let repacked = pack_container(&stored, &ov).unwrap();
    assert_eq!(texts_of(&repacked.container), vec![(7036874420u64, b"Hi".to_vec())]);
}

#[test]
fn unpack_then_pack_keeps_packed_tables() {
    let t1 = table_with(&[(1, b"one"), (2, b"")]);
    let first = pack_container(&vec![vec![9u8], t1], &HashMap::new()).unwrap();
    let u = unpack_container(&first.container).unwrap();
    let stored: Vec<Vec<u8>> = u.tables.into_iter().map(|t| t.unwrap()).collect();
    let second = pack_container(&stored, &HashMap::new()).unwrap();
    assert_eq!(second.tables, first.tables);
}

#[test]
fn later_table_wins_on_duplicate_id() {
    let a = table_with(&[(3, b"first"), (8, b"b")]);
    let b = table_with(&[(3, b"second")]);
    let packed = pack_container(&vec![Vec::new(), a, b], &HashMap::new()).unwrap();
    let u = unpack_container(&packed.container).unwrap();
    assert_eq!(u.texts, vec![(3u64, b"second".to_vec()), (8u64, b"b".to_vec())]);
    assert_eq!(u.duplicates, vec![3u64]);
}

#[test]
fn texts_come_sorted_by_id() {
    let a = table_with(&[(30, b"c"), (10, b"a"), (20, b"b")]);
    let packed = pack_container(&vec![Vec::new(), a], &HashMap::new()).unwrap();
    let ids: Vec<u64> = texts_of(&packed.container).iter().map(|p| p.0).collect();
    assert_eq!(ids, vec![10, 20, 30]);
}

#[test]
fn insert_text_replaces_and_orders() {
    let mut v = Vec::new();
    assert!(!insert_text(&mut v, 5, b"e".to_vec()));
    assert!(!insert_text(&mut v, 2, b"b".to_vec()));
    assert!(insert_text(&mut v, 5, b"E".to_vec()));
    assert_eq!(v, vec![(2, b"b".to_vec()), (5, b"E".to_vec())]);
}

#[test]
fn unsupported_block_is_skipped() {
    let blocks = vec![
        Block { header: BlockHeader { compression_type: 3, compressed_size: 2, decompressed_size: 2 }, payload: vec![0, 0] },
        Block { header: BlockHeader { compression_type: 7, compressed_size: 1, decompressed_size: 1 }, payload: vec![1] },
    ];
    let c = assemble_container(&blocks).unwrap();
    let u = unpack_container(&c).unwrap();
    assert_eq!(u.tables, vec![None, None]);
    assert_eq!(u.skipped, vec![(0, 3), (1, 7)]);
    assert!(u.texts.is_empty());
}

#[test]
fn seek_table_locates_blocks() {
    let blocks = vec![
        Block { header: BlockHeader { compression_type: 1, compressed_size: 3, decompressed_size: 3 }, payload: vec![1, 2, 3] },
        Block { header: BlockHeader { compression_type: 1, compressed_size: 0, decompressed_size: 0 }, payload: vec![] },
        Block { header: BlockHeader { compression_type: 1, compressed_size: 1, decompressed_size: 5 }, payload: vec![4] },
    ];
    let c = assemble_container(&blocks).unwrap();
    let parsed = parse_container(&c).unwrap();
    assert_eq!(parsed.header.magic, 0xDEADBEEF);
    assert_eq!(parsed.header.version, 1);
    assert_eq!(parsed.header.entry_count, 3);
    assert_eq!(parsed.seek_table, vec![0, 12, 21, 31]);
    assert_eq!(c.len(), 12 + 16 + 31);
    assert_eq!(parsed.blocks[2].payload, vec![4]);
    assert_eq!(parsed.blocks[2].header.decompressed_size, 5);
}

#[test]
fn truncated_container_is_rejected() {
    let blocks = vec![Block { header: BlockHeader { compression_type: 4, compressed_size: 3, decompressed_size: 3 }, payload: vec![1, 2, 3] }];
    let c = assemble_container(&blocks).unwrap();
    assert!(matches!(parse_container(&c[..c.len() - 1]), Err(ContainerError::Truncated)));
    assert!(matches!(unpack_container(&c[..5]), Err(CodecError::Container(ContainerError::Truncated))));
}

#[test]
fn corrupt_and_mismatched_blocks_fail() {
    let bad = vec![Block { header: BlockHeader { compression_type: 4, compressed_size: 3, decompressed_size: 3 }, payload: vec![1, 2, 3] }];
    let c = assemble_container(&bad).unwrap();
    assert!(matches!(unpack_container(&c), Err(CodecError::Corrupt)));

    let packed = pack_container(&vec![vec![1u8, 2, 3, 4]], &HashMap::new()).unwrap();
    let mut parsed = parse_container(&packed.container).unwrap();
    parsed.blocks[0].header.decompressed_size = 5;
    let c2 = assemble_container(&parsed.blocks).unwrap();
    assert!(matches!(unpack_container(&c2), Err(CodecError::SizeMismatch)));
}

#[test]
fn packed_blocks_are_zstd_with_sizes() {
    let packed = pack_container(&vec![vec![7u8; 100]], &HashMap::new()).unwrap();
    let parsed = parse_container(&packed.container).unwrap();
    let h = parsed.blocks[0].header;
    assert_eq!(h.compression_type, 4);
    assert_eq!(h.decompressed_size, 100);
    assert_eq!(h.compressed_size as usize, parsed.blocks[0].payload.len());
    assert_ne!(parsed.blocks[0].payload, vec![7u8; 100]);
}

#[test]
fn pack_reports_bad_table() {
    let t = table_with(&[(5, b"abc")]);
    let r = pack_container(&vec![Vec::new(), t[..20].to_vec()], &HashMap::new());
    assert!(matches!(r, Err(CodecError::Table(TableError::Truncated))));
}

#[test]
fn shards_hold_265_entries() {
    assert_eq!(shard_bounds(0), vec![]);
    assert_eq!(shard_bounds(1), vec![(0, 1)]);
    assert_eq!(shard_bounds(265), vec![(0, 265)]);
    assert_eq!(shard_bounds(266), vec![(0, 265), (265, 266)]);
    assert_eq!(shard_bounds(600), vec![(0, 265), (265, 530), (530, 600)]);
}

#[test]
fn repack_overrides_some_and_keeps_the_rest() {
    let a = table_with(&[(11, b"eleven"), (12, b"twelve"), (13, b"")]);
    let b = table_with(&[(21, b"twenty-one")]);
    let first = pack_container(&vec![vec![0u8; 4], a, b], &HashMap::new()).unwrap();
    let u = unpack_container(&first.container).unwrap();
    let stored: Vec<Vec<u8>> = u.tables.into_iter().map(|t| t.unwrap()).collect();
    let mut ov = HashMap::new();
    ov.insert(12u64, Vec::new());
    ov.insert(13u64, b"thirteen".to_vec());
    ov.insert(99u64, b"absent".to_vec());
    let second = pack_container(&stored, &ov).unwrap();
    assert_eq!(
        texts_of(&second.container),
        vec![
            (11u64, b"eleven".to_vec()),
            (12u64, Vec::new()),
            (13u64, b"thirteen".to_vec()),
            (21u64, b"twenty-one".to_vec()),
        ]
    );
    assert_eq!(second.tables[0], vec![0u8; 4]);
}

#[test]
fn unsupported_block_does_not_stop_other_tables() {
    let t = table_with(&[(42, b"answer")]);
    let packed = pack_container(&vec![Vec::new(), t], &HashMap::new()).unwrap();
    let mut parsed = parse_container(&packed.container).unwrap();
    parsed.blocks.push(Block {
        header: BlockHeader { compression_type: 9, compressed_size: 1, decompressed_size: 1 },
        payload: vec![5],
    });
    let c = assemble_container(&parsed.blocks).unwrap();
    let u = unpack_container(&c).unwrap();
    assert_eq!(u.skipped, vec![(2, 9)]);
    assert_eq!(u.tables[2], None);
    assert_eq!(u.texts, vec![(42u64, b"answer".to_vec())]);
}

#[test]
fn check_decoded_compares_lengths() {
    let h = BlockHeader { compression_type: 4, compressed_size: 1, decompressed_size: 2 };
    assert!(matches!(check_decoded(&h, None), Err(CodecError::Corrupt)));
    assert!(matches!(check_decoded(&h, Some(vec![1])), Err(CodecError::SizeMismatch)));
    match check_decoded(&h, Some(vec![1, 2])) {
        Ok(BlockContent::Data(d)) => assert_eq!(d, vec![1, 2]),
        other => panic!("unexpected {:?}", other),
    }
}

#[test]
fn marked_override_reads_back_empty() {
    let t = table_with(&[(5, b"abc")]);
    let mut ov = HashMap::new();
    ov.insert(5u64, vec![0xFF, 0x41]);
    let m = merge_table(&t, &ov).unwrap();
    assert_eq!(TableEntry::read(&m, 48).length, 2);
    assert_eq!(parse_table(&m).unwrap(), vec![(5, Vec::new())]);
}

#[test]
fn packing_no_tables_gives_empty_container() {
    let packed = pack_container(&Vec::new(), &HashMap::new()).unwrap();
    assert!(packed.tables.is_empty());
    assert_eq!(packed.container, vec![0xEF, 0xBE, 0xAD, 0xDE, 1, 0, 0, 0, 0, 0, 0, 0, 0, 0, 0, 0]);
    let u = unpack_container(&packed.container).unwrap();
    assert!(u.tables.is_empty() && u.texts.is_empty() && u.skipped.is_empty());
    assert!(compress_tables(&Vec::new()).unwrap().is_empty());
}

#[test]
fn packed_seek_table_is_back_to_back() {
    let packed = pack_container(&vec![vec![1u8; 10], table_with(&[(3, b"x")])], &HashMap::new()).unwrap();
    let parsed = parse_container(&packed.container).unwrap();
    let first = 9 + parsed.blocks[0].payload.len() as u32;
    let second = first + 9 + parsed.blocks[1].payload.len() as u32;
    assert_eq!(parsed.seek_table, vec![0, first, second]);
    assert_eq!(packed.container.len() as u32, 12 + 12 + second);
}

#[test]
fn overrides_are_read_from_json() {
    let m = load_overrides(br#"{"7036874420": "Hi", "8": ""}"#);
    assert_eq!(m.len(), 2);
    assert_eq!(m.get(&7036874420u64), Some(&b"Hi".to_vec()));
    assert_eq!(m.get(&8u64), Some(&Vec::new()));
    assert!(load_overrides(b"not json").is_empty());
    assert!(load_overrides(br#"{"x": "y"}"#).is_empty());
    assert!(overrides_or_empty(None).is_empty());
}

#[test]
fn hello_scenario_through_json_overrides() {
    let t1 = table_with(&[(7036874420, b"Hello")]);
    let first = pack_container(&vec![Vec::new(), t1], &HashMap::new()).unwrap();
    let stored: Vec<Vec<u8>> = unpack_container(&first.container).unwrap().tables.into_iter().map(|t| t.unwrap()).collect();
    let ov = load_overrides(br#"{"7036874420": "Hi"}"#);
    let second = pack_container(&stored, &ov).unwrap();
    assert_eq!(texts_of(&second.container), vec![(7036874420u64, b"Hi".to_vec())]);
}
