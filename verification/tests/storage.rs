use fastnbt::{ByteArray, Value};
use mca::{CompressionType, PendingChunk, RegionWriter};
use voxel_world::block::BlockType;
use voxel_world::chunk::{Chunk, ChunkSection};
use voxel_world::nbt::{chunk_to_nbt, nbt_to_chunk, parse_nbt_to_chunk, NbtValue};
use voxel_world::region::{region_entry, RegionEntry};
use voxel_world::region_file::{chunk_payload, merged_writer, region_with_chunk, Payload};

fn text(s: &str) -> NbtValue {
    NbtValue::String(s.to_string())
}

fn entry(key: &str, value: NbtValue) -> (String, NbtValue) {
    (key.to_string(), value)
}

fn stored_section(y: i8, names: &[&str], blocks: Vec<u8>) -> NbtValue {
    NbtValue::Compound(vec![
        entry("y", NbtValue::Byte(y)),
        entry("palette", NbtValue::List(names.iter().map(|n| text(n)).collect())),
        entry("blocks", NbtValue::ByteArray(blocks)),
    ])
}

fn same_chunk(a: &Chunk, b: &Chunk) -> bool {
    a.x == b.x
        && a.z == b.z
        && a.sections.len() == b.sections.len()
        && a.sections.iter().zip(b.sections.iter()).all(|(s, t)| {
            s.y == t.y && s.blocks == t.blocks && s.palette == t.palette
        })
}

fn sample_chunk(x: i32, z: i32) -> Chunk {
    let mut chunk = Chunk::blank(x, z);
    chunk.set_block_at(0, 0, 0, BlockType::Rock);
    chunk.set_block_at(1, 0, 0, BlockType::Air);
    chunk.set_block_at(5, 100, 7, BlockType::Water);
    chunk.set_block_at(6, 100, 7, BlockType::Sand);
    chunk.set_block_at(15, 383, 15, BlockType::Brick);
    chunk
}

fn to_fastnbt(value: NbtValue) -> Value {
    match value {
        NbtValue::Byte(b) => Value::Byte(b),
        NbtValue::Int(i) => Value::Int(i),
        NbtValue::String(s) => Value::String(s),
        NbtValue::ByteArray(bytes) => {
            Value::ByteArray(ByteArray::new(bytes.into_iter().map(|b| b as i8).collect()))
        }
        NbtValue::List(items) => Value::List(items.into_iter().map(to_fastnbt).collect()),
        NbtValue::Compound(entries) => {
            Value::Compound(entries.into_iter().map(|(k, v)| (k, to_fastnbt(v))).collect())
        }
    }
}

fn from_fastnbt(value: Value) -> NbtValue {
    match value {
        Value::Byte(b) => NbtValue::Byte(b),
        Value::Int(i) => NbtValue::Int(i),
        Value::String(s) => NbtValue::String(s),
        Value::ByteArray(bytes) => NbtValue::ByteArray(bytes.iter().map(|b| *b as u8).collect()),
        Value::List(items) => NbtValue::List(items.into_iter().map(from_fastnbt).collect()),
        Value::Compound(entries) => {
            NbtValue::Compound(entries.into_iter().map(|(k, v)| (k, from_fastnbt(v))).collect())
        }
        other => panic!("a tag that chunks are not stored in: {:?}", other),
    }
}

#[test]
fn chunk_is_stored_as_a_tree_of_tags() {
    let mut chunk = Chunk::new(3, -4);
    chunk.sections.push(ChunkSection {
        y: 7,
        blocks: vec![1, 0, 1],
        palette: vec!["minecraft:rock".to_string(), "minecraft:sand".to_string()],
    });
    let NbtValue::Compound(root) = chunk_to_nbt(&chunk) else {
        panic!("a chunk is stored as a compound");
    };
    assert_eq!(root.len(), 3);
    assert_eq!(root[0].0, "x");
    assert!(matches!(root[0].1, NbtValue::Int(3)));
    assert_eq!(root[1].0, "z");
    assert!(matches!(root[1].1, NbtValue::Int(-4)));
    assert_eq!(root[2].0, "sections");
    let NbtValue::List(sections) = &root[2].1 else {
        panic!("the sections are stored as a list");
    };
    assert_eq!(sections.len(), 1);
    let NbtValue::Compound(fields) = &sections[0] else {
        panic!("a section is stored as a compound");
    };
    assert_eq!(fields.len(), 3);
    assert_eq!(fields[0].0, "y");
    assert!(matches!(fields[0].1, NbtValue::Byte(7)));
    assert_eq!(fields[1].0, "palette");
    let NbtValue::List(names) = &fields[1].1 else {
        panic!("the palette is stored as a list");
    };
    assert_eq!(names.len(), 2);
    assert!(matches!(&names[0], NbtValue::String(s) if s == "minecraft:rock"));
    assert!(matches!(&names[1], NbtValue::String(s) if s == "minecraft:sand"));
    assert_eq!(fields[2].0, "blocks");
    assert!(matches!(&fields[2].1, NbtValue::ByteArray(b) if b == &vec![1u8, 0, 1]));
}

#[test]
fn stored_chunk_is_read_back() {
    let chunk = sample_chunk(12, -7);
    let back = nbt_to_chunk(chunk_to_nbt(&chunk)).unwrap();
    assert!(same_chunk(&chunk, &back));
    let parsed = parse_nbt_to_chunk(12, -7, chunk_to_nbt(&chunk));
    assert!(same_chunk(&chunk, &parsed));
    for (x, y, z) in [(0, 0, 0), (1, 0, 0), (2, 0, 0), (5, 100, 7), (6, 100, 7), (15, 383, 15), (3, 200, 3)] {
        assert_eq!(parsed.get_block_at(x, y, z), chunk.get_block_at(x, y, z));
    }
    let empty = Chunk::new(1, 1);
    assert!(same_chunk(&empty, &nbt_to_chunk(chunk_to_nbt(&empty)).unwrap()));
}

#[test]
fn chunk_for_another_position_is_not_taken() {
    let chunk = sample_chunk(12, -7);
    let other = parse_nbt_to_chunk(12, -6, chunk_to_nbt(&chunk));
    assert_eq!((other.x, other.z), (12, -6));
    assert!(other.sections.is_empty());
}

#[test]
fn partial_chunk_is_not_taken() {
    let mut chunk = sample_chunk(0, 0);
    chunk.sections.pop();
    assert!(nbt_to_chunk(chunk_to_nbt(&chunk)).is_some());
    assert!(parse_nbt_to_chunk(0, 0, chunk_to_nbt(&chunk)).sections.is_empty());
    let mut beyond = sample_chunk(0, 0);
    beyond.sections[3].blocks[0] = 200;
    assert!(parse_nbt_to_chunk(0, 0, chunk_to_nbt(&beyond)).sections.is_empty());
    let mut short = sample_chunk(0, 0);
    short.sections[3].blocks.pop();
    assert!(parse_nbt_to_chunk(0, 0, chunk_to_nbt(&short)).sections.is_empty());
}

#[test]
fn stored_chunk_with_a_name_of_no_kind_is_taken() {
    let mut unknown = sample_chunk(0, 0);
    unknown.sections[6].palette.push("minecraft:lava".to_string());
    let lava = (unknown.sections[6].palette.len() - 1) as u8;
    unknown.sections[6].blocks[0] = lava;
    let parsed = parse_nbt_to_chunk(0, 0, chunk_to_nbt(&unknown));
    assert!(same_chunk(&unknown, &parsed));
    assert_eq!(parsed.get_block_at(0, 96, 0), BlockType::Air);
    assert_eq!(parsed.get_block_at(5, 100, 7), BlockType::Water);
}

#[test]
fn fields_are_found_by_name() {
    let tree = NbtValue::Compound(vec![
        entry("sections", NbtValue::List(vec![stored_section(0, &["minecraft:dirt"], vec![0; 4])])),
        entry("note", text("ignored")),
        entry("z", NbtValue::Int(9)),
        entry("x", NbtValue::Int(8)),
        entry("x", NbtValue::Int(77)),
    ]);
    let chunk = nbt_to_chunk(tree).unwrap();
    assert_eq!((chunk.x, chunk.z), (8, 9));
    assert_eq!(chunk.sections.len(), 1);
    assert_eq!(chunk.sections[0].y, 0);
    assert_eq!(chunk.sections[0].palette, vec!["minecraft:dirt".to_string()]);
    assert_eq!(chunk.sections[0].blocks, vec![0, 0, 0, 0]);
}

#[test]
fn sections_keep_their_order() {
    let tree = NbtValue::Compound(vec![
        entry("x", NbtValue::Int(0)),
        entry("z", NbtValue::Int(0)),
        entry(
            "sections",
            NbtValue::List(vec![
                stored_section(5, &["a", "b", "c"], vec![2, 1, 0]),
                stored_section(-3, &[], vec![]),
                stored_section(9, &["d"], vec![0]),
            ]),
        ),
    ]);
    let chunk = nbt_to_chunk(tree).unwrap();
    assert_eq!(chunk.sections.iter().map(|s| s.y).collect::<Vec<_>>(), vec![5, -3, 9]);
    assert_eq!(chunk.sections[0].palette, vec!["a".to_string(), "b".to_string(), "c".to_string()]);
    assert_eq!(chunk.sections[0].blocks, vec![2, 1, 0]);
    assert!(chunk.sections[1].palette.is_empty());
    assert_eq!(chunk.sections[2].palette, vec!["d".to_string()]);
}

#[test]
fn trees_of_another_shape_store_no_chunk() {
    assert!(nbt_to_chunk(NbtValue::Int(3)).is_none());
    assert!(nbt_to_chunk(NbtValue::Compound(vec![])).is_none());
    assert!(nbt_to_chunk(NbtValue::Compound(vec![
        entry("x", NbtValue::Int(0)),
        entry("sections", NbtValue::List(vec![])),
    ]))
    .is_none());
    assert!(nbt_to_chunk(NbtValue::Compound(vec![
        entry("x", NbtValue::Byte(0)),
        entry("z", NbtValue::Int(0)),
        entry("sections", NbtValue::List(vec![])),
    ]))
    .is_none());
    assert!(nbt_to_chunk(NbtValue::Compound(vec![
        entry("x", NbtValue::Int(0)),
        entry("z", NbtValue::Int(0)),
        entry("sections", NbtValue::List(vec![NbtValue::Int(1)])),
    ]))
    .is_none());
    let bad_palette = NbtValue::Compound(vec![
        entry("y", NbtValue::Byte(0)),
        entry("palette", NbtValue::List(vec![text("minecraft:rock"), NbtValue::Int(1)])),
        entry("blocks", NbtValue::ByteArray(vec![])),
    ]);
    assert!(nbt_to_chunk(NbtValue::Compound(vec![
        entry("x", NbtValue::Int(0)),
        entry("z", NbtValue::Int(0)),
        entry("sections", NbtValue::List(vec![stored_section(0, &[], vec![]), bad_palette])),
    ]))
    .is_none());
    let no_blocks = NbtValue::Compound(vec![
        entry("y", NbtValue::Byte(0)),
        entry("palette", NbtValue::List(vec![])),
    ]);
    assert!(nbt_to_chunk(NbtValue::Compound(vec![
        entry("x", NbtValue::Int(0)),
        entry("z", NbtValue::Int(0)),
        entry("sections", NbtValue::List(vec![no_blocks])),
    ]))
    .is_none());
    assert!(parse_nbt_to_chunk(4, 5, NbtValue::List(vec![])).sections.is_empty());
}

#[test]
fn region_round_trip() {
    let data: Vec<u8> = (0..5000u32).map(|i| (i * 7 % 251) as u8).collect();
    let region = region_with_chunk(&vec![], 33, -1, &data, 1234).unwrap();
    assert!(region.len() >= 3 * 4096);
    assert_eq!(region.len() % 4096, 0);
    assert_ne!(region, data);
    assert_eq!(chunk_payload(&region, 33, -1), Payload::Found(data.clone()));
    assert_eq!(chunk_payload(&region, 1, 31), Payload::Found(data.clone()));
    assert_eq!(chunk_payload(&region, 0, 0), Payload::Missing);
    assert_eq!(chunk_payload(&region, 33, 0), Payload::Missing);
    let RegionEntry::Present { compression, start, end } = region_entry(&region, 1, 31) else {
        panic!("the chunk is in the file");
    };
    assert_eq!(compression, 2);
    assert_eq!(start, 8192 + 5);
    assert!(end - start < data.len());
    assert_ne!(region[start..end], data[..end - start]);
}

#[test]
fn regions_repeat_for_the_same_chunks() {
    let data = vec![9u8; 300];
    let first = region_with_chunk(&vec![], 0, 0, &data, 77).unwrap();
    let second = region_with_chunk(&vec![], 0, 0, &data, 77).unwrap();
    assert_eq!(first, second);
    let later = region_with_chunk(&vec![], 0, 0, &data, 78).unwrap();
    assert_eq!(chunk_payload(&later, 0, 0), Payload::Found(data));
}

#[test]
fn writing_a_chunk_keeps_the_others() {
    let a = vec![1u8; 100];
    let b = vec![2u8; 9000];
    let c = vec![3u8; 10];
    let region = region_with_chunk(&vec![], 0, 0, &a, 1).unwrap();
    let region = region_with_chunk(&region, 5, 6, &b, 2).unwrap();
    let region = region_with_chunk(&region, 31, 31, &c, 3).unwrap();
    assert_eq!(chunk_payload(&region, 0, 0), Payload::Found(a.clone()));
    assert_eq!(chunk_payload(&region, 5, 6), Payload::Found(b.clone()));
    assert_eq!(chunk_payload(&region, 31, 31), Payload::Found(c.clone()));
    assert_eq!(chunk_payload(&region, 6, 5), Payload::Missing);
    let region = region_with_chunk(&region, 5, 6, &c, 4).unwrap();
    assert_eq!(chunk_payload(&region, 5, 6), Payload::Found(c.clone()));
    assert_eq!(chunk_payload(&region, 0, 0), Payload::Found(a));
    assert_eq!(chunk_payload(&region, 31, 31), Payload::Found(c));
    assert_eq!(chunk_payload(&region, 37, 38), chunk_payload(&region, 5, 6));
}

#[test]
fn a_broken_old_file_is_written_over() {
    let data = vec![4u8; 50];
    let region = region_with_chunk(&vec![7u8; 100], 2, 2, &data, 0).unwrap();
    assert_eq!(chunk_payload(&region, 2, 2), Payload::Found(data));
    assert_eq!(chunk_payload(&region, 7, 7), Payload::Missing);
}

fn region_holding(place: (u8, u8), compression: u8, packed: &[u8]) -> Vec<u8> {
    let mut data = vec![0u8; 3 * 4096];
    let offset = 4 * (place.0 as usize + place.1 as usize * 32);
    data[offset + 2] = 2;
    data[offset + 3] = 1;
    let length = packed.len() as u32 + 1;
    data[8192..8196].copy_from_slice(&length.to_be_bytes());
    data[8196] = compression;
    data[8197..8197 + packed.len()].copy_from_slice(packed);
    data
}

#[test]
fn unpacked_entries_are_read_as_they_are() {
    let region = region_holding((3, 4), 3, &[10, 20, 30]);
    assert_eq!(chunk_payload(&region, 3, 4), Payload::Found(vec![10, 20, 30]));
    assert_eq!(chunk_payload(&region, 4, 3), Payload::Missing);
}

#[test]
fn entries_that_cannot_be_unpacked_are_corrupt() {
    assert_eq!(chunk_payload(&region_holding((3, 4), 2, &[10, 20, 30]), 3, 4), Payload::Corrupt);
    assert_eq!(chunk_payload(&region_holding((3, 4), 1, &[10, 20, 30]), 3, 4), Payload::Corrupt);
    assert_eq!(chunk_payload(&region_holding((3, 4), 4, &[10, 20, 30]), 3, 4), Payload::Corrupt);
    assert_eq!(chunk_payload(&region_holding((3, 4), 127, &[10, 20, 30]), 3, 4), Payload::Corrupt);
    assert_eq!(chunk_payload(&region_holding((3, 4), 0, &[10, 20, 30]), 3, 4), Payload::Corrupt);
    assert_eq!(chunk_payload(&region_holding((3, 4), 200, &[]), 3, 4), Payload::Corrupt);
    assert_eq!(chunk_payload(&vec![], 3, 4), Payload::Corrupt);
    let mut cut = region_holding((3, 4), 3, &[10, 20, 30]);
    cut.truncate(8199);
    assert_eq!(chunk_payload(&cut, 3, 4), Payload::Corrupt);
}

#[test]
fn unreadable_entries_are_dropped_when_the_file_is_written() {
    let old = region_holding((3, 4), 4, &[10, 20, 30]);
    let region = region_with_chunk(&old, 0, 0, &vec![1, 2, 3], 0).unwrap();
    assert_eq!(chunk_payload(&region, 3, 4), Payload::Missing);
    let old = region_holding((3, 4), 3, &[10, 20, 30]);
    let region = region_with_chunk(&old, 0, 0, &vec![1, 2, 3], 0).unwrap();
    assert_eq!(chunk_payload(&region, 3, 4), Payload::Found(vec![10, 20, 30]));
    assert_eq!(chunk_payload(&region, 0, 0), Payload::Found(vec![1, 2, 3]));
}

#[test]
fn saved_chunk_is_loaded_again() {
    let chunk = sample_chunk(-40, 70);
    let bytes = fastnbt::to_bytes(&to_fastnbt(chunk_to_nbt(&chunk))).unwrap();
    let region = region_with_chunk(&vec![], -40, 70, &bytes, 5).unwrap();
    let neighbor = sample_chunk(-39, 70);
    let neighbor_bytes = fastnbt::to_bytes(&to_fastnbt(chunk_to_nbt(&neighbor))).unwrap();
    let region = region_with_chunk(&region, -39, 70, &neighbor_bytes, 6).unwrap();

    let Payload::Found(found) = chunk_payload(&region, -40, 70) else {
        panic!("the chunk is in the file");
    };
    assert_eq!(found, bytes);
    let value: Value = fastnbt::from_bytes(&found).unwrap();
    let loaded = parse_nbt_to_chunk(-40, 70, from_fastnbt(value));
    assert!(same_chunk(&chunk, &loaded));
    for x in 0..16 {
        for z in 0..16 {
            for y in [0, 1, 99, 100, 101, 383] {
                assert_eq!(loaded.get_block_at(x, y, z), chunk.get_block_at(x, y, z));
            }
        }
    }
    let Payload::Found(other) = chunk_payload(&region, -39, 70) else {
        panic!("the neighbor is in the file");
    };
    let value: Value = fastnbt::from_bytes(&other).unwrap();
    assert!(same_chunk(&neighbor, &parse_nbt_to_chunk(-39, 70, from_fastnbt(value))));
    assert!(parse_nbt_to_chunk(-40, 70, from_fastnbt(fastnbt::from_bytes(&other).unwrap())).sections.is_empty());
}

fn waiting(packed: &[u8], kind: CompressionType, timestamp: u32, place: (u8, u8)) -> PendingChunk {
    PendingChunk::new_compressed(packed.to_vec(), kind, timestamp, place).unwrap()
}

#[test]
fn no_writer_where_packing_failed() {
    assert!(merged_writer(&vec![], 33, -1, None, 5).is_none());
    let old = region_holding((3, 4), 3, &[10, 20, 30]);
    assert!(merged_writer(&old, 0, 0, None, 5).is_none());
}

#[test]
fn writer_of_a_new_region_holds_the_one_chunk() {
    let mut expected = RegionWriter::new();
    expected.push_pending_chunk(waiting(&[1, 2, 3], CompressionType::Zlib, 5, (1, 31)));
    assert_eq!(merged_writer(&vec![], 33, -1, Some(vec![1, 2, 3]), 5), Some(expected));
    let mut expected = RegionWriter::new();
    expected.push_pending_chunk(waiting(&[], CompressionType::Zlib, 0, (0, 0)));
    assert_eq!(merged_writer(&vec![9u8; 50], 0, 0, Some(vec![]), 0), Some(expected));
}

#[test]
fn writer_keeps_the_readable_chunks_before_the_new_one() {
    let old = region_holding((3, 4), 3, &[10, 20, 30]);
    let mut expected = RegionWriter::new();
    expected.push_pending_chunk(waiting(&[10, 20, 30], CompressionType::Uncompressed, 9, (3, 4)));
    expected.push_pending_chunk(waiting(&[7], CompressionType::Zlib, 9, (0, 0)));
    assert_eq!(merged_writer(&old, 0, 0, Some(vec![7]), 9), Some(expected));

    let mut replaced = RegionWriter::new();
    replaced.push_pending_chunk(waiting(&[7], CompressionType::Zlib, 9, (3, 4)));
    assert_eq!(merged_writer(&old, 3, 4, Some(vec![7]), 9), Some(replaced.clone()));
    assert_eq!(merged_writer(&old, 35, -28, Some(vec![7]), 9), Some(replaced));

    let unreadable = region_holding((3, 4), 4, &[10, 20, 30]);
    let mut dropped = RegionWriter::new();
    dropped.push_pending_chunk(waiting(&[7], CompressionType::Zlib, 9, (0, 0)));
    assert_eq!(merged_writer(&unreadable, 0, 0, Some(vec![7]), 9), Some(dropped));
}

#[test]
fn writer_keeps_chunks_in_the_order_of_their_places() {
    let region = region_with_chunk(&vec![], 2, 3, &vec![1u8; 40], 1).unwrap();
    let region = region_with_chunk(&region, 5, 1, &vec![2u8; 40], 2).unwrap();
    let RegionEntry::Present { start, end, .. } = region_entry(&region, 2, 3) else {
        panic!("the first chunk is in the file");
    };
    let first = region[start..end].to_vec();
    let RegionEntry::Present { start, end, .. } = region_entry(&region, 5, 1) else {
        panic!("the second chunk is in the file");
    };
    let second = region[start..end].to_vec();
    let mut expected = RegionWriter::new();
    expected.push_pending_chunk(waiting(&second, CompressionType::Zlib, 8, (5, 1)));
    expected.push_pending_chunk(waiting(&first, CompressionType::Zlib, 8, (2, 3)));
    expected.push_pending_chunk(waiting(&[4, 4], CompressionType::Zlib, 8, (0, 0)));
    assert_eq!(merged_writer(&region, 0, 0, Some(vec![4, 4]), 8), Some(expected));
}

#[test]
fn region_is_what_the_writer_writes() {
    let data = vec![5u8; 700];
    let old = region_holding((3, 4), 3, &[10, 20, 30]);
    let region = region_with_chunk(&old, 1, 1, &data, 3).unwrap();
    let RegionEntry::Present { start, end, .. } = region_entry(&region, 1, 1) else {
        panic!("the chunk is in the file");
    };
    let packed = region[start..end].to_vec();
    let writer = merged_writer(&old, 1, 1, Some(packed), 3).unwrap();
    let mut written = Vec::new();
    writer.write(&mut written).unwrap();
    assert_eq!(written, region);
}
