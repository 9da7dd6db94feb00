//! Tests of the region reader, the block-state accessor, and the
//! distribution, with real compression.

use nombrilo::anvil;
use nombrilo::chunk_format::{BlockStatePalette, BlockStates, Chunk, Section, Structures};
use nombrilo::distribution;
use nombrilo::nbt::owned::{LongArray, NamedTag, Tag};
use nombrilo::nbt::TagType;
use nombrilo::ser;
use std::io::Write;

fn entry(name: &str, value: Tag) -> NamedTag {
    NamedTag { name: name.to_string(), value }
}

/// A minimal chunk document every consumer here accepts.
fn minimal_chunk_tag() -> Tag {
    Tag::Compound(vec![
        entry("DataVersion", Tag::Int(3465)),
        entry("xPos", Tag::Int(0)),
        entry("zPos", Tag::Int(0)),
        entry("yPos", Tag::Int(-4)),
        entry("Status", Tag::String("minecraft:full".to_string())),
        entry("LastUpdate", Tag::Long(1)),
        entry("sections", Tag::List(TagType::End, vec![])),
        entry("block_entities", Tag::List(TagType::End, vec![])),
        entry("InhabitedTime", Tag::Long(0)),
        entry("PostProcessing", Tag::List(TagType::End, vec![])),
        entry(
            "structures",
            Tag::Compound(vec![
                entry("starts", Tag::Compound(vec![])),
                entry("References", Tag::Compound(vec![])),
            ]),
        ),
    ])
}

#[test]
fn test_region_with_one_chunk() {
    let mut nbt: Vec<u8> = Vec::new();
    ser::to_writer(&mut nbt, &minimal_chunk_tag()).unwrap();

    let mut enc = flate2::write::ZlibEncoder::new(Vec::new(), flate2::Compression::default());
    enc.write_all(&nbt).unwrap();
    let compressed = enc.finish().unwrap();

    // location table: entry (0,0) says offset 2 sectors, one sector long
    let mut file = vec![0u8; 12288];
    file[0] = 0;
    file[1] = 0;
    file[2] = 2;
    file[3] = 1;
    let length = (compressed.len() + 1) as u32;
    file[8192..8196].copy_from_slice(&length.to_be_bytes());
    file[8196] = 2; // zlib
    file[8197..8197 + compressed.len()].copy_from_slice(&compressed);

    let chunks = anvil::parse_region(&file).unwrap();
    assert_eq!(chunks.len(), 1);
    assert_eq!(chunks[0].data_version, 3465);
    assert_eq!(chunks[0].status, "minecraft:full");

    let alone = anvil::parse_chunk_at(&file, 0, 0).unwrap();
    assert_eq!(alone.y_pos, -4);

    // every other entry is absent
    assert!(matches!(
        anvil::parse_chunk_at(&file, 1, 0),
        Err(anvil::Error::ChunkAbsent)
    ));
}

#[test]
fn test_region_with_gzip_and_stored_chunks() {
    let mut nbt: Vec<u8> = Vec::new();
    ser::to_writer(&mut nbt, &minimal_chunk_tag()).unwrap();

    let mut enc = flate2::write::GzEncoder::new(Vec::new(), flate2::Compression::default());
    enc.write_all(&nbt).unwrap();
    let gzipped = enc.finish().unwrap();

    let mut file = vec![0u8; 16384];
    // chunk (0,0) at sector 2, gzip; chunk (1,0) at sector 3, stored
    file[0..4].copy_from_slice(&[0, 0, 2, 1]);
    file[4..8].copy_from_slice(&[0, 0, 3, 1]);
    let length = (gzipped.len() + 1) as u32;
    file[8192..8196].copy_from_slice(&length.to_be_bytes());
    file[8196] = 1; // gzip
    file[8197..8197 + gzipped.len()].copy_from_slice(&gzipped);
    let length2 = (nbt.len() + 1) as u32;
    file[12288..12292].copy_from_slice(&length2.to_be_bytes());
    file[12292] = 3; // stored
    file[12293..12293 + nbt.len()].copy_from_slice(&nbt);

    let chunks = anvil::parse_region(&file).unwrap();
    assert_eq!(chunks.len(), 2);

    // an unknown compression byte is fatal for that chunk
    file[12292] = 9;
    assert!(matches!(
        anvil::parse_chunk_at(&file, 1, 0),
        Err(anvil::Error::UnknownCompression(9))
    ));
}

#[test]
fn test_region_with_lz4_chunk() {
    let mut nbt: Vec<u8> = Vec::new();
    ser::to_writer(&mut nbt, &minimal_chunk_tag()).unwrap();

    let mut enc = lz4_flex::frame::FrameEncoder::new(Vec::new());
    enc.write_all(&nbt).unwrap();
    let compressed = enc.finish().unwrap();

    let mut file = vec![0u8; 12288];
    file[0..4].copy_from_slice(&[0, 0, 2, 1]);
    let length = (compressed.len() + 1) as u32;
    file[8192..8196].copy_from_slice(&length.to_be_bytes());
    file[8196] = 4; // lz4 frame
    file[8197..8197 + compressed.len()].copy_from_slice(&compressed);

    let chunks = anvil::parse_region(&file).unwrap();
    assert_eq!(chunks.len(), 1);
    assert_eq!(chunks[0].status, "minecraft:full");

    // a corrupted frame is a decompression failure
    file[8197] ^= 0xff;
    assert!(matches!(
        anvil::parse_chunk_at(&file, 0, 0),
        Err(anvil::Error::Decompress)
    ));
}

fn palette_of(names: &[&str]) -> Vec<BlockStatePalette> {
    names
        .iter()
        .map(|n| BlockStatePalette { name: n.to_string(), properties: None })
        .collect()
}

/// 256 big-endian longs whose 4-bit fields give indices 0 for the first
/// 2048 blocks and 1 for the rest.
fn half_and_half_data() -> LongArray {
    let mut bytes: Vec<u8> = Vec::new();
    for _ in 0..128 {
        bytes.extend_from_slice(&0u64.to_be_bytes());
    }
    for _ in 0..128 {
        bytes.extend_from_slice(&0x1111111111111111u64.to_be_bytes());
    }
    LongArray::new(bytes)
}

#[test]
fn test_palette_sizes_pick_bit_widths() {
    for (len, bits) in [(1, 4), (9, 4), (16, 4), (17, 5), (32, 5), (33, 6), (4096, 12)] {
        let names: Vec<String> = (0..len).map(|i| format!("block{}", i)).collect();
        let bs = BlockStates {
            palette: names
                .iter()
                .map(|n| BlockStatePalette { name: n.clone(), properties: None })
                .collect(),
            data: None,
        };
        assert_eq!(bs.bits_per_block(), bits);
    }
}

#[test]
fn test_single_entry_palette_without_data() {
    let bs = BlockStates { palette: palette_of(&["minecraft:air"]), data: None };
    for y in 0..16 {
        for z in 0..16 {
            for x in 0..16 {
                let b = bs.block(x, y, z).unwrap();
                assert_eq!(b.name, "minecraft:air");
            }
        }
    }
    let unpacked = bs.unpack_data();
    assert_eq!(unpacked.len(), 4096);
    assert!(unpacked.iter().all(|v| *v == 0));
}

#[test]
fn test_block_picks_packed_indices() {
    let bs = BlockStates {
        palette: palette_of(&["minecraft:stone", "minecraft:dirt"]),
        data: Some(half_and_half_data()),
    };
    // linear position 0 is index 0; linear position 4095 is index 1
    assert_eq!(bs.block(0, 0, 0).unwrap().name, "minecraft:stone");
    assert_eq!(bs.block(15, 15, 15).unwrap().name, "minecraft:dirt");
    // block (0, 8, 0) is linear 2048, the first of the upper half
    assert_eq!(bs.block(0, 8, 0).unwrap().name, "minecraft:dirt");
}

fn half_and_half_chunk() -> Chunk {
    Chunk {
        data_version: 3465,
        x_pos: 0,
        z_pos: 0,
        y_pos: -4,
        status: "minecraft:full".to_string(),
        last_update: 0,
        sections: vec![Section {
            y: 0,
            block_states: Some(BlockStates {
                palette: palette_of(&["minecraft:stone", "minecraft:dirt"]),
                data: Some(half_and_half_data()),
            }),
            biomes: None,
            block_light: None,
            sky_light: None,
        }],
        block_entities: vec![],
        height_maps: None,
        inhabited_time: 0,
        blending_data: None,
        post_processing: vec![],
        structures: Structures { starts: vec![], references: vec![] },
        is_light_on: None,
        block_ticks: None,
        fluid_ticks: None,
    }
}

#[test]
fn test_distribution_of_section() {
    let bs = BlockStates {
        palette: palette_of(&["minecraft:stone", "minecraft:dirt"]),
        data: Some(half_and_half_data()),
    };
    assert_eq!(distribution::distribution(&bs), vec![2048, 2048]);

    let alone = BlockStates { palette: palette_of(&["minecraft:air"]), data: None };
    assert_eq!(distribution::distribution(&alone), vec![4096]);
}

#[test]
fn test_distribution_of_two_chunks() {
    let first = distribution::chunk(&half_and_half_chunk());
    let mut merged = distribution::chunk(&half_and_half_chunk());
    for (name, count) in &first.entries {
        merged.add(name.as_str(), *count);
    }
    assert_eq!(merged.get("minecraft:stone"), 4096);
    assert_eq!(merged.get("minecraft:dirt"), 4096);
    assert_eq!(merged.get("minecraft:bedrock"), 0);
}

#[test]
fn test_unpack_data_cuts_padding_fields() {
    // 17 palette entries force 5-bit fields: 12 per word, so 342 words
    // carry 4104 fields for 4096 voxels; the 8 padding fields are cut off.
    let names: Vec<String> = (0..17).map(|i| format!("block{}", i)).collect();
    let bs = BlockStates {
        palette: names
            .iter()
            .map(|n| BlockStatePalette { name: n.clone(), properties: None })
            .collect(),
        data: Some(LongArray::new(vec![0u8; 342 * 8])),
    };
    let unpacked = bs.unpack_data();
    assert_eq!(unpacked.len(), 4096);
    let counts = distribution::distribution(&bs);
    assert_eq!(counts.len(), 17);
    assert_eq!(counts[0], 4096);
    assert!(counts[1..].iter().all(|c| *c == 0));
}

#[test]
fn test_array_swap_normalises_bytes() {
    let mut arr = LongArray::new(vec![0, 1, 2, 3, 4, 5, 6, 7]);
    let before = arr.to_vec();
    assert!(arr.big_endian());
    arr.swap_endianness();
    assert!(arr.little_endian());
    assert_eq!(arr.as_raw_slice(), &[7, 6, 5, 4, 3, 2, 1, 0]);
    assert_eq!(arr.to_vec(), before);
    // a second swap is a no-op: the bytes are already native
    arr.swap_endianness();
    assert_eq!(arr.as_raw_slice(), &[7, 6, 5, 4, 3, 2, 1, 0]);

    let mut empty = nombrilo::nbt::owned::IntArray::new(vec![]);
    empty.swap_endianness();
    assert!(empty.little_endian());
}

#[test]
fn test_chunk_binder_rejects_bad_boolean() {
    let es = vec![
        entry("id", Tag::String("minecraft:chest".to_string())),
        entry("keepPacked", Tag::Byte(2)),
        entry("x", Tag::Int(0)),
        entry("y", Tag::Int(0)),
        entry("z", Tag::Int(0)),
    ];
    let items = match Tag::Compound(es) {
        Tag::Compound(v) => v,
        _ => unreachable!(),
    };
    assert!(matches!(
        nombrilo::chunk_format::BlockEntity::from_entries(&items),
        Err(nombrilo::de::Error::InvalidBooleanValue(2))
    ));
}
