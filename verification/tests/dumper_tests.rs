use fastnbt::Value;
use infiltrator::dumper::{
    canonical, chunk_containers, decode_chunk, external_chunk_name, extract_container,
    region_chunks, region_coords, scan_chunk, slot_unsigned, ChunkSource,
};
use infiltrator::nbt_value::{as_i64, as_list, as_str, get, Nbt};
use std::io::Write;

fn cmp(pairs: Vec<(&str, Nbt)>) -> Nbt {
    Nbt::Compound(pairs.into_iter().map(|(k, v)| (k.to_string(), v)).collect())
}

fn s(x: &str) -> Nbt {
    Nbt::String(x.to_string())
}

fn set(ids: &[&str]) -> Vec<String> {
    ids.iter().map(|s| s.to_string()).collect()
}

fn field<'a>(v: &'a Nbt, k: &str) -> &'a Nbt {
    get(v, k).expect("field")
}

fn chest() -> Nbt {
    cmp(vec![
        ("id", s("minecraft:chest")),
        ("x", Nbt::Int(10)),
        ("y", Nbt::Int(64)),
        ("z", Nbt::Int(-20)),
        (
            "Items",
            Nbt::List(vec![
                cmp(vec![
                    ("id", s("minecraft:diamond")),
                    ("Slot", Nbt::Byte(3)),
                    ("count", Nbt::Int(64)),
                ]),
                cmp(vec![
                    ("id", s("minecraft:stone")),
                    ("Slot", Nbt::Byte(5)),
                    ("Count", Nbt::Byte(12)),
                ]),
            ]),
        ),
    ])
}

fn check_chest_slots_and_count() {
    let e = extract_container(&chest(), "minecraft:overworld", &set(&["minecraft:chest"]), &set(&[]))
        .expect("entry");
    assert_eq!(as_i64(field(&e, "x")).unwrap(), 10);
    assert!(matches!(field(&e, "is_dungeon"), Nbt::Byte(0)));
    assert!(get(&e, "is_vault").is_none());
    let items = as_list(field(&e, "items")).unwrap();
    assert_eq!(items.len(), 2);
    assert_eq!(as_i64(field(&items[0], "Slot")).unwrap(), 3);
    assert_eq!(as_i64(field(&items[0], "count")).unwrap(), 64);
    // Count -> count coercion
    assert_eq!(as_i64(field(&items[1], "count")).unwrap(), 12);
}

#[test]
fn dumper_chest_slots_and_count() {
    check_chest_slots_and_count();
}

#[test]
fn main_chest_slots_and_count() {
    check_chest_slots_and_count();
}

fn check_item_without_slot() {
    let be = cmp(vec![
        ("id", s("minecraft:barrel")),
        ("Items", Nbt::List(vec![cmp(vec![("id", s("minecraft:dirt")), ("count", Nbt::Int(1))])])),
    ]);
    let e = extract_container(&be, "d", &set(&["minecraft:barrel"]), &set(&[])).unwrap();
    assert_eq!(as_list(field(&e, "items")).unwrap().len(), 0);
}

#[test]
fn dumper_item_without_slot_is_skipped_for_non_vault() {
    check_item_without_slot();
}

#[test]
fn main_item_without_slot_is_skipped_for_non_vault() {
    check_item_without_slot();
}

fn check_empty_vault() {
    let be = cmp(vec![("id", s("the_vault:vault")), ("Items", Nbt::List(vec![]))]);
    assert!(extract_container(&be, "d", &set(&[]), &set(&["the_vault:vault"])).is_none());
}

#[test]
fn dumper_empty_vault_is_dropped() {
    check_empty_vault();
}

#[test]
fn main_empty_vault_is_dropped() {
    check_empty_vault();
}

fn check_vault_aggregates() {
    let comps = || cmp(vec![("custom", s("x"))]);
    let be = cmp(vec![
        ("id", s("the_vault:vault")),
        (
            "Items",
            Nbt::List(vec![
                cmp(vec![("id", s("minecraft:gold_ingot")), ("count", Nbt::Int(5)), ("components", comps())]),
                cmp(vec![("id", s("minecraft:gold_ingot")), ("count", Nbt::Int(3)), ("components", comps())]),
                cmp(vec![("id", s("minecraft:gold_ingot")), ("count", Nbt::Int(7))]),
            ]),
        ),
    ]);
    let e = extract_container(&be, "d", &set(&[]), &set(&["the_vault:vault"])).unwrap();
    assert!(matches!(field(&e, "is_vault"), Nbt::Byte(1)));
    let items = as_list(field(&e, "items")).unwrap();
    // two groups: with-components (5+3=8) and without (7)
    assert_eq!(items.len(), 2);
    let with = items.iter().find(|it| get(it, "components").is_some()).unwrap();
    assert_eq!(as_i64(field(with, "count")).unwrap(), 8);
}

#[test]
fn dumper_vault_aggregates_identical_items() {
    check_vault_aggregates();
}

#[test]
fn main_vault_aggregates_identical_items() {
    check_vault_aggregates();
}

fn vcmp(pairs: Vec<(&str, Value)>) -> Value {
    Value::Compound(pairs.into_iter().map(|(k, v)| (k.to_string(), v)).collect())
}

fn zlib(data: &[u8]) -> Vec<u8> {
    let mut enc = flate2::write::ZlibEncoder::new(Vec::new(), flate2::Compression::default());
    enc.write_all(data).unwrap();
    enc.finish().unwrap()
}

/// A region file with one zlib chunk at table entry 0, sector 2.
fn region_file() -> Vec<u8> {
    let chunk = vcmp(vec![(
        "block_entities",
        Value::List(vec![
            vcmp(vec![("id", Value::String("minecraft:furnace".into()))]),
            vcmp(vec![
                ("id", Value::String("minecraft:chest".into())),
                ("x", Value::Int(1)),
                ("y", Value::Int(2)),
                ("z", Value::Int(3)),
                (
                    "Items",
                    Value::List(vec![vcmp(vec![
                        ("id", Value::String("minecraft:emerald".into())),
                        ("Slot", Value::Byte(0)),
                        ("count", Value::Int(9)),
                    ])]),
                ),
            ]),
        ]),
    )]);
    let nbt = fastnbt::to_bytes(&chunk).unwrap();
    let comp_data = zlib(&nbt);
    let mut file = vec![0u8; 8192];
    file[2] = 2;
    file[3] = 1;
    let len = (comp_data.len() + 1) as u32;
    file.extend_from_slice(&len.to_be_bytes());
    file.push(2);
    file.extend_from_slice(&comp_data);
    while file.len() % 4096 != 0 {
        file.push(0);
    }
    file
}

fn chunk_bytes(file: &[u8], c: &ChunkSource) -> Vec<u8> {
    match *c {
        ChunkSource::Inline { ctype, start, end } => decode_chunk(ctype, &file[start..end]).expect("decode"),
        ChunkSource::External { .. } => panic!("unexpected external chunk"),
    }
}

#[test]
fn dumper_region_reader_roundtrip() {
    let file = region_file();
    assert_eq!(file.len(), 8192 + 4096);
    let (rx, rz) = region_coords("r.0.0");
    let chunks = region_chunks(&file, rx, rz);
    assert_eq!(chunks.len(), 1);
    let nbt = chunk_bytes(&file, &chunks[0]);
    let entries = chunk_containers(&nbt, "minecraft:overworld", &set(&["minecraft:chest"]), &set(&[]));
    assert_eq!(entries.len(), 1);
    assert_eq!(as_str(field(&entries[0], "id")).unwrap(), "minecraft:chest");
    let items = as_list(field(&entries[0], "items")).unwrap();
    assert_eq!(as_i64(field(&items[0], "count")).unwrap(), 9);
}

#[test]
fn main_region_reader_roundtrip() {
    let file = region_file();
    let chunks = region_chunks(&file, 0, 0);
    assert_eq!(chunks.len(), 1);
    let nbt = chunk_bytes(&file, &chunks[0]);
    let entries = scan_chunk(&nbt, "minecraft:overworld", &set(&["minecraft:chest"]), &set(&[]));
    assert_eq!(entries.len(), 1);
    assert_eq!(as_str(field(&entries[0], "id")).unwrap(), "minecraft:chest");
    let items = as_list(field(&entries[0], "items")).unwrap();
    assert_eq!(as_i64(field(&items[0], "count")).unwrap(), 9);
}

#[test]
fn scan_chunk_skips_non_targets() {
    let chunk = vcmp(vec![(
        "block_entities",
        Value::List(vec![
            vcmp(vec![("id", Value::String("minecraft:sign".into()))]),
            vcmp(vec![
                ("id", Value::String("minecraft:barrel".into())),
                ("x", Value::Int(4)),
                ("y", Value::Int(5)),
                ("z", Value::Int(6)),
                (
                    "Items",
                    Value::List(vec![vcmp(vec![
                        ("id", Value::String("minecraft:gold_ingot".into())),
                        ("Slot", Value::Byte(1)),
                        ("count", Value::Int(2)),
                    ])]),
                ),
            ]),
        ]),
    )]);
    let nbt = fastnbt::to_bytes(&chunk).unwrap();
    let out = scan_chunk(&nbt, "d", &set(&["minecraft:barrel"]), &set(&[]));
    assert_eq!(out.len(), 1);
    assert_eq!(as_str(field(&out[0], "id")).unwrap(), "minecraft:barrel");
}

#[test]
fn region_coords_from_stems() {
    assert_eq!(region_coords("r.-3.7"), (-3, 7));
    assert_eq!(region_coords("r.x.7"), (0, 7));
    assert_eq!(region_coords("q.1.2"), (0, 0));
    assert_eq!(region_coords("r.1.2.3"), (0, 0));
    assert_eq!(region_coords(""), (0, 0));
}

#[test]
fn short_region_file_has_no_chunks() {
    assert!(region_chunks(&[0u8; 100], 0, 0).is_empty());
}

#[test]
fn external_chunks_are_named_by_position() {
    let mut file = vec![0u8; 8192 + 4096];
    // entry 33: local (1, 1); sector 2; length 1; external zlib
    file[33 * 4 + 2] = 2;
    file[33 * 4 + 3] = 1;
    file[8192 + 3] = 1;
    file[8192 + 4] = 0x82;
    let chunks = region_chunks(&file, -1, 2);
    assert_eq!(chunks, vec![ChunkSource::External { ctype: 2, cx: -31, cz: 65 }]);
    assert_eq!(external_chunk_name(-31, 65), "c.-31.65.mcc");
}

#[test]
fn chunk_compression_kinds() {
    assert_eq!(decode_chunk(3, &[1, 2, 3]), Some(vec![1, 2, 3]));
    assert_eq!(decode_chunk(9, &[1, 2, 3]), None);
    let z = zlib(b"hello");
    assert_eq!(decode_chunk(2, &z), Some(b"hello".to_vec()));
    assert_eq!(decode_chunk(2, b"not zlib"), None);
    let mut enc = flate2::write::GzEncoder::new(Vec::new(), flate2::Compression::default());
    enc.write_all(b"gz data").unwrap();
    let g = enc.finish().unwrap();
    assert_eq!(decode_chunk(1, &g), Some(b"gz data".to_vec()));
}

#[test]
fn canonical_text_sorts_keys() {
    let a = cmp(vec![("b", Nbt::Int(1)), ("a", Nbt::List(vec![s("x"), Nbt::Byte(-2)]))]);
    assert_eq!(canonical(&a), "{a:[\"x\",-2,],b:1,}");
    let arr = Nbt::IntArray(vec![1, -2, 3]);
    assert_eq!(canonical(&arr), "[1, -2, 3]");
    assert_eq!(canonical(&Nbt::LongArray(vec![])), "[]");
    assert_eq!(canonical(&Nbt::Float(0x3fc00000, "1.5".to_string())), "1.5");
}

#[test]
fn byte_slots_read_unsigned() {
    assert_eq!(slot_unsigned(&cmp(vec![("Slot", Nbt::Byte(-1))])), 255);
    assert_eq!(slot_unsigned(&cmp(vec![("Slot", Nbt::Short(7))])), 7);
    assert_eq!(slot_unsigned(&cmp(vec![])), -1);
}

#[test]
fn non_targets_are_not_containers() {
    assert!(extract_container(&chest(), "d", &set(&["minecraft:barrel"]), &set(&[])).is_none());
    assert!(extract_container(&s("x"), "d", &set(&["minecraft:chest"]), &set(&[])).is_none());
}

#[test]
fn canonical_text_ignores_entry_order() {
    let a = cmp(vec![("x", Nbt::Int(1)), ("y", s("b")), ("a", Nbt::Byte(2))]);
    let b = cmp(vec![("a", Nbt::Byte(2)), ("x", Nbt::Int(1)), ("y", s("b"))]);
    assert_eq!(canonical(&a), canonical(&b));
    assert_eq!(canonical(&a), "{a:2,x:1,y:\"b\",}");
}
