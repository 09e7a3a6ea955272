use fastnbt::Value;
use infiltrator::model::{Entry, EntryKind, Item};
use infiltrator::parse::dump_nbt::{build_one, remap_inventory_slot, split_dump, DumpKind};
use infiltrator::search::Filters;
use infiltrator::store::Store;
use std::collections::HashMap;
use std::io::Write;

fn cmp(pairs: Vec<(&str, Value)>) -> Value {
    Value::Compound(pairs.into_iter().map(|(k, v)| (k.to_string(), v)).collect())
}

fn item(id: &str, slot: i32, count: i32) -> Value {
    cmp(vec![
        ("id", Value::String(id.into())),
        ("Slot", Value::Int(slot)),
        ("count", Value::Int(count)),
        ("components", Value::Compound(HashMap::new())),
    ])
}

fn to_nbt(root: &Value) -> Vec<u8> {
    fastnbt::to_bytes(root).expect("serialize")
}

#[test]
fn containers_roundtrip() {
    let root = cmp(vec![(
        "containers",
        Value::List(vec![
            cmp(vec![
                ("id", Value::String("minecraft:chest".into())),
                ("dimension", Value::String("minecraft:overworld".into())),
                ("x", Value::Int(10)),
                ("y", Value::Int(64)),
                ("z", Value::Int(-20)),
                ("is_dungeon", Value::Byte(0)),
                (
                    "items",
                    Value::List(vec![
                        item("minecraft:diamond", 0, 64),
                        item("minecraft:netherite_ingot", 5, 3),
                    ]),
                ),
            ]),
            cmp(vec![
                ("id", Value::String("minecraft:barrel".into())),
                ("dimension", Value::String("minecraft:the_nether".into())),
                ("x", Value::Int(1)),
                ("y", Value::Int(2)),
                ("z", Value::Int(3)),
                ("is_dungeon", Value::Byte(1)),
                ("items", Value::List(vec![item("minecraft:gold_ingot", 2, 10)])),
            ]),
        ]),
    )]);
    let bytes = to_nbt(&root);
    let (kind, spans) = split_dump(&bytes).expect("split");
    assert!(matches!(kind, DumpKind::Containers));
    assert_eq!(spans.len(), 2);

    let e0 = build_one(&bytes, spans[0], kind);
    assert_eq!(e0.len(), 1);
    let c0 = &e0[0];
    assert_eq!(c0.kind, EntryKind::Container);
    assert_eq!(c0.header_icon, "minecraft:chest");
    assert_eq!(c0.coords, Some((10, 64, -20)));
    assert!(!c0.is_dungeon);
    assert_eq!(c0.items.len(), 2);
    assert!(c0.search_blob.contains("diamond"));

    let e1 = build_one(&bytes, spans[1], kind);
    assert!(e1[0].is_dungeon);
    assert_eq!(e1[0].dimension, "minecraft:the_nether");
}

#[test]
fn store_opens_gzipped_nbt_dump() {
    let root = cmp(vec![(
        "containers",
        Value::List(vec![
            cmp(vec![
                ("id", Value::String("minecraft:chest".into())),
                ("dimension", Value::String("minecraft:overworld".into())),
                ("x", Value::Int(7)),
                ("y", Value::Int(70)),
                ("z", Value::Int(7)),
                ("is_dungeon", Value::Byte(0)),
                ("items", Value::List(vec![item("minecraft:emerald", 0, 5)])),
            ]),
            cmp(vec![
                ("id", Value::String("minecraft:barrel".into())),
                ("dimension", Value::String("minecraft:overworld".into())),
                ("x", Value::Int(0)),
                ("y", Value::Int(0)),
                ("z", Value::Int(0)),
                ("is_dungeon", Value::Byte(1)),
                ("items", Value::List(vec![item("minecraft:diamond_pickaxe", 3, 1)])),
            ]),
        ]),
    )]);
    let bytes = to_nbt(&root);
    let mut enc = flate2::write::GzEncoder::new(Vec::new(), flate2::Compression::default());
    enc.write_all(&bytes).unwrap();
    let gz = enc.finish().unwrap();

    let store = Store::open_nbt_bytes(&gz, None).expect("store open");
    assert_eq!(store.len(), 2);
    let e = store.entry(0).expect("entry 0");
    assert_eq!(e.header_icon, "minecraft:chest");
    assert!(e.search_blob.contains("emerald"));

    let mut f = Filters::default();
    f.item = "diamond_pickaxe".into();
    let hits = store.filter(&f.compile());
    assert_eq!(hits.len(), 1);
}

#[test]
fn players_roundtrip() {
    let root = cmp(vec![(
        "players",
        Value::List(vec![cmp(vec![
            ("name", Value::String("Notch".into())),
            ("uuid", Value::String("069a79f4-44e9-4726-a5be-fca90e38aaf5".into())),
            ("inventory", Value::List(vec![item("minecraft:diamond_sword", 0, 1)])),
            ("ender_chest", Value::List(vec![item("minecraft:obsidian", 0, 64)])),
        ])]),
    )]);
    let bytes = to_nbt(&root);
    let (kind, spans) = split_dump(&bytes).expect("split");
    assert!(matches!(kind, DumpKind::Players));
    assert_eq!(spans.len(), 1);

    let entries = build_one(&bytes, spans[0], kind);
    assert_eq!(entries.len(), 2);
    assert!(entries.iter().all(|e| e.kind == EntryKind::Player));
    assert!(entries.iter().any(|e| e.title.contains("Inventory")));
    assert!(entries.iter().any(|e| e.title.contains("Ender Chest")));
    assert_eq!(entries[0].owner, "notch");
}

#[test]
fn split_dump_errors() {
    assert!(split_dump(&[]).is_err());
    assert!(split_dump(&[8, 0, 0]).is_err());
    let no_list = to_nbt(&cmp(vec![("other", Value::Int(1))]));
    assert!(split_dump(&no_list).is_err());
}

#[test]
fn inventory_slots_are_remapped() {
    assert_eq!(remap_inventory_slot(103), 0);
    assert_eq!(remap_inventory_slot(100), 3);
    assert_eq!(remap_inventory_slot(-106), 4);
}

#[test]
fn store_from_plain_nbt_of_other_shape_is_an_error_when_forced() {
    let bytes = to_nbt(&cmp(vec![("other", Value::Int(1))]));
    assert!(Store::open_nbt_bytes(&bytes, Some(DumpKind::Containers)).is_err());
}

#[test]
fn store_rereads_every_player_section() {
    let root = cmp(vec![(
        "players",
        Value::List(vec![
            cmp(vec![
                ("name", Value::String("Alex".into())),
                ("uuid", Value::String("AAAA-1".into())),
                ("inventory", Value::List(vec![item("minecraft:bread", 3, 5)])),
                ("ender_chest", Value::List(vec![item("minecraft:elytra", 0, 1)])),
            ]),
            cmp(vec![
                ("name", Value::String("Steve".into())),
                ("uuid", Value::String("BBBB-2".into())),
                ("inventory", Value::List(vec![])),
                ("ender_chest", Value::List(vec![item("minecraft:shulker_shell", 1, 2)])),
            ]),
        ]),
    )]);
    let bytes = to_nbt(&root);
    let store = Store::open_nbt_bytes(&bytes, None).expect("store open");
    assert_eq!(store.len(), 3);
    let titles: Vec<String> = (0..3).map(|i| store.entry(i).expect("entry").title).collect();
    assert_eq!(titles[0], "Alex - Inventory");
    assert_eq!(titles[1], "Alex - Ender Chest");
    assert_eq!(titles[2], "Steve - Ender Chest");
    assert!(store.entry(3).is_none());
    assert_eq!(store.entry(1).unwrap().uuid, "aaaa-1");
}

#[test]
fn filter_gives_every_match_once_in_order() {
    let mk = |id: &str| {
        let mut e = Entry::blank(EntryKind::Backpack);
        e.items.push(Item::plain(id.to_string(), 1, 0));
        e.finalize("");
        e
    };
    let es = vec![mk("minecraft:diamond"), mk("minecraft:stone"), mk("minecraft:diamond_axe"), mk("minecraft:dirt")];
    let store = Store::from_entries(es).expect("store");
    let mut f = Filters::default();
    f.item = "diamond".into();
    let c = f.compile();
    let hits = store.filter(&c);
    assert_eq!(hits, vec![0, 2]);
    for i in 0..store.len() {
        let t = store.text_source(i);
        let by_meta = c.matches_meta(&store.metas()[i], &t, store.interner());
        assert_eq!(by_meta, c.matches(&store.mem_entries()[i]));
        assert_eq!(hits.contains(&(i as u32)), by_meta);
    }
}
