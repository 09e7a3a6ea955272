use infiltrator::nbt_value::Nbt;
use infiltrator::parse::contraption::{extract, unpack_pos};

fn cmp(pairs: Vec<(&str, Nbt)>) -> Nbt {
    Nbt::Compound(pairs.into_iter().map(|(k, v)| (k.to_string(), v)).collect())
}

fn ints(v: &[i64]) -> Nbt {
    Nbt::List(v.iter().map(|x| Nbt::Int(*x as i32)).collect())
}

fn s(x: &str) -> Nbt {
    Nbt::String(x.to_string())
}

fn pack(x: i64, y: i64, z: i64) -> i64 {
    ((x & 0x3FFFFFF) << 38) | (y & 0xFFF) | ((z & 0x3FFFFFF) << 12)
}

#[test]
fn names_container_from_block_at_pos_and_nests_items() {
    let data = cmp(vec![
        (
            "Blocks",
            cmp(vec![(
                "BlockList",
                Nbt::List(vec![cmp(vec![
                    ("Pos", Nbt::Long(pack(0, 4, 0))),
                    ("Data", cmp(vec![("id", s("farmersdelight:cabinet"))])),
                ])]),
            )]),
        ),
        (
            "items",
            Nbt::List(vec![cmp(vec![
                ("pos", ints(&[0, 4, 0])),
                (
                    "storage",
                    cmp(vec![
                        ("type", s("create:simple")),
                        (
                            "value",
                            cmp(vec![
                                ("size", Nbt::Int(27)),
                                (
                                    "items",
                                    cmp(vec![(
                                        "14",
                                        cmp(vec![("id", s("minecraft:black_dye")), ("count", Nbt::Int(22))]),
                                    )]),
                                ),
                            ]),
                        ),
                    ]),
                ),
            ])]),
        ),
    ]);
    let mut out = Vec::new();
    extract(&data, &mut out);
    assert_eq!(out.len(), 1);
    assert_eq!(out[0].id, "farmersdelight:cabinet");
    assert_eq!(out[0].contents.len(), 1);
    assert_eq!(out[0].contents[0].id, "minecraft:black_dye");
    assert_eq!(out[0].contents[0].count, 22);
    assert_eq!(out[0].contents[0].slot, 14);
}

#[test]
fn depot_single_stack_uses_type_fallback_when_unmapped() {
    let data = cmp(vec![(
        "items",
        Nbt::List(vec![cmp(vec![
            ("pos", ints(&[9, 9, 9])),
            (
                "storage",
                cmp(vec![
                    ("type", s("create:depot")),
                    ("value", cmp(vec![("id", s("minecraft:iron_ingot")), ("count", Nbt::Int(5))])),
                ]),
            ),
        ])]),
    )]);
    let mut out = Vec::new();
    extract(&data, &mut out);
    assert_eq!(out.len(), 1);
    assert_eq!(out[0].id, "create:depot");
    assert_eq!(out[0].contents.len(), 1);
    assert_eq!(out[0].contents[0].id, "minecraft:iron_ingot");
    assert_eq!(out[0].contents[0].count, 5);
}

#[test]
fn empty_storages_are_skipped() {
    let data = cmp(vec![(
        "items",
        Nbt::List(vec![cmp(vec![
            ("pos", ints(&[0, 0, 0])),
            (
                "storage",
                cmp(vec![
                    ("type", s("create:simple")),
                    ("value", cmp(vec![("size", Nbt::Int(27)), ("items", cmp(vec![]))])),
                ]),
            ),
        ])]),
    )]);
    let mut out = Vec::new();
    extract(&data, &mut out);
    assert!(out.is_empty());
}

#[test]
fn recurses_sub_contraptions() {
    let inner = cmp(vec![
        ("pos", ints(&[0, 0, 0])),
        (
            "storage",
            cmp(vec![
                ("type", s("create:simple")),
                (
                    "value",
                    cmp(vec![(
                        "items",
                        cmp(vec![("0", cmp(vec![("id", s("minecraft:emerald")), ("count", Nbt::Int(3))]))]),
                    )]),
                ),
            ]),
        ),
    ]);
    let sub = cmp(vec![("contraption", cmp(vec![("items", Nbt::List(vec![inner]))]))]);
    let data = cmp(vec![("items", Nbt::List(vec![])), ("SubContraptions", Nbt::List(vec![sub]))]);
    let mut out = Vec::new();
    extract(&data, &mut out);
    assert_eq!(out.len(), 1);
    assert_eq!(out[0].contents.len(), 1);
    assert_eq!(out[0].contents[0].id, "minecraft:emerald");
    assert_eq!(out[0].contents[0].count, 3);
}

#[test]
fn packed_positions_unpack() {
    assert_eq!(unpack_pos(pack(0, 4, 0)), (0, 4, 0));
    assert_eq!(unpack_pos(pack(-5, -64, 123456)), (-5, -64, 123456));
    assert_eq!(unpack_pos(pack(33554431, 2047, -33554432)), (33554431, 2047, -33554432));
}

#[test]
fn vault_type_falls_back_to_item_vault_block() {
    let data = cmp(vec![(
        "items",
        Nbt::List(vec![cmp(vec![(
            "storage",
            cmp(vec![
                ("type", s("create:vault")),
                ("value", cmp(vec![("items", Nbt::List(vec![cmp(vec![("id", s("minecraft:stone")), ("Slot", Nbt::Int(4))])]))])),
            ]),
        )])]),
    )]);
    let mut out = Vec::new();
    extract(&data, &mut out);
    assert_eq!(out.len(), 1);
    assert_eq!(out[0].id, "create:item_vault");
    assert_eq!(out[0].contents[0].slot, 4);
    assert_eq!(out[0].contents[0].count, 1);
}
