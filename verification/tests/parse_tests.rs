use base64::Engine;
use fastnbt::Value;
use infiltrator::json_value::{Json, JsonNum};
use infiltrator::model::{Entry, EntryKind, Item};
use infiltrator::parse::containers::{build_one, detect_kind, item_from_json, raw_element, JsonKind};
use infiltrator::parse::nbt::{
    decompress, extract_text, load_backpacks_bytes, skin_url_from_textures_value, uuid_from_ints,
};
use infiltrator::parse::json_dump::load_json_bytes;
use infiltrator::parse::snbt::parse as parse_snbt;
use infiltrator::store::{ci_contains, Load, Store};
use infiltrator::text::{int_to_string, parse_i64};
use std::io::Write;

#[test]
fn display_text_from_json_components() {
    assert_eq!(extract_text("  plain  "), "plain");
    assert_eq!(extract_text("\"quoted\""), "quoted");
    assert_eq!(extract_text("{\"text\":\"Hi \",\"extra\":[{\"text\":\"there\"}]}"), "Hi there");
    assert_eq!(extract_text("[\"a\",\"b\"]"), "ab");
    assert_eq!(extract_text("{broken"), "{broken");
}

#[test]
fn uuids_from_int_arrays() {
    assert_eq!(uuid_from_ints(&[1, 2, 3, 4]).unwrap(), "00000001-0000-0002-0000-000300000004");
    assert_eq!(uuid_from_ints(&[-1, -1, -1, -1]).unwrap(), "ffffffff-ffff-ffff-ffff-ffffffffffff");
    assert!(uuid_from_ints(&[1, 2, 3]).is_none());
}

#[test]
fn skin_urls_from_texture_values() {
    let json = "{\"textures\":{\"SKIN\":{\"url\":\"http://textures.minecraft.net/texture/abc\"}}}";
    let b64 = base64::engine::general_purpose::STANDARD.encode(json);
    assert_eq!(
        skin_url_from_textures_value(&b64).unwrap(),
        "https://textures.minecraft.net/texture/abc"
    );
    let plain = base64::engine::general_purpose::STANDARD.encode("{\"textures\":{}}");
    assert!(skin_url_from_textures_value(&plain).is_none());
    assert!(skin_url_from_textures_value("***").is_none());
}

#[test]
fn decompress_falls_back_to_raw() {
    assert_eq!(decompress(&[1, 2, 3]), vec![1, 2, 3]);
    let mut enc = flate2::write::GzEncoder::new(Vec::new(), flate2::Compression::default());
    enc.write_all(b"abc").unwrap();
    let gz = enc.finish().unwrap();
    assert_eq!(decompress(&gz), b"abc".to_vec());
}

#[test]
fn bad_backpack_file_is_an_error() {
    let e = load_backpacks_bytes(&[0xff, 0x00]).unwrap_err();
    assert!(e.starts_with("nbt parse: "));
}

#[test]
fn backpack_file_without_backpacks_is_an_error() {
    let root = Value::Compound([("data".to_string(), Value::Compound(Default::default()))].into_iter().collect());
    let bytes = fastnbt::to_bytes(&root).unwrap();
    assert_eq!(load_backpacks_bytes(&bytes).unwrap_err(), "could not locate 'backpackContents' in NBT");
}

#[test]
fn backpack_file_with_no_backpacks_is_empty() {
    let data = Value::Compound(
        [("backpackContents".to_string(), Value::List(vec![]))].into_iter().collect(),
    );
    let root = Value::Compound([("data".to_string(), data)].into_iter().collect());
    let bytes = fastnbt::to_bytes(&root).unwrap();
    assert!(load_backpacks_bytes(&bytes).unwrap().is_empty());
}

#[test]
fn snbt_values() {
    let v = parse_snbt("{a:1b,b:\"x\",c:[I;1,2]}").expect("snbt");
    match v {
        Json::Object(m) => assert_eq!(m.len(), 3),
        _ => panic!("object expected"),
    }
    assert!(parse_snbt("").is_none());
}

fn obj(pairs: Vec<(&str, Json)>) -> Json {
    Json::Object(pairs.into_iter().map(|(k, v)| (k.to_string(), v)).collect())
}

fn text(s: &str) -> Json {
    Json::String(s.to_string())
}

fn num(n: u64) -> Json {
    Json::Number(JsonNum::PosInt(n), n.to_string())
}

#[test]
fn json_items_and_elements() {
    let v = obj(vec![("id", text("Minecraft:Diamond")), ("count", num(3))]);
    let it = item_from_json(&v, 7).unwrap();
    assert_eq!(it.id, "minecraft:diamond");
    assert_eq!(it.count, 3);
    assert_eq!(it.slot, 7);
    let air = obj(vec![("id", text("minecraft:air"))]);
    assert!(item_from_json(&air, 0).is_none());

    let el = obj(vec![
        ("id", text("minecraft:barrel")),
        ("x", num(1)),
        ("y", num(2)),
        ("z", num(3)),
        (
            "items",
            Json::Array(vec![obj(vec![("id", text("minecraft:apple")), ("count", num(2))])]),
        ),
    ]);
    let raw = raw_element(&el).unwrap();
    assert_eq!(detect_kind(&raw), JsonKind::Containers);
    let es = build_one(&raw, JsonKind::Containers);
    assert_eq!(es.len(), 1);
    assert_eq!(es[0].kind, EntryKind::Container);
    assert_eq!(es[0].coords, Some((1, 2, 3)));
    assert_eq!(es[0].items.len(), 1);

    let p = obj(vec![
        ("name", text("Alex")),
        ("uuid", text("u")),
        ("inventory", Json::Array(vec![])),
        ("ender_chest", Json::Array(vec![])),
    ]);
    let rp = raw_element(&p).unwrap();
    assert_eq!(detect_kind(&rp), JsonKind::Players);
    assert!(raw_element(&Json::Null).is_none());
}

#[test]
fn store_of_json_dump() {
    let text = "{\"containers\":[{\"id\":\"minecraft:chest\",\"x\":1,\"y\":2,\"z\":3,\"items\":[{\"id\":\"minecraft:emerald\",\"count\":4}]},{\"id\":\"minecraft:barrel\",\"x\":0,\"y\":0,\"z\":0,\"items\":[]}]}";
    let store = Store::open_json_bytes(text.as_bytes().to_vec(), None).expect("open");
    assert_eq!(store.len(), 2);
    let e = store.entry(0).expect("entry");
    assert_eq!(e.header_icon, "minecraft:chest");
    assert!(store.entry(5).is_none());
    assert!(Store::open_json_bytes(b"not json".to_vec(), None).is_err());
}

#[test]
fn store_renames_unknown_owners() {
    let mut e = Entry::blank(EntryKind::Backpack);
    e.uuid = "u-1".to_string();
    e.owner = "unknown".to_string();
    e.items.push(Item::plain("minecraft:stick".to_string(), 1, 0));
    e.finalize("");
    let mut store = Store::from_entries(vec![e]).expect("store");
    assert!(store.apply_username("u-1", "Steve"));
    assert!(!store.apply_username("u-2", "Alex"));
    assert_eq!(store.metas()[0].owner, "steve");
}

#[test]
fn case_insensitive_contains() {
    assert!(ci_contains(b"A Diamond Sword", "diamond"));
    assert!(!ci_contains(b"A Diamond Sword", "gold"));
    assert!(ci_contains(b"abc", ""));
}

#[test]
fn load_kind_from_path() {
    assert!(matches!(Load::auto("dump.JSON"), Load::Json(None)));
    assert!(matches!(Load::auto("backpacks.dat"), Load::Nbt(None)));
}

#[test]
fn integer_text() {
    assert_eq!(int_to_string(-120), "-120");
    assert_eq!(int_to_string(0), "0");
    assert_eq!(parse_i64("+42"), Some(42));
    assert_eq!(parse_i64("4x"), None);
    assert_eq!(parse_i64("-9223372036854775808"), Some(i64::MIN));
    assert_eq!(parse_i64("9223372036854775808"), None);
}

#[test]
fn json_dumps_in_every_shape() {
    let list = b"[{\"id\":\"minecraft:chest\",\"x\":1,\"y\":2,\"z\":3,\"items\":[]},{\"id\":\"minecraft:barrel\"}]";
    let es = load_json_bytes(list, None).unwrap();
    assert_eq!(es.len(), 2);
    assert_eq!(es[1].header_icon, "minecraft:barrel");

    let wrapped = b"{\"players\":[{\"name\":\"Alex\",\"uuid\":\"u-1\",\"inventory\":[{\"id\":\"minecraft:bread\",\"Slot\":0,\"count\":3}],\"ender_chest\":[]}]}";
    let ps = load_json_bytes(wrapped, None).unwrap();
    assert!(!ps.is_empty());
    assert!(ps.iter().all(|e| e.kind == EntryKind::Player));

    let single = b"{\"id\":\"minecraft:hopper\",\"x\":0,\"y\":0,\"z\":0}";
    let one = load_json_bytes(single, None).unwrap();
    assert_eq!(one.len(), 1);
    assert_eq!(one[0].header_icon, "minecraft:hopper");

    let err = load_json_bytes(b"{oops", None).unwrap_err();
    assert!(err.starts_with("json parse: "));
    assert!(load_json_bytes(b"5", None).is_err());
    assert!(load_json_bytes(b"{\"containers\":5}", None).is_err());
    assert!(load_json_bytes(b"[1]", None).is_err());
    assert!(load_json_bytes(b"[]", None).unwrap().is_empty());
}

#[test]
fn snbt_numbers_and_bare_words() {
    let v = parse_snbt("{f:1.5f,n:-3b,s:abc,t:true}").expect("snbt");
    let Json::Object(m) = v else { panic!("object expected") };
    let get = |k: &str| m.iter().find(|(key, _)| key == k).map(|(_, v)| v).expect("member");
    assert!(matches!(get("f"), Json::Number(_, t) if t == "1.5"));
    assert!(matches!(get("n"), Json::Number(_, t) if t == "-3"));
    assert!(matches!(get("s"), Json::String(t) if t == "abc"));
    assert!(matches!(get("t"), Json::Bool(true)));
}
