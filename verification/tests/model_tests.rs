use infiltrator::assets::{get as asset, Asset};
use infiltrator::color::rgb3;
use infiltrator::display::{default_png_name, filename, has_openable, resolve_nested, roman, Mode};
use infiltrator::model::{format_short_date, prettify_id, Entry, EntryKind, Item};
use infiltrator::report::summarize;
use infiltrator::settings::{default_cols, default_true, Settings};

#[test]
fn prettified_ids() {
    assert_eq!(prettify_id("minecraft:diamond_sword"), "Diamond Sword");
    assert_eq!(prettify_id("stone"), "Stone");
    assert_eq!(prettify_id("a:b:iron__ingot"), "Iron  Ingot");
}

#[test]
fn short_dates() {
    assert_eq!(format_short_date(0), "Never");
    assert_eq!(format_short_date(-5), "Never");
    assert_eq!(format_short_date(86_400_000), "70-01-02 00:00");
    assert_eq!(format_short_date(1_700_000_000_000), "23-11-14 22:13");
}

#[test]
fn roman_numerals() {
    assert_eq!(roman(1), "I");
    assert_eq!(roman(4), "IV");
    assert_eq!(roman(10), "X");
    assert_eq!(roman(11), "11");
    assert_eq!(roman(0), "0");
    assert_eq!(roman(-3), "-3");
}

#[test]
fn mode_labels_round_trip() {
    for m in [Mode::Auto, Mode::Backpacks, Mode::Containers, Mode::Players] {
        assert_eq!(Mode::from_label(m.label()), m);
    }
    assert_eq!(Mode::from_label("nonsense"), Mode::Auto);
}

#[test]
fn file_names() {
    assert_eq!(filename("/a/b/c.json"), "c.json");
    assert_eq!(filename("C:\\x\\y.dat"), "y.dat");
    assert_eq!(filename("plain"), "plain");
}

#[test]
fn png_names() {
    let mut e = Entry::blank(EntryKind::Container);
    e.title = "Chest @ 1, 2".to_string();
    assert_eq!(default_png_name(&e), "Chest__1_2.png");
    e.title = "a:b".to_string();
    assert_eq!(default_png_name(&e), "a_b.png");
}

#[test]
fn items_and_heads() {
    let mut head = Item::plain("minecraft:player_head".to_string(), 1, 0);
    assert!(head.is_player_head());
    assert!(head.head_key().is_none());
    head.head_ref = Some("Notch".to_string());
    assert_eq!(head.head_key(), Some("Notch"));
    head.head_skin = Some("http://skin".to_string());
    assert_eq!(head.head_key(), Some("http://skin"));
    let plain = Item::plain("minecraft:stone".to_string(), 3, 0);
    assert!(plain.head_key().is_none());
    assert_eq!(plain.display_name(), "Stone");
}

#[test]
fn max_count_looks_inside() {
    let mut bag = Item::plain("minecraft:bundle".to_string(), 1, 0);
    bag.contents.push(Item::plain("minecraft:arrow".to_string(), 40, 0));
    assert_eq!(bag.max_count(), 40);
}

#[test]
fn nested_contents_resolve_through_backpacks() {
    let mut bp = Item::plain("sophisticatedbackpacks:backpack".to_string(), 1, 0);
    bp.storage_uuid = Some("u-1".to_string());
    let index = vec![("u-1".to_string(), vec![Item::plain("minecraft:apple".to_string(), 2, 0)])];
    assert!(has_openable(&bp, &index));
    assert_eq!(resolve_nested(&bp, &index).len(), 1);
    let empty: Vec<(String, Vec<Item>)> = Vec::new();
    assert!(!has_openable(&bp, &empty));
}

#[test]
fn settings_defaults() {
    let s = Settings::default();
    assert!(s.files.is_empty());
    assert_eq!(s.cols, 3);
    assert_eq!(s.mode, "Auto");
    assert_eq!(s.atlas, "");
    assert!(s.presets.is_empty());
    assert!(default_true());
    assert_eq!(default_cols(), 3);
}

#[test]
fn assets_by_name() {
    assert_eq!(asset("font.json"), Some(Asset::FontJson));
    assert_eq!(asset("slots_background.png"), Some(Asset::SlotsBackgroundPng));
    assert_eq!(asset("missing.png"), None);
    for a in [Asset::AsciiPng, Asset::GlintPng, Asset::Container9SlicePng, Asset::InventorySlotsPng] {
        assert_eq!(asset(a.file_name()), Some(a));
    }
}

#[test]
fn hex_colours() {
    assert_eq!(rgb3(0x56ab60), [0x56, 0xab, 0x60]);
    assert_eq!(rgb3(0xff123456), [0x12, 0x34, 0x56]);
}

#[test]
fn summary_counts() {
    let mut e = Entry::blank(EntryKind::Container);
    let mut head = Item::plain("minecraft:player_head".to_string(), 1, 0);
    head.head_skin = Some("s".to_string());
    let mut bag = Item::plain("minecraft:bundle".to_string(), 1, 1);
    bag.contents.push(Item::plain("minecraft:arrow".to_string(), 4, 0));
    e.items.push(head);
    e.items.push(bag);
    e.all_enchants.push(("minecraft:sharpness".to_string(), 5));
    e.all_enchants.push(("minecraft:unbreaking".to_string(), 3));
    let f = Entry::blank(EntryKind::Player);
    let s = summarize(&[e, f]);
    assert_eq!(s.entries, 2);
    assert_eq!(s.items, 2);
    assert_eq!(s.with_enchants, 1);
    assert_eq!(s.max_level, 5);
    assert_eq!(s.nested, 1);
    assert_eq!(s.heads, 1);
    assert_eq!(s.head_skins, 1);
    let none = summarize(&[]);
    assert_eq!(none.max_level, 0);
}
