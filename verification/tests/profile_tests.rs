use fastnbt::Value;
use infiltrator::atlas::{nbt_u32, parse_manifest, SpriteMeta};
use infiltrator::nbt_value::Nbt;
use infiltrator::display::Mode;
use infiltrator::model::{Entry, EntryKind, Item};
use infiltrator::profiles::{fetch_outcome, fetch_plan, profile_fields, FetchPlan, HeadState, Profiles};
use infiltrator::search::Filters;
use infiltrator::store::Store;
use infiltrator::workspace::Workspace;

#[test]
fn fetch_plans() {
    assert_eq!(fetch_plan("http://x/skin.png"), FetchPlan::Skin("http://x/skin.png".to_string()));
    assert_eq!(
        fetch_plan("Notch"),
        FetchPlan::Profile("https://api.opnsoc.org/player/Notch".to_string())
    );
}

#[test]
fn profile_replies() {
    let (name, skin) =
        profile_fields("{\"data\":{\"player\":{\"username\":\"Notch\",\"skin_texture\":\"\"}}}").unwrap();
    assert_eq!(name.as_deref(), Some("Notch"));
    assert!(skin.is_none());
    let (name, skin) = profile_fields("{\"data\":{}}").unwrap();
    assert!(name.is_none() && skin.is_none());
    assert!(profile_fields("nope").unwrap_err().starts_with("profile json: "));
    assert_eq!(fetch_outcome(None, false).unwrap_err(), "player not found");
    assert_eq!(fetch_outcome(None, true).unwrap(), None);
    assert_eq!(fetch_outcome(Some("a".to_string()), false).unwrap(), Some("a".to_string()));
}

#[test]
fn head_requests_are_queued_once() {
    let mut p = Profiles::new();
    p.request("a");
    p.request("b");
    p.request("a");
    assert_eq!(p.drain_requests(), vec!["a".to_string(), "b".to_string()]);
    assert!(p.drain_requests().is_empty());
    assert_eq!(p.get("a"), Some(HeadState::Pending));
    assert!(!p.settled("a"));
    p.set("a", HeadState::Ready(true));
    assert!(p.settled("a"));
    p.set("b", HeadState::Failed);
    assert_eq!(p.get("b"), Some(HeadState::Failed));
    p.request("b");
    assert!(p.drain_requests().is_empty());
    assert_eq!(p.get("c"), None);
}

#[test]
fn atlas_manifest() {
    let sprite = |pairs: Vec<(&str, Value)>| Value::Compound(pairs.into_iter().map(|(k, v)| (k.to_string(), v)).collect());
    let root = sprite(vec![(
        "sprites",
        sprite(vec![
            ("minecraft:stone", sprite(vec![("w", Value::Int(32)), ("d", Value::Byte(1))])),
            ("minecraft:stick", sprite(vec![])),
            ("bogus", Value::Int(3)),
        ]),
    )]);
    let bytes = fastnbt::to_bytes(&root).unwrap();
    let mut m = parse_manifest(&bytes).unwrap();
    m.sort_by(|a, b| a.0.cmp(&b.0));
    assert_eq!(m.len(), 2);
    assert_eq!(m[0], ("minecraft:stick".to_string(), SpriteMeta { w: 16, h: 16, is3d: false }));
    assert_eq!(m[1], ("minecraft:stone".to_string(), SpriteMeta { w: 32, h: 32, is3d: true }));
    let empty = fastnbt::to_bytes(&sprite(vec![("other", Value::Int(1))])).unwrap();
    assert_eq!(parse_manifest(&empty).unwrap_err(), "manifest missing 'sprites'");
    let wrong = fastnbt::to_bytes(&sprite(vec![("sprites", Value::Int(1))])).unwrap();
    assert_eq!(parse_manifest(&wrong).unwrap_err(), "manifest 'sprites' not a compound");
    assert!(parse_manifest(&[1, 2, 3]).unwrap_err().starts_with("manifest nbt: "));
    assert_eq!(nbt_u32(Some(&Nbt::Byte(-1))), Some(u32::MAX));
    assert_eq!(nbt_u32(Some(&Nbt::Long(1 << 33 | 5))), Some(5));
    assert_eq!(nbt_u32(None), None);
}

fn backpack(uuid: &str, item: &str) -> Entry {
    let mut e = Entry::blank(EntryKind::Backpack);
    e.uuid = uuid.to_string();
    e.items.push(Item::plain(item.to_string(), 1, 0));
    e.finalize("");
    e
}

#[test]
fn workspace_search_over_open_files() {
    let mut ws = Workspace::new();
    let a = ws.add_source("/x/a.dat".to_string(), Mode::Auto, true).unwrap();
    assert!(ws.add_source("/x/a.dat".to_string(), Mode::Auto, true).is_none());
    let b = ws.add_source("/x/b.dat".to_string(), Mode::Backpacks, false).unwrap();
    assert_ne!(a, b);
    assert_eq!(ws.sources[0].name, "a.dat");
    let s1 = Store::from_entries(vec![backpack("u1", "minecraft:apple"), backpack("u2", "minecraft:stick")]).unwrap();
    assert!(ws.on_loaded(a, Ok(s1)));
    assert!(ws.on_loaded(b, Err("read: missing".to_string())));
    assert!(!ws.on_loaded(99, Err("x".to_string())));
    assert!(!ws.sources[0].loading);
    assert_eq!(ws.sources[1].error.as_deref(), Some("read: missing"));
    ws.rebuild_bp_index();
    assert_eq!(ws.bp_index.len(), 2);
    assert_eq!(ws.bp_index[0].0, "u1");
    ws.run_search(&Filters::default());
    assert_eq!(ws.filtered, vec![(0, 0), (0, 1)]);
    assert_eq!(ws.status, "2 of 2 shown");
    let mut f = Filters::default();
    f.item = "stick".to_string();
    ws.run_search(&f);
    assert_eq!(ws.filtered, vec![(0, 1)]);
    assert_eq!(ws.status, "1 of 2 shown");
}
