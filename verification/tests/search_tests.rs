use infiltrator::model::{Entry, EntryKind, Item};
use infiltrator::search::{parse_query, tokenize, DungeonFilter, EnchOp, Filters, TextCat};

fn m(query: &str, hay: &str) -> bool {
    parse_query(query)
        .map(|e| e.eval(&|t: &str| hay.contains(t)))
        .unwrap_or(true)
}

#[test]
fn boolean_ops() {
    assert!(m("diamond and netherite", "a diamond and a netherite ingot"));
    assert!(!m("diamond and netherite", "just a diamond"));
    assert!(m("diamond or gold", "a gold bar"));
    assert!(!m("diamond or gold", "an emerald"));
    assert!(m("not diamond", "an emerald"));
    assert!(!m("not diamond", "a diamond"));
    assert!(m("gold and (diamond or emerald)", "gold and emerald"));
    assert!(!m("gold and (diamond or emerald)", "gold and iron"));
    assert!(m("\"diamond sword\"", "a diamond sword here"));
    assert!(!m("\"diamond sword\"", "a diamond pickaxe"));
    // adjacency implies AND
    assert!(m("gold diamond", "gold and diamond"));
    assert!(!m("gold diamond", "only gold"));
    // empty query matches everything
    assert!(m("   ", "whatever"));
}

#[test]
fn blank_query_is_no_query() {
    assert!(parse_query("").is_none());
    assert!(parse_query(" \t ").is_none());
}

#[test]
fn query_terms_are_lowercased() {
    assert!(m("DIAMOND", "a diamond"));
    assert!(!m("Diamond", "a Diamond"));
}

#[test]
fn tokens_of_a_query() {
    let t = tokenize("a (b or \"c d\")");
    assert_eq!(t.len(), 6);
}

#[test]
fn not_binds_tighter_than_and() {
    assert!(m("not iron and gold", "gold"));
    assert!(!m("not iron and gold", "iron gold"));
}

fn chest_with(id: &str, count: i64) -> Entry {
    let mut e = Entry::blank(EntryKind::Container);
    e.title = "Chest".to_string();
    e.items.push(Item::plain(id.to_string(), count, 0));
    e.finalize("");
    e
}

#[test]
fn default_filters_accept_everything() {
    let f = Filters::default();
    assert!(!f.advanced_active());
    let c = f.compile();
    assert!(c.matches(&chest_with("minecraft:dirt", 1)));
}

#[test]
fn item_filter_and_min_count() {
    let mut f = Filters::default();
    f.item = "diamond".to_string();
    let c = f.compile();
    assert!(c.matches(&chest_with("minecraft:diamond", 3)));
    assert!(!c.matches(&chest_with("minecraft:stone", 3)));
    let mut g = Filters::default();
    g.min_count = "10".to_string();
    let c = g.compile();
    assert!(!c.matches(&chest_with("minecraft:diamond", 3)));
    assert!(c.matches(&chest_with("minecraft:diamond", 12)));
}

#[test]
fn cleared_filters_are_not_advanced() {
    let mut f = Filters::default();
    f.item = "diamond".to_string();
    f.dungeon = DungeonFilter::Only;
    f.ench_op = EnchOp::Gte;
    f.text = "gold".to_string();
    assert!(f.advanced_active());
    f.clear_advanced();
    assert!(!f.advanced_active());
    assert_eq!(f.text, "gold");
}

#[test]
fn labels_of_choices() {
    assert_eq!(TextCat::Any.label(), "Anything");
    assert_eq!(EnchOp::Gt.label(), "level >");
    assert_eq!(DungeonFilter::Any.label(), "Any");
}

fn at(p: Option<(i64, i64, i64)>) -> Entry {
    let mut e = chest_with("minecraft:dirt", 1);
    e.coords = p;
    e
}

#[test]
fn coordinate_bounds_drop_entries_outside() {
    let mut f = Filters::default();
    f.x_min = "0".to_string();
    f.x_max = "5".to_string();
    let c = f.compile();
    assert!(c.coord_filter_active());
    assert!(!c.matches(&at(None)));
    assert!(c.matches(&at(Some((5, 0, 0)))));
    assert!(c.matches(&at(Some((0, 99, -7)))));
    assert!(!c.matches(&at(Some((6, 0, 0)))));
    assert!(!c.matches(&at(Some((-1, 0, 0)))));
}

#[test]
fn blank_or_bad_bounds_are_absent() {
    let mut f = Filters::default();
    f.x_min = "abc".to_string();
    assert!(!f.compile().coord_filter_active());
    assert!(f.compile().matches(&at(None)));
    f.y_max = " -5 ".to_string();
    assert!(f.compile().coord_filter_active());
}

#[test]
fn text_fields_are_trimmed_and_lowercased() {
    let mut f = Filters::default();
    f.item = "  DIAMOND ".to_string();
    let mut g = Filters::default();
    g.item = "diamond".to_string();
    for e in [chest_with("minecraft:diamond", 1), chest_with("minecraft:stone", 1)] {
        assert_eq!(f.compile().matches(&e), g.compile().matches(&e));
    }
    assert!(f.compile().matches(&chest_with("minecraft:diamond", 1)));
}

#[test]
fn enchantment_name_and_level_on_one_enchantment() {
    let mut f = Filters::default();
    f.ench_name = "Sharpness".to_string();
    f.ench_op = EnchOp::Gte;
    f.ench_level = 5;
    let c = f.compile();
    let mk = |v: Vec<(&str, i32)>| {
        let mut e = at(None);
        e.all_enchants = v.into_iter().map(|(n, l)| (n.to_string(), l)).collect();
        e
    };
    assert!(!c.matches(&mk(vec![("minecraft:sharpness", 1), ("minecraft:efficiency", 5)])));
    assert!(c.matches(&mk(vec![("minecraft:sharpness", 5)])));
    assert!(!c.matches(&mk(vec![])));
}

#[test]
fn owner_search_skips_containers() {
    let mut f = Filters::default();
    f.cat = TextCat::Owner;
    f.text = "alex".to_string();
    let c = f.compile();
    let mut p = Entry::blank(EntryKind::Player);
    p.owner = "alex".to_string();
    p.finalize("");
    assert!(c.matches(&p));
    let mut chest = at(None);
    chest.owner = "alex".to_string();
    assert!(!c.matches(&chest));
}

#[test]
fn kinds_empty_and_dungeon_rules() {
    let mut f = Filters::default();
    f.show_containers = false;
    assert!(!f.compile().matches(&at(None)));
    let mut g = Filters::default();
    g.hide_empty = true;
    let mut empty = Entry::blank(EntryKind::Container);
    empty.finalize("");
    assert!(!g.compile().matches(&empty));
    let mut h = Filters::default();
    h.dungeon = DungeonFilter::Only;
    assert!(!h.compile().matches(&at(None)));
    let mut d = at(None);
    d.is_dungeon = true;
    assert!(h.compile().matches(&d));
    h.dungeon = DungeonFilter::Hide;
    assert!(!h.compile().matches(&d));
}

#[test]
fn criteria_combine_by_and() {
    let mut f = Filters::default();
    f.item = "diamond".to_string();
    f.x_min = "0".to_string();
    let mut item_only = Filters::default();
    item_only.item = "diamond".to_string();
    let mut coords_only = Filters::default();
    coords_only.x_min = "0".to_string();
    let mut a = chest_with("minecraft:diamond", 1);
    let mut b = chest_with("minecraft:diamond", 1);
    let mut c = chest_with("minecraft:stone", 1);
    a.coords = Some((3, 0, 0));
    b.coords = Some((-3, 0, 0));
    c.coords = Some((3, 0, 0));
    for e in [a, b, c] {
        let both = f.compile().matches(&e);
        let parts = item_only.compile().matches(&e) && coords_only.compile().matches(&e);
        assert_eq!(both, parts);
    }
}

#[test]
fn numbers_are_read_from_trimmed_fields() {
    let mut f = Filters::default();
    f.x_min = " 3 ".to_string();
    f.min_count = "many".to_string();
    let mut g = Filters::default();
    g.x_min = "3".to_string();
    for p in [None, Some((2, 0, 0)), Some((3, 0, 0)), Some((9, 9, 9))] {
        assert_eq!(f.compile().matches(&at(p)), g.compile().matches(&at(p)));
    }
}
