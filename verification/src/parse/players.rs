//! Player elements of a JSON dump: the inventory and the ender chest, each
//! an entry of its own.
use vstd::prelude::*;
use crate::json_value::{jarray, jstr, jstr_ref, jsons_view, lemma_jsons_view, Json, JsonV};
use crate::model::{items_view, lemma_items_view_len, Entry, Item, ItemView};
use crate::parse::containers::{
    collect_nbt, item_from_json, jitem, jnbt_text, ojv, snbt_depth, RawElement, RawV,
};
use crate::parse::dump_nbt::{player_entry, player_section, remap_inventory_slot, remap_slot, str_or};
use crate::parse::nbt::{push_item, push_some};
use crate::text::copy_str;

verus! {

/// The first `n` item stacks of an inventory array, read with slot 0 as
/// default, their slots moved by `remap_slot` where `remap` is set.
pub open spec fn section_items(a: Seq<JsonV>, n: int, remap: bool) -> Seq<ItemView>
    decreases n,
{
    if n <= 0 || n > a.len() {
        seq![]
    } else {
        let o = match jitem(a[n - 1], 0, snbt_depth()) {
            Some(it) => Some(
                if remap {
                    ItemView { slot: remap_slot(it.slot), ..it }
                } else {
                    it
                },
            ),
            None => None,
        };
        push_some(section_items(a, n - 1, remap), o)
    }
}

/// A section's items where its field is an array; none otherwise.
pub open spec fn section_of(o: Option<JsonV>, remap: bool) -> Option<Seq<ItemView>> {
    match o {
        Some(JsonV::Array(a)) => Some(section_items(a, a.len() as int, remap)),
        _ => None,
    }
}

pub open spec fn has_items(o: Option<Seq<ItemView>>) -> bool {
    o matches Some(s) && s.len() > 0
}

/// The entries of a player element: one for the inventory and one for the
/// ender chest, each only where it is an array that yields an item.
pub open spec fn json_players(es: Seq<Entry>, el: RawV) -> bool {
    let name = str_or(
        match el.name {
            Some(v) => jstr(v),
            None => None,
        },
        "Unknown"@,
    );
    let uuid = str_or(
        match el.uuid {
            Some(v) => jstr(v),
            None => None,
        },
        seq![],
    );
    let inv = section_of(el.inventory, true);
    let ec = section_of(el.ender_chest, false);
    let first: int = if has_items(inv) {
        1
    } else {
        0
    };
    &&& es.len() == first + if has_items(ec) {
        1int
    } else {
        0int
    }
    &&& has_items(inv) ==> player_entry(
        es[0],
        name,
        uuid,
        "Inventory"@,
        inv->0,
        "minecraft:player_head"@,
        jnbt_text(el.inventory->0),
    )
    &&& has_items(ec) ==> player_entry(
        es[first],
        name,
        uuid,
        "Ender Chest"@,
        ec->0,
        "minecraft:ender_chest"@,
        jnbt_text(el.ender_chest->0),
    )
}

fn section(a: &Vec<Json>, remap: bool) -> (r: Vec<Item>)
    ensures
        items_view(r@) == section_items(jsons_view(a@), jsons_view(a@).len() as int, remap),
{
    proof {
        lemma_jsons_view(a@);
    }
    let ghost av = jsons_view(a@);
    let mut out: Vec<Item> = Vec::new();
    let mut i: usize = 0;
    while i < a.len()
        invariant
            i <= a@.len(),
            av == jsons_view(a@),
            av.len() == a@.len(),
            forall|j: int| 0 <= j < a@.len() ==> #[trigger] av[j] == a@[j]@,
            items_view(out@) == section_items(av, i as int, remap),
        decreases a.len() - i,
    {
        let o = match item_from_json(&a[i], 0) {
            Some(it) => {
                let mut it = it;
                if remap {
                    it.slot = remap_inventory_slot(it.slot);
                }
                Some(it)
            },
            None => None,
        };
        push_item(&mut out, o);
        i += 1;
    }
    out
}

fn name_or(v: &Option<Json>, d: &str) -> (r: String)
    ensures
        r@ == str_or(
            match ojv(*v) {
                Some(x) => jstr(x),
                None => None,
            },
            d@,
        ),
{
    match v {
        Some(x) => match jstr_ref(x) {
            Some(s) => s.clone(),
            None => copy_str(d),
        },
        None => copy_str(d),
    }
}

/// The entries of a player element (see `json_players`).
pub fn build_player(el: &RawElement) -> (r: Vec<Entry>)
    ensures
        json_players(r@, el@),
{
    let name = name_or(&el.name, "Unknown");
    let uuid = name_or(&el.uuid, "");
    proof {
        reveal_strlit("");
    }
    assert(uuid@ =~= str_or(
        match el@.uuid {
            Some(v) => jstr(v),
            None => None,
        },
        seq![],
    ));
    let ghost nv = name@;
    let ghost uv = uuid@;
    let ghost inv_s = section_of(el@.inventory, true);
    let ghost ec_s = section_of(el@.ender_chest, false);
    let mut out: Vec<Entry> = Vec::new();
    let inv_items: Option<Vec<Item>> = match &el.inventory {
        Some(Json::Array(a)) => Some(section(a, true)),
        _ => None,
    };
    assert(match inv_items {
        Some(v) => inv_s == Some(items_view(v@)),
        None => inv_s is None,
    });
    if let Some(items) = inv_items {
        proof {
            lemma_items_view_len(items@);
        }
        if items.len() > 0 {
            let mut raw = String::new();
            if let Some(inv) = &el.inventory {
                collect_nbt(inv, &mut raw);
            }
            out.push(
                player_section(
                    name.as_str(),
                    uuid.as_str(),
                    "Inventory",
                    items,
                    "minecraft:player_head",
                    raw.as_str(),
                ),
            );
        }
    }
    let ghost first = out@.len();
    assert(first == if has_items(inv_s) {
        1int
    } else {
        0int
    });
    let ec_items: Option<Vec<Item>> = match &el.ender_chest {
        Some(Json::Array(a)) => Some(section(a, false)),
        _ => None,
    };
    assert(match ec_items {
        Some(v) => ec_s == Some(items_view(v@)),
        None => ec_s is None,
    });
    if let Some(items) = ec_items {
        proof {
            lemma_items_view_len(items@);
        }
        if items.len() > 0 {
            let mut raw = String::new();
            if let Some(ec) = &el.ender_chest {
                collect_nbt(ec, &mut raw);
            }
            out.push(
                player_section(
                    name.as_str(),
                    uuid.as_str(),
                    "Ender Chest",
                    items,
                    "minecraft:ender_chest",
                    raw.as_str(),
                ),
            );
        }
    }
    out
}

} // verus!
