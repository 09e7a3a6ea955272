//! Create-mod contraptions: moving structures whose storages hold items.
//! Each storage with items becomes one container item named after the block
//! at its position; sub-contraptions are searched too, eight levels deep.
use vstd::prelude::*;
use crate::model::{items_view, lemma_items_view_len, lemma_items_view_push, plain_item, Item, ItemView};
use crate::nbt_value::{
    as_i64, as_list, as_str, get, get_spec, int_array, int_array_of, lemma_nbts_view,
    lemma_entries_view, nbts_view, entries_view, nbt_view, opt_int, opt_list, opt_str, opt_view,
    Nbt, NbtV,
};
use crate::parse::nbt::{item_from_nbt, nbt_item, opt_item_view, push_item, push_some};
use crate::text::{copy_str, lowercase, parse_i32, parse_i32_spec, str_eq, to_lower};

verus! {

/// A block position packed into 64 bits (x: 26, z: 26, y: 12 bits), each
/// field read as a signed number.
pub open spec fn sign_ext(u: int, bits: nat) -> int {
    if u >= vstd::arithmetic::power2::pow2((bits - 1) as nat) {
        u - vstd::arithmetic::power2::pow2(bits)
    } else {
        u
    }
}

/// The (x, y, z) that a packed position holds: x in the top 26 bits, z in
/// the next 26, y in the low 12, each sign-extended.
pub open spec fn unpacked(p: i64) -> (i32, i32, i32) {
    let u = (p as u64) as int;
    (
        sign_ext(u / 0x4000000000, 26) as i32,
        sign_ext(u % 0x1000, 12) as i32,
        sign_ext(u / 0x1000 % 0x4000000, 26) as i32,
    )
}

pub fn unpack_pos(p: i64) -> (r: (i32, i32, i32))
    ensures
        r == unpacked(p),
{
    proof {
        vstd::arithmetic::power2::lemma2_to64();
        vstd::arithmetic::power2::lemma2_to64_rest();
    }
    let u: u64 = p as u64;
    let xu: u64 = u / 0x4000000000;
    let yu: u64 = u % 0x1000;
    let zu: u64 = u / 0x1000 % 0x4000000;
    let x: i32 = if xu >= 0x2000000 {
        (xu as i64 - 0x4000000) as i32
    } else {
        xu as i32
    };
    let y: i32 = if yu >= 0x800 {
        (yu as i64 - 0x1000) as i32
    } else {
        yu as i32
    };
    let z: i32 = if zu >= 0x2000000 {
        (zu as i64 - 0x4000000) as i32
    } else {
        zu as i32
    };
    (x, y, z)
}

/// The blocks of a contraption, (position, id) in order; a later entry for
/// the same position wins.
pub open spec fn block_entries(l: Seq<NbtV>, n: int) -> Seq<((i32, i32, i32), Seq<char>)>
    decreases n,
{
    if n <= 0 {
        seq![]
    } else {
        let p = block_entries(l, n - 1);
        let e = l[n - 1];
        match opt_int(get_spec(e, "Pos"@)) {
            Some(pos) => match get_spec(e, "Data"@) {
                Some(d) => match opt_str(get_spec(d, "id"@)) {
                    Some(id) => p.push((unpacked(pos), id)),
                    None => p,
                },
                None => p,
            },
            None => p,
        }
    }
}

pub open spec fn block_list(data: NbtV) -> Seq<((i32, i32, i32), Seq<char>)> {
    match get_spec(data, "Blocks"@) {
        Some(b) => match opt_list(get_spec(b, "BlockList"@)) {
            Some(l) => block_entries(l, l.len() as int),
            None => seq![],
        },
        None => seq![],
    }
}

/// The id last recorded at a position.
pub open spec fn block_at(blocks: Seq<((i32, i32, i32), Seq<char>)>, p: (i32, i32, i32)) -> Option<
    Seq<char>,
>
    decreases blocks.len(),
{
    if blocks.len() == 0 {
        None
    } else if blocks.last().0 == p {
        Some(blocks.last().1)
    } else {
        block_at(blocks.drop_last(), p)
    }
}

/// The block a storage type stands for when its position names none.
pub open spec fn type_block(ty: Seq<char>) -> Seq<char> {
    if ty == "create:vault"@ {
        "create:item_vault"@
    } else if ty == "create:depot"@ {
        "create:depot"@
    } else if ty == "create_connected:fluid_vessel"@ {
        "create_connected:fluid_vessel"@
    } else {
        "minecraft:chest"@
    }
}

pub open spec fn storage_of(st: NbtV) -> Option<NbtV> {
    get_spec(st, "storage"@)
}

pub open spec fn fallback_block(st: NbtV) -> Seq<char> {
    let ty = match storage_of(st) {
        Some(s) => opt_str(get_spec(s, "type"@)),
        None => None,
    };
    match ty {
        Some(t) => type_block(t),
        None => "minecraft:chest"@,
    }
}

/// The (lowercased) id a storage's container gets: the block at its
/// three-number `pos`, else what its storage type stands for.
pub open spec fn storage_block(st: NbtV, blocks: Seq<((i32, i32, i32), Seq<char>)>) -> Seq<char> {
    let at = match get_spec(st, "pos"@) {
        Some(pv) => match int_array_of(pv) {
            Some(p) => if p.len() == 3 {
                block_at(blocks, (p[0], p[1], p[2]))
            } else {
                None
            },
            None => None,
        },
        None => None,
    };
    lowercase(
        match at {
            Some(id) => id,
            None => fallback_block(st),
        },
    )
}

/// The stacks of a storage's `items`: a list of stacks, each in its own
/// `Slot` or else the next place; or a compound of stacks keyed by their
/// slot number.
pub open spec fn stacks_of(items: NbtV, out: Seq<ItemView>) -> Seq<ItemView> {
    match items {
        NbtV::List(l) => listed_stacks(l, l.len() as int, out),
        NbtV::Compound(m) => keyed_stacks(m, m.len() as int, out),
        _ => out,
    }
}

pub open spec fn listed_stacks(l: Seq<NbtV>, n: int, out: Seq<ItemView>) -> Seq<ItemView>
    decreases n,
{
    if n <= 0 {
        out
    } else {
        let p = listed_stacks(l, n - 1, out);
        push_some(p, nbt_item(l[n - 1], #[verifier::truncate] (p.len() as i32)))
    }
}

pub open spec fn keyed_stacks(m: Seq<(Seq<char>, NbtV)>, n: int, out: Seq<ItemView>) -> Seq<
    ItemView,
>
    decreases n,
{
    if n <= 0 {
        out
    } else {
        let p = keyed_stacks(m, n - 1, out);
        let ds = match parse_i32_spec(m[n - 1].0) {
            Some(s) => s,
            None => #[verifier::truncate] (p.len() as i32),
        };
        push_some(p, nbt_item(m[n - 1].1, ds))
    }
}

/// What a storage's value holds: its `items`, or the one stack it is.
pub open spec fn storage_stacks(value: NbtV) -> Seq<ItemView> {
    match get_spec(value, "items"@) {
        Some(items) => stacks_of(items, seq![]),
        None => if get_spec(value, "id"@) is Some {
            push_some(seq![], nbt_item(value, 0))
        } else {
            seq![]
        },
    }
}

/// The container item a storage becomes.
pub open spec fn storage_item(id: Seq<char>, slot: i32, contents: Seq<ItemView>) -> ItemView {
    ItemView { contents, ..plain_item(id, 1, slot) }
}

/// The container items of the storages from `n` on, appended to `out`.
pub open spec fn storages(
    st: Seq<NbtV>,
    n: int,
    blocks: Seq<((i32, i32, i32), Seq<char>)>,
    out: Seq<ItemView>,
) -> Seq<ItemView>
    decreases n,
{
    if n <= 0 {
        out
    } else {
        let p = storages(st, n - 1, blocks, out);
        let s = st[n - 1];
        match storage_of(s) {
            Some(sv) => match get_spec(sv, "value"@) {
                Some(value) => {
                    let contents = storage_stacks(value);
                    if contents.len() == 0 {
                        p
                    } else {
                        p.push(
                            storage_item(
                                storage_block(s, blocks),
                                #[verifier::truncate] (p.len() as i32),
                                contents,
                            ),
                        )
                    }
                },
                None => p,
            },
            None => p,
        }
    }
}

/// A value that looks like contraption data.
pub open spec fn is_contraption(v: NbtV) -> bool {
    get_spec(v, "items"@) is Some || get_spec(v, "Blocks"@) is Some
}

/// The contraption data of a sub-contraption entry: the entry itself, or
/// what it holds under `contraption`, `Contraption` or `data`.
pub open spec fn sub_data(sub: NbtV) -> Option<NbtV> {
    if is_contraption(sub) {
        Some(sub)
    } else {
        match under_contraption(sub, "contraption"@) {
            Some(d) => Some(d),
            None => match under_contraption(sub, "Contraption"@) {
                Some(d) => Some(d),
                None => under_contraption(sub, "data"@),
            },
        }
    }
}

/// The value under `k`, when it looks like contraption data.
pub open spec fn under_contraption(sub: NbtV, k: Seq<char>) -> Option<NbtV> {
    match get_spec(sub, k) {
        Some(d) => if is_contraption(d) {
            Some(d)
        } else {
            None
        },
        None => None,
    }
}

/// The container items of a contraption at nesting `depth`, appended to
/// `out`: its storages, then those of its sub-contraptions; nothing below
/// depth 8.
pub open spec fn process(data: NbtV, out: Seq<ItemView>, depth: int) -> Seq<ItemView>
    decreases 9 - depth, 2int, 0int,
{
    if depth > 8 || depth < 0 {
        out
    } else {
        let out1 = match opt_list(get_spec(data, "items"@)) {
            Some(st) => storages(st, st.len() as int, block_list(data), out),
            None => out,
        };
        match opt_list(get_spec(data, "SubContraptions"@)) {
            Some(subs) => process_subs(subs, 0, out1, depth),
            None => out1,
        }
    }
}

pub open spec fn process_subs(subs: Seq<NbtV>, i: int, out: Seq<ItemView>, depth: int) -> Seq<
    ItemView,
>
    decreases 9 - depth, 1int, subs.len() - i,
{
    if 0 <= i < subs.len() && 0 <= depth <= 8 {
        let out2 = match sub_data(subs[i]) {
            Some(sd) => process(sd, out, depth + 1),
            None => out,
        };
        process_subs(subs, i + 1, out2, depth)
    } else {
        out
    }
}

fn push_block(blocks: &mut Vec<((i32, i32, i32), String)>, e: &Nbt)
    ensures
        blocks_view(final(blocks)@) == match opt_int(get_spec(e@, "Pos"@)) {
            Some(pos) => match get_spec(e@, "Data"@) {
                Some(d) => match opt_str(get_spec(d, "id"@)) {
                    Some(id) => blocks_view(old(blocks)@).push((unpacked(pos), id)),
                    None => blocks_view(old(blocks)@),
                },
                None => blocks_view(old(blocks)@),
            },
            None => blocks_view(old(blocks)@),
        },
{
    let pos = match get(e, "Pos") {
        Some(x) => match as_i64(x) {
            Some(p) => p,
            None => {
                return;
            },
        },
        None => {
            return;
        },
    };
    let d = match get(e, "Data") {
        Some(d) => d,
        None => {
            return;
        },
    };
    let id = match get(d, "id") {
        Some(x) => match as_str(x) {
            Some(s) => s,
            None => {
                return;
            },
        },
        None => {
            return;
        },
    };
    let p = unpack_pos(pos);
    blocks.push((p, copy_str(id.as_str())));
    proof {
        assert(blocks_view(blocks@) =~= blocks_view(old(blocks)@).push((unpacked(pos), id@)));
    }
}

pub open spec fn blocks_view(s: Seq<((i32, i32, i32), String)>) -> Seq<((i32, i32, i32), Seq<char>)> {
    s.map_values(|b: ((i32, i32, i32), String)| (b.0, b.1@))
}

fn block_positions(data: &Nbt) -> (r: Vec<((i32, i32, i32), String)>)
    ensures
        blocks_view(r@) == block_list(data@),
{
    let mut map: Vec<((i32, i32, i32), String)> = Vec::new();
    let b = match get(data, "Blocks") {
        Some(b) => b,
        None => {
            assert(blocks_view(map@) =~= seq![]);
            return map;
        },
    };
    let list = match get(b, "BlockList") {
        Some(x) => match as_list(x) {
            Some(l) => l,
            None => {
                assert(blocks_view(map@) =~= seq![]);
                return map;
            },
        },
        None => {
            assert(blocks_view(map@) =~= seq![]);
            return map;
        },
    };
    proof {
        lemma_nbts_view(list@);
    }
    let ghost lv = nbts_view(list@);
    let mut i: usize = 0;
    assert(blocks_view(map@) =~= block_entries(lv, 0));
    while i < list.len()
        invariant
            lv == nbts_view(list@),
            lv.len() == list@.len(),
            forall|k: int| 0 <= k < list@.len() ==> #[trigger] lv[k] == list@[k]@,
            i <= list@.len(),
            blocks_view(map@) == block_entries(lv, i as int),
        decreases list.len() - i,
    {
        push_block(&mut map, &list[i]);
        i += 1;
    }
    map
}

fn find_block(blocks: &Vec<((i32, i32, i32), String)>, p: (i32, i32, i32)) -> (r: Option<String>)
    ensures
        match r {
            Some(s) => block_at(blocks_view(blocks@), p) == Some(s@),
            None => block_at(blocks_view(blocks@), p) is None,
        },
{
    let ghost bv = blocks_view(blocks@);
    let mut i: usize = blocks.len();
    assert(bv.take(bv.len() as int) =~= bv);
    while i > 0
        invariant
            bv == blocks_view(blocks@),
            i <= blocks@.len(),
            block_at(bv, p) == block_at(bv.take(i as int), p),
        decreases i,
    {
        assert(bv.take(i as int).drop_last() =~= bv.take(i - 1));
        let e = &blocks[i - 1];
        if (e.0).0 == p.0 && (e.0).1 == p.1 && (e.0).2 == p.2 {
            return Some(copy_str(e.1.as_str()));
        }
        i -= 1;
    }
    None
}

fn type_block_str(ty: &str) -> (r: String)
    ensures
        r@ == type_block(ty@),
{
    proof {
        reveal_strlit("create:vault");
        reveal_strlit("create:item_vault");
        reveal_strlit("create:depot");
        reveal_strlit("create_connected:fluid_vessel");
        reveal_strlit("minecraft:chest");
    }
    if str_eq(ty, "create:vault") {
        String::from_str("create:item_vault")
    } else if str_eq(ty, "create:depot") {
        String::from_str("create:depot")
    } else if str_eq(ty, "create_connected:fluid_vessel") {
        String::from_str("create_connected:fluid_vessel")
    } else {
        String::from_str("minecraft:chest")
    }
}

fn storage_block_id(st: &Nbt, blocks: &Vec<((i32, i32, i32), String)>) -> (r: String)
    ensures
        r@ == storage_block(st@, blocks_view(blocks@)),
{
    let mut at: Option<String> = None;
    if let Some(pv) = get(st, "pos") {
        if let Some(p) = int_array(pv) {
            if p.len() == 3 {
                at = find_block(blocks, (p[0], p[1], p[2]));
            }
        }
    }
    let name = match at {
        Some(id) => id,
        None => {
            let ty = match get(st, "storage") {
                Some(s) => match get(s, "type") {
                    Some(t) => as_str(t),
                    None => None,
                },
                None => None,
            };
            match ty {
                Some(t) => type_block_str(t.as_str()),
                None => {
                    proof {
                        reveal_strlit("minecraft:chest");
                    }
                    String::from_str("minecraft:chest")
                },
            }
        },
    };
    to_lower(name.as_str())
}

fn len_i32(out: &Vec<Item>) -> (r: i32)
    ensures
        r == #[verifier::truncate] (items_view(out@).len() as i32),
{
    proof {
        lemma_items_view_len(out@);
    }
    #[verifier::truncate] (out.len() as i32)
}

/// Appends the stacks of a storage's `items` (see `stacks_of`).
pub fn push_items(items: &Nbt, out: &mut Vec<Item>)
    ensures
        items_view(final(out)@) == stacks_of(items@, items_view(old(out)@)),
{
    match items {
        Nbt::List(l) => {
            proof {
                lemma_nbts_view(l@);
            }
            let ghost lv = nbts_view(l@);
            let ghost o = items_view(out@);
            assert(items@ == NbtV::List(lv));
            let mut i: usize = 0;
            while i < l.len()
                invariant
                    lv == nbts_view(l@),
                    lv.len() == l@.len(),
                    forall|k: int| 0 <= k < l@.len() ==> #[trigger] lv[k] == l@[k]@,
                    i <= l@.len(),
                    items_view(out@) == listed_stacks(lv, i as int, o),
                decreases l.len() - i,
            {
                let ds = len_i32(out);
                let it = item_from_nbt(&l[i], ds);
                push_item(out, it);
                i += 1;
            }
        },
        Nbt::Compound(m) => {
            proof {
                lemma_entries_view(m@);
            }
            let ghost mv = entries_view(m@);
            let ghost o = items_view(out@);
            assert(items@ == NbtV::Compound(mv));
            let mut i: usize = 0;
            while i < m.len()
                invariant
                    mv == entries_view(m@),
                    mv.len() == m@.len(),
                    forall|k: int|
                        0 <= k < m@.len() ==> #[trigger] mv[k] == (m@[k].0@, nbt_view(m@[k].1)),
                    i <= m@.len(),
                    items_view(out@) == keyed_stacks(mv, i as int, o),
                decreases m.len() - i,
            {
                let ds = match parse_i32(m[i].0.as_str()) {
                    Some(s) => s,
                    None => len_i32(out),
                };
                let it = item_from_nbt(&m[i].1, ds);
                push_item(out, it);
                i += 1;
            }
        },
        _ => {},
    }
}

fn storage_items(value: &Nbt) -> (r: Vec<Item>)
    ensures
        items_view(r@) == storage_stacks(value@),
{
    let mut out: Vec<Item> = Vec::new();
    proof {
        assert(items_view(out@) =~= seq![]);
    }
    if let Some(items) = get(value, "items") {
        push_items(items, &mut out);
    } else if get(value, "id").is_some() {
        let it = item_from_nbt(value, 0);
        push_item(&mut out, it);
    }
    out
}

fn push_storages(
    st: &Vec<Nbt>,
    blocks: &Vec<((i32, i32, i32), String)>,
    out: &mut Vec<Item>,
)
    ensures
        items_view(final(out)@) == storages(
            nbts_view(st@),
            st@.len() as int,
            blocks_view(blocks@),
            items_view(old(out)@),
        ),
{
    proof {
        lemma_nbts_view(st@);
    }
    let ghost sv = nbts_view(st@);
    let ghost o = items_view(out@);
    let ghost bv = blocks_view(blocks@);
    let mut i: usize = 0;
    while i < st.len()
        invariant
            sv == nbts_view(st@),
            sv.len() == st@.len(),
            forall|k: int| 0 <= k < st@.len() ==> #[trigger] sv[k] == st@[k]@,
            bv == blocks_view(blocks@),
            i <= st@.len(),
            items_view(out@) == storages(sv, i as int, bv, o),
        decreases st.len() - i,
    {
        let s = &st[i];
        let value = match get(s, "storage") {
            Some(x) => get(x, "value"),
            None => None,
        };
        if let Some(v) = value {
            let contents = storage_items(v);
            if contents.len() > 0 {
                let id = storage_block_id(s, blocks);
                let slot = len_i32(out);
                let mut it = Item::plain(id, 1, slot);
                it.contents = contents;
                proof {
                    lemma_items_view_len(contents@);
                    assert(it@ =~= storage_item(storage_block(sv[i as int], bv), slot, items_view(
                        contents@,
                    )));
                    lemma_items_view_push(out@, it);
                }
                out.push(it);
            } else {
                proof {
                    lemma_items_view_len(contents@);
                }
            }
        }
        i += 1;
    }
}

fn is_contraption_value(v: &Nbt) -> (r: bool)
    ensures
        r == is_contraption(v@),
{
    get(v, "items").is_some() || get(v, "Blocks").is_some()
}

fn sub_contraption_data(sub: &Nbt) -> (r: Option<&Nbt>)
    ensures
        opt_view(r) == sub_data(sub@),
{
    if is_contraption_value(sub) {
        return Some(sub);
    }
    if let Some(d) = get(sub, "contraption") {
        if is_contraption_value(d) {
            return Some(d);
        }
    }
    if let Some(d) = get(sub, "Contraption") {
        if is_contraption_value(d) {
            return Some(d);
        }
    }
    if let Some(d) = get(sub, "data") {
        if is_contraption_value(d) {
            return Some(d);
        }
    }
    None
}

fn process_at(data: &Nbt, out: &mut Vec<Item>, depth: u8)
    requires
        depth <= 9,
    ensures
        items_view(final(out)@) == process(data@, items_view(old(out)@), depth as int),
    decreases 9 - depth, 2int, 0int,
{
    if depth > 8 {
        return;
    }
    let blocks = block_positions(data);
    if let Some(x) = get(data, "items") {
        if let Some(st) = as_list(x) {
            proof {
                lemma_nbts_view(st@);
            }
            push_storages(st, &blocks, out);
        }
    }
    if let Some(x) = get(data, "SubContraptions") {
        if let Some(subs) = as_list(x) {
            process_list(subs, out, depth);
        }
    }
}

fn process_list(subs: &Vec<Nbt>, out: &mut Vec<Item>, depth: u8)
    requires
        depth <= 8,
    ensures
        items_view(final(out)@) == process_subs(
            nbts_view(subs@),
            0,
            items_view(old(out)@),
            depth as int,
        ),
    decreases 9 - depth, 1int, 0int,
{
    proof {
        lemma_nbts_view(subs@);
    }
    let ghost sv = nbts_view(subs@);
    let ghost o = items_view(out@);
    let mut i: usize = 0;
    while i < subs.len()
        invariant
            sv == nbts_view(subs@),
            sv.len() == subs@.len(),
            forall|k: int| 0 <= k < subs@.len() ==> #[trigger] sv[k] == subs@[k]@,
            i <= subs@.len(),
            depth <= 8,
            process_subs(sv, 0, o, depth as int) == process_subs(
                sv,
                i as int,
                items_view(out@),
                depth as int,
            ),
        decreases subs.len() - i,
    {
        if let Some(sd) = sub_contraption_data(&subs[i]) {
            process_at(sd, out, depth + 1);
        }
        i += 1;
    }
}

/// Appends the container items of a contraption and its sub-contraptions
/// (see `process`).
pub fn extract(data: &Nbt, out: &mut Vec<Item>)
    ensures
        items_view(final(out)@) == process(data@, items_view(old(out)@), 0),
{
    process_at(data, out, 0);
}

} // verus!
