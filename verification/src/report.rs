//! The one-line summary of a loaded file that the command line prints.
use vstd::prelude::*;
use crate::model::{items_view, lemma_items_view_index, lemma_items_view_len, player_head_id, Entry, EntryView, ItemView};

verus! {

/// Counts over the loaded entries. Counts stop growing at `u64::MAX`.
#[derive(Debug)]
pub struct Summary {
    pub entries: u64,
    pub items: u64,
    pub with_enchants: u64,
    /// The highest enchantment level of any entry, 0 when there is none.
    pub max_level: i32,
    /// Top-level items that hold other items.
    pub nested: u64,
    /// Top-level items that are player heads with a skin or an owner.
    pub heads: u64,
    /// Top-level items with an inline skin.
    pub head_skins: u64,
}

pub open spec fn sat(x: int) -> u64 {
    if x > u64::MAX {
        u64::MAX
    } else if x < 0 {
        0
    } else {
        x as u64
    }
}

/// An item is a player head whose skin can be found.
pub open spec fn has_head_key(it: ItemView) -> bool {
    player_head_id(it.id) && (it.head_skin is Some || it.head_ref is Some)
}

/// Among the first `n` items: how many hold items, how many are player
/// heads with a key, how many carry an inline skin.
pub open spec fn item_counts(s: Seq<ItemView>, n: int) -> (int, int, int)
    decreases n,
{
    if n <= 0 {
        (0, 0, 0)
    } else {
        let p = item_counts(s, n - 1);
        let it = s[n - 1];
        (
            p.0 + if it.contents.len() > 0 {
                1int
            } else {
                0
            },
            p.1 + if has_head_key(it) {
                1int
            } else {
                0
            },
            p.2 + if it.head_skin is Some {
                1int
            } else {
                0
            },
        )
    }
}

/// The highest level among the first `n` enchantments, after `m`.
pub open spec fn level_max(s: Seq<(Seq<char>, i32)>, n: int, m: Option<i32>) -> Option<i32>
    decreases n,
{
    if n <= 0 {
        m
    } else {
        let p = level_max(s, n - 1, m);
        let l = s[n - 1].1;
        match p {
            Some(x) => if l > x {
                Some(l)
            } else {
                Some(x)
            },
            None => Some(l),
        }
    }
}

/// Over the first `n` entries: items, entries with enchantments, highest
/// level, nested items, heads, inline skins.
pub open spec fn totals(es: Seq<EntryView>, n: int) -> (int, int, Option<i32>, int, int, int)
    decreases n,
{
    if n <= 0 {
        (0, 0, None, 0, 0, 0)
    } else {
        let p = totals(es, n - 1);
        let e = es[n - 1];
        let c = item_counts(e.items, e.items.len() as int);
        (
            p.0 + e.items.len(),
            p.1 + if e.all_enchants.len() > 0 {
                1int
            } else {
                0
            },
            level_max(e.all_enchants, e.all_enchants.len() as int, p.2),
            p.3 + c.0,
            p.4 + c.1,
            p.5 + c.2,
        )
    }
}

proof fn lemma_item_counts_nonneg(s: Seq<ItemView>, n: int)
    ensures
        item_counts(s, n).0 >= 0,
        item_counts(s, n).1 >= 0,
        item_counts(s, n).2 >= 0,
    decreases n,
{
    if n > 0 {
        lemma_item_counts_nonneg(s, n - 1);
    }
}

proof fn lemma_totals_nonneg(es: Seq<EntryView>, n: int)
    ensures
        totals(es, n).0 >= 0,
        totals(es, n).1 >= 0,
        totals(es, n).3 >= 0,
        totals(es, n).4 >= 0,
        totals(es, n).5 >= 0,
    decreases n,
{
    if n > 0 {
        lemma_totals_nonneg(es, n - 1);
        let e = es[n - 1];
        lemma_item_counts_nonneg(e.items, e.items.len() as int);
    }
}

pub open spec fn entry_views(s: Seq<Entry>) -> Seq<EntryView> {
    s.map_values(|e: Entry| e@)
}

/// The summary of the loaded entries.
pub fn summarize(entries: &[Entry]) -> (r: Summary)
    ensures
        ({
            let t = totals(entry_views(entries@), entries@.len() as int);
            &&& r.entries == sat(entries@.len() as int)
            &&& r.items == sat(t.0)
            &&& r.with_enchants == sat(t.1)
            &&& r.max_level == match t.2 {
                Some(m) => m,
                None => 0,
            }
            &&& r.nested == sat(t.3)
            &&& r.heads == sat(t.4)
            &&& r.head_skins == sat(t.5)
        }),
{
    let ghost es = entry_views(entries@);
    let mut items: u64 = 0;
    let mut with_ench: u64 = 0;
    let mut max: Option<i32> = None;
    let mut nested: u64 = 0;
    let mut heads: u64 = 0;
    let mut skins: u64 = 0;
    let mut i: usize = 0;
    while i < entries.len()
        invariant
            es == entry_views(entries@),
            es.len() == entries@.len(),
            i <= entries@.len(),
            ({
                let t = totals(es, i as int);
                &&& items == sat(t.0)
                &&& with_ench == sat(t.1)
                &&& max == t.2
                &&& nested == sat(t.3)
                &&& heads == sat(t.4)
                &&& skins == sat(t.5)
            }),
        decreases entries.len() - i,
    {
        let e = &entries[i];
        assert(es[i as int] == e@);
        proof {
            lemma_totals_nonneg(es, i as int);
            lemma_items_view_len(e.items@);
        }
        items = items.saturating_add(e.items.len() as u64);
        if e.all_enchants.len() > 0 {
            with_ench = with_ench.saturating_add(1);
        }
        let mut k: usize = 0;
        let ghost m0 = max;
        while k < e.all_enchants.len()
            invariant
                k <= e.all_enchants@.len(),
                e@.all_enchants.len() == e.all_enchants@.len(),
                forall|j: int| 0 <= j < e.all_enchants@.len() ==> #[trigger] e@.all_enchants[j].1 == e.all_enchants@[j].1,
                max == level_max(e@.all_enchants, k as int, m0),
            decreases e.all_enchants.len() - k,
        {
            let l = e.all_enchants[k].1;
            max = match max {
                Some(x) => if l > x {
                    Some(l)
                } else {
                    Some(x)
                },
                None => Some(l),
            };
            k += 1;
        }
        let ghost iv = e@.items;
        let mut c0: u64 = 0;
        let mut c1: u64 = 0;
        let mut c2: u64 = 0;
        let mut j: usize = 0;
        while j < e.items.len()
            invariant
                iv == items_view(e.items@),
                iv.len() == e.items@.len(),
                j <= e.items@.len(),
                ({
                    let c = item_counts(iv, j as int);
                    &&& c0 == c.0
                    &&& c1 == c.1
                    &&& c2 == c.2
                }),
                c0 <= j,
                c1 <= j,
                c2 <= j,
            decreases e.items.len() - j,
        {
            let it = &e.items[j];
            proof {
                lemma_items_view_index(e.items@, j as int);
                lemma_items_view_len(it.contents@);
            }
            if it.contents.len() > 0 {
                c0 += 1;
            }
            if it.head_key().is_some() {
                c1 += 1;
            }
            if it.head_skin.is_some() {
                c2 += 1;
            }
            j += 1;
        }
        proof {
            lemma_item_counts_nonneg(iv, iv.len() as int);
        }
        nested = nested.saturating_add(c0);
        heads = heads.saturating_add(c1);
        skins = skins.saturating_add(c2);
        i += 1;
    }
    let n = entries.len() as u64;
    Summary {
        entries: n,
        items,
        with_enchants: with_ench,
        max_level: match max {
            Some(m) => m,
            None => 0,
        },
        nested,
        heads,
        head_skins: skins,
    }
}

} // verus!
