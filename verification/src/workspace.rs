//! The files a viewer has open and what its search shows of them. Opening a
//! file is the application's part: `add_source` says which file to open,
//! and `on_loaded` takes what came of it.
use vstd::prelude::*;
use crate::display::{filename, last_component, Mode};
use crate::model::{copy_items, items_view, EntryView, Item, ItemView};
use crate::search::{Compiled, Filters};
use crate::store::{entries_view, lemma_username_applied, unclaimed, username_applied, Store};
use crate::text::{copy_str, int_text, int_to_string, push_str, str_eq};

verus! {

/// An open file.
pub struct Source {
    pub id: u64,
    pub name: String,
    pub path: String,
    pub mode: Mode,
    pub enabled: bool,
    pub loading: bool,
    pub error: Option<String>,
    pub store: Option<Store>,
}

/// The open files, the search hits as (file, entry) positions, the items of
/// the backpacks held in memory by uuid, and the status line.
pub struct Workspace {
    pub sources: Vec<Source>,
    pub filtered: Vec<(usize, usize)>,
    pub bp_index: Vec<(String, Vec<Item>)>,
    pub next_id: u64,
    pub status: String,
}

/// Every open store is well formed.
pub open spec fn stores_wf(s: Seq<Source>) -> bool {
    forall|i: int| 0 <= i < s.len() ==> store_ok(#[trigger] s[i])
}

pub open spec fn store_ok(x: Source) -> bool {
    match x.store {
        Some(st) => st.wf(),
        None => true,
    }
}

/// A file after its store (if any) gave the name `name` to the unnamed
/// owners of `uuid`; nothing else changes.
pub open spec fn renamed_source(a: Source, b: Source, uuid: Seq<char>, name: Seq<char>) -> bool {
    &&& b.id == a.id
    &&& b.name == a.name
    &&& b.path == a.path
    &&& b.mode == a.mode
    &&& b.enabled == a.enabled
    &&& b.loading == a.loading
    &&& b.error == a.error
    &&& match (a.store, b.store) {
        (Some(x), Some(y)) => username_applied(x, y, uuid, name),
        (None, None) => true,
        _ => false,
    }
}

/// The file's store has an entry of `uuid` whose owner is not named yet.
pub open spec fn names_someone(x: Source, uuid: Seq<char>) -> bool {
    match x.store {
        Some(st) => exists|j: int|
            0 <= j < st.summaries().len() && (#[trigger] st.summaries()[j]).uuid@ == uuid
                && unclaimed(st.summaries()[j].owner@),
        None => false,
    }
}

/// The search hits among the first `n` files: for each enabled file with a
/// store, the entries its store lets pass, in order.
pub open spec fn hits(s: Seq<Source>, c: &Compiled, n: int) -> Seq<(usize, usize)>
    decreases n,
{
    if n <= 0 {
        seq![]
    } else {
        let p = hits(s, c, n - 1);
        match s[n - 1].store {
            Some(st) => if s[n - 1].enabled {
                p + st.passing(c, st.summaries().len() as int).map_values(
                    |e: u32| ((n - 1) as usize, e as usize),
                )
            } else {
                p
            },
            None => p,
        }
    }
}

/// How many entries the first `n` enabled files with a store hold.
pub open spec fn total(s: Seq<Source>, n: int) -> int
    decreases n,
{
    if n <= 0 {
        0
    } else {
        total(s, n - 1) + match s[n - 1].store {
            Some(st) => if s[n - 1].enabled {
                st.summaries().len() as int
            } else {
                0
            },
            None => 0,
        }
    }
}

/// The status line after a search.
pub open spec fn shown_text(n: int, t: int) -> Seq<char> {
    int_text(n) + " of "@ + int_text(t) + " shown"@
}

/// The backpack index over the first `n` files: each entry held in memory by
/// an enabled file, with a uuid and items, gives its uuid's items unless an
/// earlier one did.
pub open spec fn bp_entries(s: Seq<Source>, n: int) -> Seq<(Seq<char>, Seq<ItemView>)>
    decreases n,
{
    if n <= 0 {
        seq![]
    } else {
        let p = bp_entries(s, n - 1);
        match s[n - 1].store {
            Some(st) => if s[n - 1].enabled {
                match st.held() {
                    Some(es) => bp_add(p, es, es.len() as int),
                    None => p,
                }
            } else {
                p
            },
            None => p,
        }
    }
}

/// `p` with the first `n` entries of `es` added (first uuid wins).
pub open spec fn bp_add(p: Seq<(Seq<char>, Seq<ItemView>)>, es: Seq<EntryView>, n: int) -> Seq<
    (Seq<char>, Seq<ItemView>),
>
    decreases n,
{
    if n <= 0 {
        p
    } else {
        let q = bp_add(p, es, n - 1);
        let e = es[n - 1];
        if e.uuid.len() > 0 && e.items.len() > 0 && !has_key(q, e.uuid) {
            q.push((e.uuid, e.items))
        } else {
            q
        }
    }
}

pub open spec fn has_key(p: Seq<(Seq<char>, Seq<ItemView>)>, k: Seq<char>) -> bool {
    exists|i: int| 0 <= i < p.len() && (#[trigger] p[i]).0 == k
}

pub open spec fn index_view(b: Seq<(String, Vec<Item>)>) -> Seq<(Seq<char>, Seq<ItemView>)> {
    b.map_values(|p: (String, Vec<Item>)| (p.0@, items_view(p.1@)))
}

pub open spec fn paths(s: Seq<Source>) -> Seq<Seq<char>> {
    s.map_values(|x: Source| x.path@)
}

impl Workspace {
    /// Nothing open.
    pub fn new() -> (r: Workspace)
        ensures
            r.sources@.len() == 0,
            r.filtered@.len() == 0,
            r.bp_index@.len() == 0,
            r.next_id == 0,
            r.status@.len() == 0,
    {
        Workspace {
            sources: Vec::new(),
            filtered: Vec::new(),
            bp_index: Vec::new(),
            next_id: 0,
            status: String::new(),
        }
    }

    /// Adds a file to open, unless it is open already; gives the number the
    /// file's result is to be handed back under.
    pub fn add_source(&mut self, path: String, mode: Mode, enabled: bool) -> (r: Option<u64>)
        requires
            old(self).next_id < u64::MAX,
            stores_wf(old(self).sources@),
        ensures
            stores_wf(final(self).sources@),
            paths(old(self).sources@).contains(path@) ==> r is None && final(self).sources@
                == old(self).sources@ && final(self).next_id == old(self).next_id,
            !paths(old(self).sources@).contains(path@) ==> r == Some(old(self).next_id)
                && final(self).next_id == old(self).next_id + 1 && final(self).sources@.len()
                == old(self).sources@.len() + 1 && final(self).sources@.take(
                old(self).sources@.len() as int,
            ) == old(self).sources@ && ({
                let s = final(self).sources@.last();
                &&& s.id == old(self).next_id
                &&& s.path@ == path@
                &&& s.name@ == last_component(path@)
                &&& s.mode == mode
                &&& s.enabled == enabled
                &&& s.loading
                &&& s.error is None
                &&& s.store is None
            }),
            final(self).filtered@ == old(self).filtered@,
            final(self).bp_index@ == old(self).bp_index@,
    {
        let mut i: usize = 0;
        while i < self.sources.len()
            invariant
                self.sources@ == old(self).sources@,
                stores_wf(self.sources@),
                i <= self.sources@.len(),
                forall|j: int| 0 <= j < i ==> (#[trigger] self.sources@[j]).path@ != path@,
            decreases self.sources.len() - i,
        {
            if str_eq(self.sources[i].path.as_str(), path.as_str()) {
                assert(paths(self.sources@)[i as int] == path@);
                return None;
            }
            i += 1;
        }
        assert(!paths(self.sources@).contains(path@)) by {
            if paths(self.sources@).contains(path@) {
                let j = choose|j: int| 0 <= j < paths(self.sources@).len() && paths(self.sources@)[j] == path@;
                assert(self.sources@[j].path@ == path@);
            }
        }
        let id = self.next_id;
        self.next_id = id + 1;
        let name = filename(path.as_str());
        self.sources.push(
            Source { id, name, path, mode, enabled, loading: true, error: None, store: None },
        );
        assert(self.sources@.take(old(self).sources@.len() as int) =~= old(self).sources@);
        Some(id)
    }

    /// Takes what came of opening the file with the number `id`: it is no
    /// longer loading, and holds the store or the error (an earlier store
    /// stays on an error). Says whether such a file is open.
    pub fn on_loaded(&mut self, id: u64, res: Result<Store, String>) -> (r: bool)
        requires
            stores_wf(old(self).sources@),
            res matches Ok(st) ==> st.wf(),
        ensures
            stores_wf(final(self).sources@),
            final(self).sources@.len() == old(self).sources@.len(),
            r == exists|i: int| 0 <= i < old(self).sources@.len() && (#[trigger] old(self).sources@[i]).id == id,
            forall|i: int| 0 <= i < old(self).sources@.len() ==> {
                let a = old(self).sources@[i];
                let b = #[trigger] final(self).sources@[i];
                &&& b.id == a.id
                &&& b.path == a.path
                &&& b.name == a.name
                &&& b.mode == a.mode
                &&& b.enabled == a.enabled
                &&& (a.id != id || exists|k: int| 0 <= k < i && old(self).sources@[k].id == id) ==> b
                    == a
            },
            forall|i: int|
                0 <= i < old(self).sources@.len() && old(self).sources@[i].id == id && (forall|k: int|
                    0 <= k < i ==> (#[trigger] old(self).sources@[k]).id != id) ==> {
                    let b = final(self).sources@[i];
                    &&& !b.loading
                    &&& match res {
                        Ok(st) => b.store == Some(st) && b.error is None,
                        Err(e) => b.error == Some(e) && b.store == old(self).sources@[i].store,
                    }
                },
            final(self).filtered@ == old(self).filtered@,
            final(self).bp_index@ == old(self).bp_index@,
    {
        let mut i: usize = 0;
        while i < self.sources.len()
            invariant
                self.sources@ == old(self).sources@,
                self.filtered@ == old(self).filtered@,
                self.bp_index@ == old(self).bp_index@,
                stores_wf(self.sources@),
                res matches Ok(st) ==> st.wf(),
                i <= self.sources@.len(),
                forall|k: int| 0 <= k < i ==> (#[trigger] self.sources@[k]).id != id,
            decreases self.sources.len() - i,
        {
            if self.sources[i].id == id {
                let ghost before = self.sources@;
                let mut s = self.sources.remove(i);
                s.loading = false;
                match res {
                    Ok(st) => {
                        s.store = Some(st);
                        s.error = None;
                    },
                    Err(e) => {
                        s.error = Some(e);
                    },
                }
                self.sources.insert(i, s);
                assert(self.sources@ =~= before.update(i as int, s));
                assert forall|j: int| 0 <= j < self.sources@.len() implies store_ok(
                    #[trigger] self.sources@[j],
                ) by {
                    if j != i {
                        assert(self.sources@[j] == before[j]);
                    }
                }
                return true;
            }
            i += 1;
        }
        false
    }

    /// Gives the name `name` to the unnamed owners of `uuid` in every open
    /// store; says whether any store changed.
    pub fn apply_username(&mut self, uuid: &str, name: &str) -> (r: bool)
        requires
            stores_wf(old(self).sources@),
        ensures
            stores_wf(final(self).sources@),
            final(self).sources@.len() == old(self).sources@.len(),
            r == exists|i: int|
                0 <= i < old(self).sources@.len() && names_someone(
                    #[trigger] old(self).sources@[i],
                    uuid@,
                ),
            forall|i: int| 0 <= i < old(self).sources@.len() ==> renamed_source(
                #[trigger] old(self).sources@[i],
                final(self).sources@[i],
                uuid@,
                name@,
            ),
            final(self).filtered@ == old(self).filtered@,
            final(self).bp_index@ == old(self).bp_index@,
    {
        let mut changed = false;
        let mut i: usize = 0;
        let n = self.sources.len();
        while i < n
            invariant
                n == self.sources@.len(),
                n == old(self).sources@.len(),
                i <= n,
                stores_wf(self.sources@),
                forall|j: int| i <= j < n ==> #[trigger] self.sources@[j] == old(self).sources@[j],
                changed == exists|a: int|
                    0 <= a < i && names_someone(#[trigger] old(self).sources@[a], uuid@),
                forall|a: int| 0 <= a < i ==> renamed_source(
                    #[trigger] old(self).sources@[a],
                    self.sources@[a],
                    uuid@,
                    name@,
                ),
                self.filtered@ == old(self).filtered@,
                self.bp_index@ == old(self).bp_index@,
            decreases n - i,
        {
            let ghost before = self.sources@;
            let mut s = self.sources.remove(i);
            if let Some(mut st) = s.store {
                let ghost st0 = st;
                let hit = st.apply_username(uuid, name);
                proof {
                    lemma_username_applied(st0, st, uuid@, name@, hit);
                }
                if hit {
                    changed = true;
                }
                s.store = Some(st);
            }
            self.sources.insert(i, s);
            assert forall|j: int| 0 <= j < self.sources@.len() implies store_ok(
                #[trigger] self.sources@[j],
            ) by {
                if j != i {
                    assert(self.sources@[j] == before[j]);
                }
            }
            assert(renamed_source(old(self).sources@[i as int], self.sources@[i as int], uuid@, name@));
            i += 1;
        }
        changed
    }

    /// Rebuilds the index of backpack items by uuid (see `bp_entries`).
    pub fn rebuild_bp_index(&mut self)
        requires
            stores_wf(old(self).sources@),
        ensures
            index_view(final(self).bp_index@) == bp_entries(
                old(self).sources@,
                old(self).sources@.len() as int,
            ),
            final(self).sources@ == old(self).sources@,
            final(self).filtered@ == old(self).filtered@,
    {
        let mut index: Vec<(String, Vec<Item>)> = Vec::new();
        let mut i: usize = 0;
        assert(index_view(index@) =~= bp_entries(self.sources@, 0));
        while i < self.sources.len()
            invariant
                self.sources@ == old(self).sources@,
                self.filtered@ == old(self).filtered@,
                i <= self.sources@.len(),
                index_view(index@) == bp_entries(self.sources@, i as int),
            decreases self.sources.len() - i,
        {
            let s = &self.sources[i];
            if s.enabled {
                if let Some(st) = &s.store {
                    let es = st.mem_entries();
                    let ghost p = index_view(index@);
                    let mut k: usize = 0;
                    proof {
                        if st.held() is None {
                            assert(es@.len() == 0);
                        }
                    }
                    let ghost ev = entries_view(es@);
                    while k < es.len()
                        invariant
                            ev == entries_view(es@),
                            ev.len() == es@.len(),
                            k <= es@.len(),
                            index_view(index@) == bp_add(p, ev, k as int),
                        decreases es.len() - k,
                    {
                        let e = &es[k];
                        assert(ev[k as int] == e@);
                        if e.uuid.as_str().unicode_len() > 0 && e.items.len() > 0 {
                            let mut found = false;
                            let mut j: usize = 0;
                            let ghost q = index_view(index@);
                            while j < index.len()
                                invariant
                                    q == index_view(index@),
                                    j <= index@.len(),
                                    found == exists|m: int| 0 <= m < j && (#[trigger] q[m]).0 == e.uuid@,
                                decreases index.len() - j,
                            {
                                assert(q[j as int].0 == index@[j as int].0@);
                                if str_eq(index[j].0.as_str(), e.uuid.as_str()) {
                                    found = true;
                                }
                                j += 1;
                            }
                            proof {
                                crate::model::lemma_items_view_len(e.items@);
                            }
                            if !found {
                                let items = copy_items(&e.items);
                                index.push((copy_str(e.uuid.as_str()), items));
                                assert(index_view(index@) =~= q.push((e@.uuid, e@.items)));
                            }
                        } else {
                            proof {
                                crate::model::lemma_items_view_len(e.items@);
                            }
                        }
                        k += 1;
                    }
                    proof {
                        if st.held() is None {
                            assert(bp_add(p, ev, 0) == p);
                        }
                    }
                }
            }
            i += 1;
        }
        self.bp_index = index;
    }

    /// Runs the search over every enabled file with a store, and says how
    /// many of how many entries it shows.
    pub fn run_search(&mut self, f: &Filters)
        requires
            stores_wf(old(self).sources@),
        ensures
            exists|c: Compiled|
                #![trigger c.compiled_from(f)]
                c.compiled_from(f) && final(self).filtered@ == hits(
                    old(self).sources@,
                    &c,
                    old(self).sources@.len() as int,
                ),
            final(self).filtered@.len() <= i64::MAX && total(
                old(self).sources@,
                old(self).sources@.len() as int,
            ) <= i64::MAX ==> final(self).status@ == shown_text(
                final(self).filtered@.len() as int,
                total(old(self).sources@, old(self).sources@.len() as int),
            ),
            final(self).sources@ == old(self).sources@,
            final(self).bp_index@ == old(self).bp_index@,
    {
        let c = f.compile();
        let mut out: Vec<(usize, usize)> = Vec::new();
        let mut count: u64 = 0;
        let mut over = false;
        let mut i: usize = 0;
        while i < self.sources.len()
            invariant
                self.sources@ == old(self).sources@,
                self.bp_index@ == old(self).bp_index@,
                stores_wf(self.sources@),
                i <= self.sources@.len(),
                out@ == hits(self.sources@, &c, i as int),
                !over ==> count == total(self.sources@, i as int),
                over ==> total(self.sources@, i as int) > u64::MAX,
                total(self.sources@, i as int) >= 0,
            decreases self.sources.len() - i,
        {
            let s = &self.sources[i];
            if s.enabled {
                if let Some(st) = &s.store {
                    assert(st.wf());
                    let n = st.len();
                    if !over {
                        match count.checked_add(n as u64) {
                            Some(x) => count = x,
                            None => over = true,
                        }
                    }
                    let found = st.filter(&c);
                    let ghost p = out@;
                    let mut k: usize = 0;
                    while k < found.len()
                        invariant
                            k <= found@.len(),
                            out@ == p + found@.take(k as int).map_values(|e: u32| (i, e as usize)),
                        decreases found.len() - k,
                    {
                        out.push((i, found[k] as usize));
                        k += 1;
                        assert(out@ =~= p + found@.take(k as int).map_values(|e: u32| (i, e as usize)));
                    }
                    assert(found@.take(k as int) =~= found@);
                }
            }
            i += 1;
        }
        let mut status = int_to_string(#[verifier::truncate] (out.len() as i64));
        push_str(&mut status, " of ");
        let t = int_to_string(#[verifier::truncate] (count as i64));
        push_str(&mut status, t.as_str());
        push_str(&mut status, " shown");
        proof {
            reveal_strlit(" of ");
            reveal_strlit(" shown");
        }
        self.filtered = out;
        self.status = status;
        assert(c.compiled_from(f));
    }
}

} // verus!
