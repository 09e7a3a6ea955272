//! Player heads fetched in the background: which keys are waiting, which
//! have arrived, and how the profile service's replies are read. The
//! requests themselves and the pictures are the application's part.
use vstd::prelude::*;
use crate::json_value::{jget, jget_ref, json_text_value, jstr, jstr_ref, opt_jget, opt_jstr, parse_json_text, Json, JsonV};
use crate::text::{chars_of, chars_start_with, copy_str, push_str, str_eq};

verus! {

/// Where the profile service answers for a player name or uuid.
pub const API_BASE: &'static str = "https://api.opnsoc.org/player/";

/// How a head is fetched: a skin picture straight from its address, or the
/// profile service's record of the player first.
#[derive(Debug, PartialEq, Eq)]
pub enum FetchPlan {
    Skin(String),
    Profile(String),
}

/// A key that starts with `http` is a skin's address; any other key is
/// looked up at the profile service.
pub fn fetch_plan(key: &str) -> (r: FetchPlan)
    ensures
        match r {
            FetchPlan::Skin(u) => key@.len() >= 4 && key@.take(4) == "http"@ && u@ == key@,
            FetchPlan::Profile(u) => !(key@.len() >= 4 && key@.take(4) == "http"@) && u@
                == API_BASE@ + key@,
        },
{
    let c = chars_of(key);
    let h = chars_of("http");
    proof {
        reveal_strlit("http");
    }
    if chars_start_with(c.as_slice(), h.as_slice()) {
        assert(c@.subrange(0, 4) =~= key@.take(4));
        FetchPlan::Skin(copy_str(key))
    } else {
        proof {
            if key@.len() >= 4 && key@.take(4) == "http"@ {
                assert(c@.subrange(0, 4) =~= key@.take(4));
            }
        }
        let mut u = String::from_str(API_BASE);
        push_str(&mut u, key);
        FetchPlan::Profile(u)
    }
}

/// A non-empty text under `k` of the player record.
pub open spec fn player_text(v: JsonV, k: Seq<char>) -> Option<Seq<char>> {
    match opt_jstr(opt_jget(opt_jget(opt_jget(Some(v), "data"@), "player"@), k)) {
        Some(s) => if s.len() > 0 {
            Some(s)
        } else {
            None
        },
        None => None,
    }
}

fn text_under(v: &Json, k: &str) -> (r: Option<String>)
    ensures
        match r {
            Some(s) => player_text(v@, k@) == Some(s@),
            None => player_text(v@, k@) is None,
        },
{
    let d = jget_ref(v, "data")?;
    let p = jget_ref(d, "player")?;
    let x = jget_ref(p, k)?;
    let s = jstr_ref(x)?;
    if s.as_str().unicode_len() == 0 {
        return None;
    }
    Some(copy_str(s.as_str()))
}

/// What the profile service's reply names: the player's username and the
/// address of their skin, each only when it is a non-empty text under
/// `data.player`; an error starting with `profile json: ` when the reply is
/// no JSON.
pub fn profile_fields(body: &str) -> (r: Result<(Option<String>, Option<String>), String>)
    ensures
        match json_text_value(body@) {
            None => r matches Err(m) && m@.take(14) == "profile json: "@,
            Some(v) => r matches Ok((name, skin)) && (match name {
                Some(n) => player_text(v, "username"@) == Some(n@),
                None => player_text(v, "username"@) is None,
            }) && (match skin {
                Some(s) => player_text(v, "skin_texture"@) == Some(s@),
                None => player_text(v, "skin_texture"@) is None,
            }),
        },
{
    match parse_json_text(body) {
        Err(e) => {
            let mut m = String::from_str("profile json: ");
            push_str(&mut m, e.as_str());
            proof {
                reveal_strlit("profile json: ");
                assert(m@.take(14) =~= "profile json: "@);
            }
            Err(m)
        },
        Ok(v) => Ok((text_under(&v, "username"), text_under(&v, "skin_texture"))),
    }
}

/// A fetch succeeds when it found a username or a head.
pub fn fetch_outcome(username: Option<String>, has_head: bool) -> (r: Result<Option<String>, String>)
    ensures
        username is None && !has_head ==> (r matches Err(m) && m@ == "player not found"@),
        username is Some || has_head ==> r == Ok::<Option<String>, String>(username),
{
    if username.is_none() && !has_head {
        proof {
            reveal_strlit("player not found");
        }
        return Err(String::from_str("player not found"));
    }
    Ok(username)
}

/// Where a head's fetch stands.
#[derive(Clone, Copy, Debug, PartialEq, Eq, Structural)]
pub enum HeadState {
    Pending,
    /// Arrived, with or without a picture.
    Ready(bool),
    Failed,
}

/// The heads asked for: the state of each key and the keys still to fetch.
pub struct Profiles {
    state: Vec<(String, HeadState)>,
    to_fetch: Vec<String>,
}

/// The first state recorded for a key.
pub open spec fn state_in(s: Seq<(Seq<char>, HeadState)>, k: Seq<char>) -> Option<HeadState>
    decreases s.len(),
{
    if s.len() == 0 {
        None
    } else if s[0].0 == k {
        Some(s[0].1)
    } else {
        state_in(s.drop_first(), k)
    }
}

impl Profiles {
    pub closed spec fn states(&self) -> Seq<(Seq<char>, HeadState)> {
        self.state@.map_values(|p: (String, HeadState)| (p.0@, p.1))
    }

    /// The state of each key asked for.
    pub open spec fn state_of(&self, k: Seq<char>) -> Option<HeadState> {
        state_in(self.states(), k)
    }

    /// The keys waiting to be fetched, in the order they were asked for.
    pub closed spec fn queue(&self) -> Seq<Seq<char>> {
        self.to_fetch@.map_values(|s: String| s@)
    }

    pub fn new() -> (r: Profiles)
        ensures
            forall|k: Seq<char>| r.state_of(k) is None,
            r.queue().len() == 0,
    {
        let r = Profiles { state: Vec::new(), to_fetch: Vec::new() };
        assert(r.states() =~= Seq::<(Seq<char>, HeadState)>::empty());
        assert(r.queue() =~= Seq::<Seq<char>>::empty());
        r
    }

    fn find(&self, key: &str) -> (r: Option<usize>)
        ensures
            match r {
                Some(i) => i < self.states().len() && self.state_of(key@) == Some(self.states()[i as int].1)
                    && self.states()[i as int].0 == key@,
                None => self.state_of(key@) is None,
            },
    {
        let ghost s = self.states();
        let mut i: usize = 0;
        assert(s.skip(0) =~= s);
        while i < self.state.len()
            invariant
                s == self.states(),
                s.len() == self.state@.len(),
                i <= s.len(),
                state_in(s, key@) == state_in(s.skip(i as int), key@),
            decreases self.state.len() - i,
        {
            assert(s.skip(i as int)[0] == s[i as int]);
            assert(s.skip(i as int).drop_first() =~= s.skip(i + 1));
            if str_eq(self.state[i].0.as_str(), key) {
                return Some(i);
            }
            i += 1;
        }
        assert(s.skip(i as int).len() == 0);
        None
    }

    /// The state of a key, if it was asked for.
    pub fn get(&self, key: &str) -> (r: Option<HeadState>)
        ensures
            r == self.state_of(key@),
    {
        match self.find(key) {
            Some(i) => Some(self.state[i].1),
            None => None,
        }
    }

    /// Asks for a key's head: a key not asked for before becomes pending and
    /// joins the queue; any other request changes nothing (see
    /// `after_request`).
    pub fn request(&mut self, key: &str)
        ensures
            (final(self).states(), final(self).queue()) == after_request(
                old(self).states(),
                old(self).queue(),
                key@,
            ),
            old(self).state_of(key@) is None ==> final(self).state_of(key@) == Some(
                HeadState::Pending,
            ),
            forall|k: Seq<char>| k != key@ ==> #[trigger] final(self).state_of(k) == old(self).state_of(k),
    {
        if self.find(key).is_some() {
            return;
        }
        let ghost s0 = self.states();
        self.state.insert(0, (copy_str(key), HeadState::Pending));
        assert(self.states() =~= seq![(key@, HeadState::Pending)] + s0);
        assert(self.states().drop_first() =~= s0);
        let ghost q0 = self.queue();
        self.to_fetch.push(copy_str(key));
        assert(self.queue() =~= q0.push(key@));
    }

    /// Hands out the keys waiting to be fetched and empties the queue.
    pub fn drain_requests(&mut self) -> (r: Vec<String>)
        ensures
            r@.map_values(|s: String| s@) == old(self).queue(),
            final(self).queue().len() == 0,
            final(self).states() == old(self).states(),
    {
        let mut out: Vec<String> = Vec::new();
        std::mem::swap(&mut out, &mut self.to_fetch);
        assert(self.queue() =~= Seq::<Seq<char>>::empty());
        out
    }

    /// Records how a key's fetch ended.
    pub fn set(&mut self, key: &str, st: HeadState)
        ensures
            final(self).state_of(key@) == Some(st),
            forall|k: Seq<char>| k != key@ ==> #[trigger] final(self).state_of(k) == old(self).state_of(k),
            final(self).queue() == old(self).queue(),
    {
        let ghost s0 = self.states();
        self.state.insert(0, (copy_str(key), st));
        assert(self.states() =~= seq![(key@, st)] + s0);
        assert(self.states().drop_first() =~= s0);
    }

    /// Whether a key's fetch has ended, so that what it gave can be kept.
    pub fn settled(&self, key: &str) -> (r: bool)
        ensures
            r == (self.state_of(key@) matches Some(s) && s != HeadState::Pending),
    {
        match self.get(key) {
            Some(HeadState::Pending) => false,
            Some(_) => true,
            None => false,
        }
    }
}

/// The states and queue after asking for `k`: unchanged when `k` was asked
/// for before, else `k` pending in front and queued at the end.
pub open spec fn after_request(
    s: Seq<(Seq<char>, HeadState)>,
    q: Seq<Seq<char>>,
    k: Seq<char>,
) -> (Seq<(Seq<char>, HeadState)>, Seq<Seq<char>>) {
    if state_in(s, k) is Some {
        (s, q)
    } else {
        (seq![(k, HeadState::Pending)] + s, q.push(k))
    }
}

/// Asking for the same head twice is asking once: it is queued once.
pub proof fn law_request_is_idempotent(
    s: Seq<(Seq<char>, HeadState)>,
    q: Seq<Seq<char>>,
    k: Seq<char>,
)
    ensures
        ({
            let once = after_request(s, q, k);
            after_request(once.0, once.1, k) == once
        }),
{
    let once = after_request(s, q, k);
    assert(state_in(once.0, k) is Some) by {
        if state_in(s, k) is None {
            assert(once.0[0] == (k, HeadState::Pending));
        }
    }
}

} // verus!
