//! The community registry: one standing per community.
//!
//! Communities are identified by an opaque 64-bit id.  The registry is
//! the single in-memory source of truth between persistence writes; an
//! embedding that serves concurrent requests guards each community's
//! mutations with its own exclusive lock and persists the full registry
//! through a `Backend` before acknowledging any mutation.

use vstd::prelude::*;
use crate::order::{PlayerView, wf_seq, has_id, lookup, sorted_insert};
use crate::system::{Player, Leaderboard, Error, fresh_player, score_update};

verus! {

/// The mathematical content of a registry: community ids paired with
/// their standings, in insertion order.
pub open spec fn reg_wf(m: Seq<(u64, Seq<PlayerView>)>) -> bool {
    &&& forall|i: int, j: int| 0 <= i < j < m.len() ==> m[i].0 != m[j].0
    &&& forall|i: int| 0 <= i < m.len() ==> wf_seq(#[trigger] m[i].1)
}

/// Index of the entry of community `c`, or `-1` when none exists.
pub open spec fn reg_idx_of(m: Seq<(u64, Seq<PlayerView>)>, c: u64) -> int
    decreases m.len(),
{
    if m.len() == 0 {
        -1
    } else if m[0].0 == c {
        0
    } else {
        let r = reg_idx_of(m.drop_first(), c);
        if r == -1 {
            -1
        } else {
            r + 1
        }
    }
}

/// Whether community `c` has a standing.
pub open spec fn reg_has(m: Seq<(u64, Seq<PlayerView>)>, c: u64) -> bool {
    reg_idx_of(m, c) >= 0
}

/// The standing of community `c`; meaningful only when `reg_has` holds.
pub open spec fn reg_lookup(m: Seq<(u64, Seq<PlayerView>)>, c: u64) -> Seq<PlayerView> {
    m[reg_idx_of(m, c)].1
}

pub proof fn lemma_reg_idx_of_props(m: Seq<(u64, Seq<PlayerView>)>, c: u64)
    ensures
        reg_idx_of(m, c) == -1 ==> forall|k: int| 0 <= k < m.len() ==> (#[trigger] m[k]).0 != c,
        reg_idx_of(m, c) != -1 ==> {
            &&& 0 <= reg_idx_of(m, c) < m.len()
            &&& m[reg_idx_of(m, c)].0 == c
            &&& forall|k: int| 0 <= k < reg_idx_of(m, c) ==> (#[trigger] m[k]).0 != c
        },
    decreases m.len(),
{
    if m.len() > 0 && m[0].0 != c {
        lemma_reg_idx_of_props(m.drop_first(), c);
        assert forall|k: int| 1 <= k < m.len() implies m.drop_first()[k - 1] == m[k] by {}
    }
}

/// Any matching position after none that matches is the one
/// `reg_idx_of` finds.
pub proof fn lemma_reg_idx_of_at(m: Seq<(u64, Seq<PlayerView>)>, c: u64, i: int)
    requires
        0 <= i < m.len(),
        m[i].0 == c,
        forall|k: int| 0 <= k < i ==> (#[trigger] m[k]).0 != c,
    ensures
        reg_idx_of(m, c) == i,
{
    lemma_reg_idx_of_props(m, c);
    let r = reg_idx_of(m, c);
    if r == -1 {
        assert(m[i].0 != c);
        assert(false);
    }
    if r < i {
        assert(m[r].0 != c);
        assert(false);
    }
    if r > i {
        assert(m[i].0 != c);
        assert(false);
    }
}

/// The views of a sequence of registry entries.
pub open spec fn entry_views(s: Seq<(u64, Leaderboard)>) -> Seq<(u64, Seq<PlayerView>)> {
    s.map_values(|e: (u64, Leaderboard)| (e.0, e.1@))
}

/// A concurrent-friendly mapping from community id to its standing;
/// entries are never removed during normal operation.
pub struct Registry {
    entries: Vec<(u64, Leaderboard)>,
}

impl View for Registry {
    type V = Seq<(u64, Seq<PlayerView>)>;

    closed spec fn view(&self) -> Seq<(u64, Seq<PlayerView>)> {
        entry_views(self.entries@)
    }
}

fn find_community(v: &Vec<(u64, Leaderboard)>, c: u64) -> (r: Option<usize>)
    ensures
        match r {
            Some(i) => i < v@.len() && i as int == reg_idx_of(entry_views(v@), c),
            None => !reg_has(entry_views(v@), c),
        },
{
    let ghost m = entry_views(v@);
    let n = v.len();
    let mut i: usize = 0;
    while i < n
        invariant
            i <= n,
            n == v@.len(),
            m == entry_views(v@),
            forall|k: int| 0 <= k < i ==> (#[trigger] m[k]).0 != c,
        decreases n - i,
    {
        proof {
            assert(m[i as int] == (v@[i as int].0, v@[i as int].1@));
        }
        if v[i].0 == c {
            proof {
                lemma_reg_idx_of_at(m, c, i as int);
            }
            return Some(i);
        }
        i = i + 1;
    }
    proof {
        lemma_reg_idx_of_props(m, c);
        if reg_idx_of(m, c) != -1 {
            assert(m[reg_idx_of(m, c)].0 != c);
            assert(false);
        }
    }
    None
}

impl Registry {
    /// The registry's invariant: community ids are pairwise distinct and
    /// every standing is well-formed.
    pub open spec fn wf(&self) -> bool {
        reg_wf(self@)
    }

    /// An empty registry.
    pub fn new() -> (r: Registry)
        ensures
            r@ == Seq::<(u64, Seq<PlayerView>)>::empty(),
            r.wf(),
    {
        let r = Registry { entries: Vec::new() };
        proof {
            assert(r@ =~= Seq::<(u64, Seq<PlayerView>)>::empty());
        }
        r
    }

    /// The number of communities.
    pub fn len(&self) -> (r: usize)
        ensures
            r == self@.len(),
    {
        self.entries.len()
    }

    /// The entry at a position, for read-only walks of the registry.
    pub fn entry_at(&self, i: usize) -> (r: &(u64, Leaderboard))
        requires
            i < self@.len(),
        ensures
            r.0 == self@[i as int].0,
            r.1@ == self@[i as int].1,
    {
        proof {
            assert(self@[i as int] == (self.entries@[i as int].0, self.entries@[i as int].1@));
        }
        &self.entries[i]
    }

    /// Read-only access to one community's standing; an unknown
    /// community is a normal, recoverable absence.
    pub fn get(&self, community: u64) -> (r: Option<&Leaderboard>)
        ensures
            match r {
                Some(lb) => reg_has(self@, community) && lb@ == reg_lookup(self@, community),
                None => !reg_has(self@, community),
            },
    {
        match find_community(&self.entries, community) {
            Some(i) => {
                proof {
                    assert(self@[i as int] == (
                        self.entries@[i as int].0,
                        self.entries@[i as int].1@,
                    ));
                }
                Some(&self.entries[i].1)
            },
            None => None,
        }
    }

    /// Creates an empty standing for a new community; an existing one is
    /// left untouched and reported.
    pub fn add_community(&mut self, community: u64) -> (r: bool)
        requires
            old(self).wf(),
        ensures
            final(self).wf(),
            reg_has(old(self)@, community) ==> !r && final(self)@ == old(self)@,
            !reg_has(old(self)@, community) ==> r && final(self)@ == old(self)@.push(
                (community, Seq::<PlayerView>::empty()),
            ),
    {
        if let Some(_found) = find_community(&self.entries, community) {
            return false;
        }
        let ghost m0 = self@;
        let lb = Leaderboard::new();
        proof {
            lemma_reg_idx_of_props(m0, community);
        }
        self.entries.push((community, lb));
        proof {
            assert(self@ =~= m0.push((community, Seq::<PlayerView>::empty())));
            assert forall|i: int, j: int|
                0 <= i < j < self@.len() implies self@[i].0 != self@[j].0 by {
                if j < m0.len() {
                } else {
                    assert(self@[j].0 == community && self@[i] == m0[i]);
                }
            }
        }
        true
    }

    /// Registers a player in one community's standing; an unknown
    /// community fails with `NotFound` and changes nothing.
    pub fn register_player(&mut self, community: u64, name: String) -> (r: Result<Player, Error>)
        requires
            old(self).wf(),
        ensures
            final(self).wf(),
            !reg_has(old(self)@, community) ==> r == Err::<Player, Error>(Error::NotFound)
                && final(self)@ == old(self)@,
            reg_has(old(self)@, community) && has_id(reg_lookup(old(self)@, community), name@)
                ==> r == Err::<Player, Error>(Error::AlreadyRegistered) && final(self)@ == old(
                self,
            )@,
            reg_has(old(self)@, community) && !has_id(reg_lookup(old(self)@, community), name@)
                ==> (r matches Ok(p) && p@ == fresh_player(name@) && final(self)@ == old(
                self,
            )@.update(
                reg_idx_of(old(self)@, community),
                (community, sorted_insert(reg_lookup(old(self)@, community), fresh_player(name@))),
            )),
    {
        let ghost m0 = self@;
        let ci = match find_community(&self.entries, community) {
            Some(i) => i,
            None => {
                return Err(Error::NotFound);
            },
        };
        proof {
            lemma_reg_idx_of_props(m0, community);
            assert(m0[ci as int] == (self.entries@[ci as int].0, self.entries@[ci as int].1@));
        }
        let (c, mut lb) = self.entries.remove(ci);
        let res = lb.insert_player(name);
        let ghost lb1 = lb@;
        self.entries.insert(ci, (c, lb));
        proof {
            assert(self@ =~= m0.update(ci as int, (community, lb1)));
            assert forall|i: int, j: int|
                0 <= i < j < self@.len() implies self@[i].0 != self@[j].0 by {
                assert(m0[i].0 != m0[j].0);
            }
            if lb1 == m0[ci as int].1 {
                assert(self@ =~= m0);
            }
        }
        match res {
            Ok(p) => Ok(p),
            Err(e) => Err(e),
        }
    }

    /// Applies a match result in one community's standing; an unknown
    /// community fails with `NotFound` and changes nothing.
    pub fn record_result(&mut self, community: u64, winner: String, loser: String) -> (r: Result<
        (Player, Player),
        Error,
    >)
        requires
            old(self).wf(),
            reg_has(old(self)@, community) && has_id(
                reg_lookup(old(self)@, community),
                winner@,
            ) ==> lookup(reg_lookup(old(self)@, community), winner@).score + 10 <= u32::MAX,
        ensures
            final(self).wf(),
            !reg_has(old(self)@, community) ==> r == Err::<(Player, Player), Error>(
                Error::NotFound,
            ) && final(self)@ == old(self)@,
            reg_has(old(self)@, community) ==> ({
                let s = reg_lookup(old(self)@, community);
                &&& (!has_id(s, winner@) || !has_id(s, loser@)) ==> r == Err::<
                    (Player, Player),
                    Error,
                >(Error::PlayerNotFound) && final(self)@ == old(self)@
                &&& (has_id(s, winner@) && has_id(s, loser@) && winner@ == loser@) ==> r == Err::<
                    (Player, Player),
                    Error,
                >(Error::InvalidMatch) && final(self)@ == old(self)@
                &&& (has_id(s, winner@) && has_id(s, loser@) && winner@ != loser@) ==> ({
                    &&& r matches Ok(pair)
                    &&& pair.0@ == crate::system::gained(lookup(s, winner@), 10i32)
                    &&& pair.1@ == crate::system::gained(lookup(s, loser@), -10i32)
                    &&& final(self)@ == old(self)@.update(
                        reg_idx_of(old(self)@, community),
                        (community, score_update(s, winner@, loser@)),
                    )
                })
            }),
    {
        let ghost m0 = self@;
        let ci = match find_community(&self.entries, community) {
            Some(i) => i,
            None => {
                return Err(Error::NotFound);
            },
        };
        proof {
            lemma_reg_idx_of_props(m0, community);
            assert(m0[ci as int] == (self.entries@[ci as int].0, self.entries@[ci as int].1@));
        }
        let (c, mut lb) = self.entries.remove(ci);
        let res = lb.score(winner, loser);
        let ghost lb1 = lb@;
        self.entries.insert(ci, (c, lb));
        proof {
            assert(self@ =~= m0.update(ci as int, (community, lb1)));
            assert forall|i: int, j: int|
                0 <= i < j < self@.len() implies self@[i].0 != self@[j].0 by {
                assert(m0[i].0 != m0[j].0);
            }
            if lb1 == m0[ci as int].1 {
                assert(self@ =~= m0);
            }
        }
        match res {
            Ok(pair) => Ok(pair),
            Err(e) => Err(e),
        }
    }

    /// Surrenders the entries, for an embedding that owns the standings
    /// in a structure of its own.
    pub fn into_entries(self) -> (r: Vec<(u64, Leaderboard)>)
        ensures
            entry_views(r@) == self@,
    {
        self.entries
    }

    /// Builds the registry loaded at startup from entries with pairwise
    /// distinct community ids and well-formed standings; duplicate ids
    /// are rejected.
    pub fn from_entries(v: Vec<(u64, Leaderboard)>) -> (r: Option<Registry>)
        requires
            forall|i: int| 0 <= i < v@.len() ==> wf_seq((#[trigger] v@[i]).1@),
        ensures
            match r {
                Some(reg) => reg.wf() && reg@ == entry_views(v@),
                None => exists|i: int, j: int|
                    0 <= i < j < v@.len() && (#[trigger] v@[i]).0 == (#[trigger] v@[j]).0,
            },
    {
        let ghost m = entry_views(v@);
        let n = v.len();
        let mut a: usize = 0;
        while a < n
            invariant
                a <= n,
                n == v@.len(),
                m == entry_views(v@),
                forall|x: int, y: int| 0 <= x < y < n && x < a ==> (#[trigger] v@[x]).0 != (
                #[trigger] v@[y]).0,
            decreases n - a,
        {
            let mut b: usize = a + 1;
            while b < n
                invariant
                    a < b <= n,
                    a < n,
                    n == v@.len(),
                    forall|y: int| a < y < b ==> (#[trigger] v@[y]).0 != v@[a as int].0,
                decreases n - b,
            {
                if v[a].0 == v[b].0 {
                    return None;
                }
                b = b + 1;
            }
            a = a + 1;
        }
        let r = Registry { entries: v };
        proof {
            assert forall|i: int| 0 <= i < m.len() implies wf_seq(#[trigger] m[i].1) by {
                assert(m[i] == (v@[i].0, v@[i].1@));
            }
            assert forall|i: int, j: int| 0 <= i < j < m.len() implies m[i].0 != m[j].0 by {
                assert(m[i] == (v@[i].0, v@[i].1@));
                assert(m[j] == (v@[j].0, v@[j].1@));
            }
        }
        Some(r)
    }
}

} // verus!
