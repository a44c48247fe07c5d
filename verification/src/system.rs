//! Player records and the per-community standing.
//!
//! A `Leaderboard` keeps one community's players sorted ascending by the
//! compound key `(score, increase, id)` while answering identity and rank
//! queries.  Every mutation is a remove-by-identity followed by a
//! reinsert at the new sort position, so no intermediate state is ever
//! observable.

use vstd::prelude::*;
use vstd::string::StrSliceExecFns;
use crate::order::{
    PlayerView, key_lt, lex_lt, sorted, distinct_ids, wf_seq, idx_of, has_id, lookup, insert_pos,
    sorted_insert, lemma_lex_lt_skip, lemma_idx_of_props, lemma_idx_of_at, lemma_idx_of_none,
    lemma_insert_pos_unique, lemma_sorted_insert_wf, lemma_remove_wf, lemma_sorted_from_adjacent,
};

verus! {

/// One player's record: identity, current score, and the delta applied by
/// the most recent match result (kept for display, not for comparisons).
#[derive(Debug)]
pub struct Player {
    pub score: u32,
    pub increase: i32,
    pub id: String,
}

impl View for Player {
    type V = PlayerView;

    open spec fn view(&self) -> PlayerView {
        PlayerView { score: self.score, increase: self.increase, id: self.id@ }
    }
}

impl Player {
    /// The requested delta is written to `increase`, and the score moves
    /// by it, floored at zero.
    fn gain(&mut self, delta: i32)
        requires
            old(self)@.score + delta <= u32::MAX,
        ensures
            final(self)@ == gained(old(self)@, delta),
    {
        self.increase = delta;
        if delta >= 0 {
            self.score = self.score + (delta as u32);
        } else {
            let magnitude = (-(delta as i64)) as u32;
            proof {
                assert(magnitude == -(delta as int));
            }
            if self.score >= magnitude {
                self.score = self.score - magnitude;
            } else {
                self.score = 0;
            }
        }
    }
}

/// Players are identity-equal by `id` alone; scores play no part.
impl PartialEq for Player {
    fn eq(&self, other: &Player) -> (r: bool) {
        self.id == other.id
    }
}

impl vstd::std_specs::cmp::PartialEqSpecImpl for Player {
    open spec fn obeys_eq_spec() -> bool {
        true
    }

    open spec fn eq_spec(&self, other: &Player) -> bool {
        self.id@ == other.id@
    }
}

/// The expected, recoverable failures of the ranking engine, and the
/// fatal persistence failure an embedding reports through `Backend`.
#[derive(Clone, Copy, Debug, PartialEq, Eq, Structural)]
pub enum Error {
    /// The named community has no standing.
    NotFound,
    /// The player id is already present in the standing.
    AlreadyRegistered,
    /// A match result named a player absent from the standing.
    PlayerNotFound,
    /// A match result named the same player as winner and loser; such a
    /// match is rejected rather than applied with a net-zero effect.
    InvalidMatch,
    /// The durable store could not complete a write or a read.
    PersistenceFailure,
}

/// The record a fresh registration creates: zero score, zero delta.
pub open spec fn fresh_player(id: Seq<char>) -> PlayerView {
    PlayerView { score: 0, increase: 0, id }
}

/// Score adjustment: the requested delta is recorded in `increase` even
/// when the score is clamped at zero.
pub open spec fn gained(p: PlayerView, delta: i32) -> PlayerView
    recommends
        p.score + delta <= u32::MAX,
{
    PlayerView {
        score: if p.score + delta < 0 {
            0u32
        } else {
            ((p.score + delta) as u32)
        },
        increase: delta,
        id: p.id,
    }
}

/// The standing with the record carrying `id` removed.
pub open spec fn remove_id(s: Seq<PlayerView>, id: Seq<char>) -> Seq<PlayerView>
    recommends
        has_id(s, id),
{
    s.remove(idx_of(s, id))
}

/// The standing after a match result: both records are removed by
/// identity, adjusted, and reinserted at their new sort positions.
pub open spec fn score_update(s: Seq<PlayerView>, w: Seq<char>, l: Seq<char>) -> Seq<PlayerView>
    recommends
        has_id(s, w),
        has_id(s, l),
        w != l,
{
    let w1 = gained(lookup(s, w), 10i32);
    let l1 = gained(lookup(s, l), -10i32);
    let t = remove_id(remove_id(s, w), l);
    sorted_insert(sorted_insert(t, w1), l1)
}

/// The 1-based competitive rank of `id`: the greatest compound key ranks
/// first; an id absent from the standing gets the sentinel `size + 1`.
pub open spec fn rank_in(s: Seq<PlayerView>, id: Seq<char>) -> int {
    if has_id(s, id) {
        s.len() as int - idx_of(s, id)
    } else {
        s.len() as int + 1
    }
}

/// The views of a sequence of records.
pub open spec fn views_of(s: Seq<Player>) -> Seq<PlayerView> {
    s.map_values(|p: Player| p@)
}

/// Strict lexicographic comparison of two strings by Unicode scalar
/// value, matching `lex_lt` on their character sequences.
fn str_lt(a: &str, b: &str) -> (r: bool)
    ensures
        r == lex_lt(a@, b@),
{
    let na = a.unicode_len();
    let nb = b.unicode_len();
    let mut i: usize = 0;
    loop
        invariant
            i <= na,
            i <= nb,
            na == a@.len(),
            nb == b@.len(),
            forall|k: int| 0 <= k < i ==> a@[k] == b@[k],
        decreases na - i,
    {
        proof {
            lemma_lex_lt_skip(a@, b@, i as int);
        }
        if i >= nb {
            return false;
        }
        if i >= na {
            return true;
        }
        let ca = a.get_char(i);
        let cb = b.get_char(i);
        if (ca as u32) < (cb as u32) {
            return true;
        }
        if (ca as u32) > (cb as u32) {
            proof {
                if ca == cb {
                    assert((ca as u32) == (cb as u32));
                }
            }
            return false;
        }
        proof {
            vstd::utf8::char_u32_cast(ca, ca as u32);
            vstd::utf8::char_u32_cast(cb, cb as u32);
            assert(ca == cb);
        }
        i = i + 1;
    }
}

/// Compound-key comparison of two records: score, then last delta, then
/// identity.
fn player_key_lt(a: &Player, b: &Player) -> (r: bool)
    ensures
        r == key_lt(a@, b@),
{
    if a.score != b.score {
        a.score < b.score
    } else if a.increase != b.increase {
        a.increase < b.increase
    } else {
        str_lt(a.id.as_str(), b.id.as_str())
    }
}

/// Linear identity scan: the first index whose record carries `name`.
fn index_of_name(v: &Vec<Player>, name: &String) -> (r: Option<usize>)
    ensures
        match r {
            Some(i) => i < v@.len() && i as int == idx_of(views_of(v@), name@),
            None => !has_id(views_of(v@), name@),
        },
{
    let n = v.len();
    let mut i: usize = 0;
    while i < n
        invariant
            i <= n,
            n == v@.len(),
            forall|k: int| 0 <= k < i ==> views_of(v@)[k].id != name@,
        decreases n - i,
    {
        if v[i].id == *name {
            proof {
                assert(views_of(v@)[i as int] == v@[i as int]@);
                lemma_idx_of_at(views_of(v@), name@, i as int);
            }
            return Some(i);
        }
        proof {
            assert(views_of(v@)[i as int] == v@[i as int]@);
        }
        i = i + 1;
    }
    proof {
        lemma_idx_of_none(views_of(v@), name@);
    }
    None
}

/// Linear scan for the sort position of a record: the first index whose
/// record has a strictly greater compound key.
fn insert_index(v: &Vec<Player>, p: &Player) -> (r: usize)
    ensures
        r <= v@.len(),
        r as int == insert_pos(views_of(v@), p@),
{
    let n = v.len();
    let mut i: usize = 0;
    while i < n
        invariant
            i <= n,
            n == v@.len(),
            forall|k: int| 0 <= k < i ==> !key_lt(p@, views_of(v@)[k]),
        decreases n - i,
    {
        if player_key_lt(p, &v[i]) {
            proof {
                assert(views_of(v@)[i as int] == v@[i as int]@);
                lemma_insert_pos_unique(views_of(v@), p@, i as int);
            }
            return i;
        }
        proof {
            assert(views_of(v@)[i as int] == v@[i as int]@);
        }
        i = i + 1;
    }
    proof {
        lemma_insert_pos_unique(views_of(v@), p@, i as int);
    }
    i
}

proof fn lemma_views_insert(s: Seq<Player>, i: int, p: Player)
    requires
        0 <= i <= s.len(),
    ensures
        views_of(s.insert(i, p)) =~= views_of(s).insert(i, p@),
{
    let t1 = views_of(s.insert(i, p));
    let t2 = views_of(s).insert(i, p@);
    assert forall|k: int| 0 <= k < t1.len() implies t1[k] == t2[k] by {
        assert(t1[k] == s.insert(i, p)[k]@);
        if k < i {
            assert(t2[k] == views_of(s)[k]);
        } else if k > i {
            assert(t2[k] == views_of(s)[k - 1]);
        }
    }
}

proof fn lemma_views_remove(s: Seq<Player>, i: int)
    requires
        0 <= i < s.len(),
    ensures
        views_of(s.remove(i)) =~= views_of(s).remove(i),
{
    let t1 = views_of(s.remove(i));
    let t2 = views_of(s).remove(i);
    assert forall|k: int| 0 <= k < t1.len() implies t1[k] == t2[k] by {
        assert(t1[k] == s.remove(i)[k]@);
        if k < i {
            assert(t2[k] == views_of(s)[k]);
        } else {
            assert(t2[k] == views_of(s)[k + 1]);
        }
    }
}

/// One community's standing: players kept sorted ascending by the
/// compound key, with identity lookup layered on top.
pub struct Leaderboard {
    players: Vec<Player>,
}

impl View for Leaderboard {
    type V = Seq<PlayerView>;

    closed spec fn view(&self) -> Seq<PlayerView> {
        views_of(self.players@)
    }
}

impl Leaderboard {
    /// The standing's invariant: sorted ascending by the compound key
    /// and no two records sharing an id.
    pub open spec fn wf(&self) -> bool {
        wf_seq(self@)
    }

    /// An empty standing.
    pub fn new() -> (r: Leaderboard)
        ensures
            r@ == Seq::<PlayerView>::empty(),
            r.wf(),
    {
        let r = Leaderboard { players: Vec::new() };
        proof {
            assert(r@ =~= Seq::<PlayerView>::empty());
        }
        r
    }

    /// Identity lookup; no record means none is returned.
    pub fn find_player(&self, name: String) -> (r: Option<&Player>)
        ensures
            match r {
                Some(p) => has_id(self@, name@) && p@ == lookup(self@, name@) && p@.id == name@,
                None => !has_id(self@, name@),
            },
    {
        match index_of_name(&self.players, &name) {
            Some(i) => {
                proof {
                    lemma_idx_of_props(self@, name@);
                    assert(self@[i as int] == self.players@[i as int]@);
                }
                Some(&self.players[i])
            },
            None => None,
        }
    }

    /// Registers a fresh player with a zeroed record at its sort
    /// position; a duplicate id leaves the standing unchanged and is
    /// reported as `AlreadyRegistered`.
    pub fn insert_player(&mut self, name: String) -> (r: Result<Player, Error>)
        requires
            old(self).wf(),
        ensures
            final(self).wf(),
            has_id(old(self)@, name@) ==> r == Err::<Player, Error>(Error::AlreadyRegistered)
                && final(self)@ == old(self)@,
            !has_id(old(self)@, name@) ==> (r matches Ok(p) && p@ == fresh_player(name@)
                && final(self)@ == sorted_insert(old(self)@, fresh_player(name@))),
    {
        if let Some(_found) = index_of_name(&self.players, &name) {
            return Err(Error::AlreadyRegistered);
        }
        let copy = Player { score: 0, increase: 0, id: name.clone() };
        let player = Player { score: 0, increase: 0, id: name };
        let pos = insert_index(&self.players, &player);
        proof {
            lemma_idx_of_props(old(self)@, player@.id);
            lemma_sorted_insert_wf(old(self)@, player@);
            lemma_views_insert(self.players@, pos as int, player);
        }
        self.players.insert(pos, player);
        Ok(copy)
    }

    /// The scoring function: the winner gains a fixed delta of 10, the
    /// loser loses it with the score floored at zero, and both records
    /// carry the requested delta in `increase`.
    pub fn calculate_scores(pair: (Player, Player)) -> (r: (Player, Player))
        requires
            pair.0@.score + 10 <= u32::MAX,
        ensures
            r.0@ == gained(pair.0@, 10i32),
            r.1@ == gained(pair.1@, -10i32),
    {
        let (mut winner, mut loser) = pair;
        winner.gain(10);
        loser.gain(-10);
        (winner, loser)
    }

    /// Applies a match result: both records are removed by identity,
    /// adjusted by the scoring function, and reinserted at their new
    /// sort positions; copies of the updated records are returned.  A
    /// missing id fails with `PlayerNotFound`, a match of a player
    /// against themselves with `InvalidMatch`, and either failure leaves
    /// the standing unchanged.
    pub fn score(&mut self, winner: String, loser: String) -> (r: Result<(Player, Player), Error>)
        requires
            old(self).wf(),
            has_id(old(self)@, winner@) ==> lookup(old(self)@, winner@).score + 10 <= u32::MAX,
        ensures
            final(self).wf(),
            (!has_id(old(self)@, winner@) || !has_id(old(self)@, loser@)) ==> r == Err::<
                (Player, Player),
                Error,
            >(Error::PlayerNotFound) && final(self)@ == old(self)@,
            (has_id(old(self)@, winner@) && has_id(old(self)@, loser@) && winner@ == loser@)
                ==> r == Err::<(Player, Player), Error>(Error::InvalidMatch)
                && final(self)@ == old(self)@,
            (has_id(old(self)@, winner@) && has_id(old(self)@, loser@) && winner@ != loser@) ==> ({
                &&& r matches Ok(pair)
                &&& pair.0@ == gained(lookup(old(self)@, winner@), 10i32)
                &&& pair.1@ == gained(lookup(old(self)@, loser@), -10i32)
                &&& final(self)@ == score_update(old(self)@, winner@, loser@)
            }),
    {
        let ghost s0 = self@;
        let wi = match index_of_name(&self.players, &winner) {
            Some(i) => i,
            None => {
                return Err(Error::PlayerNotFound);
            },
        };
        let li = match index_of_name(&self.players, &loser) {
            Some(i) => i,
            None => {
                return Err(Error::PlayerNotFound);
            },
        };
        proof {
            lemma_idx_of_props(s0, winner@);
            lemma_idx_of_props(s0, loser@);
        }
        if wi == li {
            return Err(Error::InvalidMatch);
        }
        proof {
            assert(s0[wi as int].id == winner@ && s0[li as int].id == loser@);
            assert(winner@ != loser@);
            lemma_remove_wf(s0, wi as int);
            lemma_views_remove(self.players@, wi as int);
        }
        let mut won = self.players.remove(wi);
        let ghost s1 = self@;
        let li2: usize = if li < wi {
            li
        } else {
            li - 1
        };
        proof {
            assert(s1 =~= s0.remove(wi as int));
            assert(s1[li2 as int] == s0[li as int]);
            assert forall|k: int| 0 <= k < li2 implies s1[k].id != loser@ by {
                if k < wi {
                    assert(s1[k] == s0[k]);
                } else {
                    assert(s1[k] == s0[k + 1]);
                }
            }
            lemma_idx_of_at(s1, loser@, li2 as int);
            assert(lookup(s1, loser@) == lookup(s0, loser@));
            lemma_remove_wf(s1, li2 as int);
            lemma_views_remove(self.players@, li2 as int);
        }
        let mut lost = self.players.remove(li2);
        let ghost s2 = self@;
        proof {
            assert(s2 =~= s1.remove(li2 as int));
            assert(s2 == remove_id(remove_id(s0, winner@), loser@));
            assert(won@ == lookup(s0, winner@) && lost@ == lookup(s0, loser@));
        }
        won.gain(10);
        lost.gain(-10);
        let won_copy = Player { score: won.score, increase: won.increase, id: won.id.clone() };
        let lost_copy = Player { score: lost.score, increase: lost.increase, id: lost.id.clone() };
        let wpos = insert_index(&self.players, &won);
        proof {
            assert(!has_id(s2, winner@));
            lemma_idx_of_props(s2, winner@);
            assert(won@.id == winner@);
            lemma_sorted_insert_wf(s2, won@);
            lemma_views_insert(self.players@, wpos as int, won);
        }
        self.players.insert(wpos, won);
        let ghost s3 = self@;
        proof {
            assert(s3 =~= sorted_insert(s2, gained(lookup(s0, winner@), 10i32)));
            assert(!has_id(s2, loser@));
            assert(has_id(s3, loser@) == has_id(s2, loser@));
            lemma_idx_of_props(s3, loser@);
            assert(lost@.id == loser@);
            lemma_sorted_insert_wf(s3, lost@);
            crate::order::lemma_insert_pos_props(s3, lost@);
            lemma_views_insert(self.players@, insert_pos(s3, lost@), lost);
        }
        let lpos = insert_index(&self.players, &lost);
        self.players.insert(lpos, lost);
        proof {
            assert(self@ =~= sorted_insert(s3, gained(lookup(s0, loser@), -10i32)));
            assert(self@ == score_update(s0, winner@, loser@));
        }
        Ok((won_copy, lost_copy))
    }

    /// The 1-based competitive rank of the record with the player's
    /// identity: 1 for the greatest compound key; for an id absent from
    /// the standing, the sentinel `size + 1`, one past the worst rank.
    pub fn rank_of(&self, player: &Player) -> (r: u32)
        requires
            self@.len() + 1 <= u32::MAX,
        ensures
            r as int == rank_in(self@, player@.id),
    {
        let n = self.players.len();
        match index_of_name(&self.players, &player.id) {
            Some(i) => (n - i) as u32,
            None => (n as u32) + 1,
        }
    }

    /// The full standing, best to worst (descending compound key); an
    /// empty standing yields an empty sequence.
    pub fn all_players(&self) -> (r: Vec<Player>)
        ensures
            r@.len() == self@.len(),
            forall|i: int| 0 <= i < r@.len() ==> r@[i]@ == self@[self@.len() - 1 - i],
    {
        let n = self.players.len();
        let mut out: Vec<Player> = Vec::new();
        let mut i: usize = n;
        while i > 0
            invariant
                i <= n,
                n == self.players@.len(),
                out@.len() == n - i,
                forall|k: int| 0 <= k < out@.len() ==> out@[k]@ == self@[n - 1 - k],
            decreases i,
        {
            i = i - 1;
            let p = &self.players[i];
            out.push(Player { score: p.score, increase: p.increase, id: p.id.clone() });
            proof {
                assert(self@[i as int] == self.players@[i as int]@);
            }
        }
        out
    }

    /// The number of players in the standing.
    pub fn len(&self) -> (r: usize)
        ensures
            r == self@.len(),
    {
        self.players.len()
    }

    /// The record at a position of the ascending standing.
    pub fn get(&self, i: usize) -> (r: &Player)
        requires
            i < self@.len(),
        ensures
            r@ == self@[i as int],
    {
        proof {
            assert(self@[i as int] == self.players@[i as int]@);
        }
        &self.players[i]
    }

    /// An exact copy of the standing.
    pub fn duplicate(&self) -> (r: Leaderboard)
        ensures
            r@ == self@,
    {
        let n = self.players.len();
        let mut copies: Vec<Player> = Vec::new();
        let mut i: usize = 0;
        while i < n
            invariant
                i <= n,
                n == self.players@.len(),
                copies@.len() == i,
                forall|k: int| 0 <= k < i ==> copies@[k]@ == self@[k],
            decreases n - i,
        {
            let p = &self.players[i];
            copies.push(Player { score: p.score, increase: p.increase, id: p.id.clone() });
            proof {
                assert(self@[i as int] == self.players@[i as int]@);
            }
            i = i + 1;
        }
        let r = Leaderboard { players: copies };
        proof {
            assert(r@ =~= self@);
        }
        r
    }

    /// Builds a standing from records already in ascending compound-key
    /// order with pairwise distinct ids; any other sequence is rejected.
    pub fn from_players(v: Vec<Player>) -> (r: Option<Leaderboard>)
        ensures
            match r {
                Some(lb) => wf_seq(views_of(v@)) && lb@ == views_of(v@) && lb.wf(),
                None => !wf_seq(views_of(v@)),
            },
    {
        let ghost s = views_of(v@);
        let n = v.len();
        if n > 0 {
            let mut i: usize = 0;
            while i < n - 1
                invariant
                    n == v@.len(),
                    n > 0,
                    i <= n - 1,
                    s == views_of(v@),
                    forall|k: int| 0 <= k < i ==> key_lt(#[trigger] s[k], s[k + 1]),
                decreases n - i,
            {
                proof {
                    assert(s[i as int] == v@[i as int]@);
                    assert(s[i + 1] == v@[i + 1]@);
                }
                if !player_key_lt(&v[i], &v[i + 1]) {
                    proof {
                        assert(!sorted(s));
                    }
                    return None;
                }
                i = i + 1;
            }
        }
        proof {
            lemma_sorted_from_adjacent(s);
        }
        let mut a: usize = 0;
        while a < n
            invariant
                a <= n,
                n == v@.len(),
                s == views_of(v@),
                forall|x: int, y: int| 0 <= x < y < n && x < a ==> s[x].id != s[y].id,
            decreases n - a,
        {
            let mut b: usize = a + 1;
            while b < n
                invariant
                    a < b <= n,
                    a < n,
                    n == v@.len(),
                    s == views_of(v@),
                    forall|y: int| a < y < b ==> s[a as int].id != s[y].id,
                decreases n - b,
            {
                proof {
                    assert(s[a as int] == v@[a as int]@);
                    assert(s[b as int] == v@[b as int]@);
                }
                if v[a].id == v[b].id {
                    proof {
                        assert(!distinct_ids(s));
                    }
                    return None;
                }
                b = b + 1;
            }
            a = a + 1;
        }
        proof {
            assert(distinct_ids(s));
        }
        Some(Leaderboard { players: v })
    }
}

} // verus!
