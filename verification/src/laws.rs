//! Laws of the ranking engine, stated over the mathematical model and
//! proved once and for all: how registration and match results affect
//! lookups and size, how rank relates to the compound key, and that
//! match results on disjoint player pairs commute.

use vstd::prelude::*;
use crate::order::{
    PlayerView, key_lt, wf_seq, idx_of, has_id, lookup, sorted_insert, lemma_idx_of_props,
    lemma_idx_of_unique, lemma_sorted_insert_wf, lemma_remove_wf, lemma_key_asymmetric,
    lemma_wf_unique, lemma_insert_pos_props,
};
use crate::system::{fresh_player, gained, remove_id, score_update, rank_in};

verus! {

/// How many records of the standing have a compound key strictly
/// greater than `v`.
pub open spec fn count_key_gt(s: Seq<PlayerView>, v: PlayerView) -> int
    decreases s.len(),
{
    if s.len() == 0 {
        0
    } else {
        (if key_lt(v, s[0]) {
            1int
        } else {
            0int
        }) + count_key_gt(s.drop_first(), v)
    }
}

proof fn lemma_count_all_gt(s: Seq<PlayerView>, v: PlayerView)
    requires
        forall|k: int| 0 <= k < s.len() ==> key_lt(v, #[trigger] s[k]),
    ensures
        count_key_gt(s, v) == s.len(),
    decreases s.len(),
{
    if s.len() > 0 {
        assert forall|k: int| 0 <= k < s.drop_first().len() implies key_lt(
            v,
            #[trigger] s.drop_first()[k],
        ) by {
            assert(s.drop_first()[k] == s[k + 1]);
        }
        lemma_count_all_gt(s.drop_first(), v);
    }
}

proof fn lemma_count_sorted(s: Seq<PlayerView>, i: int)
    requires
        forall|x: int, y: int| 0 <= x < y < s.len() ==> key_lt(s[x], s[y]),
        0 <= i < s.len(),
    ensures
        count_key_gt(s, s[i]) == s.len() - 1 - i,
    decreases s.len(),
{
    let t = s.drop_first();
    assert forall|k: int| 0 <= k < t.len() implies t[k] == s[k + 1] by {}
    if i == 0 {
        assert(!key_lt(s[0], s[0])) by {
            if key_lt(s[0], s[0]) {
                lemma_key_asymmetric(s[0], s[0]);
            }
        }
        assert forall|k: int| 0 <= k < t.len() implies key_lt(s[0], #[trigger] t[k]) by {}
        lemma_count_all_gt(t, s[0]);
    } else {
        assert(key_lt(s[0], s[i]));
        assert(!key_lt(s[i], s[0])) by {
            lemma_key_asymmetric(s[0], s[i]);
        }
        lemma_count_sorted(t, i - 1);
        assert(t[i - 1] == s[i]);
    }
}

/// The rank of a present record is one more than the number of records
/// whose compound key is strictly greater; the best key has rank 1 and
/// the worst has rank `size`.
pub proof fn lemma_rank_counts(s: Seq<PlayerView>, i: int)
    requires
        wf_seq(s),
        0 <= i < s.len(),
    ensures
        rank_in(s, s[i].id) == 1 + count_key_gt(s, s[i]),
{
    lemma_idx_of_unique(s, i);
    lemma_count_sorted(s, i);
}

/// Rank is strictly monotonic against the compound key: of two distinct
/// records in one standing, the one with the greater key ranks strictly
/// better (smaller rank number).
pub proof fn lemma_rank_monotonic(s: Seq<PlayerView>, i: int, j: int)
    requires
        wf_seq(s),
        0 <= i < s.len(),
        0 <= j < s.len(),
        key_lt(s[j], s[i]),
    ensures
        rank_in(s, s[i].id) < rank_in(s, s[j].id),
{
    lemma_idx_of_unique(s, i);
    lemma_idx_of_unique(s, j);
    if i == j {
        lemma_key_asymmetric(s[j], s[i]);
    }
    if i < j {
        lemma_key_asymmetric(s[i], s[j]);
    }
}

/// Registering a fresh id grows the standing by exactly one, the new id
/// is afterwards found with a zeroed record, and the record found under
/// every other id is unchanged; so after any sequence of registrations
/// with distinct ids, each id is found with its inserted record and the
/// size equals the number of ids registered.
pub proof fn lemma_insert_player_effect(s: Seq<PlayerView>, name: Seq<char>)
    requires
        wf_seq(s),
        !has_id(s, name),
    ensures
        ({
            let t = sorted_insert(s, fresh_player(name));
            &&& wf_seq(t)
            &&& t.len() == s.len() + 1
            &&& has_id(t, name)
            &&& lookup(t, name) == fresh_player(name)
            &&& forall|o: Seq<char>|
                #![trigger has_id(t, o)]
                #![trigger lookup(t, o)]
                o != name ==> (has_id(t, o) == has_id(s, o) && (has_id(s, o) ==> lookup(t, o)
                    == lookup(s, o)))
        }),
{
    lemma_idx_of_props(s, name);
    lemma_sorted_insert_wf(s, fresh_player(name));
    lemma_insert_pos_props(s, fresh_player(name));
    assert(has_id(sorted_insert(s, fresh_player(name)), name));
}

/// A match result updates exactly the two named records: the winner's
/// record becomes its adjustment by `+10`, the loser's by `-10`, the
/// standing keeps its size, and membership and the record found under
/// every other id are unchanged.
pub proof fn lemma_score_update_effect(s: Seq<PlayerView>, w: Seq<char>, l: Seq<char>)
    requires
        wf_seq(s),
        has_id(s, w),
        has_id(s, l),
        w != l,
    ensures
        ({
            let t = score_update(s, w, l);
            &&& wf_seq(t)
            &&& t.len() == s.len()
            &&& has_id(t, w) && lookup(t, w) == gained(lookup(s, w), 10i32)
            &&& has_id(t, l) && lookup(t, l) == gained(lookup(s, l), -10i32)
            &&& forall|o: Seq<char>|
                #![trigger has_id(t, o)]
                #![trigger lookup(t, o)]
                o != w && o != l ==> (has_id(t, o) == has_id(s, o) && (has_id(s, o) ==> lookup(
                    t,
                    o,
                ) == lookup(s, o)))
        }),
{
    let i = idx_of(s, w);
    lemma_idx_of_props(s, w);
    lemma_idx_of_props(s, l);
    let t1 = remove_id(s, w);
    lemma_remove_wf(s, i);
    assert(has_id(t1, l) && lookup(t1, l) == lookup(s, l));
    let j = idx_of(t1, l);
    lemma_idx_of_props(t1, l);
    let t2 = remove_id(t1, l);
    lemma_remove_wf(t1, j);
    assert(!has_id(t2, w));
    let w1 = gained(lookup(s, w), 10i32);
    let l1 = gained(lookup(s, l), -10i32);
    assert(w1.id == w && l1.id == l);
    lemma_idx_of_props(t2, w);
    lemma_sorted_insert_wf(t2, w1);
    lemma_insert_pos_props(t2, w1);
    let u1 = sorted_insert(t2, w1);
    assert(has_id(u1, w) && lookup(u1, w) == w1);
    assert(!has_id(u1, l));
    lemma_idx_of_props(u1, l);
    lemma_sorted_insert_wf(u1, l1);
    lemma_insert_pos_props(u1, l1);
    let u2 = sorted_insert(u1, l1);
    assert(u2 == score_update(s, w, l));
    assert(has_id(u2, l) && lookup(u2, l) == l1);
    assert(has_id(u2, w) && lookup(u2, w) == lookup(u1, w));
    assert forall|o: Seq<char>|
        #![trigger has_id(u2, o)]
        #![trigger lookup(u2, o)]
        o != w && o != l implies has_id(u2, o) == has_id(s, o) && (has_id(s, o) ==> lookup(u2, o)
        == lookup(s, o)) by {
        assert(has_id(t1, o) == has_id(s, o) && (has_id(s, o) ==> lookup(t1, o) == lookup(s, o)));
        assert(has_id(t2, o) == has_id(t1, o) && (has_id(t1, o) ==> lookup(t2, o) == lookup(
            t1,
            o,
        )));
        assert(has_id(u1, o) == has_id(t2, o) && (has_id(t2, o) ==> lookup(u1, o) == lookup(
            t2,
            o,
        )));
        assert(has_id(u2, o) == has_id(u1, o) && (has_id(u1, o) ==> lookup(u2, o) == lookup(
            u1,
            o,
        )));
    }
}

/// Two match results touching disjoint player pairs yield the same
/// standing in either order of application: no update is lost, and every
/// player's final record equals the sequential application of both
/// results, whichever came first.
pub proof fn lemma_score_updates_commute(
    s: Seq<PlayerView>,
    a: Seq<char>,
    b: Seq<char>,
    c: Seq<char>,
    d: Seq<char>,
)
    requires
        wf_seq(s),
        has_id(s, a),
        has_id(s, b),
        has_id(s, c),
        has_id(s, d),
        a != b,
        c != d,
        a != c,
        a != d,
        b != c,
        b != d,
    ensures
        score_update(score_update(s, a, b), c, d) == score_update(score_update(s, c, d), a, b),
{
    let t1 = score_update(s, a, b);
    let t2 = score_update(s, c, d);
    lemma_score_update_effect(s, a, b);
    lemma_score_update_effect(s, c, d);
    let t12 = score_update(t1, c, d);
    let t21 = score_update(t2, a, b);
    lemma_score_update_effect(t1, c, d);
    lemma_score_update_effect(t2, a, b);
    assert(has_id(t1, c) && has_id(t1, d) && lookup(t1, c) == lookup(s, c) && lookup(t1, d)
        == lookup(s, d));
    assert(has_id(t2, a) && has_id(t2, b) && lookup(t2, a) == lookup(s, a) && lookup(t2, b)
        == lookup(s, b));
    assert(has_id(t12, a) && lookup(t12, a) == lookup(t1, a));
    assert(has_id(t12, b) && lookup(t12, b) == lookup(t1, b));
    assert(has_id(t21, c) && lookup(t21, c) == lookup(t2, c));
    assert(has_id(t21, d) && lookup(t21, d) == lookup(t2, d));
    assert forall|o: Seq<char>|
        #![trigger has_id(t12, o)]
        #![trigger has_id(t21, o)]
        has_id(t12, o) == has_id(t21, o) && (has_id(t12, o) ==> lookup(t12, o) == lookup(
            t21,
            o,
        )) by {
        if o == a || o == b {
            assert(has_id(t12, o) && has_id(t21, o));
        } else if o == c || o == d {
            assert(has_id(t12, o) && has_id(t21, o));
        } else {
            assert(has_id(t12, o) == has_id(t1, o) && has_id(t1, o) == has_id(s, o));
            assert(has_id(t21, o) == has_id(t2, o) && has_id(t2, o) == has_id(s, o));
        }
    }
    lemma_wf_unique(t12, t21);
}

} // verus!
