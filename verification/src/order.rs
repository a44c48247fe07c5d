//! The compound ordering on player records and the theory of standings
//! kept sorted by it.
//!
//! A record's sort key is the triple `(score, increase, id)`, compared
//! ascending; identity lookup uses `id` alone.  A well-formed standing is
//! strictly ascending in the compound key and has pairwise distinct ids.

use vstd::prelude::*;

verus! {

/// Mathematical content of a player record: the score, the last applied
/// delta, and the identity key as a sequence of characters.
pub ghost struct PlayerView {
    pub score: u32,
    pub increase: i32,
    pub id: Seq<char>,
}

/// Strict lexicographic order on character sequences, by Unicode scalar
/// value; a proper prefix sorts before its extensions.
pub open spec fn lex_lt(x: Seq<char>, y: Seq<char>) -> bool
    decreases x.len(),
{
    if y.len() == 0 {
        false
    } else if x.len() == 0 {
        true
    } else if (x[0] as u32) < (y[0] as u32) {
        true
    } else if x[0] == y[0] {
        lex_lt(x.drop_first(), y.drop_first())
    } else {
        false
    }
}

/// Strict compound-key order: by score, then last delta, then identity.
pub open spec fn key_lt(a: PlayerView, b: PlayerView) -> bool {
    ||| a.score < b.score
    ||| (a.score == b.score && a.increase < b.increase)
    ||| (a.score == b.score && a.increase == b.increase && lex_lt(a.id, b.id))
}

pub proof fn lemma_lex_lt_connected(x: Seq<char>, y: Seq<char>)
    requires
        x != y,
    ensures
        lex_lt(x, y) || lex_lt(y, x),
    decreases x.len(),
{
    if x.len() == 0 && y.len() == 0 {
        assert(x =~= y);
    } else if x.len() > 0 && y.len() > 0 {
        if (x[0] as u32) == (y[0] as u32) {
            vstd::utf8::char_u32_cast(x[0], x[0] as u32);
            vstd::utf8::char_u32_cast(y[0], y[0] as u32);
            assert(x[0] == y[0]);
            assert(x.drop_first() != y.drop_first()) by {
                if x.drop_first() == y.drop_first() {
                    assert(x.drop_first().len() == x.len() - 1);
                    assert(y.drop_first().len() == y.len() - 1);
                    assert(x.len() == y.len());
                    assert forall|i: int| 0 <= i < x.len() implies x[i] == y[i] by {
                        if i > 0 {
                            assert(x[i] == x.drop_first()[i - 1]);
                            assert(y[i] == y.drop_first()[i - 1]);
                        }
                    }
                    assert(x =~= y);
                }
            }
            lemma_lex_lt_connected(x.drop_first(), y.drop_first());
        }
    }
}

pub proof fn lemma_lex_lt_asymmetric(x: Seq<char>, y: Seq<char>)
    requires
        lex_lt(x, y),
    ensures
        !lex_lt(y, x),
    decreases x.len(),
{
    if x.len() > 0 && y.len() > 0 && x[0] == y[0] {
        lemma_lex_lt_asymmetric(x.drop_first(), y.drop_first());
    }
}

pub proof fn lemma_lex_lt_transitive(x: Seq<char>, y: Seq<char>, z: Seq<char>)
    requires
        lex_lt(x, y),
        lex_lt(y, z),
    ensures
        lex_lt(x, z),
    decreases x.len(),
{
    if x.len() > 0 && y.len() > 0 && z.len() > 0 && x[0] == y[0] && y[0] == z[0] {
        lemma_lex_lt_transitive(x.drop_first(), y.drop_first(), z.drop_first());
    }
}

/// `lex_lt` is decided by the first position where the two sequences
/// differ; a common prefix can be skipped.
pub proof fn lemma_lex_lt_skip(x: Seq<char>, y: Seq<char>, i: int)
    requires
        0 <= i <= x.len(),
        i <= y.len(),
        forall|k: int| 0 <= k < i ==> x[k] == y[k],
    ensures
        lex_lt(x, y) == lex_lt(x.skip(i), y.skip(i)),
    decreases i,
{
    if i == 0 {
        assert(x.skip(0) =~= x);
        assert(y.skip(0) =~= y);
    } else {
        lemma_lex_lt_skip(x, y, i - 1);
        let xs = x.skip(i - 1);
        let ys = y.skip(i - 1);
        assert(xs.len() == x.len() - i + 1);
        assert(ys.len() == y.len() - i + 1);
        assert(xs[0] == x[i - 1] && ys[0] == y[i - 1]);
        assert(xs[0] == ys[0]);
        assert(xs.drop_first() =~= x.skip(i));
        assert(ys.drop_first() =~= y.skip(i));
    }
}

/// Two records whose compound keys compare neither way are equal in
/// every field.
pub proof fn lemma_key_connected(a: PlayerView, b: PlayerView)
    requires
        !key_lt(a, b),
        !key_lt(b, a),
    ensures
        a == b,
{
    if a.id != b.id {
        lemma_lex_lt_connected(a.id, b.id);
    }
}

pub proof fn lemma_key_asymmetric(a: PlayerView, b: PlayerView)
    requires
        key_lt(a, b),
    ensures
        !key_lt(b, a),
{
    if a.score == b.score && a.increase == b.increase {
        lemma_lex_lt_asymmetric(a.id, b.id);
    }
}

pub proof fn lemma_key_transitive(a: PlayerView, b: PlayerView, c: PlayerView)
    requires
        key_lt(a, b),
        key_lt(b, c),
    ensures
        key_lt(a, c),
{
    if a.score == b.score && b.score == c.score && a.increase == b.increase && b.increase
        == c.increase {
        lemma_lex_lt_transitive(a.id, b.id, c.id);
    }
}

/// Strictly ascending in the compound key.
pub open spec fn sorted(s: Seq<PlayerView>) -> bool {
    forall|i: int, j: int| 0 <= i < j < s.len() ==> key_lt(s[i], s[j])
}

/// No two records share an identity key.
pub open spec fn distinct_ids(s: Seq<PlayerView>) -> bool {
    forall|i: int, j: int| 0 <= i < j < s.len() ==> s[i].id != s[j].id
}

/// A well-formed standing: sorted ascending with pairwise distinct ids.
pub open spec fn wf_seq(s: Seq<PlayerView>) -> bool {
    sorted(s) && distinct_ids(s)
}

/// Index of the first record carrying `id`, or `-1` when none does.
pub open spec fn idx_of(s: Seq<PlayerView>, id: Seq<char>) -> int
    decreases s.len(),
{
    if s.len() == 0 {
        -1
    } else if s[0].id == id {
        0
    } else {
        let r = idx_of(s.drop_first(), id);
        if r == -1 {
            -1
        } else {
            r + 1
        }
    }
}

/// Whether some record carries `id`.
pub open spec fn has_id(s: Seq<PlayerView>, id: Seq<char>) -> bool {
    idx_of(s, id) >= 0
}

/// The record carrying `id`; meaningful only when `has_id` holds.
pub open spec fn lookup(s: Seq<PlayerView>, id: Seq<char>) -> PlayerView
    recommends
        has_id(s, id),
{
    s[idx_of(s, id)]
}

/// `idx_of` finds the first matching index, or reports that none matches.
pub proof fn lemma_idx_of_props(s: Seq<PlayerView>, id: Seq<char>)
    ensures
        idx_of(s, id) == -1 ==> forall|k: int| 0 <= k < s.len() ==> s[k].id != id,
        idx_of(s, id) != -1 ==> {
            &&& 0 <= idx_of(s, id) < s.len()
            &&& s[idx_of(s, id)].id == id
            &&& forall|k: int| 0 <= k < idx_of(s, id) ==> s[k].id != id
        },
    decreases s.len(),
{
    if s.len() > 0 && s[0].id != id {
        lemma_idx_of_props(s.drop_first(), id);
        assert forall|k: int| 1 <= k < s.len() implies s.drop_first()[k - 1] == s[k] by {}
    }
}

/// Under distinct ids, any matching index is the one `idx_of` finds.
pub proof fn lemma_idx_of_unique(s: Seq<PlayerView>, k: int)
    requires
        distinct_ids(s),
        0 <= k < s.len(),
    ensures
        idx_of(s, s[k].id) == k,
        has_id(s, s[k].id),
        lookup(s, s[k].id) == s[k],
{
    lemma_idx_of_props(s, s[k].id);
    let r = idx_of(s, s[k].id);
    if r == -1 {
        assert(s[k].id == s[k].id);
        assert(false);
    }
    if r < k {
        assert(s[r].id != s[k].id);
        assert(false);
    }
    if r > k {
        assert(s[k].id != s[k].id);
        assert(false);
    }
}

/// A position that matches `id` after none that does is the one
/// `idx_of` finds.
pub proof fn lemma_idx_of_at(s: Seq<PlayerView>, id: Seq<char>, i: int)
    requires
        0 <= i < s.len(),
        s[i].id == id,
        forall|k: int| 0 <= k < i ==> s[k].id != id,
    ensures
        idx_of(s, id) == i,
        has_id(s, id),
        lookup(s, id) == s[i],
{
    lemma_idx_of_props(s, id);
    let r = idx_of(s, id);
    if r == -1 {
        assert(s[i].id != id);
        assert(false);
    }
    if r < i {
        assert(s[r].id != id);
        assert(false);
    }
    if r > i {
        assert(s[i].id != id);
        assert(false);
    }
}

/// When no record carries `id`, `idx_of` reports so.
pub proof fn lemma_idx_of_none(s: Seq<PlayerView>, id: Seq<char>)
    requires
        forall|k: int| 0 <= k < s.len() ==> s[k].id != id,
    ensures
        !has_id(s, id),
{
    lemma_idx_of_props(s, id);
    if idx_of(s, id) != -1 {
        assert(s[idx_of(s, id)].id != id);
        assert(false);
    }
}

/// Index at which a record sorts into an ascending standing: the first
/// position holding a strictly greater key, or the end.
pub open spec fn insert_pos(s: Seq<PlayerView>, v: PlayerView) -> int
    decreases s.len(),
{
    if s.len() == 0 {
        0
    } else if key_lt(v, s[0]) {
        0
    } else {
        1 + insert_pos(s.drop_first(), v)
    }
}

pub proof fn lemma_insert_pos_props(s: Seq<PlayerView>, v: PlayerView)
    ensures
        0 <= insert_pos(s, v) <= s.len(),
        forall|k: int| 0 <= k < insert_pos(s, v) ==> !key_lt(v, s[k]),
        insert_pos(s, v) < s.len() ==> key_lt(v, s[insert_pos(s, v)]),
    decreases s.len(),
{
    if s.len() > 0 && !key_lt(v, s[0]) {
        lemma_insert_pos_props(s.drop_first(), v);
        assert forall|k: int| 1 <= k < s.len() implies s.drop_first()[k - 1] == s[k] by {}
    }
}

/// Any index with the first-greater-key property is `insert_pos`.
pub proof fn lemma_insert_pos_unique(s: Seq<PlayerView>, v: PlayerView, i: int)
    requires
        0 <= i <= s.len(),
        forall|k: int| 0 <= k < i ==> !key_lt(v, s[k]),
        i < s.len() ==> key_lt(v, s[i]),
    ensures
        insert_pos(s, v) == i,
{
    lemma_insert_pos_props(s, v);
    let p = insert_pos(s, v);
    if p < i {
        assert(!key_lt(v, s[p]));
        assert(false);
    }
    if i < p {
        assert(!key_lt(v, s[i]));
        assert(false);
    }
}

/// The standing obtained by inserting `v` at its sort position.
pub open spec fn sorted_insert(s: Seq<PlayerView>, v: PlayerView) -> Seq<PlayerView> {
    s.insert(insert_pos(s, v), v)
}

/// Sorted insertion of a record whose id is fresh preserves
/// well-formedness and adds exactly that record.
pub proof fn lemma_sorted_insert_wf(s: Seq<PlayerView>, v: PlayerView)
    requires
        wf_seq(s),
        forall|k: int| 0 <= k < s.len() ==> s[k].id != v.id,
    ensures
        wf_seq(sorted_insert(s, v)),
        sorted_insert(s, v).len() == s.len() + 1,
        idx_of(sorted_insert(s, v), v.id) == insert_pos(s, v),
        lookup(sorted_insert(s, v), v.id) == v,
        forall|o: Seq<char>|
            o != v.id ==> has_id(sorted_insert(s, v), o) == has_id(s, o) && (has_id(s, o)
                ==> lookup(sorted_insert(s, v), o) == lookup(s, o)),
{
    let p = insert_pos(s, v);
    let t = s.insert(p, v);
    lemma_insert_pos_props(s, v);
    assert forall|k: int| 0 <= k < s.len() implies s[k] != v by {
        if s[k] == v {
            assert(s[k].id == v.id);
        }
    }
    assert forall|k: int| 0 <= k < p implies key_lt(s[k], v) by {
        if !key_lt(s[k], v) {
            lemma_key_connected(v, s[k]);
        }
    }
    assert forall|k: int| p <= k < s.len() implies key_lt(v, s[k]) by {
        if k > p {
            if p < s.len() {
                lemma_key_transitive(v, s[p], s[k]);
            }
        }
    }
    // positions in t: k < p maps to s[k]; t[p] == v; k > p maps to s[k - 1]
    assert forall|i: int, j: int| 0 <= i < j < t.len() implies key_lt(t[i], t[j]) by {
        if i == p {
            assert(t[j] == s[j - 1] && p <= j - 1 < s.len());
        } else if j == p {
            assert(t[i] == s[i] && i < p);
        } else if i < p && j > p {
            assert(t[i] == s[i] && t[j] == s[j - 1]);
            if j - 1 == i {
                assert(key_lt(s[i], v) && key_lt(v, s[j - 1]));
                lemma_key_transitive(s[i], v, s[j - 1]);
                assert(key_lt(s[i], s[i]));
                lemma_key_asymmetric(s[i], s[i]);
            }
        }
    }
    assert(sorted(t));
    assert forall|i: int, j: int| 0 <= i < j < t.len() implies t[i].id != t[j].id by {
        if i != p && j != p {
            let i0: int = if i < p { i } else { i - 1 };
            let j0: int = if j < p { j } else { j - 1 };
            assert(t[i] == s[i0] && t[j] == s[j0]);
        }
    }
    assert(distinct_ids(t));
    assert(t[p] == v);
    lemma_idx_of_unique(t, p);
    assert forall|o: Seq<char>|
        o != v.id implies has_id(t, o) == has_id(s, o) && (has_id(s, o) ==> lookup(t, o)
        == lookup(s, o)) by {
        lemma_idx_of_props(s, o);
        lemma_idx_of_props(t, o);
        if has_id(s, o) {
            let k = idx_of(s, o);
            let k2: int = if k < p {
                k
            } else {
                k + 1
            };
            assert(t[k2] == s[k]);
            lemma_idx_of_unique(t, k2);
        } else {
            if has_id(t, o) {
                let k2 = idx_of(t, o);
                assert(k2 != p);
                let k0: int = if k2 < p { k2 } else { k2 - 1 };
                assert(t[k2] == s[k0]);
                assert(s[k0].id != o);
                assert(false);
            }
        }
    }
}

/// Removing the record at a position preserves well-formedness, and
/// lookups of every other id are unchanged.
pub proof fn lemma_remove_wf(s: Seq<PlayerView>, i: int)
    requires
        wf_seq(s),
        0 <= i < s.len(),
    ensures
        wf_seq(s.remove(i)),
        s.remove(i).len() == s.len() - 1,
        !has_id(s.remove(i), s[i].id),
        forall|o: Seq<char>|
            o != s[i].id ==> has_id(s.remove(i), o) == has_id(s, o) && (has_id(s, o)
                ==> lookup(s.remove(i), o) == lookup(s, o)),
{
    let t = s.remove(i);
    assert forall|k: int| 0 <= k < t.len() implies t[k] == (if k < i {
        s[k]
    } else {
        s[k + 1]
    }) by {}
    assert(sorted(t));
    assert(distinct_ids(t));
    lemma_idx_of_props(t, s[i].id);
    if has_id(t, s[i].id) {
        let k2 = idx_of(t, s[i].id);
        let k0: int = if k2 < i { k2 } else { k2 + 1 };
        assert(s[k0].id == s[i].id && k0 != i);
        assert(false);
    }
    assert forall|o: Seq<char>|
        o != s[i].id implies has_id(t, o) == has_id(s, o) && (has_id(s, o) ==> lookup(t, o)
        == lookup(s, o)) by {
        lemma_idx_of_props(s, o);
        lemma_idx_of_props(t, o);
        if has_id(s, o) {
            let k = idx_of(s, o);
            assert(k != i);
            let k2: int = if k < i {
                k
            } else {
                k - 1
            };
            assert(t[k2] == s[k]);
            lemma_idx_of_unique(t, k2);
        } else {
            if has_id(t, o) {
                let k2 = idx_of(t, o);
                let k0: int = if k2 < i { k2 } else { k2 + 1 };
                assert(t[k2] == s[k0]);
                assert(false);
            }
        }
    }
}

proof fn lemma_key_lt_chain(s: Seq<PlayerView>, i: int, j: int)
    requires
        forall|k: int| 0 <= k < s.len() - 1 ==> key_lt(#[trigger] s[k], s[k + 1]),
        0 <= i < j < s.len(),
    ensures
        key_lt(s[i], s[j]),
    decreases j - i,
{
    if j > i + 1 {
        lemma_key_lt_chain(s, i, j - 1);
        lemma_key_transitive(s[i], s[j - 1], s[j]);
    }
}

/// A standing whose adjacent records ascend strictly is sorted.
pub proof fn lemma_sorted_from_adjacent(s: Seq<PlayerView>)
    requires
        forall|k: int| 0 <= k < s.len() - 1 ==> key_lt(#[trigger] s[k], s[k + 1]),
    ensures
        sorted(s),
{
    assert forall|i: int, j: int| 0 <= i < j < s.len() implies key_lt(s[i], s[j]) by {
        lemma_key_lt_chain(s, i, j);
    }
}

/// A well-formed standing is determined by its lookups: two standings of
/// equal size agreeing on membership and on every looked-up record are
/// equal as sequences.
pub proof fn lemma_wf_unique(t1: Seq<PlayerView>, t2: Seq<PlayerView>)
    requires
        wf_seq(t1),
        wf_seq(t2),
        t1.len() == t2.len(),
        forall|o: Seq<char>|
            #![trigger has_id(t1, o)]
            #![trigger has_id(t2, o)]
            has_id(t1, o) == has_id(t2, o) && (has_id(t1, o) ==> lookup(t1, o) == lookup(t2, o)),
    ensures
        t1 == t2,
    decreases t1.len(),
{
    if t1.len() == 0 {
        assert(t1 =~= t2);
    } else {
        lemma_idx_of_unique(t1, 0);
        assert(has_id(t2, t1[0].id));
        lemma_idx_of_props(t2, t1[0].id);
        let k = idx_of(t2, t1[0].id);
        assert(t2[k] == lookup(t2, t1[0].id) && t2[k] == t1[0]);
        lemma_idx_of_unique(t2, 0);
        assert(has_id(t1, t2[0].id));
        lemma_idx_of_props(t1, t2[0].id);
        let m = idx_of(t1, t2[0].id);
        assert(t1[m] == t2[0]);
        if k > 0 && m > 0 {
            assert(key_lt(t2[0], t2[k]) && key_lt(t1[0], t1[m]));
            lemma_key_transitive(t1[0], t1[m], t2[k]);
            lemma_key_asymmetric(t1[0], t1[0]);
            assert(false);
        }
        assert(t1[0] == t2[0]);
        let r1 = t1.remove(0);
        let r2 = t2.remove(0);
        lemma_remove_wf(t1, 0);
        lemma_remove_wf(t2, 0);
        assert forall|o: Seq<char>|
            #![trigger has_id(r1, o)]
            #![trigger has_id(r2, o)]
            has_id(r1, o) == has_id(r2, o) && (has_id(r1, o) ==> lookup(r1, o) == lookup(
                r2,
                o,
            )) by {
            if o == t1[0].id {
                assert(!has_id(r1, o) && !has_id(r2, o));
            } else {
                assert(has_id(r1, o) == has_id(t1, o));
                assert(has_id(r2, o) == has_id(t2, o));
            }
        }
        lemma_wf_unique(r1, r2);
        assert forall|i: int| 0 <= i < t1.len() implies t1[i] == t2[i] by {
            if i > 0 {
                assert(t1[i] == r1[i - 1] && t2[i] == r2[i - 1]);
            }
        }
        assert(t1 =~= t2);
    }
}

} // verus!
