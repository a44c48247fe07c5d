//! The snapshot codec and the persistence interface.
//!
//! A registry snapshot is framed as bytes by the library itself, so that
//! a persistence backend only stores and retrieves opaque bytes.  The
//! encoding is canonical: `decode_snapshot` accepts exactly the byte
//! strings that `encode_snapshot` produces, and yields exactly the
//! snapshot that produced them.
//!
//! Layout, all integers little-endian: the number of communities as 8
//! bytes, then per community its id as 8 bytes and its standing; a
//! standing is its record count as 8 bytes, then per record the byte
//! length of the id as 8 bytes, the id in UTF-8, the score as 4 bytes,
//! and the last delta as a sign byte followed by its magnitude as 4
//! bytes.

use vstd::prelude::*;
use vstd::bytes::{
    spec_u32_to_le_bytes, spec_u64_to_le_bytes, u32_to_le_bytes, u64_to_le_bytes,
    u32_from_le_bytes, u64_from_le_bytes,
};
use vstd::slice::{slice_subrange, slice_to_vec};
use vstd::string::StrSliceExecFns;
use vstd::utf8::{encode_utf8, decode_utf8, valid_utf8};
use crate::order::{PlayerView, wf_seq};
use crate::system::{Player, Leaderboard, Error, views_of};
use crate::registry::{Registry, entry_views};

verus! {

/// The magnitude of a delta, as encoded beside its sign byte.
pub open spec fn mag_of(x: i32) -> u32 {
    if x < 0 {
        (-(x as int)) as u32
    } else {
        x as u32
    }
}

/// A delta as bytes: a sign byte, then the magnitude.
pub open spec fn enc_i32(x: i32) -> Seq<u8> {
    seq![
        (if x < 0 {
            1u8
        } else {
            0u8
        }),
    ] + spec_u32_to_le_bytes(mag_of(x))
}

/// One record as bytes: id length, id in UTF-8, score, delta.
pub open spec fn enc_player(p: PlayerView) -> Seq<u8> {
    spec_u64_to_le_bytes(encode_utf8(p.id).len() as u64) + encode_utf8(p.id)
        + spec_u32_to_le_bytes(p.score) + enc_i32(p.increase)
}

/// A standing's records as bytes, in standing order.
pub open spec fn enc_players(s: Seq<PlayerView>) -> Seq<u8>
    decreases s.len(),
{
    if s.len() == 0 {
        Seq::empty()
    } else {
        enc_player(s[0]) + enc_players(s.drop_first())
    }
}

/// One standing as bytes: record count, then the records.
pub open spec fn enc_lb(s: Seq<PlayerView>) -> Seq<u8> {
    spec_u64_to_le_bytes(s.len() as u64) + enc_players(s)
}

/// The registry's entries as bytes, in registry order.
pub open spec fn enc_entries(m: Seq<(u64, Seq<PlayerView>)>) -> Seq<u8>
    decreases m.len(),
{
    if m.len() == 0 {
        Seq::empty()
    } else {
        spec_u64_to_le_bytes(m[0].0) + enc_lb(m[0].1) + enc_entries(m.drop_first())
    }
}

/// A whole registry snapshot as bytes: community count, then entries.
pub open spec fn enc_reg(m: Seq<(u64, Seq<PlayerView>)>) -> Seq<u8> {
    spec_u64_to_le_bytes(m.len() as u64) + enc_entries(m)
}

proof fn lemma_enc_players_snoc(s: Seq<PlayerView>, i: int)
    requires
        0 <= i < s.len(),
    ensures
        enc_players(s.take(i + 1)) == enc_players(s.take(i)) + enc_player(s[i]),
    decreases i,
{
    let t = s.take(i + 1);
    if i == 0 {
        assert(t.drop_first() =~= s.take(0));
        assert(enc_players(s.take(0)) =~= Seq::<u8>::empty());
        assert(enc_players(t) == enc_player(s[0]) + enc_players(s.take(0)));
        assert(enc_player(s[0]) + Seq::<u8>::empty() =~= enc_player(s[0]));
        assert(Seq::<u8>::empty() + enc_player(s[0]) =~= enc_player(s[0]));
    } else {
        let s1 = s.drop_first();
        lemma_enc_players_snoc(s1, i - 1);
        assert(t[0] == s[0]);
        assert(t.drop_first() =~= s1.take(i));
        assert(s.take(i).drop_first() =~= s1.take(i - 1));
        assert(s1[i - 1] == s[i]);
        assert(enc_players(t) == enc_player(s[0]) + enc_players(s1.take(i)));
        assert(enc_players(s1.take(i)) == enc_players(s1.take(i - 1)) + enc_player(s[i]));
        assert(enc_players(s.take(i)) == enc_player(s[0]) + enc_players(s1.take(i - 1)));
        assert((enc_player(s[0]) + (enc_players(s1.take(i - 1)) + enc_player(s[i]))) =~= ((
        enc_player(s[0]) + enc_players(s1.take(i - 1))) + enc_player(s[i])));
    }
}

proof fn lemma_enc_entries_snoc(m: Seq<(u64, Seq<PlayerView>)>, i: int)
    requires
        0 <= i < m.len(),
    ensures
        enc_entries(m.take(i + 1)) == enc_entries(m.take(i)) + (spec_u64_to_le_bytes(m[i].0)
            + enc_lb(m[i].1)),
    decreases i,
{
    let e = spec_u64_to_le_bytes(m[i].0) + enc_lb(m[i].1);
    let t = m.take(i + 1);
    if i == 0 {
        assert(t.drop_first() =~= m.take(0));
        assert(enc_entries(m.take(0)) =~= Seq::<u8>::empty());
        assert(enc_entries(t) == spec_u64_to_le_bytes(m[0].0) + enc_lb(m[0].1) + enc_entries(
            m.take(0),
        ));
        assert(spec_u64_to_le_bytes(m[0].0) + enc_lb(m[0].1) + Seq::<u8>::empty() =~= e);
        assert(Seq::<u8>::empty() + e =~= e);
    } else {
        let m1 = m.drop_first();
        lemma_enc_entries_snoc(m1, i - 1);
        let h = spec_u64_to_le_bytes(m[0].0) + enc_lb(m[0].1);
        assert(t[0] == m[0]);
        assert(t.drop_first() =~= m1.take(i));
        assert(m.take(i).drop_first() =~= m1.take(i - 1));
        assert(m1[i - 1] == m[i]);
        assert(enc_entries(t) == h + enc_entries(m1.take(i)));
        assert(enc_entries(m1.take(i)) == enc_entries(m1.take(i - 1)) + e);
        assert(enc_entries(m.take(i)) == h + enc_entries(m1.take(i - 1)));
        assert((h + (enc_entries(m1.take(i - 1)) + e)) =~= ((h + enc_entries(m1.take(i - 1)))
            + e));
    }
}

/// Appends one record's encoding.
fn push_player(out: &mut Vec<u8>, p: &Player)
    ensures
        final(out)@ == old(out)@ + enc_player(p@),
        encode_utf8(p@.id).len() <= usize::MAX,
{
    let ghost start = out@;
    let mut id_bytes = p.id.as_str().as_bytes_vec();
    proof {
        assert(id_bytes@ == encode_utf8(p@.id));
    }
    let mut len_bytes = u64_to_le_bytes(id_bytes.len() as u64);
    out.append(&mut len_bytes);
    out.append(&mut id_bytes);
    let mut score_bytes = u32_to_le_bytes(p.score);
    out.append(&mut score_bytes);
    if p.increase < 0 {
        out.push(1u8);
    } else {
        out.push(0u8);
    }
    let magnitude: u32 = if p.increase < 0 {
        (-(p.increase as i64)) as u32
    } else {
        p.increase as u32
    };
    proof {
        assert(magnitude == mag_of(p.increase));
    }
    let mut mag_bytes = u32_to_le_bytes(magnitude);
    out.append(&mut mag_bytes);
    proof {
        assert(out@ =~= start + enc_player(p@));
    }
}

/// Appends one standing's encoding.
fn push_leaderboard(out: &mut Vec<u8>, lb: &Leaderboard)
    ensures
        final(out)@ == old(out)@ + enc_lb(lb@),
        bounded_standing(lb@),
{
    let ghost start = out@;
    let ghost s = lb@;
    let n = lb.len();
    let mut count_bytes = u64_to_le_bytes(n as u64);
    out.append(&mut count_bytes);
    let mut i: usize = 0;
    while i < n
        invariant
            i <= n,
            n == s.len(),
            s == lb@,
            out@ == start + spec_u64_to_le_bytes(n as u64) + enc_players(s.take(i as int)),
            forall|k: int| 0 <= k < i ==> encode_utf8((#[trigger] s[k]).id).len() <= usize::MAX,
        decreases n - i,
    {
        push_player(out, lb.get(i));
        proof {
            lemma_enc_players_snoc(s, i as int);
            assert(out@ =~= start + spec_u64_to_le_bytes(n as u64) + enc_players(
                s.take(i + 1),
            ));
        }
        i = i + 1;
    }
    proof {
        assert(s.take(n as int) =~= s);
        assert(out@ =~= start + enc_lb(s));
    }
}

/// Encodes a full registry snapshot canonically.  Any encoded snapshot
/// is realizable, so `decode_snapshot`'s contract applies to its bytes:
/// for a well-formed registry, decoding what was encoded yields exactly
/// the registry that was encoded.
pub fn encode_snapshot(reg: &Registry) -> (r: Vec<u8>)
    ensures
        r@ == enc_reg(reg@),
        bounded_reg(reg@),
{
    let ghost m = reg@;
    let mut out: Vec<u8> = Vec::new();
    let n = reg.len();
    let mut count_bytes = u64_to_le_bytes(n as u64);
    out.append(&mut count_bytes);
    let mut i: usize = 0;
    while i < n
        invariant
            i <= n,
            n == m.len(),
            m == reg@,
            out@ == spec_u64_to_le_bytes(n as u64) + enc_entries(m.take(i as int)),
            forall|k: int| 0 <= k < i ==> bounded_standing((#[trigger] m[k]).1),
        decreases n - i,
    {
        let entry = reg.entry_at(i);
        let mut id_bytes = u64_to_le_bytes(entry.0);
        out.append(&mut id_bytes);
        push_leaderboard(&mut out, &entry.1);
        proof {
            lemma_enc_entries_snoc(m, i as int);
            assert(out@ =~= spec_u64_to_le_bytes(n as u64) + enc_entries(m.take(i + 1)));
        }
        i = i + 1;
    }
    proof {
        assert(m.take(n as int) =~= m);
        assert(out@ =~= enc_reg(m));
    }
    out
}

/// Relies on `String::from_utf8`: it succeeds exactly on valid UTF-8 and
/// yields the characters that the bytes encode.
#[verifier::external_body]
fn string_from_utf8(bytes: Vec<u8>) -> (r: Option<String>)
    ensures
        r matches Some(s) ==> valid_utf8(bytes@) && s@ == decode_utf8(bytes@),
        r is None ==> !valid_utf8(bytes@),
{
    match String::from_utf8(bytes) {
        Ok(s) => Some(s),
        Err(_) => None,
    }
}

proof fn lemma_subrange_split(b: Seq<u8>, s: int, e: int, u1: Seq<u8>, u2: Seq<u8>)
    requires
        0 <= s <= e <= b.len(),
        b.subrange(s, e) == u1 + u2,
    ensures
        u1.len() + u2.len() == e - s,
        b.subrange(s, s + u1.len() as int) == u1,
        b.subrange(s + u1.len() as int, e) == u2,
{
    assert((u1 + u2).len() == e - s);
    assert forall|i: int| 0 <= i < u1.len() implies b.subrange(s, s + u1.len() as int)[i]
        == u1[i] by {
        assert(b.subrange(s, e)[i] == (u1 + u2)[i]);
    }
    assert(b.subrange(s, s + u1.len() as int) =~= u1);
    assert forall|i: int| 0 <= i < u2.len() implies b.subrange(s + u1.len() as int, e)[i]
        == u2[i] by {
        assert(b.subrange(s, e)[u1.len() + i] == (u1 + u2)[u1.len() + i]);
        assert(b.subrange(s, e)[u1.len() + i] == b[s + u1.len() + i]);
        assert(b.subrange(s + u1.len() as int, e)[i] == b[s + u1.len() + i]);
        assert((u1 + u2)[u1.len() + i] == u2[i]);
    }
    assert(b.subrange(s + u1.len() as int, e) =~= u2);
}

proof fn lemma_enc_player_len(p: PlayerView)
    ensures
        enc_player(p).len() == 17 + encode_utf8(p.id).len(),
{
    vstd::bytes::lemma_auto_spec_u64_to_from_le_bytes();
    vstd::bytes::lemma_auto_spec_u32_to_from_le_bytes();
    assert(spec_u64_to_le_bytes(encode_utf8(p.id).len() as u64).len() == 8);
    assert(spec_u32_to_le_bytes(p.score).len() == 4);
    assert(spec_u32_to_le_bytes(mag_of(p.increase)).len() == 4);
}

proof fn lemma_enc_players_concat(a: Seq<PlayerView>, c: Seq<PlayerView>)
    ensures
        enc_players(a + c) == enc_players(a) + enc_players(c),
    decreases a.len(),
{
    if a.len() == 0 {
        assert(a + c =~= c);
        assert(enc_players(a) =~= Seq::<u8>::empty());
        assert(Seq::<u8>::empty() + enc_players(c) =~= enc_players(c));
    } else {
        assert((a + c).len() > 0);
        assert((a + c)[0] == a[0]);
        assert((a + c).drop_first() =~= a.drop_first() + c);
        lemma_enc_players_concat(a.drop_first(), c);
        assert(enc_players(a + c) == enc_player(a[0]) + (enc_players(a.drop_first())
            + enc_players(c)));
        assert(enc_player(a[0]) + (enc_players(a.drop_first()) + enc_players(c)) =~= (enc_player(
            a[0],
        ) + enc_players(a.drop_first())) + enc_players(c));
    }
}

proof fn lemma_enc_players_skip(s: Seq<PlayerView>, i: int)
    requires
        0 <= i < s.len(),
    ensures
        enc_players(s.skip(i)) == enc_player(s[i]) + enc_players(s.skip(i + 1)),
{
    let t = s.skip(i);
    assert(t.len() == s.len() - i);
    assert(t[0] == s[i]);
    assert(t.drop_first() =~= s.skip(i + 1));
}

proof fn lemma_enc_entries_concat(a: Seq<(u64, Seq<PlayerView>)>, c: Seq<(u64, Seq<PlayerView>)>)
    ensures
        enc_entries(a + c) == enc_entries(a) + enc_entries(c),
    decreases a.len(),
{
    if a.len() == 0 {
        assert(a + c =~= c);
        assert(enc_entries(a) =~= Seq::<u8>::empty());
        assert(Seq::<u8>::empty() + enc_entries(c) =~= enc_entries(c));
    } else {
        assert((a + c).len() > 0);
        assert((a + c)[0] == a[0]);
        assert((a + c).drop_first() =~= a.drop_first() + c);
        lemma_enc_entries_concat(a.drop_first(), c);
        let h = spec_u64_to_le_bytes(a[0].0) + enc_lb(a[0].1);
        assert(enc_entries(a + c) == h + (enc_entries(a.drop_first()) + enc_entries(c)));
        assert(h + (enc_entries(a.drop_first()) + enc_entries(c)) =~= (h + enc_entries(
            a.drop_first(),
        )) + enc_entries(c));
    }
}

/// The bytes from `off` frame exactly one record's encoding.
pub open spec fn player_frame(b: Seq<u8>, off: int, e: PlayerView) -> bool {
    &&& encode_utf8(e.id).len() <= usize::MAX
    &&& 0 <= off
    &&& off + enc_player(e).len() <= b.len()
    &&& b.subrange(off, off + enc_player(e).len() as int) == enc_player(e)
}

proof fn lemma_player_segments(b: Seq<u8>, off: int, e: PlayerView)
    requires
        player_frame(b, off, e),
    ensures
        ({
            let ulen = encode_utf8(e.id).len() as int;
            &&& off + 17 + ulen <= b.len()
            &&& b.subrange(off, off + 8) == spec_u64_to_le_bytes(encode_utf8(e.id).len() as u64)
            &&& b.subrange(off + 8, off + 8 + ulen) == encode_utf8(e.id)
            &&& b.subrange(off + 8 + ulen, off + 12 + ulen) == spec_u32_to_le_bytes(e.score)
            &&& b[off + 12 + ulen] == (if e.increase < 0 {
                1u8
            } else {
                0u8
            })
            &&& b.subrange(off + 13 + ulen, off + 17 + ulen) == spec_u32_to_le_bytes(
                mag_of(e.increase),
            )
        }),
{
    lemma_enc_player_len(e);
    let u = encode_utf8(e.id);
    let l8 = spec_u64_to_le_bytes(u.len() as u64);
    let sc = spec_u32_to_le_bytes(e.score);
    let sg = seq![
        (if e.increase < 0 {
            1u8
        } else {
            0u8
        }),
    ];
    let mg = spec_u32_to_le_bytes(mag_of(e.increase));
    vstd::bytes::lemma_auto_spec_u64_to_from_le_bytes();
    vstd::bytes::lemma_auto_spec_u32_to_from_le_bytes();
    assert(l8.len() == 8 && sc.len() == 4 && mg.len() == 4);
    let e_end = off + enc_player(e).len() as int;
    assert(enc_player(e) =~= l8 + (u + (sc + (sg + mg))));
    lemma_subrange_split(b, off, e_end, l8, u + (sc + (sg + mg)));
    lemma_subrange_split(b, off + 8, e_end, u, sc + (sg + mg));
    lemma_subrange_split(b, off + 8 + u.len() as int, e_end, sc, sg + mg);
    lemma_subrange_split(b, off + 12 + u.len() as int, e_end, sg, mg);
    assert(b.subrange(off + 12 + u.len() as int, off + 13 + u.len() as int)[0] == b[off + 12
        + u.len() as int]);
}

/// The bytes from `off` frame exactly one well-formed standing's
/// encoding.
pub open spec fn lb_frame(b: Seq<u8>, off: int, s: Seq<PlayerView>) -> bool {
    &&& bounded_standing(s)
    &&& wf_seq(s)
    &&& 0 <= off
    &&& off + enc_lb(s).len() <= b.len()
    &&& b.subrange(off, off + enc_lb(s).len() as int) == enc_lb(s)
}

proof fn lemma_lb_segments(b: Seq<u8>, off: int, s: Seq<PlayerView>)
    requires
        lb_frame(b, off, s),
    ensures
        enc_lb(s).len() == 8 + enc_players(s).len(),
        b.subrange(off, off + 8) == spec_u64_to_le_bytes(s.len() as u64),
        b.subrange(off + 8, off + 8 + enc_players(s).len() as int) == enc_players(s),
{
    vstd::bytes::lemma_auto_spec_u64_to_from_le_bytes();
    assert(spec_u64_to_le_bytes(s.len() as u64).len() == 8);
    lemma_subrange_split(
        b,
        off,
        off + enc_lb(s).len() as int,
        spec_u64_to_le_bytes(s.len() as u64),
        enc_players(s),
    );
}

proof fn lemma_players_at(b: Seq<u8>, off0: int, s: Seq<PlayerView>, i: int)
    requires
        0 <= off0,
        off0 + enc_players(s).len() <= b.len(),
        b.subrange(off0, off0 + enc_players(s).len() as int) == enc_players(s),
        0 <= i < s.len(),
    ensures
        ({
            let pre = enc_players(s.take(i)).len() as int;
            &&& pre + enc_player(s[i]).len() <= enc_players(s).len()
            &&& b.subrange(off0 + pre, off0 + pre + enc_player(s[i]).len() as int) == enc_player(
                s[i],
            )
            &&& enc_players(s.take(i + 1)).len() == pre + enc_player(s[i]).len()
        }),
{
    assert(s =~= s.take(i) + s.skip(i));
    lemma_enc_players_concat(s.take(i), s.skip(i));
    lemma_enc_players_skip(s, i);
    lemma_enc_players_snoc(s, i);
    let pre = enc_players(s.take(i)).len() as int;
    let e_end = off0 + enc_players(s).len() as int;
    assert(enc_players(s) == enc_players(s.take(i)) + (enc_player(s[i]) + enc_players(
        s.skip(i + 1),
    ))) by {
        assert(enc_players(s.take(i)) + (enc_player(s[i]) + enc_players(s.skip(i + 1)))
            =~= enc_players(s.take(i)) + enc_players(s.skip(i)));
    }
    lemma_subrange_split(
        b,
        off0,
        e_end,
        enc_players(s.take(i)),
        enc_player(s[i]) + enc_players(s.skip(i + 1)),
    );
    lemma_subrange_split(
        b,
        off0 + pre,
        e_end,
        enc_player(s[i]),
        enc_players(s.skip(i + 1)),
    );
}

proof fn lemma_entries_at(b: Seq<u8>, off0: int, m: Seq<(u64, Seq<PlayerView>)>, i: int)
    requires
        0 <= off0,
        off0 + enc_entries(m).len() <= b.len(),
        b.subrange(off0, off0 + enc_entries(m).len() as int) == enc_entries(m),
        0 <= i < m.len(),
    ensures
        ({
            let pre = enc_entries(m.take(i)).len() as int;
            &&& pre + 8 + enc_lb(m[i].1).len() <= enc_entries(m).len()
            &&& b.subrange(off0 + pre, off0 + pre + 8) == spec_u64_to_le_bytes(m[i].0)
            &&& b.subrange(off0 + pre + 8, off0 + pre + 8 + enc_lb(m[i].1).len() as int)
                == enc_lb(m[i].1)
            &&& enc_entries(m.take(i + 1)).len() == pre + 8 + enc_lb(m[i].1).len()
        }),
{
    assert(m =~= m.take(i) + m.skip(i));
    lemma_enc_entries_concat(m.take(i), m.skip(i));
    lemma_enc_entries_snoc(m, i);
    vstd::bytes::lemma_auto_spec_u64_to_from_le_bytes();
    assert(spec_u64_to_le_bytes(m[i].0).len() == 8);
    let t = m.skip(i);
    assert(t[0] == m[i]);
    assert(t.drop_first() =~= m.skip(i + 1));
    assert(enc_entries(m.skip(i)) == spec_u64_to_le_bytes(m[i].0) + enc_lb(m[i].1) + enc_entries(
        m.skip(i + 1),
    ));
    let pre = enc_entries(m.take(i)).len() as int;
    let e_end = off0 + enc_entries(m).len() as int;
    assert(enc_entries(m) == enc_entries(m.take(i)) + (spec_u64_to_le_bytes(m[i].0) + (enc_lb(
        m[i].1,
    ) + enc_entries(m.skip(i + 1))))) by {
        assert(enc_entries(m.take(i)) + (spec_u64_to_le_bytes(m[i].0) + (enc_lb(m[i].1)
            + enc_entries(m.skip(i + 1)))) =~= enc_entries(m.take(i)) + enc_entries(m.skip(i)));
    }
    lemma_subrange_split(
        b,
        off0,
        e_end,
        enc_entries(m.take(i)),
        spec_u64_to_le_bytes(m[i].0) + (enc_lb(m[i].1) + enc_entries(m.skip(i + 1))),
    );
    lemma_subrange_split(
        b,
        off0 + pre,
        e_end,
        spec_u64_to_le_bytes(m[i].0),
        enc_lb(m[i].1) + enc_entries(m.skip(i + 1)),
    );
    lemma_subrange_split(
        b,
        off0 + pre + 8,
        e_end,
        enc_lb(m[i].1),
        enc_entries(m.skip(i + 1)),
    );
}

fn read_u64(b: &Vec<u8>, off: usize) -> (r: Option<(u64, usize)>)
    ensures
        match r {
            Some(p) => off + 8 <= b@.len() && p.1 == off + 8 && spec_u64_to_le_bytes(p.0)
                == b@.subrange(off as int, off as int + 8),
            None => b@.len() < off + 8,
        },
{
    if off > b.len() || b.len() - off < 8 {
        return None;
    }
    let sub = slice_subrange(b.as_slice(), off, off + 8);
    let x = u64_from_le_bytes(sub);
    proof {
        vstd::bytes::lemma_auto_spec_u64_to_from_le_bytes();
        assert(spec_u64_to_le_bytes(x) == sub@);
    }
    Some((x, off + 8))
}

fn read_u32(b: &Vec<u8>, off: usize) -> (r: Option<(u32, usize)>)
    ensures
        match r {
            Some(p) => off + 4 <= b@.len() && p.1 == off + 4 && spec_u32_to_le_bytes(p.0)
                == b@.subrange(off as int, off as int + 4),
            None => b@.len() < off + 4,
        },
{
    if off > b.len() || b.len() - off < 4 {
        return None;
    }
    let sub = slice_subrange(b.as_slice(), off, off + 4);
    let x = u32_from_le_bytes(sub);
    proof {
        vstd::bytes::lemma_auto_spec_u32_to_from_le_bytes();
        assert(spec_u32_to_le_bytes(x) == sub@);
    }
    Some((x, off + 4))
}

fn read_bytes(b: &Vec<u8>, off: usize, n: usize) -> (r: Option<(Vec<u8>, usize)>)
    ensures
        match r {
            Some(p) => off + n <= b@.len() && p.1 == off + n && p.0@ == b@.subrange(
                off as int,
                off as int + n as int,
            ),
            None => b@.len() < off + n,
        },
{
    if off > b.len() || b.len() - off < n {
        return None;
    }
    let sub = slice_subrange(b.as_slice(), off, off + n);
    Some((slice_to_vec(sub), off + n))
}

fn read_player(b: &Vec<u8>, start: usize, expected: Ghost<PlayerView>) -> (r: Option<
    (Player, usize),
>)
    ensures
        r matches Some(pr) ==> pr.1 <= b@.len(),
        player_frame(b@, start as int, expected@) ==> (r matches Some(pr) && pr.0@ == expected@
            && pr.1 == start + enc_player(expected@).len()),
{
    let ghost e = expected@;
    let ghost framed = player_frame(b@, start as int, e);
    proof {
        if framed {
            lemma_player_segments(b@, start as int, e);
            lemma_enc_player_len(e);
        }
    }
    let (id_len, off1) = match read_u64(b, start) {
        Some(p) => p,
        None => {
            proof {
                if framed {
                    assert(false);
                }
            }
            return None;
        },
    };
    proof {
        if framed {
            lemma_u64_inj(id_len, encode_utf8(e.id).len() as u64);
            assert(id_len == encode_utf8(e.id).len());
        }
    }
    if id_len > usize::MAX as u64 {
        proof {
            if framed {
                assert(false);
            }
        }
        return None;
    }
    let (id_bytes, off2) = match read_bytes(b, off1, id_len as usize) {
        Some(p) => p,
        None => {
            proof {
                if framed {
                    assert(false);
                }
            }
            return None;
        },
    };
    proof {
        if framed {
            assert(id_bytes@ == encode_utf8(e.id));
        }
    }
    let id = match string_from_utf8(id_bytes) {
        Some(st) => st,
        None => {
            proof {
                if framed {
                    vstd::utf8::encode_utf8_valid_utf8(e.id);
                    assert(false);
                }
            }
            return None;
        },
    };
    proof {
        if framed {
            vstd::utf8::encode_utf8_decode_utf8(e.id);
            assert(id@ == e.id);
        }
    }
    let (score, off3) = match read_u32(b, off2) {
        Some(p) => p,
        None => {
            proof {
                if framed {
                    assert(false);
                }
            }
            return None;
        },
    };
    proof {
        if framed {
            lemma_u32_inj(score, e.score);
        }
    }
    let (sign, off4) = if off3 < b.len() {
        (b[off3], off3 + 1)
    } else {
        proof {
            if framed {
                assert(false);
            }
        }
        return None;
    };
    if sign > 1 {
        proof {
            if framed {
                assert(false);
            }
        }
        return None;
    }
    let (magnitude, off5) = match read_u32(b, off4) {
        Some(p) => p,
        None => {
            proof {
                if framed {
                    assert(false);
                }
            }
            return None;
        },
    };
    proof {
        if framed {
            lemma_u32_inj(magnitude, mag_of(e.increase));
            assert(sign == 1 <==> e.increase < 0);
        }
    }
    let increase: i32 = if sign == 1 {
        if magnitude == 0 || magnitude > 0x8000_0000u32 {
            proof {
                if framed {
                    assert(false);
                }
            }
            return None;
        }
        (-(magnitude as i64)) as i32
    } else {
        if magnitude > 0x7fff_ffffu32 {
            proof {
                if framed {
                    assert(false);
                }
            }
            return None;
        }
        magnitude as i32
    };
    let player = Player { score, increase, id };
    proof {
        if framed {
            assert(player@ == e);
            assert(off5 == start + enc_player(e).len());
        }
    }
    Some((player, off5))
}

fn read_leaderboard(b: &Vec<u8>, start: usize, expected: Ghost<Seq<PlayerView>>) -> (r: Option<
    (Leaderboard, usize),
>)
    ensures
        r matches Some(p) ==> p.0.wf() && p.1 <= b@.len(),
        lb_frame(b@, start as int, expected@) ==> (r matches Some(p) && p.0@ == expected@ && p.1
            == start + enc_lb(expected@).len()),
{
    let ghost s = expected@;
    let ghost framed = lb_frame(b@, start as int, s);
    proof {
        if framed {
            lemma_lb_segments(b@, start as int, s);
        }
    }
    let (count, first) = match read_u64(b, start) {
        Some(p) => p,
        None => {
            proof {
                if framed {
                    assert(false);
                }
            }
            return None;
        },
    };
    proof {
        if framed {
            lemma_u64_inj(count, s.len() as u64);
        }
    }
    if count > usize::MAX as u64 {
        proof {
            if framed {
                assert(false);
            }
        }
        return None;
    }
    let n = count as usize;
    let mut off = first;
    let mut players: Vec<Player> = Vec::new();
    let mut i: usize = 0;
    while i < n
        invariant
            off <= b@.len(),
            i <= n,
            s == expected@,
            framed == lb_frame(b@, start as int, s),
            framed ==> {
                &&& n == s.len()
                &&& views_of(players@) == s.take(i as int)
                &&& off == start + 8 + enc_players(s.take(i as int)).len()
            },
        decreases n - i,
    {
        proof {
            if framed {
                lemma_lb_segments(b@, start as int, s);
                lemma_players_at(b@, start as int + 8, s, i as int);
                assert(player_frame(b@, off as int, s[i as int]));
            }
        }
        let (p, next) = match read_player(b, off, Ghost(s[i as int])) {
            Some(p) => p,
            None => {
                proof {
                    if framed {
                        assert(false);
                    }
                }
                return None;
            },
        };
        players.push(p);
        proof {
            if framed {
                assert(views_of(players@) =~= s.take(i + 1)) by {
                    assert(s.take(i + 1) =~= s.take(i as int).push(s[i as int]));
                    assert forall|k: int|
                        0 <= k < players@.len() implies views_of(players@)[k] == s.take(
                        i + 1,
                    )[k] by {
                        assert(views_of(players@)[k] == players@[k]@);
                    }
                }
            }
        }
        off = next;
        i = i + 1;
    }
    proof {
        if framed {
            assert(s.take(n as int) =~= s);
            assert(views_of(players@) == s);
            assert(wf_seq(views_of(players@)));
            assert(off == start + enc_lb(s).len());
        }
    }
    match Leaderboard::from_players(players) {
        Some(lb) => Some((lb, off)),
        None => {
            proof {
                if framed {
                    assert(false);
                }
            }
            None
        },
    }
}

/// Decodes a registry snapshot.  Exactly the canonical byte strings of
/// `encode_snapshot` are accepted, and decoding is total on them: the
/// bytes of any well-formed, realizable snapshot load back as precisely
/// that snapshot, and a successful load re-encodes to the very bytes it
/// was read from.
pub fn decode_snapshot(b: &Vec<u8>) -> (r: Option<Registry>)
    ensures
        r matches Some(reg) ==> reg.wf() && b@ == enc_reg(reg@),
        forall|m: Seq<(u64, Seq<PlayerView>)>|
            crate::registry::reg_wf(m) && bounded_reg(m) && b@ == enc_reg(m) ==> (r matches Some(
                reg,
            ) && reg@ == m),
{
    let ghost guard = exists|m: Seq<(u64, Seq<PlayerView>)>|
        crate::registry::reg_wf(m) && bounded_reg(m) && b@ == enc_reg(m);
    let ghost wm = choose|m: Seq<(u64, Seq<PlayerView>)>|
        crate::registry::reg_wf(m) && bounded_reg(m) && b@ == enc_reg(m);
    proof {
        if guard {
            assert(crate::registry::reg_wf(wm) && bounded_reg(wm) && b@ == enc_reg(wm));
            vstd::bytes::lemma_auto_spec_u64_to_from_le_bytes();
            assert(spec_u64_to_le_bytes(wm.len() as u64).len() == 8);
            assert(b@.subrange(0, b@.len() as int) =~= b@);
            lemma_subrange_split(
                b@,
                0,
                b@.len() as int,
                spec_u64_to_le_bytes(wm.len() as u64),
                enc_entries(wm),
            );
        }
    }
    let (count, first) = match read_u64(b, 0) {
        Some(p) => p,
        None => {
            proof {
                if guard {
                    assert(false);
                }
            }
            return None;
        },
    };
    proof {
        if guard {
            lemma_u64_inj(count, wm.len() as u64);
        }
    }
    if count > usize::MAX as u64 {
        proof {
            if guard {
                assert(false);
            }
        }
        return None;
    }
    let n = count as usize;
    let mut off = first;
    let mut entries: Vec<(u64, Leaderboard)> = Vec::new();
    let mut i: usize = 0;
    while i < n
        invariant
            off <= b@.len(),
            i <= n,
            forall|k: int| 0 <= k < entries@.len() ==> crate::order::wf_seq(
                (#[trigger] entries@[k]).1@,
            ),
            guard == exists|m: Seq<(u64, Seq<PlayerView>)>|
                crate::registry::reg_wf(m) && bounded_reg(m) && b@ == enc_reg(m),
            wm == choose|m: Seq<(u64, Seq<PlayerView>)>|
                crate::registry::reg_wf(m) && bounded_reg(m) && b@ == enc_reg(m),
            guard ==> {
                &&& n == wm.len()
                &&& entries@.len() == i
                &&& entry_views(entries@) == wm.take(i as int)
                &&& off == 8 + enc_entries(wm.take(i as int)).len()
            },
        decreases n - i,
    {
        proof {
            if guard {
                assert(crate::registry::reg_wf(wm) && bounded_reg(wm) && b@ == enc_reg(wm));
                vstd::bytes::lemma_auto_spec_u64_to_from_le_bytes();
                assert(spec_u64_to_le_bytes(wm.len() as u64).len() == 8);
                assert(b@.subrange(0, b@.len() as int) =~= b@);
                lemma_subrange_split(
                    b@,
                    0,
                    b@.len() as int,
                    spec_u64_to_le_bytes(wm.len() as u64),
                    enc_entries(wm),
                );
                lemma_entries_at(b@, 8, wm, i as int);
                assert(wm[i as int].1 == (#[trigger] wm[i as int]).1);
                assert(bounded_standing(wm[i as int].1) && wf_seq(wm[i as int].1));
                assert(lb_frame(b@, off as int + 8, wm[i as int].1));
            }
        }
        let (community, mid) = match read_u64(b, off) {
            Some(p) => p,
            None => {
                proof {
                    if guard {
                        assert(false);
                    }
                }
                return None;
            },
        };
        proof {
            if guard {
                lemma_u64_inj(community, wm[i as int].0);
            }
        }
        let (lb, next) = match read_leaderboard(b, mid, Ghost(wm[i as int].1)) {
            Some(p) => p,
            None => {
                proof {
                    if guard {
                        assert(false);
                    }
                }
                return None;
            },
        };
        entries.push((community, lb));
        proof {
            if guard {
                assert(entry_views(entries@) =~= wm.take(i + 1)) by {
                    assert(wm.take(i + 1) =~= wm.take(i as int).push(wm[i as int]));
                    assert forall|k: int|
                        0 <= k < entries@.len() implies entry_views(entries@)[k] == wm.take(
                        i + 1,
                    )[k] by {
                        assert(entry_views(entries@)[k] == (entries@[k].0, entries@[k].1@));
                    }
                }
            }
        }
        off = next;
        i = i + 1;
    }
    proof {
        if guard {
            assert(wm.take(n as int) =~= wm);
            assert(entry_views(entries@) == wm);
        }
    }
    let ghost raw = entries@;
    let reg = match Registry::from_entries(entries) {
        Some(reg) => reg,
        None => {
            proof {
                if guard {
                    let (x, y): (int, int) = choose|x: int, y: int|
                        0 <= x < y < raw.len() && (#[trigger] raw[x]).0 == (#[trigger] raw[y]).0;
                    assert(entry_views(raw)[x] == (raw[x].0, raw[x].1@));
                    assert(entry_views(raw)[y] == (raw[y].0, raw[y].1@));
                    assert(wm[x].0 == wm[y].0);
                    assert(false);
                }
            }
            return None;
        },
    };
    let reencoded = encode_snapshot(&reg);
    if !bytes_eq(&reencoded, b) {
        proof {
            if guard {
                assert(reg@ == wm);
                assert(false);
            }
        }
        return None;
    }
    proof {
        if guard {
            assert(reg@ == wm);
            assert forall|m: Seq<(u64, Seq<PlayerView>)>|
                crate::registry::reg_wf(m) && bounded_reg(m) && b@ == enc_reg(m) implies reg@
                == m by {
                lemma_snapshot_lossless(m, wm);
            }
        }
    }
    Some(reg)
}

fn bytes_eq(a: &Vec<u8>, b: &Vec<u8>) -> (r: bool)
    ensures
        r == (a@ == b@),
{
    if a.len() != b.len() {
        return false;
    }
    let n = a.len();
    let mut i: usize = 0;
    while i < n
        invariant
            i <= n,
            n == a@.len(),
            n == b@.len(),
            forall|k: int| 0 <= k < i ==> a@[k] == b@[k],
        decreases n - i,
    {
        if a[i] != b[i] {
            return false;
        }
        i = i + 1;
    }
    proof {
        assert(a@ =~= b@);
    }
    true
}

proof fn lemma_concat_split(a: Seq<u8>, b: Seq<u8>, c: Seq<u8>, d: Seq<u8>)
    requires
        a + b == c + d,
        a.len() == c.len(),
    ensures
        a == c,
        b == d,
{
    assert forall|i: int| 0 <= i < a.len() implies a[i] == c[i] by {
        assert((a + b)[i] == a[i]);
        assert((c + d)[i] == c[i]);
    }
    assert(a =~= c);
    assert((a + b).len() == a.len() + b.len());
    assert((c + d).len() == c.len() + d.len());
    assert(b.len() == d.len());
    assert forall|i: int| 0 <= i < b.len() implies b[i] == d[i] by {
        assert((a + b)[a.len() + i] == b[i]);
        assert((c + d)[c.len() + i] == d[i]);
    }
    assert(b =~= d);
}

proof fn lemma_u64_inj(x: u64, y: u64)
    requires
        spec_u64_to_le_bytes(x) == spec_u64_to_le_bytes(y),
    ensures
        x == y,
{
    vstd::bytes::lemma_auto_spec_u64_to_from_le_bytes();
    assert(spec_u64_to_le_bytes(x).len() == 8);
    assert(spec_u64_to_le_bytes(y).len() == 8);
    assert(vstd::bytes::spec_u64_from_le_bytes(spec_u64_to_le_bytes(x)) == x);
    assert(vstd::bytes::spec_u64_from_le_bytes(spec_u64_to_le_bytes(y)) == y);
}

proof fn lemma_u32_inj(x: u32, y: u32)
    requires
        spec_u32_to_le_bytes(x) == spec_u32_to_le_bytes(y),
    ensures
        x == y,
{
    vstd::bytes::lemma_auto_spec_u32_to_from_le_bytes();
    assert(spec_u32_to_le_bytes(x).len() == 4);
    assert(spec_u32_to_le_bytes(y).len() == 4);
    assert(vstd::bytes::spec_u32_from_le_bytes(spec_u32_to_le_bytes(x)) == x);
    assert(vstd::bytes::spec_u32_from_le_bytes(spec_u32_to_le_bytes(y)) == y);
}

/// A standing realizable in memory: its size and each id's UTF-8 byte
/// length fit a `usize`, as they do for any standing actually held in
/// memory.
pub open spec fn bounded_standing(s: Seq<PlayerView>) -> bool {
    &&& s.len() <= usize::MAX
    &&& forall|i: int| 0 <= i < s.len() ==> encode_utf8((#[trigger] s[i]).id).len() <= usize::MAX
}

/// A registry snapshot realizable in memory.
pub open spec fn bounded_reg(m: Seq<(u64, Seq<PlayerView>)>) -> bool {
    &&& m.len() <= usize::MAX
    &&& forall|i: int| 0 <= i < m.len() ==> bounded_standing((#[trigger] m[i]).1)
}

proof fn lemma_usize_fits_u64()
    ensures
        usize::MAX <= u64::MAX,
{
}

proof fn lemma_enc_player_inj(p1: PlayerView, p2: PlayerView, r1: Seq<u8>, r2: Seq<u8>)
    requires
        encode_utf8(p1.id).len() <= u64::MAX,
        encode_utf8(p2.id).len() <= u64::MAX,
        enc_player(p1) + r1 == enc_player(p2) + r2,
    ensures
        p1 == p2,
        r1 == r2,
{
    let u1 = encode_utf8(p1.id);
    let u2 = encode_utf8(p2.id);
    let len1 = spec_u64_to_le_bytes(u1.len() as u64);
    let len2 = spec_u64_to_le_bytes(u2.len() as u64);
    vstd::bytes::lemma_auto_spec_u64_to_from_le_bytes();
    vstd::bytes::lemma_auto_spec_u32_to_from_le_bytes();
    let t1 = u1 + spec_u32_to_le_bytes(p1.score) + enc_i32(p1.increase) + r1;
    let t2 = u2 + spec_u32_to_le_bytes(p2.score) + enc_i32(p2.increase) + r2;
    assert(len1 + t1 =~= enc_player(p1) + r1);
    assert(len2 + t2 =~= enc_player(p2) + r2);
    lemma_concat_split(len1, t1, len2, t2);
    lemma_u64_inj(u1.len() as u64, u2.len() as u64);
    assert(u1.len() == u2.len());
    assert(u1 + (spec_u32_to_le_bytes(p1.score) + enc_i32(p1.increase) + r1) =~= t1);
    assert(u2 + (spec_u32_to_le_bytes(p2.score) + enc_i32(p2.increase) + r2) =~= t2);
    lemma_concat_split(
        u1,
        spec_u32_to_le_bytes(p1.score) + enc_i32(p1.increase) + r1,
        u2,
        spec_u32_to_le_bytes(p2.score) + enc_i32(p2.increase) + r2,
    );
    assert(p1.id == p2.id) by {
        vstd::utf8::encode_utf8_decode_utf8(p1.id);
        vstd::utf8::encode_utf8_decode_utf8(p2.id);
    }
    assert(spec_u32_to_le_bytes(p1.score) + (enc_i32(p1.increase) + r1) =~= spec_u32_to_le_bytes(
        p1.score,
    ) + enc_i32(p1.increase) + r1);
    assert(spec_u32_to_le_bytes(p2.score) + (enc_i32(p2.increase) + r2) =~= spec_u32_to_le_bytes(
        p2.score,
    ) + enc_i32(p2.increase) + r2);
    lemma_concat_split(
        spec_u32_to_le_bytes(p1.score),
        enc_i32(p1.increase) + r1,
        spec_u32_to_le_bytes(p2.score),
        enc_i32(p2.increase) + r2,
    );
    lemma_u32_inj(p1.score, p2.score);
    lemma_concat_split(enc_i32(p1.increase), r1, enc_i32(p2.increase), r2);
    let s1 = seq![
        (if p1.increase < 0 {
            1u8
        } else {
            0u8
        }),
    ];
    let s2 = seq![
        (if p2.increase < 0 {
            1u8
        } else {
            0u8
        }),
    ];
    lemma_concat_split(
        s1,
        spec_u32_to_le_bytes(mag_of(p1.increase)),
        s2,
        spec_u32_to_le_bytes(mag_of(p2.increase)),
    );
    assert(s1[0] == s2[0]);
    assert((p1.increase < 0) == (p2.increase < 0));
    lemma_u32_inj(mag_of(p1.increase), mag_of(p2.increase));
    assert(p1.increase == p2.increase);
}

proof fn lemma_enc_players_inj(s1: Seq<PlayerView>, s2: Seq<PlayerView>, r1: Seq<u8>, r2: Seq<u8>)
    requires
        s1.len() == s2.len(),
        forall|i: int| 0 <= i < s1.len() ==> encode_utf8((#[trigger] s1[i]).id).len() <= u64::MAX,
        forall|i: int| 0 <= i < s2.len() ==> encode_utf8((#[trigger] s2[i]).id).len() <= u64::MAX,
        enc_players(s1) + r1 == enc_players(s2) + r2,
    ensures
        s1 == s2,
        r1 == r2,
    decreases s1.len(),
{
    if s1.len() == 0 {
        assert(s1 =~= s2);
        assert(Seq::<u8>::empty() + r1 =~= r1);
        assert(Seq::<u8>::empty() + r2 =~= r2);
    } else {
        let q1 = enc_players(s1.drop_first()) + r1;
        let q2 = enc_players(s2.drop_first()) + r2;
        assert(enc_player(s1[0]) + q1 =~= enc_players(s1) + r1);
        assert(enc_player(s2[0]) + q2 =~= enc_players(s2) + r2);
        lemma_enc_player_inj(s1[0], s2[0], q1, q2);
        assert forall|i: int|
            0 <= i < s1.drop_first().len() implies encode_utf8(
            (#[trigger] s1.drop_first()[i]).id,
        ).len() <= u64::MAX by {
            assert(s1.drop_first()[i] == s1[i + 1]);
        }
        assert forall|i: int|
            0 <= i < s2.drop_first().len() implies encode_utf8(
            (#[trigger] s2.drop_first()[i]).id,
        ).len() <= u64::MAX by {
            assert(s2.drop_first()[i] == s2[i + 1]);
        }
        lemma_enc_players_inj(s1.drop_first(), s2.drop_first(), r1, r2);
        assert forall|i: int| 0 <= i < s1.len() implies s1[i] == s2[i] by {
            if i > 0 {
                assert(s1[i] == s1.drop_first()[i - 1]);
                assert(s2[i] == s2.drop_first()[i - 1]);
            }
        }
        assert(s1 =~= s2);
    }
}

proof fn lemma_enc_entries_inj(
    m1: Seq<(u64, Seq<PlayerView>)>,
    m2: Seq<(u64, Seq<PlayerView>)>,
    r1: Seq<u8>,
    r2: Seq<u8>,
)
    requires
        m1.len() == m2.len(),
        forall|i: int| 0 <= i < m1.len() ==> bounded_standing((#[trigger] m1[i]).1),
        forall|i: int| 0 <= i < m2.len() ==> bounded_standing((#[trigger] m2[i]).1),
        enc_entries(m1) + r1 == enc_entries(m2) + r2,
    ensures
        m1 == m2,
        r1 == r2,
    decreases m1.len(),
{
    vstd::bytes::lemma_auto_spec_u64_to_from_le_bytes();
    if m1.len() == 0 {
        assert(m1 =~= m2);
        assert(Seq::<u8>::empty() + r1 =~= r1);
        assert(Seq::<u8>::empty() + r2 =~= r2);
    } else {
        let s1 = m1[0].1;
        let s2 = m2[0].1;
        let q1 = spec_u64_to_le_bytes(s1.len() as u64) + enc_players(s1) + enc_entries(
            m1.drop_first(),
        ) + r1;
        let q2 = spec_u64_to_le_bytes(s2.len() as u64) + enc_players(s2) + enc_entries(
            m2.drop_first(),
        ) + r2;
        assert(spec_u64_to_le_bytes(m1[0].0) + q1 =~= enc_entries(m1) + r1);
        assert(spec_u64_to_le_bytes(m2[0].0) + q2 =~= enc_entries(m2) + r2);
        lemma_concat_split(spec_u64_to_le_bytes(m1[0].0), q1, spec_u64_to_le_bytes(m2[0].0), q2);
        lemma_u64_inj(m1[0].0, m2[0].0);
        assert(spec_u64_to_le_bytes(s1.len() as u64) + (enc_players(s1) + enc_entries(
            m1.drop_first(),
        ) + r1) =~= q1);
        assert(spec_u64_to_le_bytes(s2.len() as u64) + (enc_players(s2) + enc_entries(
            m2.drop_first(),
        ) + r2) =~= q2);
        lemma_concat_split(
            spec_u64_to_le_bytes(s1.len() as u64),
            enc_players(s1) + enc_entries(m1.drop_first()) + r1,
            spec_u64_to_le_bytes(s2.len() as u64),
            enc_players(s2) + enc_entries(m2.drop_first()) + r2,
        );
        lemma_u64_inj(s1.len() as u64, s2.len() as u64);
        assert(s1.len() == s2.len());
        assert(enc_players(s1) + (enc_entries(m1.drop_first()) + r1) =~= enc_players(s1)
            + enc_entries(m1.drop_first()) + r1);
        assert(enc_players(s2) + (enc_entries(m2.drop_first()) + r2) =~= enc_players(s2)
            + enc_entries(m2.drop_first()) + r2);
        lemma_enc_players_inj(
            s1,
            s2,
            enc_entries(m1.drop_first()) + r1,
            enc_entries(m2.drop_first()) + r2,
        );
        assert forall|i: int|
            0 <= i < m1.drop_first().len() implies bounded_standing(
            (#[trigger] m1.drop_first()[i]).1,
        ) by {
            assert(m1.drop_first()[i] == m1[i + 1]);
        }
        assert forall|i: int|
            0 <= i < m2.drop_first().len() implies bounded_standing(
            (#[trigger] m2.drop_first()[i]).1,
        ) by {
            assert(m2.drop_first()[i] == m2[i + 1]);
        }
        lemma_enc_entries_inj(m1.drop_first(), m2.drop_first(), r1, r2);
        assert(m1[0] == m2[0]);
        assert forall|i: int| 0 <= i < m1.len() implies m1[i] == m2[i] by {
            if i > 0 {
                assert(m1[i] == m1.drop_first()[i - 1]);
                assert(m2[i] == m2.drop_first()[i - 1]);
            }
        }
        assert(m1 =~= m2);
    }
}

/// The snapshot encoding is lossless: two realizable snapshots with the
/// same bytes are the same snapshot.  Together with `decode_snapshot`'s
/// contract — a successful load re-encodes to the very bytes it was
/// given — a snapshot that was saved and then loads successfully loads
/// as exactly the registry that was saved.
pub proof fn lemma_snapshot_lossless(m1: Seq<(u64, Seq<PlayerView>)>, m2: Seq<(u64, Seq<PlayerView>)>)
    requires
        bounded_reg(m1),
        bounded_reg(m2),
        enc_reg(m1) == enc_reg(m2),
    ensures
        m1 == m2,
{
    vstd::bytes::lemma_auto_spec_u64_to_from_le_bytes();
    lemma_concat_split(
        spec_u64_to_le_bytes(m1.len() as u64),
        enc_entries(m1),
        spec_u64_to_le_bytes(m2.len() as u64),
        enc_entries(m2),
    );
    lemma_u64_inj(m1.len() as u64, m2.len() as u64);
    assert(enc_entries(m1) + Seq::<u8>::empty() =~= enc_entries(m1));
    assert(enc_entries(m2) + Seq::<u8>::empty() =~= enc_entries(m2));
    lemma_enc_entries_inj(m1, m2, Seq::empty(), Seq::empty());
}

/// A durable snapshot store.  `load_all` is called once at startup and
/// must initialize a fresh store so that an untouched store loads as an
/// empty registry; `save_all` is called synchronously after every
/// mutation, before the mutating community's exclusive handle is
/// released, and a failure is surfaced rather than acknowledged.
pub trait Backend {
    /// Loads the snapshot persisted by the most recent `save_all`, or an
    /// empty registry from a fresh store; a malformed store is fatal.
    fn load_all(&mut self) -> Result<Registry, Error>;

    /// Durably persists the full registry before returning.
    fn save_all(&mut self, registry: &Registry) -> Result<(), Error>;
}

} // verus!
