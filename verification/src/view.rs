//! Rendering a standing or a single record to text.
//!
//! A thin presentation layer over the read API: it consumes `rank_of`
//! and the record fields and never mutates state.

use vstd::prelude::*;
use vstd::string::StringExecFns;
use crate::order::PlayerView;
use crate::system::{Player, Leaderboard, rank_in};

verus! {

/// The character of a single decimal digit.
pub open spec fn digit_char(d: nat) -> char {
    if d == 0 {
        '0'
    } else if d == 1 {
        '1'
    } else if d == 2 {
        '2'
    } else if d == 3 {
        '3'
    } else if d == 4 {
        '4'
    } else if d == 5 {
        '5'
    } else if d == 6 {
        '6'
    } else if d == 7 {
        '7'
    } else if d == 8 {
        '8'
    } else {
        '9'
    }
}

/// The decimal digits of a number, most significant first.
pub open spec fn dec_digits(n: nat) -> Seq<char>
    decreases n,
{
    if n < 10 {
        seq![digit_char(n)]
    } else {
        dec_digits(n / 10) + seq![digit_char(n % 10)]
    }
}

/// A delta as text: an explicit sign, then the magnitude in decimal.
pub open spec fn delta_text(n: i32) -> Seq<char> {
    (if n < 0 {
        seq!['-']
    } else {
        seq!['+']
    }) + dec_digits(
        (if n < 0 {
            -(n as int)
        } else {
            n as int
        }) as nat,
    )
}

/// One record's display line, given its rank in the standing.
pub open spec fn player_line(rank: nat, p: PlayerView) -> Seq<char> {
    "**"@ + p.id + "** [#"@ + dec_digits(rank) + "]: "@ + dec_digits(p.score as nat) + " ("@
        + delta_text(p.increase) + ")"@
}

/// The standing's display lines, best record first, joined by newlines:
/// the last `k` records of the ascending standing, in descending order.
pub open spec fn lines_desc(s: Seq<PlayerView>, k: int) -> Seq<char>
    decreases k,
{
    if k <= 0 {
        Seq::empty()
    } else {
        let p = s[s.len() - k];
        let line = player_line(rank_in(s, p.id) as nat, p);
        if k == 1 {
            line
        } else {
            lines_desc(s, k - 1) + "\n"@ + line
        }
    }
}

fn digit_str(d: u32) -> (r: &'static str)
    requires
        d < 10,
    ensures
        r@ == seq![digit_char(d as nat)],
{
    proof {
        reveal_strlit("0");
        reveal_strlit("1");
        reveal_strlit("2");
        reveal_strlit("3");
        reveal_strlit("4");
        reveal_strlit("5");
        reveal_strlit("6");
        reveal_strlit("7");
        reveal_strlit("8");
        reveal_strlit("9");
    }
    let r: &'static str = if d == 0 {
        "0"
    } else if d == 1 {
        "1"
    } else if d == 2 {
        "2"
    } else if d == 3 {
        "3"
    } else if d == 4 {
        "4"
    } else if d == 5 {
        "5"
    } else if d == 6 {
        "6"
    } else if d == 7 {
        "7"
    } else if d == 8 {
        "8"
    } else {
        "9"
    };
    proof {
        assert(r@ =~= seq![digit_char(d as nat)]);
    }
    r
}

/// A number in decimal.
fn u32_text(n: u32) -> (r: String)
    ensures
        r@ == dec_digits(n as nat),
    decreases n,
{
    if n < 10 {
        String::from_str(digit_str(n))
    } else {
        let mut s = u32_text(n / 10);
        s.append(digit_str(n % 10));
        proof {
            assert(s@ =~= dec_digits(n as nat));
        }
        s
    }
}

/// A signed delta with an explicit sign, as the standing displays it.
pub fn to_russian_temperature(number: i32) -> (r: String)
    ensures
        r@ == delta_text(number),
{
    proof {
        reveal_strlit("-");
        reveal_strlit("+");
    }
    let mut s = if number < 0 {
        String::from_str("-")
    } else {
        String::from_str("+")
    };
    let magnitude: u32 = if number < 0 {
        (-(number as i64)) as u32
    } else {
        number as u32
    };
    let digits = u32_text(magnitude);
    s.append(digits.as_str());
    proof {
        assert(s@ =~= delta_text(number));
    }
    s
}

impl Leaderboard {
    /// One record's display line: identity, rank in this standing,
    /// score, and the last delta.
    pub fn format_player(&self, player: &Player) -> (r: String)
        requires
            self@.len() + 1 <= u32::MAX,
        ensures
            r@ == player_line(rank_in(self@, player@.id) as nat, player@),
    {
        proof {
            reveal_strlit("**");
            reveal_strlit("** [#");
            reveal_strlit("]: ");
            reveal_strlit(" (");
            reveal_strlit(")");
        }
        let rank = self.rank_of(player);
        let mut out = String::from_str("**");
        out.append(player.id.as_str());
        out.append("** [#");
        let rank_digits = u32_text(rank);
        out.append(rank_digits.as_str());
        out.append("]: ");
        let score_digits = u32_text(player.score);
        out.append(score_digits.as_str());
        out.append(" (");
        let delta = to_russian_temperature(player.increase);
        out.append(delta.as_str());
        out.append(")");
        proof {
            assert(out@ =~= player_line(rank_in(self@, player@.id) as nat, player@));
        }
        out
    }

    /// The whole standing as text, best record first; an empty standing
    /// renders an explicit empty-state line.
    pub fn format(&self) -> (r: String)
        requires
            self@.len() + 1 <= u32::MAX,
        ensures
            self@.len() == 0 ==> r@ == "**Leaderboard**: \n"@ + "*No players*"@,
            self@.len() > 0 ==> r@ == "**Leaderboard**: \n"@ + lines_desc(
                self@,
                self@.len() as int,
            ),
    {
        let mut out = String::from_str("**Leaderboard**: \n");
        let n = self.len();
        if n == 0 {
            out.append("*No players*");
            return out;
        }
        let players = self.all_players();
        let mut i: usize = 0;
        while i < n
            invariant
                i <= n,
                n == self@.len(),
                self@.len() + 1 <= u32::MAX,
                players@.len() == n,
                forall|k: int| 0 <= k < n ==> players@[k]@ == self@[n - 1 - k],
                out@ == "**Leaderboard**: \n"@ + lines_desc(self@, i as int),
            decreases n - i,
        {
            if i > 0 {
                out.append("\n");
            }
            let line = self.format_player(&players[i]);
            out.append(line.as_str());
            proof {
                reveal_strlit("\n");
                assert(players@[i as int]@ == self@[n - 1 - i]);
                assert(out@ =~= "**Leaderboard**: \n"@ + lines_desc(self@, i + 1));
            }
            i = i + 1;
        }
        out
    }
}

} // verus!
