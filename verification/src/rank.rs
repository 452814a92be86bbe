//! The ranking and query surface: per-position leaderboards sorted by
//! score, and case-insensitive point lookups by player name.
//!
//! Leaderboard order is total and deterministic: descending by score, ties
//! broken by name in ascending code-point order.

use vstd::prelude::*;
use vstd::seq_lib::group_to_multiset_ensures;

use crate::model::MAX_METRIC;
use crate::model::Player;
use crate::model::Position;
use crate::model::players_bounded;
use crate::score::SCORE_ONE;
use crate::score::calculate_score;
use crate::score::score_spec;
use crate::text::eq_ignore_case;
use crate::text::folded;

verus! {

/// Lexicographic order on names, by code point.
pub open spec fn name_le(a: Seq<char>, b: Seq<char>) -> bool
    decreases a.len(),
{
    if a.len() == 0 {
        true
    } else if b.len() == 0 {
        false
    } else if (a[0] as u32) < (b[0] as u32) {
        true
    } else if (a[0] as u32) > (b[0] as u32) {
        false
    } else {
        name_le(a.drop_first(), b.drop_first())
    }
}

/// Leaderboard order on (name, score) pairs: the higher score first, ties
/// broken by name.
pub open spec fn pair_le(x: (Seq<char>, int), y: (Seq<char>, int)) -> bool {
    x.1 > y.1 || (x.1 == y.1 && name_le(x.0, y.0))
}

/// A pair sequence in leaderboard order.
pub open spec fn sorted_pairs(s: Seq<(Seq<char>, int)>) -> bool {
    forall|i: int, j: int| 0 <= i < j < s.len() ==> pair_le(#[trigger] s[i], #[trigger] s[j])
}

/// The spec view of executable (name, score) pairs.
pub open spec fn pairs_view(s: Seq<(String, i64)>) -> Seq<(Seq<char>, int)> {
    s.map(|k: int, pr: (String, i64)| (pr.0@, pr.1 as int))
}

/// Any two names compare one way or the other.
proof fn lemma_name_le_total(a: Seq<char>, b: Seq<char>)
    ensures
        name_le(a, b) || name_le(b, a),
    decreases a.len(),
{
    if a.len() > 0 && b.len() > 0 && (a[0] as u32) == (b[0] as u32) {
        lemma_name_le_total(a.drop_first(), b.drop_first());
    }
}

/// The name order is transitive.
proof fn lemma_name_le_trans(a: Seq<char>, b: Seq<char>, c: Seq<char>)
    requires
        name_le(a, b),
        name_le(b, c),
    ensures
        name_le(a, c),
    decreases a.len(),
{
    if a.len() > 0 && b.len() > 0 && c.len() > 0 && (a[0] as u32) == (b[0] as u32) && (b[0]
        as u32) == (c[0] as u32) {
        lemma_name_le_trans(a.drop_first(), b.drop_first(), c.drop_first());
    }
}

/// The leaderboard order is total.
proof fn lemma_pair_le_total(x: (Seq<char>, int), y: (Seq<char>, int))
    ensures
        pair_le(x, y) || pair_le(y, x),
{
    lemma_name_le_total(x.0, y.0);
}

/// The leaderboard order is transitive.
proof fn lemma_pair_le_trans(x: (Seq<char>, int), y: (Seq<char>, int), z: (Seq<char>, int))
    requires
        pair_le(x, y),
        pair_le(y, z),
    ensures
        pair_le(x, z),
{
    if x.1 == y.1 && y.1 == z.1 {
        lemma_name_le_trans(x.0, y.0, z.0);
    }
}

/// Whether one name precedes another in the leaderboard's tie order.
#[verifier::loop_isolation(false)]
fn str_le(a: &str, b: &str) -> (r: bool)
    ensures
        r == name_le(a@, b@),
{
    let la = a.unicode_len();
    let lb = b.unicode_len();
    let mut i: usize = 0;
    proof {
        assert(a@.skip(0) =~= a@);
        assert(b@.skip(0) =~= b@);
    }
    while i < la && i < lb
        invariant
            i <= la,
            i <= lb,
            la == a@.len(),
            lb == b@.len(),
            name_le(a@, b@) == name_le(a@.skip(i as int), b@.skip(i as int)),
            name_le(b@, a@) == name_le(b@.skip(i as int), a@.skip(i as int)),
        decreases la - i,
    {
        let ca = a.get_char(i) as u32;
        let cb = b.get_char(i) as u32;
        proof {
            assert(a@.skip(i as int)[0] == a@[i as int]);
            assert(b@.skip(i as int)[0] == b@[i as int]);
            assert(a@.skip(i as int).drop_first() =~= a@.skip(i + 1));
            assert(b@.skip(i as int).drop_first() =~= b@.skip(i + 1));
        }
        if ca < cb {
            return true;
        }
        if ca > cb {
            return false;
        }
        i += 1;
    }
    proof {
        if i >= la {
            assert(a@.skip(i as int).len() == 0);
        } else {
            assert(b@.skip(i as int).len() == 0);
            assert(a@.skip(i as int).len() > 0);
        }
    }
    i >= la
}

/// Whether one (name, score) pair comes no later than another on the
/// leaderboard.
fn pair_le_exec(a: &(String, i64), b: &(String, i64)) -> (r: bool)
    ensures
        r == pair_le((a.0@, a.1 as int), (b.0@, b.1 as int)),
{
    if a.1 > b.1 {
        true
    } else if a.1 < b.1 {
        false
    } else {
        str_le(a.0.as_str(), b.0.as_str())
    }
}

/// The (name, score) pairs one player contributes to a position's
/// leaderboard: one pair per occurrence of the position in the player's
/// position list, provided a metric vector is stored for it.
pub open spec fn player_pairs(pl: Player, p: Position, n: int) -> Seq<(Seq<char>, int)>
    decreases n,
{
    if n <= 0 {
        Seq::empty()
    } else {
        let s = player_pairs(pl, p, n - 1);
        if pl.positions@[n - 1] == p && pl.metrics.spec_get(p) is Some {
            s.push((pl.name@, score_spec(p, pl.metrics.spec_get(p).unwrap())))
        } else {
            s
        }
    }
}

/// The (name, score) pairs a position's leaderboard draws from, over all
/// players in roster order.
pub open spec fn scored_pairs(players: Seq<Player>, p: Position) -> Seq<(Seq<char>, int)>
    decreases players.len(),
{
    if players.len() == 0 {
        Seq::empty()
    } else {
        scored_pairs(players.drop_last(), p) + player_pairs(
            players.last(),
            p,
            players.last().positions@.len() as int,
        )
    }
}

/// Inserts a pair at its place in a sorted leaderboard.
#[verifier::loop_isolation(false)]
fn insert_sorted(out: &mut Vec<(String, i64)>, x: (String, i64))
    requires
        sorted_pairs(pairs_view(old(out)@)),
    ensures
        sorted_pairs(pairs_view(final(out)@)),
        pairs_view(final(out)@).to_multiset() == pairs_view(old(out)@).to_multiset().insert(
            (x.0@, x.1 as int),
        ),
        final(out)@.len() == old(out)@.len() + 1,
{
    broadcast use group_to_multiset_ensures;

    let ghost xv = (x.0@, x.1 as int);
    let n = out.len();
    let mut idx: usize = 0;
    while idx < n && pair_le_exec(&out[idx], &x)
        invariant
            idx <= n,
            n == out@.len(),
            out@ == old(out)@,
            forall|i: int| 0 <= i < idx ==> pair_le(#[trigger] pairs_view(out@)[i], xv),
        decreases n - idx,
    {
        proof {
            assert(pairs_view(out@)[idx as int] == (out@[idx as int].0@, out@[idx as int].1 as int));
        }
        idx += 1;
    }
    proof {
        if idx < n {
            lemma_pair_le_total(pairs_view(out@)[idx as int], xv);
        }
    }
    let ghost oldv = pairs_view(out@);
    out.insert(idx, x);
    proof {
        assert(pairs_view(out@) =~= oldv.insert(idx as int, xv));
        let newv = pairs_view(out@);
        // Everything after the insertion point follows the new pair:
        // either the scan stopped right before it, or it sits beyond a
        // pair the new one precedes.
        assert forall|jj: int| idx <= jj < oldv.len() implies pair_le(xv, #[trigger] oldv[jj]) by {
            assert(pair_le(xv, oldv[idx as int]));
            if jj > idx {
                assert(pair_le(oldv[idx as int], oldv[jj]));
                lemma_pair_le_trans(xv, oldv[idx as int], oldv[jj]);
            }
        }
        assert forall|i: int, j: int| 0 <= i < j < newv.len() implies pair_le(
            #[trigger] newv[i],
            #[trigger] newv[j],
        ) by {
            if i < idx && j == idx {
            } else if i == idx && j > idx {
                assert(pair_le(xv, oldv[j - 1]));
            } else if i < idx && j > idx {
                assert(pair_le(oldv[i], xv));
                lemma_pair_le_trans(oldv[i], xv, oldv[j - 1]);
            } else if i > idx && j > idx {
                assert(pair_le(oldv[i - 1], oldv[j - 1]));
            } else if i < idx && j < idx {
                assert(pair_le(oldv[i], oldv[j]));
            }
        }
    }
}

/// The full leaderboard of one position: every (name, score) pair of every
/// player holding the position, in leaderboard order.
#[verifier::loop_isolation(false)]
pub fn position_leaderboard(players: &Vec<Player>, position: Position) -> (r: Vec<(String, i64)>)
    requires
        players_bounded(players@, MAX_METRIC as int),
    ensures
        sorted_pairs(pairs_view(r@)),
        pairs_view(r@).to_multiset() == scored_pairs(players@, position).to_multiset(),
{
    broadcast use group_to_multiset_ensures;

    let ghost ps = players@;
    let mut out: Vec<(String, i64)> = Vec::new();
    let mut k: usize = 0;
    proof {
        assert(ps.take(0) =~= Seq::<Player>::empty());
        assert(pairs_view(out@) =~= Seq::<(Seq<char>, int)>::empty());
    }
    while k < players.len()
        invariant
            k <= ps.len(),
            players@ == ps,
            sorted_pairs(pairs_view(out@)),
            pairs_view(out@).to_multiset() == scored_pairs(ps.take(k as int), position)
                .to_multiset(),
        decreases ps.len() - k,
    {
        proof {
            assert(ps.take(k + 1).drop_last() =~= ps.take(k as int));
            assert(ps.take(k + 1).last() == ps[k as int]);
        }
        let pl = &players[k];
        let np = pl.positions.len();
        let mut j: usize = 0;
        proof {
            assert(scored_pairs(ps.take(k + 1), position) == scored_pairs(ps.take(k as int), position)
                + player_pairs(ps[k as int], position, np as int));
        }
        while j < np
            invariant
                j <= np,
                np == pl.positions@.len(),
                pl == &ps[k as int],
                players@ == ps,
                sorted_pairs(pairs_view(out@)),
                pairs_view(out@).to_multiset() == (scored_pairs(ps.take(k as int), position)
                    + player_pairs(ps[k as int], position, j as int)).to_multiset(),
            decreases np - j,
        {
            let q = pl.positions[j];
            if q == position {
                match pl.metrics.get(position) {
                    Some(v) => {
                        proof {
                            assert(ps[k as int].bounded(MAX_METRIC as int));
                            assert forall|i: int| 0 <= i < v@.len() implies -MAX_METRIC
                                <= #[trigger] v@[i] <= MAX_METRIC by {
                                assert(ps[k as int].metrics.spec_get(position).unwrap()[i]
                                    == v@[i]);
                            }
                        }
                        let s = calculate_score(&position, v);
                        let name = pl.name.clone();
                        proof {
                            assert(player_pairs(ps[k as int], position, j + 1) == player_pairs(
                                ps[k as int],
                                position,
                                j as int,
                            ).push((pl.name@, score_spec(position, v@))));
                        }
                        insert_sorted(&mut out, (name, s));
                        proof {
                            let a = scored_pairs(ps.take(k as int), position);
                            let b = player_pairs(ps[k as int], position, j as int);
                            let pr = (pl.name@, score_spec(position, v@));
                            vstd::seq_lib::lemma_multiset_commutative(a, b);
                            vstd::seq_lib::lemma_multiset_commutative(a, b.push(pr));
                            assert(b.push(pr).to_multiset() == b.to_multiset().insert(pr));
                        }
                    },
                    None => {
                        proof {
                            assert(player_pairs(ps[k as int], position, j + 1) == player_pairs(
                                ps[k as int],
                                position,
                                j as int,
                            ));
                        }
                    },
                }
            } else {
                proof {
                    assert(player_pairs(ps[k as int], position, j + 1) == player_pairs(
                        ps[k as int],
                        position,
                        j as int,
                    ));
                }
            }
            j += 1;
        }
        k += 1;
    }
    proof {
        assert(ps.take(ps.len() as int) =~= ps);
    }
    out
}

/// The top of one position's leaderboard: the first `n` pairs of the full
/// leaderboard, or all of it when it is shorter.
pub fn top_players(players: &Vec<Player>, position: Position, n: usize) -> (r: Vec<(String, i64)>)
    requires
        players_bounded(players@, MAX_METRIC as int),
    ensures
        exists|full: Seq<(Seq<char>, int)>|
            {
                &&& sorted_pairs(full)
                &&& full.to_multiset() == scored_pairs(players@, position).to_multiset()
                &&& pairs_view(r@) == full.take(
                    if n <= full.len() {
                        n as int
                    } else {
                        full.len() as int
                    },
                )
            },
{
    let mut r = position_leaderboard(players, position);
    let ghost full = pairs_view(r@);
    if n < r.len() {
        r.truncate(n);
    }
    proof {
        assert(pairs_view(r@) =~= full.take(
            if n <= full.len() {
                n as int
            } else {
                full.len() as int
            },
        ));
    }
    r
}

/// The first player whose name matches the queried name once ASCII
/// letters are folded to lower case: the case-insensitive point query.
/// `None` exactly when no player matches.
#[verifier::loop_isolation(false)]
pub fn find_player<'a>(players: &'a Vec<Player>, name: &str) -> (r: Option<&'a Player>)
    ensures
        match r {
            Some(pl) => exists|i: int|
                0 <= i < players@.len() && players@[i] == *pl && folded(players@[i].name@)
                    == folded(name@) && forall|j: int|
                    0 <= j < i ==> folded((#[trigger] players@[j]).name@) != folded(name@),
            None => forall|j: int|
                0 <= j < players@.len() ==> folded((#[trigger] players@[j]).name@) != folded(
                    name@,
                ),
        },
{
    let n = players.len();
    let mut k: usize = 0;
    while k < n
        invariant
            k <= n,
            n == players@.len(),
            forall|j: int| 0 <= j < k ==> folded((#[trigger] players@[j]).name@) != folded(name@),
        decreases n - k,
    {
        if eq_ignore_case(players[k].name.as_str(), name) {
            return Some(&players[k]);
        }
        k += 1;
    }
    None
}

/// The per-position scores of one player, in position-list order: one
/// entry per listed position with a stored metric vector.
pub open spec fn scores_of(pl: Player, n: int) -> Seq<(Position, int)>
    decreases n,
{
    if n <= 0 {
        Seq::empty()
    } else {
        let s = scores_of(pl, n - 1);
        let p = pl.positions@[n - 1];
        if pl.metrics.spec_get(p) is Some {
            s.push((p, score_spec(p, pl.metrics.spec_get(p).unwrap())))
        } else {
            s
        }
    }
}

/// The spec view of executable (position, score) pairs.
pub open spec fn scores_view(s: Seq<(Position, i64)>) -> Seq<(Position, int)> {
    s.map(|k: int, pr: (Position, i64)| (pr.0, pr.1 as int))
}

/// The per-position scores of one player: one (position, score) pair per
/// listed position with a stored metric vector, in list order.
#[verifier::loop_isolation(false)]
pub fn player_scores(player: &Player) -> (r: Vec<(Position, i64)>)
    requires
        player.bounded(MAX_METRIC as int),
    ensures
        scores_view(r@) == scores_of(*player, player.positions@.len() as int),
        forall|i: int| 0 <= i < r@.len() ==> 0 <= (#[trigger] r@[i]).1 <= SCORE_ONE,
{
    let n = player.positions.len();
    let mut r: Vec<(Position, i64)> = Vec::new();
    let mut j: usize = 0;
    proof {
        assert(scores_view(r@) =~= Seq::<(Position, int)>::empty());
    }
    while j < n
        invariant
            j <= n,
            n == player.positions@.len(),
            scores_view(r@) == scores_of(*player, j as int),
            forall|i: int| 0 <= i < r@.len() ==> 0 <= (#[trigger] r@[i]).1 <= SCORE_ONE,
        decreases n - j,
    {
        let p = player.positions[j];
        match player.metrics.get(p) {
            Some(v) => {
                proof {
                    assert forall|i: int| 0 <= i < v@.len() implies -MAX_METRIC <= #[trigger] v@[i]
                        <= MAX_METRIC by {
                        assert(player.metrics.spec_get(p).unwrap()[i] == v@[i]);
                    }
                }
                let s = calculate_score(&p, v);
                r.push((p, s));
                proof {
                    assert(scores_view(r@) =~= scores_of(*player, j + 1));
                }
            },
            None => {},
        }
        j += 1;
    }
    r
}

/// The aggregate of a player's scores: their sum, saturating at the
/// largest representable value; each step caps, so the cap is never
/// exceeded part way.
pub open spec fn sum_scores(s: Seq<(Position, int)>) -> int
    decreases s.len(),
{
    if s.len() == 0 {
        0
    } else {
        let t = sum_scores(s.drop_last()) + s.last().1;
        if t > i64::MAX {
            i64::MAX as int
        } else {
            t
        }
    }
}

/// The aggregate score across a player's positions: the sum of the
/// per-position scores, saturating at the largest representable value.
#[verifier::loop_isolation(false)]
pub fn total_score(scores: &Vec<(Position, i64)>) -> (t: i64)
    requires
        forall|i: int| 0 <= i < scores@.len() ==> 0 <= (#[trigger] scores@[i]).1 <= SCORE_ONE,
    ensures
        t == sum_scores(scores_view(scores@)),
        t >= 0,
{
    let n = scores.len();
    let mut t: i64 = 0;
    let mut j: usize = 0;
    proof {
        assert(scores_view(scores@).take(0) =~= Seq::<(Position, int)>::empty());
    }
    while j < n
        invariant
            j <= n,
            n == scores@.len(),
            t == sum_scores(scores_view(scores@).take(j as int)),
            0 <= t <= i64::MAX,
        decreases n - j,
    {
        proof {
            assert(scores_view(scores@).take(j + 1).drop_last() =~= scores_view(scores@).take(
                j as int,
            ));
            assert(scores_view(scores@).take(j + 1).last() == scores_view(scores@)[j as int]);
        }
        let s = scores[j].1;
        if t <= i64::MAX - s {
            t = t + s;
        } else {
            t = i64::MAX;
        }
        j += 1;
    }
    proof {
        assert(scores_view(scores@).take(n as int) =~= scores_view(scores@));
    }
    t
}

} // verus!
