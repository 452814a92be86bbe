//! Population-relative normalization: every metric is rescaled by the
//! largest value observed for that position and metric index across all
//! players, in place.
//!
//! Where that maximum is positive, a value becomes `value * 1000 / max`,
//! truncated toward zero, so a value equal to the maximum becomes one
//! whole unit; everywhere else the value becomes zero. Fixed-point metric
//! values are always finite, so the exclusion of non-finite values from
//! the maximum holds vacuously.

use vstd::arithmetic::div_mod::lemma_div_nonincreasing;
use vstd::arithmetic::div_mod::lemma_div_pos_is_pos;
use vstd::pervasive::VecAdditionalExecFns;
use vstd::prelude::*;

use crate::model::MAX_METRIC;
use crate::model::MAX_RAW_METRIC;
use crate::model::Player;
use crate::model::Position;
use crate::model::PositionTable;
use crate::model::players_bounded;

verus! {

/// The largest value observed at one position and metric index across all
/// players, floored at zero: the rescaling denominator.
pub open spec fn max_at(players: Seq<Player>, p: Position, i: int) -> int
    decreases players.len(),
{
    if players.len() == 0 {
        0
    } else {
        let m = max_at(players.drop_last(), p, i);
        match players.last().metrics.spec_get(p) {
            Some(v) => if 0 <= i < v.len() && v[i] as int > m {
                v[i] as int
            } else {
                m
            },
            None => m,
        }
    }
}

/// What one metric becomes under normalization: rescaled by a positive
/// maximum, truncated toward zero, and zero where no positive maximum
/// exists.
pub open spec fn normalize_value(v: int, m: int) -> int {
    if m > 0 {
        if v >= 0 {
            v * 1000 / m
        } else {
            -((-v) * 1000 / m)
        }
    } else {
        0
    }
}

/// The elementwise maxima at one position across all players, long enough
/// to cover every stored vector.
#[verifier::loop_isolation(false)]
fn max_vector(players: &Vec<Player>, p: Position) -> (m: Vec<i64>)
    requires
        players_bounded(players@, MAX_RAW_METRIC as int),
    ensures
        forall|i: int| 0 <= i < m@.len() ==> m@[i] == max_at(players@, p, i),
        forall|i: int| 0 <= i < m@.len() ==> m@[i] >= 0,
        forall|k: int|
            0 <= k < players@.len() && (#[trigger] players@[k]).metrics.spec_get(p) is Some
                ==> players@[k].metrics.spec_get(p).unwrap().len() <= m@.len(),
        forall|i: int| i >= m@.len() ==> max_at(players@, p, i) == 0,
{
    let ghost ps = players@;
    let mut m: Vec<i64> = Vec::new();
    let mut k: usize = 0;
    proof {
        assert(ps.take(0) =~= Seq::<Player>::empty());
    }
    while k < players.len()
        invariant
            k <= ps.len(),
            forall|i: int| 0 <= i < m@.len() ==> m@[i] == max_at(ps.take(k as int), p, i),
            forall|i: int| 0 <= i < m@.len() ==> m@[i] >= 0,
            forall|kk: int|
                0 <= kk < k && (#[trigger] ps[kk]).metrics.spec_get(p) is Some
                    ==> ps[kk].metrics.spec_get(p).unwrap().len() <= m@.len(),
            forall|i: int| i >= m@.len() ==> max_at(ps.take(k as int), p, i) == 0,
        decreases ps.len() - k,
    {
        proof {
            assert(ps.take(k + 1).drop_last() =~= ps.take(k as int));
            assert(ps.take(k + 1).last() == ps[k as int]);
        }
        match players[k].metrics.get(p) {
            Some(v) => {
                let ghost m0 = m@;
                let ghost vs = ps[k as int].metrics.spec_get(p).unwrap();
                assert(v@ == vs);
                let mut i: usize = 0;
                while i < v.len()
                    invariant
                        i <= vs.len(),
                        v@ == vs,
                        m@.len() == if i as int > m0.len() {
                            i as int
                        } else {
                            m0.len() as int
                        },
                        forall|ii: int|
                            0 <= ii < i ==> m@[ii] == max_at(ps.take(k + 1), p, ii),
                        forall|ii: int|
                            i <= ii < m@.len() ==> m@[ii] == max_at(ps.take(k as int), p, ii),
                        forall|ii: int| 0 <= ii < m@.len() ==> m@[ii] >= 0,
                        forall|ii: int|
                            ii >= m@.len() && ii >= i ==> max_at(ps.take(k as int), p, ii) == 0,
                    decreases vs.len() - i,
                {
                    let val = v[i];
                    if i < m.len() {
                        if val > m[i] {
                            m.set(i, val);
                        }
                    } else {
                        proof {
                            assert(max_at(ps.take(k as int), p, i as int) == 0);
                        }
                        if val > 0 {
                            m.push(val);
                        } else {
                            m.push(0);
                        }
                    }
                    i += 1;
                }
                proof {
                    assert forall|ii: int| i <= ii < m@.len() implies m@[ii] == max_at(
                        ps.take(k + 1),
                        p,
                        ii,
                    ) by {
                        assert(max_at(ps.take(k + 1), p, ii) == max_at(ps.take(k as int), p, ii));
                    }
                    assert forall|ii: int| ii >= m@.len() implies #[trigger] max_at(
                        ps.take(k + 1),
                        p,
                        ii,
                    ) == 0 by {
                        assert(max_at(ps.take(k + 1), p, ii) == max_at(ps.take(k as int), p, ii));
                    }
                }
            },
            None => {
                proof {
                    assert forall|i: int| 0 <= i implies #[trigger] max_at(ps.take(k + 1), p, i)
                        == max_at(ps.take(k as int), p, i) by {}
                }
            },
        }
        k += 1;
    }
    proof {
        assert(ps.take(ps.len() as int) =~= ps);
    }
    m
}

/// One metric vector rescaled by the position's maxima.
#[verifier::loop_isolation(false)]
fn normalize_vec(v: &Vec<i64>, maxs: &Vec<i64>) -> (r: Vec<i64>)
    requires
        v@.len() <= maxs@.len(),
        forall|i: int| 0 <= i < v@.len() ==> -MAX_RAW_METRIC <= #[trigger] v@[i] <= MAX_RAW_METRIC,
        forall|i: int| 0 <= i < maxs@.len() ==> #[trigger] maxs@[i] >= 0,
    ensures
        r@.len() == v@.len(),
        forall|i: int|
            0 <= i < v@.len() ==> #[trigger] r@[i] == normalize_value(
                v@[i] as int,
                maxs@[i] as int,
            ),
        forall|i: int| 0 <= i < r@.len() ==> -MAX_METRIC <= #[trigger] r@[i] <= MAX_METRIC,
{
    let mut r: Vec<i64> = Vec::new();
    let mut i: usize = 0;
    while i < v.len()
        invariant
            i <= v@.len(),
            r@.len() == i,
            forall|ii: int|
                0 <= ii < i ==> #[trigger] r@[ii] == normalize_value(
                    v@[ii] as int,
                    maxs@[ii] as int,
                ),
            forall|ii: int| 0 <= ii < i ==> -MAX_METRIC <= #[trigger] r@[ii] <= MAX_METRIC,
        decreases v@.len() - i,
    {
        let val = v[i];
        let mm = maxs[i];
        let nv: i64 = if mm > 0 {
            if val >= 0 {
                proof {
                    lemma_div_pos_is_pos(val * 1000, mm as int);
                    lemma_div_nonincreasing(val * 1000, mm as int);
                }
                (val * 1000) / mm
            } else {
                proof {
                    lemma_div_pos_is_pos((-val) * 1000, mm as int);
                    lemma_div_nonincreasing((-val) * 1000, mm as int);
                }
                -(((-val) * 1000) / mm)
            }
        } else {
            0
        };
        r.push(nv);
        i += 1;
    }
    r
}

/// Rescales every metric of every player, per position and metric index,
/// by the largest value observed across all players: in place,
/// population-relative, with zero as the implicit minimum. Names,
/// positions, and the shape of every metric table are unchanged.
#[verifier::loop_isolation(false)]
pub fn normalize_metrics(players: &mut Vec<Player>)
    requires
        players_bounded(old(players)@, MAX_RAW_METRIC as int),
    ensures
        final(players)@.len() == old(players)@.len(),
        forall|k: int|
            0 <= k < old(players)@.len()
                ==> (#[trigger] final(players)@[k]).name == old(players)@[k].name,
        forall|k: int|
            0 <= k < old(players)@.len()
                ==> (#[trigger] final(players)@[k]).positions@ == old(players)@[k].positions@,
        forall|k: int, p: Position|
            0 <= k < old(players)@.len()
                ==> ((#[trigger] final(players)@[k].metrics.spec_get(p)) is Some
                    <==> old(players)@[k].metrics.spec_get(p) is Some),
        forall|k: int, p: Position|
            0 <= k < old(players)@.len() && old(players)@[k].metrics.spec_get(p) is Some
                ==> (#[trigger] final(players)@[k].metrics.spec_get(p)).unwrap().len()
                    == old(players)@[k].metrics.spec_get(p).unwrap().len(),
        forall|k: int, p: Position, i: int|
            0 <= k < old(players)@.len() && old(players)@[k].metrics.spec_get(p) is Some && 0 <= i
                < old(players)@[k].metrics.spec_get(p).unwrap().len()
                ==> #[trigger] final(players)@[k].metrics.spec_get(p).unwrap()[i]
                    == normalize_value(
                    old(players)@[k].metrics.spec_get(p).unwrap()[i] as int,
                    max_at(old(players)@, p, i),
                ),
        players_bounded(final(players)@, MAX_METRIC as int),
{
    let ghost orig = players@;
    let maxc = max_vector(players, Position::Center);
    let maxw = max_vector(players, Position::Wing);
    let maxd = max_vector(players, Position::Defense);
    let mut out: Vec<Player> = Vec::new();
    let mut k: usize = 0;
    while k < players.len()
        invariant
            players@ == orig,
            k <= orig.len(),
            out@.len() == k,
            forall|i: int| 0 <= i < maxc@.len() ==> maxc@[i] == max_at(orig, Position::Center, i),
            forall|i: int| 0 <= i < maxc@.len() ==> maxc@[i] >= 0,
            forall|i: int| i >= maxc@.len() ==> max_at(orig, Position::Center, i) == 0,
            forall|i: int| 0 <= i < maxw@.len() ==> maxw@[i] == max_at(orig, Position::Wing, i),
            forall|i: int| 0 <= i < maxw@.len() ==> maxw@[i] >= 0,
            forall|i: int| i >= maxw@.len() ==> max_at(orig, Position::Wing, i) == 0,
            forall|i: int| 0 <= i < maxd@.len() ==> maxd@[i] == max_at(orig, Position::Defense, i),
            forall|i: int| 0 <= i < maxd@.len() ==> maxd@[i] >= 0,
            forall|i: int| i >= maxd@.len() ==> max_at(orig, Position::Defense, i) == 0,
            forall|kk: int|
                0 <= kk < orig.len() && (#[trigger] orig[kk]).metrics.spec_get(
                    Position::Center,
                ) is Some ==> orig[kk].metrics.spec_get(Position::Center).unwrap().len()
                    <= maxc@.len(),
            forall|kk: int|
                0 <= kk < orig.len() && (#[trigger] orig[kk]).metrics.spec_get(
                    Position::Wing,
                ) is Some ==> orig[kk].metrics.spec_get(Position::Wing).unwrap().len()
                    <= maxw@.len(),
            forall|kk: int|
                0 <= kk < orig.len() && (#[trigger] orig[kk]).metrics.spec_get(
                    Position::Defense,
                ) is Some ==> orig[kk].metrics.spec_get(Position::Defense).unwrap().len()
                    <= maxd@.len(),
            forall|kk: int|
                0 <= kk < k ==> (#[trigger] out@[kk]).name == orig[kk].name,
            forall|kk: int|
                0 <= kk < k ==> (#[trigger] out@[kk]).positions@ == orig[kk].positions@,
            forall|kk: int, p: Position|
                0 <= kk < k ==> ((#[trigger] out@[kk].metrics.spec_get(p)) is Some
                    <==> orig[kk].metrics.spec_get(p) is Some),
            forall|kk: int, p: Position|
                0 <= kk < k && orig[kk].metrics.spec_get(p) is Some
                    ==> (#[trigger] out@[kk].metrics.spec_get(p)).unwrap().len()
                        == orig[kk].metrics.spec_get(p).unwrap().len(),
            forall|kk: int, p: Position, i: int|
                0 <= kk < k && orig[kk].metrics.spec_get(p) is Some && 0 <= i
                    < orig[kk].metrics.spec_get(p).unwrap().len()
                    ==> #[trigger] out@[kk].metrics.spec_get(p).unwrap()[i] == normalize_value(
                    orig[kk].metrics.spec_get(p).unwrap()[i] as int,
                    max_at(orig, p, i),
                ),
            players_bounded(out@, MAX_METRIC as int),
        decreases orig.len() - k,
    {
        let name = players[k].name.clone();
        let positions = players[k].positions.clone();
        proof {
            assert(positions@ =~= orig[k as int].positions@);
        }
        let center = match players[k].metrics.get(Position::Center) {
            Some(v) => Some(normalize_vec(v, &maxc)),
            None => None,
        };
        let wing = match players[k].metrics.get(Position::Wing) {
            Some(v) => Some(normalize_vec(v, &maxw)),
            None => None,
        };
        let defense = match players[k].metrics.get(Position::Defense) {
            Some(v) => Some(normalize_vec(v, &maxd)),
            None => None,
        };
        let np = Player { name, positions, metrics: PositionTable { center, wing, defense } };
        out.push(np);
        k += 1;
    }
    *players = out;
}

} // verus!
