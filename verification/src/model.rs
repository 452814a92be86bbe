//! The data model: positions, per-position metric tables, and players.

use vstd::prelude::*;

verus! {

/// A canonical playing position. A slash-separated position code such as
/// `"L/R"` maps each token to one of these: `"C"` to `Center`, `"L"` and
/// `"R"` to `Wing`, `"D"` to `Defense`.
#[derive(Clone, Copy, Debug, PartialEq, Eq, Hash, Structural)]
pub enum Position {
    Center,
    Wing,
    Defense,
}

/// Largest magnitude a raw (pre-normalization) metric may have, in
/// thousandths: one billion whole units. A parsed numeral beyond this takes
/// the default value instead.
pub const MAX_RAW_METRIC: i64 = 1_000_000_000_000;

/// Largest magnitude any metric handled by the scorer may have: a raw value
/// scaled by a factor of one thousand and divided by a positive maximum.
pub const MAX_METRIC: i64 = 1_000_000_000_000_000;

/// The per-position metric vectors of one player: at most one vector for
/// each canonical position.
pub struct PositionTable {
    pub center: Option<Vec<i64>>,
    pub wing: Option<Vec<i64>>,
    pub defense: Option<Vec<i64>>,
}

impl PositionTable {
    /// The metric vector stored for a position, as a sequence.
    pub open spec fn spec_get(self, p: Position) -> Option<Seq<i64>> {
        match p {
            Position::Center => match self.center {
                Some(v) => Some(v@),
                None => None,
            },
            Position::Wing => match self.wing {
                Some(v) => Some(v@),
                None => None,
            },
            Position::Defense => match self.defense {
                Some(v) => Some(v@),
                None => None,
            },
        }
    }

    /// Every stored metric is at most `bound` in magnitude.
    pub open spec fn bounded(self, bound: int) -> bool {
        forall|p: Position, i: int|
            #![trigger self.spec_get(p).unwrap()[i]]
            self.spec_get(p) is Some && 0 <= i < self.spec_get(p).unwrap().len()
                ==> -bound <= self.spec_get(p).unwrap()[i] <= bound
    }

    /// An empty table, with no vector for any position.
    pub fn new() -> (t: Self)
        ensures
            forall|p: Position| t.spec_get(p) is None,
    {
        PositionTable { center: None, wing: None, defense: None }
    }

    /// The metric vector stored for a position, if any.
    pub fn get(&self, p: Position) -> (r: Option<&Vec<i64>>)
        ensures
            match r {
                Some(v) => self.spec_get(p) == Some(v@),
                None => self.spec_get(p) is None,
            },
    {
        match p {
            Position::Center => self.center.as_ref(),
            Position::Wing => self.wing.as_ref(),
            Position::Defense => self.defense.as_ref(),
        }
    }

    /// Whether a vector is stored for a position.
    pub fn contains(&self, p: Position) -> (r: bool)
        ensures
            r == self.spec_get(p) is Some,
    {
        self.get(p).is_some()
    }

    /// Stores a vector for a position, replacing any earlier one.
    pub fn set(&mut self, p: Position, v: Vec<i64>)
        ensures
            final(self).spec_get(p) == Some(v@),
            forall|q: Position| q != p ==> final(self).spec_get(q) == old(self).spec_get(q),
    {
        match p {
            Position::Center => {
                self.center = Some(v);
            },
            Position::Wing => {
                self.wing = Some(v);
            },
            Position::Defense => {
                self.defense = Some(v);
            },
        }
    }

    /// Appends values to the wing vector, starting one if none is stored:
    /// the within-row extend policy for dual `"L/R"` rows.
    pub fn extend_wing(&mut self, mut v: Vec<i64>)
        ensures
            final(self).spec_get(Position::Wing) == Some(
                match old(self).spec_get(Position::Wing) {
                    Some(w) => w + v@,
                    None => v@,
                },
            ),
            forall|q: Position|
                q != Position::Wing ==> final(self).spec_get(q) == old(self).spec_get(q),
    {
        match self.wing.take() {
            Some(mut w) => {
                w.append(&mut v);
                self.wing = Some(w);
            },
            None => {
                self.wing = Some(v);
            },
        }
    }
}

/// One player: a unique name, the positions the player is eligible for (a
/// dual-wing row lists `Wing` twice), and a metric vector per position.
pub struct Player {
    pub name: String,
    pub positions: Vec<Position>,
    pub metrics: PositionTable,
}

impl Player {
    /// Every metric of the player is at most `bound` in magnitude.
    pub open spec fn bounded(self, bound: int) -> bool {
        self.metrics.bounded(bound)
    }
}

/// Every metric of every player is at most `bound` in magnitude.
pub open spec fn players_bounded(players: Seq<Player>, bound: int) -> bool {
    forall|k: int| 0 <= k < players.len() ==> (#[trigger] players[k]).bounded(bound)
}

} // verus!
