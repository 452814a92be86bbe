//! The player registry: rows accumulate into a roster keyed by player
//! name, last row for a name winning, with processed and skipped counts.

use vstd::prelude::*;

use crate::cleaning::RowData;
use crate::cleaning::clean_fields;
use crate::cleaning::clean_fields_spec;
use crate::cleaning::table_matches;
use crate::model::MAX_RAW_METRIC;
use crate::model::Player;
use crate::model::players_bounded;

verus! {

/// One registered player, as spec data: the name and the cleaned row.
pub ghost struct PlayerData {
    pub name: Seq<char>,
    pub row: RowData,
}

/// Whether an executable player holds exactly this spec data.
pub open spec fn player_matches(p: Player, d: PlayerData) -> bool {
    &&& p.name@ == d.name
    &&& p.positions@ == d.row.positions
    &&& table_matches(p.metrics, d.row)
}

/// No two players share a name.
pub open spec fn names_unique(players: Seq<PlayerData>) -> bool {
    forall|i: int, j: int|
        0 <= i < j < players.len() ==> (#[trigger] players[i]).name != (#[trigger] players[j]).name
}

/// The index of the first player with this name, if any.
pub open spec fn find_name(players: Seq<PlayerData>, name: Seq<char>) -> Option<int>
    decreases players.len(),
{
    if players.len() == 0 {
        None
    } else if players[0].name == name {
        Some(0int)
    } else {
        match find_name(players.drop_first(), name) {
            Some(i) => Some(i + 1),
            None => None,
        }
    }
}

/// Where the first player with this name lies, with no earlier match; or
/// nowhere at all.
pub proof fn lemma_find_name(players: Seq<PlayerData>, name: Seq<char>)
    ensures
        match find_name(players, name) {
            Some(i) => 0 <= i < players.len() && players[i].name == name && forall|j: int|
                0 <= j < i ==> (#[trigger] players[j]).name != name,
            None => forall|j: int|
                0 <= j < players.len() ==> (#[trigger] players[j]).name != name,
        },
    decreases players.len(),
{
    if players.len() > 0 && players[0].name != name {
        lemma_find_name(players.drop_first(), name);
        assert forall|j: int| 1 <= j < players.len() implies players[j]
            == players.drop_first()[j - 1] by {}
    }
}

/// A new row registered into the roster: it replaces the player of the
/// same name, or joins as a new player.
pub open spec fn insert_data(players: Seq<PlayerData>, d: PlayerData) -> Seq<PlayerData> {
    match find_name(players, d.name) {
        Some(i) => players.update(i, d),
        None => players.push(d),
    }
}

/// Registering a row keeps names unique.
pub proof fn lemma_insert_unique(players: Seq<PlayerData>, d: PlayerData)
    requires
        names_unique(players),
    ensures
        names_unique(insert_data(players, d)),
{
    lemma_find_name(players, d.name);
}

/// The roster built from a sequence of data rows: the registered players
/// in first-registration order, and how many rows were accepted and
/// rejected.
pub ghost struct BuildState {
    pub players: Seq<PlayerData>,
    pub processed: int,
    pub skipped: int,
}

/// The roster after all data rows, in order: each accepted row registers a
/// player, each rejected row only counts.
pub open spec fn build_state(lines: Seq<Seq<char>>) -> BuildState
    decreases lines.len(),
{
    if lines.len() == 0 {
        BuildState { players: Seq::empty(), processed: 0, skipped: 0 }
    } else {
        let st = build_state(lines.drop_last());
        match clean_fields_spec(lines.last()) {
            Some(nr) => BuildState {
                players: insert_data(
                    st.players,
                    PlayerData { name: nr.0, row: nr.1 },
                ),
                processed: st.processed + 1,
                skipped: st.skipped,
            },
            None => BuildState {
                players: st.players,
                processed: st.processed,
                skipped: st.skipped + 1,
            },
        }
    }
}

/// The built roster always has unique names.
pub proof fn lemma_build_unique(lines: Seq<Seq<char>>)
    ensures
        names_unique(build_state(lines).players),
    decreases lines.len(),
{
    if lines.len() > 0 {
        lemma_build_unique(lines.drop_last());
        match clean_fields_spec(lines.last()) {
            Some(nr) => {
                lemma_insert_unique(
                    build_state(lines.drop_last()).players,
                    PlayerData { name: nr.0, row: nr.1 },
                );
            },
            None => {},
        }
    }
}

/// Every registered player carries the data of some accepted row: one that
/// cleaned successfully, so one with at least the minimum field count. A
/// row with fewer fields never appears in the roster.
pub proof fn lemma_build_sound(lines: Seq<Seq<char>>)
    ensures
        forall|k: int|
            0 <= k < build_state(lines).players.len() ==> exists|i: int|
                0 <= i < lines.len() && clean_fields_spec(#[trigger] lines[i]) is Some
                    && crate::text::fields_of(lines[i]).len() >= crate::cleaning::MIN_FIELDS
                    && #[trigger] build_state(lines).players[k] == (PlayerData {
                    name: clean_fields_spec(lines[i]).unwrap().0,
                    row: clean_fields_spec(lines[i]).unwrap().1,
                }),
    decreases lines.len(),
{
    if lines.len() > 0 {
        lemma_build_sound(lines.drop_last());
        let st = build_state(lines.drop_last());
        let stl = build_state(lines);
        assert forall|k: int| 0 <= k < stl.players.len() implies exists|i: int|
            0 <= i < lines.len() && clean_fields_spec(#[trigger] lines[i]) is Some
                && crate::text::fields_of(lines[i]).len() >= crate::cleaning::MIN_FIELDS
                && #[trigger] stl.players[k] == (PlayerData {
                name: clean_fields_spec(lines[i]).unwrap().0,
                row: clean_fields_spec(lines[i]).unwrap().1,
            }) by {
            match clean_fields_spec(lines.last()) {
                Some(nr) => {
                    let d = PlayerData { name: nr.0, row: nr.1 };
                    lemma_find_name(st.players, d.name);
                    if stl.players[k] == d {
                        assert(lines[lines.len() - 1] == lines.last());
                        assert(clean_fields_spec(lines.last()) is Some);
                    } else {
                        assert(stl.players[k] == st.players[k]);
                        let i = choose|i: int|
                            0 <= i < lines.drop_last().len() && clean_fields_spec(
                                #[trigger] lines.drop_last()[i],
                            ) is Some && crate::text::fields_of(lines.drop_last()[i]).len()
                                >= crate::cleaning::MIN_FIELDS && st.players[k] == (PlayerData {
                                name: clean_fields_spec(lines.drop_last()[i]).unwrap().0,
                                row: clean_fields_spec(lines.drop_last()[i]).unwrap().1,
                            });
                        assert(lines.drop_last()[i] == lines[i]);
                    }
                },
                None => {
                    assert(stl.players[k] == st.players[k]);
                    let i = choose|i: int|
                        0 <= i < lines.drop_last().len() && clean_fields_spec(
                            #[trigger] lines.drop_last()[i],
                        ) is Some && crate::text::fields_of(lines.drop_last()[i]).len()
                            >= crate::cleaning::MIN_FIELDS && st.players[k] == (PlayerData {
                            name: clean_fields_spec(lines.drop_last()[i]).unwrap().0,
                            row: clean_fields_spec(lines.drop_last()[i]).unwrap().1,
                        });
                    assert(lines.drop_last()[i] == lines[i]);
                },
            }
        }
    }
}

/// The data rows of a file's lines: everything after the one header line.
pub open spec fn data_lines(lines: Seq<String>) -> Seq<Seq<char>> {
    if lines.len() == 0 {
        Seq::empty()
    } else {
        lines.drop_first().map(|k: int, l: String| l@)
    }
}

/// What processing a file's lines yields.
pub open spec fn build_of(lines: Seq<String>) -> BuildState {
    build_state(data_lines(lines))
}

/// The player registry of one run: the registered players and the
/// processed and skipped row counts.
pub struct Roster {
    pub players: Vec<Player>,
    pub processed: usize,
    pub skipped: usize,
}

impl Roster {
    /// Whether this roster holds exactly the players and counts of a
    /// built state.
    pub open spec fn matches(self, st: BuildState) -> bool {
        &&& self.players@.len() == st.players.len()
        &&& forall|k: int|
            0 <= k < st.players.len() ==> player_matches(
                #[trigger] self.players@[k],
                st.players[k],
            )
        &&& self.processed == st.processed
        &&& self.skipped == st.skipped
    }
}

/// Registers one cleaned row: replaces the player of the same name, or
/// pushes a new one.
#[verifier::loop_isolation(false)]
fn insert_player(
    players: &mut Vec<Player>,
    p: Player,
    Ghost(data): Ghost<Seq<PlayerData>>,
    Ghost(d): Ghost<PlayerData>,
)
    requires
        old(players)@.len() == data.len(),
        forall|k: int| 0 <= k < data.len() ==> player_matches(#[trigger] old(players)@[k], data[k]),
        player_matches(p, d),
    ensures
        final(players)@.len() == insert_data(data, d).len(),
        forall|k: int|
            0 <= k < insert_data(data, d).len() ==> player_matches(
                #[trigger] final(players)@[k],
                insert_data(data, d)[k],
            ),
        players_bounded(old(players)@, MAX_RAW_METRIC as int) && p.bounded(MAX_RAW_METRIC as int)
            ==> players_bounded(final(players)@, MAX_RAW_METRIC as int),
{
    proof {
        lemma_find_name(data, d.name);
    }
    let n = players.len();
    let mut j: usize = 0;
    while j < n
        invariant
            j <= n,
            players@ == old(players)@,
            forall|jj: int| 0 <= jj < j ==> (#[trigger] data[jj]).name != d.name,
        decreases n - j,
    {
        if players[j].name == p.name {
            proof {
                assert(data[j as int].name == d.name);
                match find_name(data, d.name) {
                    Some(fi) => {
                        if fi < j {
                            assert(data[fi].name != d.name);
                        }
                        assert(fi == j as int);
                    },
                    None => {
                        assert(data[j as int].name != d.name);
                    },
                }
                assert(find_name(data, d.name) == Some(j as int));
            }
            players.remove(j);
            players.insert(j, p);
            proof {
                assert(players@ =~= old(players)@.update(j as int, p));
            }
            return ;
        }
        j += 1;
    }
    players.push(p);
}

/// Processes a file's lines into a roster: skips the one header line, then
/// registers each row that cleans, last row for a name winning, counting
/// accepted and rejected rows.
#[verifier::loop_isolation(false)]
pub fn process_lines(lines: &Vec<String>) -> (r: Roster)
    ensures
        r.matches(build_of(lines@)),
        names_unique_players(r.players@),
        players_bounded(r.players@, MAX_RAW_METRIC as int),
{
    proof {
        lemma_build_unique(data_lines(lines@));
    }
    let ghost tail = data_lines(lines@);
    let mut players: Vec<Player> = Vec::new();
    let mut processed: usize = 0;
    let mut skipped: usize = 0;
    let n = lines.len();
    if n == 0 {
        return Roster { players, processed, skipped };
    }
    let mut i: usize = 1;
    proof {
        assert(tail.take(0) =~= Seq::<Seq<char>>::empty());
    }
    while i < n
        invariant
            1 <= i <= n,
            n == lines@.len(),
            tail == data_lines(lines@),
            tail.len() == n - 1,
            forall|k: int| 0 <= k < tail.len() ==> tail[k] == (#[trigger] lines@[k + 1])@,
            players@.len() == build_state(tail.take(i - 1)).players.len(),
            forall|k: int|
                0 <= k < players@.len() ==> player_matches(
                    #[trigger] players@[k],
                    build_state(tail.take(i - 1)).players[k],
                ),
            processed == build_state(tail.take(i - 1)).processed,
            skipped == build_state(tail.take(i - 1)).skipped,
            processed + skipped == i - 1,
            players_bounded(players@, MAX_RAW_METRIC as int),
        decreases n - i,
    {
        let ghost st = build_state(tail.take(i - 1));
        proof {
            assert(tail.take(i as int).drop_last() =~= tail.take(i - 1));
            assert(tail.take(i as int).last() == tail[i - 1]);
            assert(tail[i - 1] == lines@[i as int]@);
        }
        let line = &lines[i];
        match clean_fields(line.as_str()) {
            Some((name, positions, table)) => {
                let ghost nr = clean_fields_spec(tail[i - 1]).unwrap();
                let p = Player { name, positions, metrics: table };
                insert_player(
                    &mut players,
                    p,
                    Ghost(st.players),
                    Ghost(PlayerData { name: nr.0, row: nr.1 }),
                );
                processed += 1;
            },
            None => {
                skipped += 1;
            },
        }
        i += 1;
    }
    proof {
        assert(tail.take(n - 1) =~= tail);
    }
    Roster { players, processed, skipped }
}

/// No two players of an executable roster share a name.
pub open spec fn names_unique_players(players: Seq<Player>) -> bool {
    forall|i: int, j: int|
        0 <= i < j < players.len() ==> (#[trigger] players[i]).name@ != (#[trigger] players[j]).name@
}

} // verus!
