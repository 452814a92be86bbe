//! Row cleaning: splitting a raw row into fields, validating it, and
//! extracting per-position metric vectors.
//!
//! A row is rejected when it has fewer than 34 fields, when its name or
//! position field is empty, or when its position code holds a token other
//! than `"C"`, `"L"`, `"R"` or `"D"`. Each token of the slash-separated
//! position code extracts a five-metric vector from fixed column indices;
//! `"C"` and `"D"` vectors overwrite an earlier one from the same row,
//! while `"L"` and `"R"` vectors extend it, so a dual `"L/R"` row
//! accumulates a ten-value wing vector.

use vstd::prelude::*;

use crate::fixed::parse_or_default;
use crate::fixed::parse_or_default_spec;
use crate::model::MAX_RAW_METRIC;
use crate::model::Position;
use crate::model::PositionTable;
use crate::text::chars_of;
use crate::text::chars_to_string;
use crate::text::fields_of;
use crate::text::split_fields;
use crate::text::split_on;
use crate::text::split_raw;

verus! {

/// How many fields a row must have at least.
pub const MIN_FIELDS: usize = 34;

/// What one cleaned row yields: the positions in token order (a dual-wing
/// row lists `Wing` twice) and at most one metric vector per position.
pub ghost struct RowData {
    pub positions: Seq<Position>,
    pub center: Option<Seq<i64>>,
    pub wing: Option<Seq<i64>>,
    pub defense: Option<Seq<i64>>,
}

/// Whether an executable table holds exactly the vectors of a cleaned row.
pub open spec fn table_matches(t: PositionTable, row: RowData) -> bool {
    &&& t.spec_get(Position::Center) == row.center
    &&& t.spec_get(Position::Wing) == row.wing
    &&& t.spec_get(Position::Defense) == row.defense
}

/// The metric vector of a `"C"` token: faceoff percentage, total points,
/// takeaways, first assists, and points share, from fixed column indices.
pub open spec fn center_metrics_spec(fields: Seq<Seq<char>>) -> Seq<i64> {
    seq![
        parse_or_default_spec(fields[33]) as i64,
        parse_or_default_spec(fields[9]) as i64,
        parse_or_default_spec(fields[27]) as i64,
        parse_or_default_spec(fields[7]) as i64,
        parse_or_default_spec(fields[10]) as i64,
    ]
}

/// The metric vector of an `"L"` or `"R"` token: goals, shooting
/// percentage, rush attempts, total points, and hits.
pub open spec fn wing_metrics_spec(fields: Seq<Seq<char>>) -> Seq<i64> {
    seq![
        parse_or_default_spec(fields[5]) as i64,
        parse_or_default_spec(fields[12]) as i64,
        parse_or_default_spec(fields[18]) as i64,
        parse_or_default_spec(fields[9]) as i64,
        parse_or_default_spec(fields[28]) as i64,
    ]
}

/// The metric vector of a `"D"` token: hits, shots blocked, takeaways,
/// total points, and rush attempts.
pub open spec fn defense_metrics_spec(fields: Seq<Seq<char>>) -> Seq<i64> {
    seq![
        parse_or_default_spec(fields[28]) as i64,
        parse_or_default_spec(fields[30]) as i64,
        parse_or_default_spec(fields[27]) as i64,
        parse_or_default_spec(fields[9]) as i64,
        parse_or_default_spec(fields[18]) as i64,
    ]
}

/// The position a single token classifies to, if any.
pub open spec fn classify_token(t: Seq<char>) -> Option<Position> {
    if t.len() == 1 && t[0] == 'C' {
        Some(Position::Center)
    } else if t.len() == 1 && (t[0] == 'L' || t[0] == 'R') {
        Some(Position::Wing)
    } else if t.len() == 1 && t[0] == 'D' {
        Some(Position::Defense)
    } else {
        None
    }
}

/// The row data after one more token, or rejection on an invalid token.
pub open spec fn apply_token(row: RowData, t: Seq<char>, fields: Seq<Seq<char>>) -> Option<
    RowData,
> {
    match classify_token(t) {
        Some(Position::Center) => Some(
            RowData {
                positions: row.positions.push(Position::Center),
                center: Some(center_metrics_spec(fields)),
                wing: row.wing,
                defense: row.defense,
            },
        ),
        Some(Position::Wing) => Some(
            RowData {
                positions: row.positions.push(Position::Wing),
                center: row.center,
                wing: Some(
                    match row.wing {
                        Some(w) => w + wing_metrics_spec(fields),
                        None => wing_metrics_spec(fields),
                    },
                ),
                defense: row.defense,
            },
        ),
        Some(Position::Defense) => Some(
            RowData {
                positions: row.positions.push(Position::Defense),
                center: row.center,
                wing: row.wing,
                defense: Some(defense_metrics_spec(fields)),
            },
        ),
        None => None,
    }
}

/// The row data after all tokens, left to right; `None` as soon as any
/// token is invalid.
pub open spec fn scan_tokens(tokens: Seq<Seq<char>>, fields: Seq<Seq<char>>) -> Option<RowData>
    decreases tokens.len(),
{
    if tokens.len() == 0 {
        Some(RowData { positions: Seq::empty(), center: None, wing: None, defense: None })
    } else {
        match scan_tokens(tokens.drop_last(), fields) {
            Some(row) => apply_token(row, tokens.last(), fields),
            None => None,
        }
    }
}

/// What cleaning one raw row yields: the player name and the row data, or
/// `None` when the row is rejected.
pub open spec fn clean_fields_spec(line: Seq<char>) -> Option<(Seq<char>, RowData)> {
    let fields = fields_of(line);
    if fields.len() < MIN_FIELDS {
        None
    } else if fields[1].len() == 0 || fields[2].len() == 0 {
        None
    } else {
        match scan_tokens(split_on(fields[2], '/'), fields) {
            Some(row) => Some((fields[1], row)),
            None => None,
        }
    }
}

/// Once a token prefix is rejected, the whole token list is.
pub proof fn lemma_scan_none(tokens: Seq<Seq<char>>, fields: Seq<Seq<char>>, m: int)
    requires
        0 <= m <= tokens.len(),
        scan_tokens(tokens.take(m), fields) is None,
    ensures
        scan_tokens(tokens, fields) is None,
    decreases tokens.len() - m,
{
    if m < tokens.len() {
        assert(tokens.take(m + 1).drop_last() =~= tokens.take(m));
        lemma_scan_none(tokens, fields, m + 1);
    } else {
        assert(tokens.take(m) =~= tokens);
    }
}

/// The five metrics of a `"C"` token, parsed from their columns.
fn extract_center(fields: &Vec<Vec<char>>, Ghost(flds): Ghost<Seq<Seq<char>>>) -> (r: Vec<i64>)
    requires
        fields@.len() >= 34,
        flds.len() == fields@.len(),
        forall|k: int| 0 <= k < fields@.len() ==> #[trigger] fields@[k]@ == flds[k],
    ensures
        r@ == center_metrics_spec(flds),
        forall|i: int| 0 <= i < r@.len() ==> -MAX_RAW_METRIC <= #[trigger] r@[i] <= MAX_RAW_METRIC,
{
    let mut r: Vec<i64> = Vec::new();
    r.push(parse_or_default(&fields[33]));
    r.push(parse_or_default(&fields[9]));
    r.push(parse_or_default(&fields[27]));
    r.push(parse_or_default(&fields[7]));
    r.push(parse_or_default(&fields[10]));
    proof {
        assert(r@ =~= center_metrics_spec(flds));
    }
    r
}

/// The five metrics of an `"L"` or `"R"` token, parsed from their columns.
fn extract_wing(fields: &Vec<Vec<char>>, Ghost(flds): Ghost<Seq<Seq<char>>>) -> (r: Vec<i64>)
    requires
        fields@.len() >= 34,
        flds.len() == fields@.len(),
        forall|k: int| 0 <= k < fields@.len() ==> #[trigger] fields@[k]@ == flds[k],
    ensures
        r@ == wing_metrics_spec(flds),
        forall|i: int| 0 <= i < r@.len() ==> -MAX_RAW_METRIC <= #[trigger] r@[i] <= MAX_RAW_METRIC,
{
    let mut r: Vec<i64> = Vec::new();
    r.push(parse_or_default(&fields[5]));
    r.push(parse_or_default(&fields[12]));
    r.push(parse_or_default(&fields[18]));
    r.push(parse_or_default(&fields[9]));
    r.push(parse_or_default(&fields[28]));
    proof {
        assert(r@ =~= wing_metrics_spec(flds));
    }
    r
}

/// The five metrics of a `"D"` token, parsed from their columns.
fn extract_defense(fields: &Vec<Vec<char>>, Ghost(flds): Ghost<Seq<Seq<char>>>) -> (r: Vec<i64>)
    requires
        fields@.len() >= 34,
        flds.len() == fields@.len(),
        forall|k: int| 0 <= k < fields@.len() ==> #[trigger] fields@[k]@ == flds[k],
    ensures
        r@ == defense_metrics_spec(flds),
        forall|i: int| 0 <= i < r@.len() ==> -MAX_RAW_METRIC <= #[trigger] r@[i] <= MAX_RAW_METRIC,
{
    let mut r: Vec<i64> = Vec::new();
    r.push(parse_or_default(&fields[28]));
    r.push(parse_or_default(&fields[30]));
    r.push(parse_or_default(&fields[27]));
    r.push(parse_or_default(&fields[9]));
    r.push(parse_or_default(&fields[18]));
    proof {
        assert(r@ =~= defense_metrics_spec(flds));
    }
    r
}

/// Cleans one raw row: splits it on commas, trims and unquotes each field,
/// validates the field count, name and position code, and extracts one
/// metric vector per position token. Returns the player name, the
/// positions in token order, and the metric table, or `None` exactly when
/// the row is rejected.
#[verifier::loop_isolation(false)]
pub fn clean_fields(line: &str) -> (r: Option<(String, Vec<Position>, PositionTable)>)
    ensures
        match clean_fields_spec(line@) {
            Some(row) => {
                &&& r is Some
                &&& r.unwrap().0@ == row.0
                &&& r.unwrap().1@ == row.1.positions
                &&& table_matches(r.unwrap().2, row.1)
                &&& r.unwrap().2.bounded(MAX_RAW_METRIC as int)
            },
            None => r is None,
        },
{
    let chars = chars_of(line);
    let fields = split_fields(&chars);
    let ghost flds = fields_of(line@);
    if fields.len() < MIN_FIELDS {
        return None;
    }
    let name_len = fields[1].len();
    let pos_len = fields[2].len();
    if name_len == 0 || pos_len == 0 {
        return None;
    }
    let name = chars_to_string(&fields[1]);
    let tokens = split_raw(&fields[2], '/');
    let ghost toks = split_on(flds[2], '/');
    let mut positions: Vec<Position> = Vec::new();
    let mut table = PositionTable::new();
    let mut k: usize = 0;
    proof {
        assert(toks.take(0) =~= Seq::<Seq<char>>::empty());
    }
    while k < tokens.len()
        invariant
            k <= tokens@.len(),
            tokens@.len() == toks.len(),
            forall|j: int| 0 <= j < toks.len() ==> #[trigger] tokens@[j]@ == toks[j],
            table.bounded(MAX_RAW_METRIC as int),
            match scan_tokens(toks.take(k as int), flds) {
                Some(row) => positions@ == row.positions && table_matches(table, row),
                None => false,
            },
        decreases tokens@.len() - k,
    {
        let t = &tokens[k];
        let ghost row = scan_tokens(toks.take(k as int), flds).unwrap();
        proof {
            assert(toks.take(k + 1).drop_last() =~= toks.take(k as int));
            assert(toks.take(k + 1).last() == toks[k as int]);
        }
        if t.len() == 1 && t[0] == 'C' {
            assert(classify_token(toks[k as int]) == Some(Position::Center));
            positions.push(Position::Center);
            let v = extract_center(&fields, Ghost(flds));
            table.set(Position::Center, v);
        } else if t.len() == 1 && (t[0] == 'L' || t[0] == 'R') {
            assert(classify_token(toks[k as int]) == Some(Position::Wing));
            positions.push(Position::Wing);
            let v = extract_wing(&fields, Ghost(flds));
            table.extend_wing(v);
        } else if t.len() == 1 && t[0] == 'D' {
            assert(classify_token(toks[k as int]) == Some(Position::Defense));
            positions.push(Position::Defense);
            let v = extract_defense(&fields, Ghost(flds));
            table.set(Position::Defense, v);
        } else {
            // An unknown position token rejects the whole row.
            proof {
                assert(classify_token(toks[k as int]) is None) by {
                    assert(t@ == toks[k as int]);
                }
                assert(scan_tokens(toks.take(k + 1), flds) is None);
                lemma_scan_none(toks, flds, k + 1);
            }
            return None;
        }
        k += 1;
    }
    proof {
        assert(toks.take(toks.len() as int) =~= toks);
    }
    Some((name, positions, table))
}

/// A valid row whose position code is exactly `"C"` classifies to the one
/// position `Center`, with a five-metric center vector and nothing else.
pub proof fn lemma_center_row(line: Seq<char>)
    requires
        fields_of(line).len() >= MIN_FIELDS,
        fields_of(line)[1].len() > 0,
        fields_of(line)[2] == seq!['C'],
    ensures
        clean_fields_spec(line) is Some,
        clean_fields_spec(line).unwrap().1.positions == seq![Position::Center],
        clean_fields_spec(line).unwrap().1.center == Some(
            center_metrics_spec(fields_of(line)),
        ),
        clean_fields_spec(line).unwrap().1.center.unwrap().len() == 5,
        clean_fields_spec(line).unwrap().1.wing is None,
        clean_fields_spec(line).unwrap().1.defense is None,
{
    let fields = fields_of(line);
    let pos = fields[2];
    lemma_single_token(pos, '/');
    let toks = split_on(pos, '/');
    assert(toks == seq![pos]);
    assert(toks.drop_last() =~= Seq::<Seq<char>>::empty());
    assert(scan_tokens(toks.drop_last(), fields) is Some);
    assert(classify_token(pos) == Some(Position::Center));
}

/// A one-character token other than the separator splits into itself.
proof fn lemma_single_token(t: Seq<char>, sep: char)
    requires
        t.len() == 1,
        t[0] != sep,
    ensures
        split_on(t, sep) == seq![t],
{
    crate::fixed::lemma_find_char(t, sep);
}

/// A valid row whose position code is exactly `"L"` or exactly `"R"`
/// classifies to the one position `Wing`, with a five-metric wing vector.
pub proof fn lemma_single_wing_row(line: Seq<char>)
    requires
        fields_of(line).len() >= MIN_FIELDS,
        fields_of(line)[1].len() > 0,
        fields_of(line)[2] == seq!['L'] || fields_of(line)[2] == seq!['R'],
    ensures
        clean_fields_spec(line) is Some,
        clean_fields_spec(line).unwrap().1.positions == seq![Position::Wing],
        clean_fields_spec(line).unwrap().1.wing == Some(wing_metrics_spec(fields_of(line))),
        clean_fields_spec(line).unwrap().1.wing.unwrap().len() == 5,
{
    let fields = fields_of(line);
    let pos = fields[2];
    lemma_single_token(pos, '/');
    let toks = split_on(pos, '/');
    assert(toks == seq![pos]);
    assert(toks.drop_last() =~= Seq::<Seq<char>>::empty());
    assert(scan_tokens(toks.drop_last(), fields) is Some);
    assert(classify_token(pos) == Some(Position::Wing));
    assert(scan_tokens(toks, fields).unwrap().positions =~= seq![Position::Wing]);
}

/// A valid dual-wing row, position code exactly `"L/R"`, classifies to
/// `Wing` twice and accumulates a ten-value wing vector: the two
/// five-metric wing extracts appended in token order.
pub proof fn lemma_dual_wing_row(line: Seq<char>)
    requires
        fields_of(line).len() >= MIN_FIELDS,
        fields_of(line)[1].len() > 0,
        fields_of(line)[2] == seq!['L', '/', 'R'],
    ensures
        clean_fields_spec(line) is Some,
        clean_fields_spec(line).unwrap().1.positions == seq![Position::Wing, Position::Wing],
        clean_fields_spec(line).unwrap().1.wing == Some(
            wing_metrics_spec(fields_of(line)) + wing_metrics_spec(fields_of(line)),
        ),
        clean_fields_spec(line).unwrap().1.wing.unwrap().len() == 10,
{
    let fields = fields_of(line);
    let pos = fields[2];
    crate::fixed::lemma_find_char(pos, '/');
    let fc = crate::fixed::find_char(pos, '/');
    assert(fc == Some(1int)) by {
        match fc {
            Some(i) => {
                assert(pos[1] == '/');
                if i < 1 {
                    assert(pos[0] != '/');
                }
            },
            None => {
                assert(pos[1] == '/');
            },
        }
    }
    let rest = pos.skip(2);
    assert(rest =~= seq!['R']);
    lemma_single_token(rest, '/');
    let toks = split_on(pos, '/');
    assert(toks == seq![pos.take(1)] + split_on(rest, '/'));
    assert(pos.take(1) =~= seq!['L']);
    assert(toks.len() == 2);
    assert(toks[0] == seq!['L'] && toks[1] == seq!['R']);
    assert(toks.drop_last().drop_last() =~= Seq::<Seq<char>>::empty());
    assert(toks.drop_last() =~= seq![seq!['L']]);
    assert(toks.drop_last().last() == seq!['L']);
    assert(classify_token(seq!['L']) == Some(Position::Wing));
    assert(classify_token(seq!['R']) == Some(Position::Wing));
    assert(scan_tokens(toks.drop_last().drop_last(), fields) is Some);
    assert(scan_tokens(toks.drop_last(), fields) is Some);
    let row1 = scan_tokens(toks.drop_last(), fields).unwrap();
    assert(row1.positions =~= seq![Position::Wing]);
    assert(row1.wing == Some(wing_metrics_spec(fields)));
    assert(scan_tokens(toks, fields) == apply_token(row1, seq!['R'], fields));
    let row2 = scan_tokens(toks, fields).unwrap();
    assert(row2.positions =~= seq![Position::Wing, Position::Wing]);
}

/// A row with fewer than 34 fields is always rejected.
pub proof fn lemma_short_row_rejected(line: Seq<char>)
    requires
        fields_of(line).len() < MIN_FIELDS,
    ensures
        clean_fields_spec(line) is None,
{
}

} // verus!
