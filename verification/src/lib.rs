//! Season-long hockey player statistics: row cleaning, per-position metric
//! extraction, population-relative normalization, weighted logistic scoring,
//! and a ranked, queryable leaderboard.
//!
//! Metric values are fixed-point numbers with three decimal places: the
//! stored integer is the value in thousandths, so `7.5` is stored as `7500`.
//! Scores are fixed-point numbers with two decimal places in `[0, 10000]`,
//! so a score of `50.00` is stored as `5000`.

pub mod cleaning;
pub mod fixed;
pub mod model;
pub mod normalize;
pub mod rank;
pub mod roster;
pub mod score;
pub mod text;
