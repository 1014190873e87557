//! A leaderboard from a log of play events.
//!
//! Records of a player id and a score are summed per player
//! ([`set_player_data_map`]), the players are grouped by rounded mean score
//! and ordered ([`set_mean_score_map`]), and the best of them are emitted
//! with competition ranks and rendered as comma-separated text
//! ([`output_ranking`]). [`run`] does all of it.

pub mod cli;
pub mod emit;
pub mod error;
pub mod lexical;
mod means;
pub mod output;
pub mod pipeline;
pub mod players;
pub mod ranking;
pub mod record;
pub mod score;

pub use crate::cli::{parse_args, Args, UsageError};
pub use crate::emit::{emit, RankingValue, LIMIT};
pub use crate::error::RankingError;
pub use crate::output::{output_ranking, render, table, OUTPUT_CSV_HEADER};
pub use crate::pipeline::{decoded_records, run};
pub use crate::players::{set_player_data_map, PlayerDataMap};
pub use crate::ranking::{set_mean_score_map, MeanScoreMap, ScoreGroup};
pub use crate::record::LogValue;
pub use crate::score::{round_mean, ScoreData, TiePolicy, TIE_POLICY};
