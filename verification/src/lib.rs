//! Exact poker equities by exhaustive enumeration of the community cards.
//!
//! Given the hole cards of every player, the community cards that are
//! known and the cards that are dead, the library visits every way to
//! complete the board from the cards that are left, scores every player on
//! every completed board with the caller's hand-strength scorer, and reports
//! how many boards each player wins, loses and ties, together with the
//! runouts that would make a trailing player the only winner.
//!
//! - [`cards`]: card identifiers, card notation and the deck.
//! - [`runout`]: the enumeration of the ways to complete the board.
//! - [`outcome`]: who wins, ties and loses on one board, and the counts.
//! - [`deal`]: what an enumeration works on, and what is asked of the scorer.
//! - [`report`]: the record that is made out for each player.
//! - [`equity`]: the three entry points.

pub mod cards;
pub mod deal;
pub mod equity;
pub mod outcome;
pub mod report;
pub mod runout;

pub use cards::{build_deck, card_id_to_string, parse_card_ids, ParseError};
pub use equity::{equities, evaluate_players, flop_equities, preflop_equities};
pub use outcome::{classify, compute_outcomes, Outcome};
pub use report::{PlayerEquity, Rate};
pub use runout::Combinations;
