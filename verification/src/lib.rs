//! Texas hold'em hand evaluation and exhaustive equity computation.
//!
//! A card is a suit and a rank packed into one byte. Seven cards are ranked by
//! the best five-card poker hand they contain, and the equity of a set of
//! starting hands is found by ranking them on every board that the rest of
//! the deck can deal.

pub mod card;
pub mod combinations;
pub mod deck;
pub mod equity;
pub mod evaluation;
pub mod evaluator;
pub mod facts;
pub mod hand;
pub mod ranks;

pub use card::{Card, Number, Suit};
pub use equity::{compute_equity, compute_result, ComputeResult, EquityResult, InvalidInput};
pub use evaluation::{HandEvaluation, HandKind};
pub use evaluator::{check_for_straight, evaluate_hand};
